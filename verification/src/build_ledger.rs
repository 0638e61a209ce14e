//! Learning the ledger from a text in one pass.

use crate::ledger_policies::{
    lemma_cleanup_makes_room, pruning_removes, LedgerPolicy, LimitLedgerSize,
};
use crate::substring::{to_chars, Substring, SubstringCount};
use crate::substring_ledger::{increment_result, lemma_increment_monotone, SubstringLedger};
use crate::trie::{lemma_best_len, longest_prefix_len};
use vstd::prelude::*;

verus! {

/// The longest counted text that is a prefix of `text`, with its count.
pub open spec fn longest_match(counts: Map<Seq<char>, usize>, text: Seq<char>) -> Option<
    (Seq<char>, usize),
> {
    let k = longest_prefix_len(counts.dom(), text);
    if 0 < k <= text.len() {
        Some((text.take(k as int), counts[text.take(k as int)]))
    } else {
        None
    }
}

/// What follows the count of the match `first`: the longest match in
/// the rest of the text is looked up and kept for the next step; where
/// the policy lets the two merge, their concatenation is counted, and
/// the match is kept only if it is still in the ledger.
pub open spec fn merged<LP: LedgerPolicy>(
    policy: LP,
    first: (Seq<char>, usize),
    counts: Map<Seq<char>, usize>,
    rest: Seq<char>,
    counts_after: Map<Seq<char>, usize>,
    carry_after: Option<(Seq<char>, usize)>,
) -> bool {
    match longest_match(counts, rest) {
        None => counts_after == counts && carry_after is None,
        Some(follow) => {
            ||| {
                &&& policy.merge_outcome(first.1, follow.1, counts, true)
                &&& increment_result(policy, counts, first.0 + follow.0, counts_after)
                &&& carry_after == (if counts_after.contains_key(follow.0) {
                    Some(follow)
                } else {
                    None
                })
            }
            ||| {
                &&& policy.merge_outcome(first.1, follow.1, counts, false)
                &&& counts_after == counts
                &&& carry_after == Some(follow)
            }
        },
    }
}

/// A step that starts from the match `first`: the match is counted, the
/// text is read past it, and what `merged` describes follows.
pub open spec fn stepped_past<LP: LedgerPolicy>(
    policy: LP,
    tail: Seq<char>,
    counts: Map<Seq<char>, usize>,
    first: (Seq<char>, usize),
    tail_after: Seq<char>,
    counts_after: Map<Seq<char>, usize>,
    carry_after: Option<(Seq<char>, usize)>,
) -> bool {
    &&& tail_after == tail.skip(first.0.len() as int)
    &&& exists|mid: Map<Seq<char>, usize>| #[trigger]
        increment_result(policy, counts, first.0, mid) && merged(
            policy,
            first,
            mid,
            tail_after,
            counts_after,
            carry_after,
        )
}

/// One step of learning, from the text still to read, the counts and
/// the match kept from the step before, to the same three afterwards.
pub open spec fn stepped<LP: LedgerPolicy>(
    policy: LP,
    tail: Seq<char>,
    counts: Map<Seq<char>, usize>,
    carry: Option<(Seq<char>, usize)>,
    tail_after: Seq<char>,
    counts_after: Map<Seq<char>, usize>,
    carry_after: Option<(Seq<char>, usize)>,
) -> bool {
    if tail.len() == 0 {
        tail_after == tail && counts_after == counts && carry_after is None
    } else {
        let found = if carry is Some {
            carry
        } else {
            longest_match(counts, tail)
        };
        match found {
            Some(first) => stepped_past(
                policy,
                tail,
                counts,
                first,
                tail_after,
                counts_after,
                carry_after,
            ),
            None => {
                &&& tail_after == tail.skip(1)
                &&& increment_result(policy, counts, seq![tail[0]], counts_after)
                &&& carry_after is None
            },
        }
    }
}

/// The match kept from one step to the next is a counted text that the
/// text still to read begins with.
pub open spec fn carry_fits(
    tail: Seq<char>,
    counts: Map<Seq<char>, usize>,
    carry: Option<(Seq<char>, usize)>,
) -> bool {
    match carry {
        Some(kept) => kept.0.len() > 0 && kept.0.is_prefix_of(tail) && counts.contains_key(kept.0),
        None => true,
    }
}

/// Steps taken until the text is read to its end lead from the given
/// state to the counts `counts_end`.
pub open spec fn runs<LP: LedgerPolicy>(
    policy: LP,
    tail: Seq<char>,
    counts: Map<Seq<char>, usize>,
    carry: Option<(Seq<char>, usize)>,
    counts_end: Map<Seq<char>, usize>,
) -> bool
    decreases tail.len(),
{
    if tail.len() == 0 {
        counts_end == counts
    } else {
        exists|tail_after: Seq<char>, counts_after: Map<Seq<char>, usize>, carry_after: Option<(Seq<char>, usize)>|
            #![trigger stepped(policy, tail, counts, carry, tail_after, counts_after, carry_after)]
            tail_after.len() < tail.len() && stepped(
                policy,
                tail,
                counts,
                carry,
                tail_after,
                counts_after,
                carry_after,
            ) && carry_fits(tail_after, counts_after, carry_after) && runs(
                policy,
                tail_after,
                counts_after,
                carry_after,
                counts_end,
            )
    }
}

/// `after` has at most `n` texts more than `before`, and no count has
/// grown by more than `n`.
pub open spec fn grew_by(
    before: Map<Seq<char>, usize>,
    after: Map<Seq<char>, usize>,
    n: nat,
) -> bool {
    &&& after.dom().finite()
    &&& after.dom().len() <= before.dom().len() + n
    &&& forall|k: Seq<char>| #[trigger]
        after.contains_key(k) ==> after[k] <= n || (before.contains_key(k) && after[k]
            <= before[k] + n)
}

/// The counts leave room for `steps` more steps without overflow.
pub open spec fn headroom(counts: Map<Seq<char>, usize>, steps: nat) -> bool {
    &&& counts.dom().finite()
    &&& steps <= usize::MAX
    &&& forall|k: Seq<char>| #[trigger] counts.contains_key(k) ==> counts[k] + steps <= usize::MAX
}

/// Counting one occurrence grows the counts by at most one.
pub proof fn lemma_increment_grows<LP: LedgerPolicy>(
    policy: LP,
    before: Map<Seq<char>, usize>,
    key: Seq<char>,
    after: Map<Seq<char>, usize>,
)
    requires
        increment_result(policy, before, key, after),
        before.dom().finite(),
        before.contains_key(key) ==> before[key] < usize::MAX,
    ensures
        grew_by(before, after, 1),
{
    lemma_increment_monotone(policy, before, key, after);
    if !before.contains_key(key) {
        let mid = choose|mid: Map<Seq<char>, usize>| #[trigger]
            policy.cleanup_result(before, mid) && mid.submap_of(before) && after == mid.insert(
                key,
                1,
            );
        assert forall|k: Seq<char>| #[trigger] after.contains_key(k) implies after[k] <= 1 || (
        before.contains_key(k) && after[k] <= before[k] + 1) by {
            if k != key {
                assert(mid.contains_key(k));
            }
        }
    }
}

/// A step lowers no count of a text that stays in the ledger.
pub proof fn lemma_step_monotone<LP: LedgerPolicy>(
    policy: LP,
    tail: Seq<char>,
    counts: Map<Seq<char>, usize>,
    carry: Option<(Seq<char>, usize)>,
    tail_after: Seq<char>,
    counts_after: Map<Seq<char>, usize>,
    carry_after: Option<(Seq<char>, usize)>,
)
    requires
        stepped(policy, tail, counts, carry, tail_after, counts_after, carry_after),
        carry_fits(tail, counts, carry),
        headroom(counts, 1),
    ensures
        forall|k: Seq<char>|
            counts.contains_key(k) && counts_after.contains_key(k) ==> counts_after[k]
                >= counts[k],
{
    if tail.len() > 0 {
        let found = if carry is Some {
            carry
        } else {
            longest_match(counts, tail)
        };
        match found {
            Some(first) => {
                lemma_best_len(counts.dom(), tail, tail.len());
                assert(counts.contains_key(first.0));
                let mid = choose|mid: Map<Seq<char>, usize>| #[trigger]
                    increment_result(policy, counts, first.0, mid) && merged(
                        policy,
                        first,
                        mid,
                        tail_after,
                        counts_after,
                        carry_after,
                    );
                lemma_increment_monotone(policy, counts, first.0, mid);
                match longest_match(mid, tail_after) {
                    Some(follow) => {
                        let joined = first.0 + follow.0;
                        assert(joined.len() > first.0.len());
                        if increment_result(policy, mid, joined, counts_after) {
                            lemma_increment_monotone(policy, mid, joined, counts_after);
                        }
                    },
                    None => {},
                }
            },
            None => {
                lemma_increment_monotone(policy, counts, seq![tail[0]], counts_after);
            },
        }
    }
}

/// A step brings in one text at most, raises no count by more than
/// one, and shortens the text still to read.
pub proof fn lemma_step_grows<LP: LedgerPolicy>(
    policy: LP,
    tail: Seq<char>,
    counts: Map<Seq<char>, usize>,
    carry: Option<(Seq<char>, usize)>,
    tail_after: Seq<char>,
    counts_after: Map<Seq<char>, usize>,
    carry_after: Option<(Seq<char>, usize)>,
)
    requires
        stepped(policy, tail, counts, carry, tail_after, counts_after, carry_after),
        carry_fits(tail, counts, carry),
        headroom(counts, 1),
    ensures
        grew_by(counts, counts_after, 1),
        tail.len() > 0 ==> tail_after.len() < tail.len(),
{
    if tail.len() > 0 {
        let found = if carry is Some {
            carry
        } else {
            longest_match(counts, tail)
        };
        match found {
            Some(first) => {
                lemma_best_len(counts.dom(), tail, tail.len());
                assert(counts.contains_key(first.0));
                let mid = choose|mid: Map<Seq<char>, usize>| #[trigger]
                    increment_result(policy, counts, first.0, mid) && merged(
                        policy,
                        first,
                        mid,
                        tail_after,
                        counts_after,
                        carry_after,
                    );
                lemma_increment_monotone(policy, counts, first.0, mid);
                match longest_match(mid, tail_after) {
                    Some(follow) => {
                        let joined = first.0 + follow.0;
                        assert(joined.len() > first.0.len());
                        if increment_result(policy, mid, joined, counts_after) {
                            lemma_increment_monotone(policy, mid, joined, counts_after);
                        }
                    },
                    None => {},
                }
            },
            None => {
                lemma_increment_grows(policy, counts, seq![tail[0]], counts_after);
            },
        }
    }
}

/// The step from this state is one that keeps a ledger within
/// `max_size`: it starts from a match, or the ledger has room, or
/// pruning removes an entry. What is left out is a step on a scalar
/// that nothing matches while the ledger is full and pruning removes
/// nothing: the scalar comes in all the same.
pub open spec fn step_has_room(
    max_size: usize,
    tail: Seq<char>,
    counts: Map<Seq<char>, usize>,
    carry: Option<(Seq<char>, usize)>,
) -> bool {
    ||| tail.len() == 0
    ||| carry is Some
    ||| longest_match(counts, tail) is Some
    ||| counts.dom().len() < max_size
    ||| pruning_removes(counts)
}

/// Under a bound on the ledger, a step that has room keeps a ledger of
/// at most `max_size` entries at no more than `max_size`.
pub proof fn lemma_step_keeps_bound(
    policy: LimitLedgerSize,
    tail: Seq<char>,
    counts: Map<Seq<char>, usize>,
    carry: Option<(Seq<char>, usize)>,
    tail_after: Seq<char>,
    counts_after: Map<Seq<char>, usize>,
    carry_after: Option<(Seq<char>, usize)>,
)
    requires
        stepped(policy, tail, counts, carry, tail_after, counts_after, carry_after),
        carry_fits(tail, counts, carry),
        headroom(counts, 1),
        counts.dom().len() <= policy.max_size,
        step_has_room(policy.max_size, tail, counts, carry),
    ensures
        counts_after.dom().len() <= policy.max_size,
{
    if tail.len() > 0 {
        let found = if carry is Some {
            carry
        } else {
            longest_match(counts, tail)
        };
        match found {
            Some(first) => {
                lemma_best_len(counts.dom(), tail, tail.len());
                assert(counts.contains_key(first.0));
                let mid = choose|mid: Map<Seq<char>, usize>| #[trigger]
                    increment_result(policy, counts, first.0, mid) && merged(
                        policy,
                        first,
                        mid,
                        tail_after,
                        counts_after,
                        carry_after,
                    );
                lemma_increment_monotone(policy, counts, first.0, mid);
                match longest_match(mid, tail_after) {
                    Some(follow) => {
                        let joined = first.0 + follow.0;
                        assert(joined.len() > first.0.len());
                        if policy.merge_outcome(first.1, follow.1, mid, true)
                            && increment_result(policy, mid, joined, counts_after) {
                            lemma_increment_monotone(policy, mid, joined, counts_after);
                        }
                    },
                    None => {},
                }
            },
            None => {
                let key = seq![tail[0]];
                lemma_best_len(counts.dom(), tail, tail.len());
                assert(tail.take(1) =~= key);
                assert(!counts.contains_key(key));
                let pruned = choose|pruned: Map<Seq<char>, usize>| #[trigger]
                    policy.cleanup_result(counts, pruned) && pruned.submap_of(counts)
                        && counts_after == pruned.insert(key, 1);
                lemma_cleanup_makes_room(policy, counts, pruned);
            },
        }
    }
}

/// Every step of every run from this state has room.
pub open spec fn room_along(
    policy: LimitLedgerSize,
    tail: Seq<char>,
    counts: Map<Seq<char>, usize>,
    carry: Option<(Seq<char>, usize)>,
) -> bool
    decreases tail.len(),
{
    &&& step_has_room(policy.max_size, tail, counts, carry)
    &&& forall|tail_after: Seq<char>, counts_after: Map<Seq<char>, usize>, carry_after: Option<(Seq<char>, usize)>|
        #![trigger stepped(policy, tail, counts, carry, tail_after, counts_after, carry_after)]
        tail_after.len() < tail.len() && stepped(
            policy,
            tail,
            counts,
            carry,
            tail_after,
            counts_after,
            carry_after,
        ) ==> room_along(policy, tail_after, counts_after, carry_after)
}

/// Under a bound on the ledger, a run whose steps all have room ends
/// with a ledger of at most `max_size` entries, if it starts with one.
pub proof fn lemma_run_keeps_bound(
    policy: LimitLedgerSize,
    tail: Seq<char>,
    counts: Map<Seq<char>, usize>,
    carry: Option<(Seq<char>, usize)>,
    counts_end: Map<Seq<char>, usize>,
)
    requires
        runs(policy, tail, counts, carry, counts_end),
        carry_fits(tail, counts, carry),
        headroom(counts, tail.len()),
        counts.dom().len() <= policy.max_size,
        room_along(policy, tail, counts, carry),
    ensures
        counts_end.dom().len() <= policy.max_size,
    decreases tail.len(),
{
    if tail.len() > 0 {
        let (tail_after, counts_after, carry_after) = choose|
            tail_after: Seq<char>,
            counts_after: Map<Seq<char>, usize>,
            carry_after: Option<(Seq<char>, usize)>,
        |
            #![trigger stepped(policy, tail, counts, carry, tail_after, counts_after, carry_after)]
            tail_after.len() < tail.len() && stepped(
                policy,
                tail,
                counts,
                carry,
                tail_after,
                counts_after,
                carry_after,
            ) && carry_fits(tail_after, counts_after, carry_after) && runs(
                policy,
                tail_after,
                counts_after,
                carry_after,
                counts_end,
            );
        lemma_step_keeps_bound(
            policy,
            tail,
            counts,
            carry,
            tail_after,
            counts_after,
            carry_after,
        );
        lemma_step_grows(policy, tail, counts, carry, tail_after, counts_after, carry_after);
        lemma_run_keeps_bound(policy, tail_after, counts_after, carry_after, counts_end);
    }
}

/// A ledger that has room for one entry for each scalar still to read
/// has room at every step.
pub proof fn lemma_short_text_has_room(
    policy: LimitLedgerSize,
    tail: Seq<char>,
    counts: Map<Seq<char>, usize>,
    carry: Option<(Seq<char>, usize)>,
)
    requires
        carry_fits(tail, counts, carry),
        headroom(counts, tail.len()),
        counts.dom().len() + tail.len() <= policy.max_size,
    ensures
        room_along(policy, tail, counts, carry),
    decreases tail.len(),
{
    assert forall|tail_after: Seq<char>, counts_after: Map<Seq<char>, usize>, carry_after: Option<(Seq<char>, usize)>|
        #![trigger stepped(policy, tail, counts, carry, tail_after, counts_after, carry_after)]
        tail_after.len() < tail.len() && stepped(
            policy,
            tail,
            counts,
            carry,
            tail_after,
            counts_after,
            carry_after,
        ) implies room_along(policy, tail_after, counts_after, carry_after) by {
        lemma_step_grows(policy, tail, counts, carry, tail_after, counts_after, carry_after);
        lemma_step_fits(policy, tail, counts, carry, tail_after, counts_after, carry_after);
        lemma_short_text_has_room(policy, tail_after, counts_after, carry_after);
    }
}

/// The match that a step keeps for the next one is counted, and the
/// text still to read begins with it.
pub proof fn lemma_step_fits<LP: LedgerPolicy>(
    policy: LP,
    tail: Seq<char>,
    counts: Map<Seq<char>, usize>,
    carry: Option<(Seq<char>, usize)>,
    tail_after: Seq<char>,
    counts_after: Map<Seq<char>, usize>,
    carry_after: Option<(Seq<char>, usize)>,
)
    requires
        stepped(policy, tail, counts, carry, tail_after, counts_after, carry_after),
        carry_fits(tail, counts, carry),
        headroom(counts, 1),
    ensures
        carry_fits(tail_after, counts_after, carry_after),
{
    if tail.len() > 0 {
        let found = if carry is Some {
            carry
        } else {
            longest_match(counts, tail)
        };
        match found {
            Some(first) => {
                let mid = choose|mid: Map<Seq<char>, usize>| #[trigger]
                    increment_result(policy, counts, first.0, mid) && merged(
                        policy,
                        first,
                        mid,
                        tail_after,
                        counts_after,
                        carry_after,
                    );
                lemma_best_len(mid.dom(), tail_after, tail_after.len());
            },
            None => {},
        }
    }
}

/// Under a bound on the ledger, the run over a text ends within the
/// bound where the ledger starts with room for one entry for each
/// scalar of the text.
pub proof fn lemma_short_text_keeps_bound(
    policy: LimitLedgerSize,
    tail: Seq<char>,
    counts: Map<Seq<char>, usize>,
    carry: Option<(Seq<char>, usize)>,
    counts_end: Map<Seq<char>, usize>,
)
    requires
        runs(policy, tail, counts, carry, counts_end),
        carry_fits(tail, counts, carry),
        headroom(counts, tail.len()),
        counts.dom().len() + tail.len() <= policy.max_size,
    ensures
        counts_end.dom().len() <= policy.max_size,
{
    lemma_short_text_has_room(policy, tail, counts, carry);
    lemma_run_keeps_bound(policy, tail, counts, carry, counts_end);
}

/// Every counted text is a single scalar, counted once, that the text
/// still to read does not hold.
pub open spec fn counts_scalars_read(tail: Seq<char>, counts: Map<Seq<char>, usize>) -> bool {
    forall|k: Seq<char>| #[trigger]
        counts.contains_key(k) ==> k.len() == 1 && !tail.contains(k[0]) && counts[k] == 1
}

/// A run over a text in which no scalar occurs twice counts each
/// scalar once and nothing else, whatever the policy.
pub proof fn lemma_distinct_run<LP: LedgerPolicy>(
    policy: LP,
    tail: Seq<char>,
    counts: Map<Seq<char>, usize>,
    counts_end: Map<Seq<char>, usize>,
)
    requires
        runs(policy, tail, counts, None, counts_end),
        tail.no_duplicates(),
        counts_scalars_read(tail, counts),
    ensures
        forall|k: Seq<char>| #[trigger]
            counts_end.contains_key(k) ==> k.len() == 1 && counts_end[k] == 1,
    decreases tail.len(),
{
    if tail.len() > 0 {
        let (tail_after, counts_after, carry_after) = choose|
            tail_after: Seq<char>,
            counts_after: Map<Seq<char>, usize>,
            carry_after: Option<(Seq<char>, usize)>,
        |
            #![trigger stepped(policy, tail, counts, None, tail_after, counts_after, carry_after)]
            tail_after.len() < tail.len() && stepped(
                policy,
                tail,
                counts,
                None,
                tail_after,
                counts_after,
                carry_after,
            ) && carry_fits(tail_after, counts_after, carry_after) && runs(
                policy,
                tail_after,
                counts_after,
                carry_after,
                counts_end,
            );
        let key = seq![tail[0]];
        lemma_best_len(counts.dom(), tail, tail.len());
        let k = longest_prefix_len(counts.dom(), tail);
        if k > 0 {
            let found = tail.take(k as int);
            assert(counts.contains_key(found));
            assert(found[0] == tail[0]);
            assert(tail.contains(tail[0]));
        }
        assert(longest_match(counts, tail) is None);
        if counts.contains_key(key) {
            assert(key[0] == tail[0]);
            assert(tail.contains(tail[0]));
        }
        let pruned = choose|pruned: Map<Seq<char>, usize>| #[trigger]
            policy.cleanup_result(counts, pruned) && pruned.submap_of(counts) && counts_after
                == pruned.insert(key, 1);
        assert(tail_after == tail.skip(1));
        assert(tail_after.no_duplicates());
        assert forall|other: Seq<char>| #[trigger]
            counts_after.contains_key(other) implies other.len() == 1 && !tail_after.contains(
            other[0],
        ) && counts_after[other] == 1 by {
            if other == key {
                assert(key.len() == 1 && key[0] == tail[0]);
            } else {
                assert(pruned.contains_key(other));
                assert(counts.contains_key(other));
            }
            let c = other[0];
            if tail_after.contains(c) {
                let i = choose|i: int| 0 <= i < tail_after.len() && tail_after[i] == c;
                assert(tail_after[i] == tail[i + 1]);
                if other == key {
                    assert(tail[0] == tail[i + 1]);
                } else {
                    assert(tail.contains(c));
                }
            }
        }
        lemma_distinct_run(policy, tail_after, counts_after, counts_end);
    }
}

/// The state of learning: the text, how far it has been read, the
/// ledger, and the match kept from the step before.
pub struct BuildState<LP: LedgerPolicy> {
    pub chars: Vec<char>,
    pub pos: usize,
    pub ledger: SubstringLedger<LP>,
    pub last_match: Option<SubstringCount>,
}

impl<LP: LedgerPolicy> BuildState<LP> {
    /// The text still to read.
    pub open spec fn tail(&self) -> Seq<char> {
        self.chars@.skip(self.pos as int)
    }

    /// The match kept from the step before, as text and count.
    pub open spec fn carry(&self) -> Option<(Seq<char>, usize)> {
        match self.last_match {
            Some(kept) => Some((kept.value@, kept.count)),
            None => None,
        }
    }

    /// The invariant of the state.
    pub open spec fn wf(&self) -> bool {
        &&& self.ledger.wf()
        &&& self.pos <= self.chars@.len()
        &&& carry_fits(self.tail(), self.ledger@, self.carry())
    }

    /// The state before anything of `head` is read.
    pub fn new(head: &str, policy: LP) -> (out: Self)
        ensures
            out.wf(),
            out.tail() == head@,
            out.ledger@ == Map::<Seq<char>, usize>::empty(),
            out.ledger.policy == policy,
            out.last_match is None,
            out.tail().len() <= usize::MAX,
    {
        let chars = to_chars(head);
        let total: usize = chars.len();
        proof {
            assert(chars@.skip(0) =~= chars@);
        }
        BuildState { chars, pos: 0, ledger: SubstringLedger::with_policy(policy), last_match: None }
    }

    /// Whether the text is read to its end.
    pub fn at_end(&self) -> (out: bool)
        requires
            self.pos <= self.chars@.len(),
        ensures
            out == (self.tail().len() == 0),
    {
        self.pos >= self.chars.len()
    }

    /// The match that this step starts from: the one kept from the step
    /// before, or else the longest match at the start of the text still
    /// to read.
    pub fn find_longest_match(&self) -> (out: Option<SubstringCount>)
        requires
            self.wf(),
        ensures
            ({
                let found = if self.carry() is Some {
                    self.carry()
                } else {
                    longest_match(self.ledger@, self.tail())
                };
                match out {
                    Some(first) => found == Some((first.value@, first.count)),
                    None => found is None,
                }
            }),
    {
        match &self.last_match {
            Some(kept) => Some(kept.clone()),
            None => self.ledger.find_longest_match_at(&self.chars, self.pos),
        }
    }

    /// Whether the policy lets the two matches merge.
    pub fn should_merge(&self, substr_match: &SubstringCount, follow_up: &SubstringCount) -> (out:
        bool)
        requires
            self.ledger.wf(),
        ensures
            self.ledger.policy.merge_outcome(
                substr_match.count,
                follow_up.count,
                self.ledger@,
                out,
            ),
    {
        self.ledger.should_merge(substr_match.count, follow_up.count)
    }

    /// Moves past `substr_match`, which has been counted, looks up the
    /// match that follows it, and counts their concatenation where the
    /// policy lets them merge.
    pub fn merge_with_follow_up_match(self, substr_match: &SubstringCount) -> (out: Self)
        requires
            self.ledger.wf(),
            self.pos + substr_match.value@.len() <= self.chars@.len(),
            forall|k: Seq<char>| #[trigger]
                self.ledger@.contains_key(k) && k != substr_match.value@ ==> self.ledger@[k]
                    < usize::MAX,
        ensures
            out.wf(),
            out.chars == self.chars,
            out.pos == self.pos + substr_match.value@.len(),
            out.ledger.policy == self.ledger.policy,
            merged(
                self.ledger.policy,
                (substr_match.value@, substr_match.count),
                self.ledger@,
                out.tail(),
                out.ledger@,
                out.carry(),
            ),
            grew_by(self.ledger@, out.ledger@, 1),
    {
        let mut state = self;
        let ghost counts = state.ledger@;
        proof {
            state.ledger.substrings.lemma_counts_positive();
        }
        let total: usize = state.chars.len();
        let rest_pos: usize = state.pos + substr_match.value.char_count();
        let follow_up_match = state.ledger.find_longest_match_at(&state.chars, rest_pos);
        let mut last_match: Option<SubstringCount> = None;
        match follow_up_match {
            Some(follow_up) => {
                if state.should_merge(substr_match, &follow_up) {
                    let new_substring = substr_match.value.concat(&follow_up.value);
                    proof {
                        assert(new_substring@.len() > substr_match.value@.len());
                        state.ledger.substrings.lemma_counts_positive();
                    }
                    state.ledger.increment_count(&new_substring);
                    proof {
                        lemma_increment_grows(
                            state.ledger.policy,
                            counts,
                            new_substring@,
                            state.ledger@,
                        );
                    }
                }
                if state.ledger.contains(&follow_up.value) {
                    last_match = Some(follow_up);
                }
            },
            None => {},
        }
        state.make_new_state(rest_pos, last_match)
    }

    /// Counts the scalar at the start of the text still to read as a
    /// substring of its own, and moves past it.
    pub fn create_single_char_substring(self, next_char: char) -> (out: Self)
        requires
            self.ledger.wf(),
            self.pos < self.chars@.len(),
            next_char == self.chars@[self.pos as int],
            forall|k: Seq<char>| #[trigger]
                self.ledger@.contains_key(k) ==> self.ledger@[k] < usize::MAX,
        ensures
            out.wf(),
            out.chars == self.chars,
            out.pos == self.pos + 1,
            out.ledger.policy == self.ledger.policy,
            out.last_match is None,
            increment_result(self.ledger.policy, self.ledger@, seq![next_char], out.ledger@),
            grew_by(self.ledger@, out.ledger@, 1),
    {
        let mut state = self;
        let ghost counts = state.ledger@;
        let new_substring = Substring::from_char(next_char);
        let total: usize = state.chars.len();
        proof {
            state.ledger.substrings.lemma_counts_positive();
        }
        state.ledger.increment_count(&new_substring);
        proof {
            lemma_increment_grows(state.ledger.policy, counts, new_substring@, state.ledger@);
        }
        let rest_pos: usize = state.pos + 1;
        state.make_new_state(rest_pos, None)
    }

    /// The state at the end of the text.
    pub fn make_end_state(self) -> (out: Self)
        requires
            self.ledger.wf(),
        ensures
            out.wf(),
            out.chars == self.chars,
            out.pos == self.chars@.len(),
            out.ledger == self.ledger,
            out.last_match is None,
    {
        let end: usize = self.chars.len();
        self.make_new_state(end, None)
    }

    /// The state with the same text and ledger, read up to `pos`, with
    /// `last_match` kept for the next step.
    pub fn make_new_state(self, pos: usize, last_match: Option<SubstringCount>) -> (out: Self)
        ensures
            out.chars == self.chars,
            out.pos == pos,
            out.ledger == self.ledger,
            out.last_match == last_match,
    {
        BuildState { chars: self.chars, pos, ledger: self.ledger, last_match }
    }

    /// Takes one step: counts the match that the text still to read
    /// starts with, or its first scalar where nothing matches, and moves
    /// past it.
    pub fn step(self) -> (out: Self)
        requires
            self.wf(),
            headroom(self.ledger@, 1),
        ensures
            out.wf(),
            out.chars == self.chars,
            out.ledger.policy == self.ledger.policy,
            stepped(
                self.ledger.policy,
                self.tail(),
                self.ledger@,
                self.carry(),
                out.tail(),
                out.ledger@,
                out.carry(),
            ),
            self.tail().len() > 0 ==> out.tail().len() < self.tail().len(),
            grew_by(self.ledger@, out.ledger@, 1),
    {
        if self.at_end() {
            proof {
                assert(self.tail() =~= self.chars@.skip(self.chars@.len() as int));
            }
            return self.make_end_state();
        }
        let ghost counts = self.ledger@;
        let ghost tail = self.tail();
        let ghost policy = self.ledger.policy;
        let found = self.find_longest_match();
        let mut state = self;
        match found {
            Some(substr_match) => {
                proof {
                    lemma_best_len(counts.dom(), tail, tail.len());
                    assert(substr_match.value@.is_prefix_of(tail));
                    assert(counts.contains_key(substr_match.value@));
                }
                state.ledger.increment_count(&substr_match.value);
                proof {
                    lemma_increment_grows(policy, counts, substr_match.value@, state.ledger@);
                }
                let ghost mid = state.ledger@;
                let out = state.merge_with_follow_up_match(&substr_match);
                proof {
                    let first = (substr_match.value@, substr_match.count);
                    assert(out.tail() =~= tail.skip(first.0.len() as int));
                    assert(increment_result(policy, counts, first.0, mid));
                    assert(merged(policy, first, mid, out.tail(), out.ledger@, out.carry()));
                    assert(stepped_past(
                        policy,
                        tail,
                        counts,
                        first,
                        out.tail(),
                        out.ledger@,
                        out.carry(),
                    ));
                    assert(stepped(
                        policy,
                        tail,
                        counts,
                        self.carry(),
                        out.tail(),
                        out.ledger@,
                        out.carry(),
                    ));
                    lemma_step_grows(
                        policy,
                        tail,
                        counts,
                        self.carry(),
                        out.tail(),
                        out.ledger@,
                        out.carry(),
                    );
                }
                out
            },
            None => {
                let next_char = state.chars[state.pos];
                proof {
                    assert(tail[0] == next_char);
                }
                let out = state.create_single_char_substring(next_char);
                proof {
                    assert(out.tail() =~= tail.skip(1));
                }
                out
            },
        }
    }

    /// Takes steps until the text is read to its end.
    pub fn run_until_end(self) -> (out: Self)
        requires
            self.wf(),
            headroom(self.ledger@, self.tail().len()),
        ensures
            out.wf(),
            out.tail().len() == 0,
            out.ledger.policy == self.ledger.policy,
            runs(self.ledger.policy, self.tail(), self.ledger@, self.carry(), out.ledger@),
    {
        let ghost policy = self.ledger.policy;
        let ghost tail0 = self.tail();
        let ghost counts0 = self.ledger@;
        let ghost carry0 = self.carry();
        let mut state = self;
        while !state.at_end()
            invariant
                state.wf(),
                state.ledger.policy == policy,
                headroom(state.ledger@, state.tail().len()),
                forall|counts_end: Map<Seq<char>, usize>|
                    runs(policy, state.tail(), state.ledger@, state.carry(), counts_end) ==> runs(
                        policy,
                        tail0,
                        counts0,
                        carry0,
                        counts_end,
                    ),
            decreases state.tail().len(),
        {
            let ghost before_tail = state.tail();
            let ghost before_counts = state.ledger@;
            let ghost before_carry = state.carry();
            state = state.step();
            proof {
                assert forall|counts_end: Map<Seq<char>, usize>|
                    runs(policy, state.tail(), state.ledger@, state.carry(), counts_end) implies runs(
                    policy,
                    tail0,
                    counts0,
                    carry0,
                    counts_end,
                ) by {
                    assert(stepped(
                        policy,
                        before_tail,
                        before_counts,
                        before_carry,
                        state.tail(),
                        state.ledger@,
                        state.carry(),
                    ));
                    assert(runs(policy, before_tail, before_counts, before_carry, counts_end));
                }
            }
        }
        state
    }
}

/// Learns the ledger of `source` under `policy`.
pub fn build_ledger<LP: LedgerPolicy>(source: &str, policy: LP) -> (out: SubstringLedger<LP>)
    ensures
        out.wf(),
        out.policy == policy,
        runs(policy, source@, Map::<Seq<char>, usize>::empty(), None, out@),
        source@.no_duplicates() ==> forall|k: Seq<char>| #[trigger]
            out@.contains_key(k) ==> k.len() == 1 && out@[k] == 1,
{
    let out = BuildState::new(source, policy).run_until_end().ledger;
    proof {
        if source@.no_duplicates() {
            lemma_distinct_run(policy, source@, Map::<Seq<char>, usize>::empty(), out@);
        }
    }
    out
}

} // verus!
