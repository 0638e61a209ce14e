//! The policies that decide when adjacent matches merge and how the
//! ledger is pruned.

use crate::sorting::{sort_by_rank, sorted};
use crate::substring::Substring;
use crate::substring_counts::SubstringCounts;
use vstd::prelude::*;

verus! {

/// The two decisions that govern the ledger while it is built.
pub trait LedgerPolicy {
    /// Whether `decision` is an answer that the policy may give for two
    /// adjacent matches with these counts, given the counts held so far.
    /// A policy that says nothing more may give either answer.
    open spec fn merge_outcome(
        &self,
        x_count: usize,
        y_count: usize,
        counts: Map<Seq<char>, usize>,
        decision: bool,
    ) -> bool {
        true
    }

    /// How pruning may change the counts. A policy that says nothing
    /// more may drop any entries.
    open spec fn cleanup_result(
        &self,
        before: Map<Seq<char>, usize>,
        after: Map<Seq<char>, usize>,
    ) -> bool {
        after.submap_of(before)
    }

    /// Decides whether the concatenation of two adjacent matches becomes
    /// an entry of its own.
    fn should_merge(&self, x_count: usize, y_count: usize, substrings: &SubstringCounts) -> (b:
        bool)
        requires
            substrings.wf(),
        ensures
            self.merge_outcome(x_count, y_count, substrings@, b),
    ;

    /// Prunes the counts before a new entry comes in. Entries may leave;
    /// none comes in and no count changes.
    fn cleanup(&self, substrings: &mut SubstringCounts)
        requires
            old(substrings).wf(),
        ensures
            final(substrings).wf(),
            self.cleanup_result(old(substrings)@, final(substrings)@),
            final(substrings)@.submap_of(old(substrings)@),
    ;
}

/// Keeps every entry and merges always.
pub struct CaptureAll;

/// Bounds the ledger softly: merging gets harder as the ledger fills,
/// and entries under the median count leave when space is short.
pub struct LimitLedgerSize {
    pub max_size: usize,
}

/// Entries that can still come in before `len` reaches `max_size`.
pub open spec fn free_space(max_size: usize, len: nat) -> nat {
    if max_size >= len {
        (max_size - len) as nat
    } else {
        0
    }
}

/// The least count at which merging is allowed: `max_size` divided by
/// the free space, rounded up; without free space nothing merges.
pub open spec fn merge_threshold(max_size: usize, len: nat) -> nat {
    let free = free_space(max_size, len);
    if free == 0 {
        usize::MAX as nat
    } else if max_size as nat % free == 0 {
        max_size as nat / free
    } else {
        max_size as nat / free + 1
    }
}

/// Whether matches with these counts merge in a ledger of `len` entries
/// bounded by `max_size`: the ledger is not full and both counts reach
/// the threshold.
pub open spec fn merge_allowed(max_size: usize, x_count: usize, y_count: usize, len: nat) -> bool {
    &&& len < max_size
    &&& x_count >= merge_threshold(max_size, len)
    &&& y_count >= merge_threshold(max_size, len)
}

/// Position of the median in the ascending list of `n` counts.
pub open spec fn median_index(n: nat) -> int {
    if n <= 1 {
        0
    } else {
        n / 2 - 1
    }
}

/// `keys` lists every counted text once and `ascending` holds their
/// counts in ascending order.
pub open spec fn lists_counts(
    counts: Map<Seq<char>, usize>,
    keys: Seq<Seq<char>>,
    ascending: Seq<usize>,
) -> bool {
    &&& keys.no_duplicates()
    &&& forall|k: Seq<char>| counts.contains_key(k) <==> keys.contains(k)
    &&& keys.len() > 0
    &&& ascending.len() == keys.len()
    &&& sorted(ascending)
    &&& ascending.to_multiset() == keys.map_values(|k: Seq<char>| counts[k]).to_multiset()
}

/// `v` is the median count: the count at `median_index` when all
/// counts are listed in ascending order.
pub open spec fn is_median(counts: Map<Seq<char>, usize>, v: usize) -> bool {
    exists|keys: Seq<Seq<char>>, ascending: Seq<usize>| #[trigger]
        lists_counts(counts, keys, ascending) && v == ascending[median_index(ascending.len())]
}

/// The entries of `counts` whose count is at least `v`.
pub open spec fn at_least(counts: Map<Seq<char>, usize>, v: usize) -> Map<Seq<char>, usize> {
    counts.restrict(Set::new(|k: Seq<char>| counts[k] >= v))
}

/// Pruning at the median removes an entry: there are counts, and some
/// count lies below every median of them.
pub open spec fn pruning_removes(counts: Map<Seq<char>, usize>) -> bool {
    &&& counts.dom().len() > 0
    &&& forall|v: usize| #[trigger]
        is_median(counts, v) ==> exists|k: Seq<char>| #[trigger]
            counts.contains_key(k) && counts[k] < v
}

/// Where a ledger within its bound has room, or pruning removes an
/// entry, what pruning leaves is below the bound.
pub proof fn lemma_cleanup_makes_room(
    policy: LimitLedgerSize,
    before: Map<Seq<char>, usize>,
    after: Map<Seq<char>, usize>,
)
    requires
        policy.cleanup_result(before, after),
        before.dom().finite(),
        before.dom().len() <= policy.max_size,
        before.dom().len() < policy.max_size || pruning_removes(before),
    ensures
        after.dom().finite(),
        after.dom().len() < policy.max_size,
{
    if free_space(policy.max_size, before.dom().len()) >= 2 || before.dom().len() == 0 {
        assert(after == before);
    } else {
        let v = choose|v: usize| #[trigger] is_median(before, v) && after == at_least(before, v);
        assert(after.dom().subset_of(before.dom()));
        vstd::set_lib::lemma_len_subset(after.dom(), before.dom());
        if before.dom().len() == policy.max_size {
            let k = choose|k: Seq<char>| #[trigger] before.contains_key(k) && before[k] < v;
            assert(after.dom().subset_of(before.dom().remove(k)));
            vstd::set_lib::lemma_len_subset(after.dom(), before.dom().remove(k));
        }
    }
}

impl LimitLedgerSize {
    /// The policy that bounds the ledger at `max_size` entries.
    pub fn with_max_size(max_size: usize) -> (out: Self)
        ensures
            out.max_size == max_size,
    {
        LimitLedgerSize { max_size }
    }

    /// The least count that both matches need for a merge.
    pub fn calc_merge_threshold(&self, counts: &SubstringCounts) -> (out: usize)
        requires
            counts.wf(),
        ensures
            out == merge_threshold(self.max_size, counts@.dom().len()),
    {
        let free = self.calc_free_space(counts);
        if free == 0 {
            usize::MAX
        } else {
            let max_size: usize = self.max_size;
            let quotient: usize = max_size / free;
            if max_size % free == 0 {
                quotient
            } else {
                proof {
                    assert(free >= 2) by {
                        if free == 1 {
                            assert(max_size % 1 == 0);
                        }
                    }
                    assert(max_size / free < max_size) by (nonlinear_arith)
                        requires
                            free >= 2,
                            max_size >= 1,
                    ;
                }
                quotient + 1
            }
        }
    }

    /// Whether the ledger has reached its bound.
    pub fn is_full(&self, counts: &SubstringCounts) -> (out: bool)
        requires
            counts.wf(),
        ensures
            out == (counts@.dom().len() >= self.max_size),
    {
        counts.len() >= self.max_size
    }

    /// Whether fewer than two entries can still come in.
    pub fn should_cleanup(&self, counts: &SubstringCounts) -> (out: bool)
        requires
            counts.wf(),
        ensures
            out == (free_space(self.max_size, counts@.dom().len()) < 2),
    {
        self.calc_free_space(counts) < 2
    }

    /// The median of the counts, of which there must be at least one.
    pub fn calc_median_count(&self, counts: &SubstringCounts) -> (out: usize)
        requires
            counts.wf(),
            counts@.dom().len() > 0,
        ensures
            is_median(counts@, out),
    {
        let listed = counts.iter();
        let mut values: Vec<usize> = Vec::new();
        let ghost mut keys: Seq<Seq<char>> = Seq::empty();
        let mut i: usize = 0;
        while i < listed.len()
            invariant
                i <= listed@.len(),
                values@.len() == i,
                keys.len() == i,
                forall|e: int|
                    0 <= e < i ==> (#[trigger] keys[e]) == listed@[e].0@ && values@[e]
                        == listed@[e].1,
            decreases listed@.len() - i,
        {
            values.push(listed[i].1);
            proof {
                keys = keys.push(listed@[i as int].0@);
            }
            i = i + 1;
        }
        let ghost unsorted = values@;
        let ascending = sort_by_rank(values);
        proof {
            let m = counts@;
            assert(unsorted =~= keys.map_values(|k: Seq<char>| m[k]));
            assert(keys.no_duplicates()) by {
                assert forall|a: int, b: int| 0 <= a < keys.len() && 0 <= b < keys.len() && a
                    != b implies keys[a] != keys[b] by {
                    if a < b {
                        assert(listed@[a].0@ != listed@[b].0@);
                    } else {
                        assert(listed@[b].0@ != listed@[a].0@);
                    }
                }
            }
            assert forall|k: Seq<char>| m.contains_key(k) <==> keys.contains(k) by {
                if m.contains_key(k) {
                    let e = choose|e: int| 0 <= e < listed@.len() && (#[trigger] listed@[e]).0@ == k;
                    assert(keys[e] == k);
                }
                if keys.contains(k) {
                    let e = choose|e: int| 0 <= e < keys.len() && keys[e] == k;
                    assert(m.contains_key(listed@[e].0@));
                }
            }
            assert(lists_counts(m, keys, ascending@));
        }
        if ascending.len() == 1 {
            ascending[0]
        } else {
            ascending[ascending.len() / 2 - 1]
        }
    }

    /// Entries that can still come in before the bound is reached.
    pub fn calc_free_space(&self, counts: &SubstringCounts) -> (out: usize)
        requires
            counts.wf(),
        ensures
            out == free_space(self.max_size, counts@.dom().len()),
    {
        let len = counts.len();
        if self.max_size >= len {
            self.max_size - len
        } else {
            0
        }
    }
}

impl LedgerPolicy for CaptureAll {
    open spec fn merge_outcome(
        &self,
        x_count: usize,
        y_count: usize,
        counts: Map<Seq<char>, usize>,
        decision: bool,
    ) -> bool {
        decision
    }

    open spec fn cleanup_result(
        &self,
        before: Map<Seq<char>, usize>,
        after: Map<Seq<char>, usize>,
    ) -> bool {
        after == before
    }

    fn should_merge(&self, x_count: usize, y_count: usize, substrings: &SubstringCounts) -> (b:
        bool) {
        true
    }

    fn cleanup(&self, substrings: &mut SubstringCounts) {
    }
}

impl LedgerPolicy for LimitLedgerSize {
    open spec fn merge_outcome(
        &self,
        x_count: usize,
        y_count: usize,
        counts: Map<Seq<char>, usize>,
        decision: bool,
    ) -> bool {
        decision == merge_allowed(self.max_size, x_count, y_count, counts.dom().len())
    }

    open spec fn cleanup_result(
        &self,
        before: Map<Seq<char>, usize>,
        after: Map<Seq<char>, usize>,
    ) -> bool {
        if free_space(self.max_size, before.dom().len()) >= 2 || before.dom().len() == 0 {
            after == before
        } else {
            exists|v: usize| #[trigger] is_median(before, v) && after == at_least(before, v)
        }
    }

    fn should_merge(&self, x_count: usize, y_count: usize, substrings: &SubstringCounts) -> (b:
        bool) {
        if self.is_full(substrings) {
            return false;
        }
        let threshold = self.calc_merge_threshold(substrings);
        x_count >= threshold && y_count >= threshold
    }

    fn cleanup(&self, substrings: &mut SubstringCounts) {
        if self.should_cleanup(substrings) && substrings.len() > 0 {
            let median = self.calc_median_count(substrings);
            let ghost before = substrings@;
            let keep = |k: &Substring, c: usize| -> (b: bool)
                ensures
                    b == (median <= c),
                { median <= c };
            substrings.retain(keep);
            proof {
                assert(substrings@ =~= at_least(before, median));
            }
        }
    }
}

} // verus!
