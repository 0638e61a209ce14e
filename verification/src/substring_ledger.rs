//! The ledger: occurrence counts under a policy.

use crate::encoding_table::EncodingTable;
use crate::ledger_policies::LedgerPolicy;
use crate::sorting::Ranked;
use crate::substring::{Substring, SubstringCount};
use crate::substring_counts::SubstringCounts;
use crate::encoding_table::table_keys;
use crate::substring_selector::{
    candidates, eligible, is_eligible_candidate, is_selection, outranks, weight_of,
    SubstringSelector,
};
use crate::trie::longest_prefix_len;
use vstd::prelude::*;

verus! {

/// How counting one more occurrence of `key` may change the counts: a
/// counted text gains one; for a new text the policy prunes first and
/// the text comes in with count 1.
pub open spec fn increment_result<LP: LedgerPolicy>(
    policy: LP,
    before: Map<Seq<char>, usize>,
    key: Seq<char>,
    after: Map<Seq<char>, usize>,
) -> bool {
    if before.contains_key(key) {
        after == before.insert(key, (before[key] + 1) as usize)
    } else {
        exists|mid: Map<Seq<char>, usize>| #[trigger]
            policy.cleanup_result(before, mid) && mid.submap_of(before) && after == mid.insert(
                key,
                1,
            )
    }
}

/// Counting an occurrence lowers no count of a text that stays, and
/// brings in at most one text.
pub proof fn lemma_increment_monotone<LP: LedgerPolicy>(
    policy: LP,
    before: Map<Seq<char>, usize>,
    key: Seq<char>,
    after: Map<Seq<char>, usize>,
)
    requires
        increment_result(policy, before, key, after),
        before.dom().finite(),
        before.contains_key(key) ==> before[key] < usize::MAX,
    ensures
        forall|k: Seq<char>|
            before.contains_key(k) && after.contains_key(k) ==> after[k] >= before[k],
        forall|k: Seq<char>|
            after.contains_key(k) ==> k == key || (before.contains_key(k) && after[k]
                == before[k]),
        after.contains_key(key),
        after.dom().finite(),
        after.dom().len() <= before.dom().len() + 1,
        before.contains_key(key) ==> after.dom() == before.dom(),
{
    if before.contains_key(key) {
        assert(after.dom() =~= before.dom());
    } else {
        let mid = choose|mid: Map<Seq<char>, usize>| #[trigger]
            policy.cleanup_result(before, mid) && mid.submap_of(before) && after == mid.insert(
                key,
                1,
            );
        assert(mid.dom().subset_of(before.dom()));
        vstd::set_lib::lemma_len_subset(mid.dom(), before.dom());
        assert forall|k: Seq<char>|
            before.contains_key(k) && after.contains_key(k) implies after[k] >= before[k] by {
            assert(mid.contains_key(k));
        }
    }
}

/// `table` holds what `selector` chooses from `counts`: no text twice;
/// every entry is counted and eligible; an eligible text is missing only
/// where the table is full, and then no entry weighs less than it.
pub open spec fn chosen_from(
    selector: &SubstringSelector,
    counts: Map<Seq<char>, usize>,
    table: Seq<Seq<char>>,
) -> bool {
    &&& table.no_duplicates()
    &&& forall|i: int|
        0 <= i < table.len() ==> counts.contains_key(#[trigger] table[i]) && eligible(
            selector.spec,
            table[i],
            counts[table[i]],
        )
    &&& forall|k: Seq<char>|
        counts.contains_key(k) && eligible(selector.spec, k, counts[k]) && !table_keys(
            table,
        ).contains(k) ==> table.len() == selector.spec.num_strings && forall|i: int|
            0 <= i < table.len() ==> weight_of(
                selector.spec,
                selector.by_gain,
                #[trigger] table[i],
                counts[table[i]],
            ) >= weight_of(selector.spec, selector.by_gain, k, counts[k])
}

/// Where no counted text occurs twice, the selector chooses nothing.
pub proof fn lemma_nothing_eligible(
    selector: &SubstringSelector,
    counts: Map<Seq<char>, usize>,
    table: Seq<Seq<char>>,
)
    requires
        chosen_from(selector, counts, table),
        forall|k: Seq<char>| #[trigger] counts.contains_key(k) ==> counts[k] < 2,
    ensures
        table.len() == 0,
{
    if table.len() > 0 {
        assert(counts.contains_key(table[0]));
    }
}

/// The counts of the substrings seen so far, with the policy that
/// governs them. Its view is the map from text to count.
pub struct SubstringLedger<LP: LedgerPolicy> {
    pub substrings: SubstringCounts,
    pub policy: LP,
}

impl<LP: LedgerPolicy> View for SubstringLedger<LP> {
    type V = Map<Seq<char>, usize>;

    open spec fn view(&self) -> Map<Seq<char>, usize> {
        self.substrings@
    }
}

impl<LP: LedgerPolicy> SubstringLedger<LP> {
    /// The invariant of the ledger is that of its counts.
    pub open spec fn wf(&self) -> bool {
        self.substrings.wf()
    }

    /// An empty ledger under `policy`.
    pub fn with_policy(policy: LP) -> (out: Self)
        ensures
            out.wf(),
            out@ == Map::<Seq<char>, usize>::empty(),
            out.policy == policy,
    {
        SubstringLedger { substrings: SubstringCounts::new(), policy }
    }

    /// Number of counted substrings.
    pub fn len(&self) -> (out: usize)
        requires
            self.wf(),
        ensures
            out == self@.dom().len(),
            self@.dom().finite(),
    {
        self.substrings.len()
    }

    /// Whether the policy lets two adjacent matches with these counts merge.
    pub fn should_merge(&self, x_count: usize, y_count: usize) -> (out: bool)
        requires
            self.wf(),
        ensures
            self.policy.merge_outcome(x_count, y_count, self@, out),
    {
        self.policy.should_merge(x_count, y_count, &self.substrings)
    }

    /// The longest counted substring that `text` has as a prefix from
    /// position `start` on, with its count.
    pub fn find_longest_match_at(&self, text: &Vec<char>, start: usize) -> (out: Option<
        SubstringCount,
    >)
        requires
            self.wf(),
            start <= text@.len(),
        ensures
            ({
                let t = text@.skip(start as int);
                let k = longest_prefix_len(self@.dom(), t);
                match out {
                    None => k == 0,
                    Some(found) => {
                        &&& 0 < k <= t.len()
                        &&& found.value@ == t.take(k as int)
                        &&& self@.contains_key(found.value@)
                        &&& found.count == self@[found.value@]
                    },
                }
            }),
    {
        self.substrings.find_match_at(text, start)
    }

    /// The longest counted substring that is a prefix of `text`, with its count.
    pub fn find_longest_match(&self, text: &str) -> (out: Option<SubstringCount>)
        requires
            self.wf(),
        ensures
            ({
                let k = longest_prefix_len(self@.dom(), text@);
                match out {
                    None => k == 0,
                    Some(found) => {
                        &&& 0 < k <= text@.len()
                        &&& found.value@ == text@.take(k as int)
                        &&& self@.contains_key(found.value@)
                        &&& found.count == self@[found.value@]
                    },
                }
            }),
    {
        self.substrings.find_match(text)
    }

    /// Counts one more occurrence of `substr`. A substring that is new
    /// to the ledger comes in with count 1, after the policy has pruned.
    pub fn increment_count(&mut self, substr: &Substring)
        requires
            old(self).wf(),
            old(self)@.contains_key(substr@) ==> old(self)@[substr@] < usize::MAX,
        ensures
            final(self).wf(),
            final(self).policy == old(self).policy,
            increment_result(old(self).policy, old(self)@, substr@, final(self)@),
            forall|k: Seq<char>|
                old(self)@.contains_key(k) && final(self)@.contains_key(k) ==> final(self)@[k]
                    >= old(self)@[k],
            old(self)@.contains_key(substr@) ==> final(self)@.dom() == old(self)@.dom(),
            final(self)@.contains_key(substr@),
            final(self)@[substr@] == (if old(self)@.contains_key(substr@) {
                old(self)@[substr@] + 1
            } else {
                1
            }),
            forall|k: Seq<char>| #[trigger] final(self)@.contains_key(k) ==> final(self)@[k] >= 1,
    {
        let ghost before = self.substrings@;
        proof {
            self.substrings.lemma_counts_positive();
        }
        match self.substrings.get_count_mut(substr) {
            Some(count) => {
                *count = *count + 1;
            },
            None => {
                self.policy.cleanup(&mut self.substrings);
                self.substrings.insert(substr.clone(), 1);
            },
        }
        proof {
            lemma_increment_monotone(self.policy, before, substr@, self.substrings@);
            self.substrings.lemma_counts_positive();
        }
    }

    /// The dictionary made of the substrings that `selector` chooses
    /// from the ledger. Every entry is a counted substring that occurs
    /// at least twice and is longer than a reference. Such a substring
    /// is left out only where the dictionary is full, and then no entry
    /// weighs less than it.
    pub fn build_encoding_table(self, selector: &SubstringSelector) -> (out: EncodingTable)
        requires
            self.wf(),
        ensures
            out.wf(),
            out@.len() <= selector.spec.num_strings,
            chosen_from(selector, self@, out@),
            (forall|k: Seq<char>| #[trigger] self@.contains_key(k) ==> self@[k] < 2) ==> out@.len()
                == 0,
    {
        let listed = self.substrings.iter();
        let most_impactful = selector.select_substrings(&listed);
        let ghost chosen = most_impactful@;
        let out = EncodingTable::new(most_impactful);
        proof {
            let spec = selector.spec;
            let by_gain = selector.by_gain;
            let input = candidates(listed@);
            let picked = choose|picked: Seq<int>|
                {
                    &&& #[trigger] is_selection(spec, by_gain, input, picked)
                    &&& picked.len() == chosen.len()
                    &&& forall|i: int|
                        0 <= i < chosen.len() ==> (#[trigger] chosen[i])@ == listed@[picked[i]].0@
                };
            out.lemma_entries();
            crate::sorting::lemma_same_elements(out.entries(), chosen);
            assert forall|a: int, b: int|
                0 <= a < chosen.len() && 0 <= b < chosen.len() && a != b implies chosen[a]@
                != chosen[b]@ by {
                assert(picked[a] != picked[b]);
                if picked[a] < picked[b] {
                    assert(listed@[picked[a]].0@ != listed@[picked[b]].0@);
                } else {
                    assert(listed@[picked[b]].0@ != listed@[picked[a]].0@);
                }
            }
            assert(chosen.no_duplicates());
            crate::sorting::lemma_rearranged_distinct(chosen, out.entries());
            assert forall|a: int, b: int|
                0 <= a < out@.len() && 0 <= b < out@.len() && a != b implies out@[a]
                != out@[b] by {
                let ea = out.entries()[a];
                let eb = out.entries()[b];
                assert(out.entries().contains(ea));
                assert(out.entries().contains(eb));
                let ca = choose|c: int| 0 <= c < chosen.len() && chosen[c] == ea;
                let cb = choose|c: int| 0 <= c < chosen.len() && chosen[c] == eb;
                assert(ea != eb);
            }
            assert forall|i: int| 0 <= i < out@.len() implies self@.contains_key(
                #[trigger] out@[i],
            ) && eligible(spec, out@[i], self@[out@[i]]) by {
                let entry = out.entries()[i];
                assert(out.entries().contains(entry));
                assert(chosen.contains(entry));
                let e = choose|e: int| 0 <= e < chosen.len() && chosen[e] == entry;
                assert(is_eligible_candidate(spec, input, chosen[e]@));
                let j = choose|j: int|
                    0 <= j < input.len() && (#[trigger] input[j]).0 == entry@ && eligible(
                        spec,
                        entry@,
                        input[j].1,
                    );
                assert(self@.contains_key(listed@[j].0@));
            }
            assert forall|k: Seq<char>|
                self@.contains_key(k) && eligible(spec, k, self@[k]) && !table_keys(
                    out@,
                ).contains(k) implies out@.len() == spec.num_strings && forall|i: int|
                0 <= i < out@.len() ==> weight_of(spec, by_gain, #[trigger] out@[i], self@[out@[i]])
                    >= weight_of(spec, by_gain, k, self@[k]) by {
                let e = choose|e: int| 0 <= e < listed@.len() && (#[trigger] listed@[e]).0@ == k;
                assert(input[e] == (k, self@[k]));
                if picked.contains(e) {
                    let c = choose|c: int| 0 <= c < picked.len() && picked[c] == e;
                    assert(chosen[c]@ == k);
                    assert(chosen.contains(chosen[c]));
                    assert(out.entries().contains(chosen[c]));
                    let at = choose|at: int|
                        0 <= at < out.entries().len() && out.entries()[at] == chosen[c];
                    assert(out@[at] == k);
                    assert(out@.contains(k));
                    assert(false);
                }
                assert forall|i: int| 0 <= i < out@.len() implies weight_of(
                    spec,
                    by_gain,
                    #[trigger] out@[i],
                    self@[out@[i]],
                ) >= weight_of(spec, by_gain, k, self@[k]) by {
                    let entry = out.entries()[i];
                    assert(out.entries().contains(entry));
                    assert(chosen.contains(entry));
                    let c = choose|c: int| 0 <= c < chosen.len() && chosen[c] == entry;
                    let p = picked[c];
                    assert(outranks(spec, by_gain, input, picked[c], e));
                    assert(self@.contains_key(listed@[p].0@));
                    assert(input[p] == (entry@, self@[entry@]));
                }
            }
            if forall|k: Seq<char>| #[trigger] self@.contains_key(k) ==> self@[k] < 2 {
                lemma_nothing_eligible(selector, self@, out@);
            }
        }
        out
    }

    /// Whether `substr` is counted.
    pub fn contains(&self, substr: &Substring) -> (out: bool)
        requires
            self.wf(),
        ensures
            out == self@.contains_key(substr@),
    {
        self.substrings.contains_key(substr)
    }

    /// Every counted substring with its count, in the canonical order
    /// of substrings.
    pub fn entries(&self) -> (out: Vec<(&str, usize)>)
        requires
            self.wf(),
        ensures
            out@.len() == self@.dom().len(),
            forall|e: int|
                0 <= e < out@.len() ==> self@.contains_key((#[trigger] out@[e]).0@) && out@[e].1
                    == self@[out@[e].0@],
            forall|k: Seq<char>|
                self@.contains_key(k) ==> exists|e: int|
                    0 <= e < out@.len() && (#[trigger] out@[e]).0@ == k,
            forall|a: int, b: int|
                #![trigger out@[a], out@[b]]
                0 <= a < b < out@.len() ==> out@[a].0@ != out@[b].0@
                    && crate::substring::precedes(out@[a].0@, out@[b].0@),
    {
        let ordered = self.substrings.get_sorted_counts();
        let mut out: Vec<(&str, usize)> = Vec::new();
        let mut i: usize = 0;
        while i < ordered.len()
            invariant
                i <= ordered@.len(),
                out@.len() == i,
                forall|e: int|
                    0 <= e < i ==> (#[trigger] out@[e]).0@ == ordered@[e].0@ && out@[e].1
                        == ordered@[e].1,
            decreases ordered@.len() - i,
        {
            let entry = &ordered[i];
            out.push((entry.0.as_str(), entry.1));
            i = i + 1;
        }
        proof {
            assert forall|k: Seq<char>| self@.contains_key(k) implies exists|e: int|
                0 <= e < out@.len() && (#[trigger] out@[e]).0@ == k by {
                let e = choose|e: int| 0 <= e < ordered@.len() && (#[trigger] ordered@[e]).0@ == k;
                assert(out@[e].0@ == k);
            }
            assert forall|a: int, b: int|
                #![trigger out@[a], out@[b]]
                0 <= a < b < out@.len() implies out@[a].0@ != out@[b].0@
                && crate::substring::precedes(out@[a].0@, out@[b].0@) by {
                assert(ordered@[a].rank_le(&ordered@[b]));
                assert(ordered@[a].0@ != ordered@[b].0@);
            }
            assert forall|e: int| 0 <= e < out@.len() implies self@.contains_key(
                (#[trigger] out@[e]).0@,
            ) && out@[e].1 == self@[out@[e].0@] by {
                assert(self@.contains_key(ordered@[e].0@));
            }
        }
        out
    }
}

} // verus!
