//! The mapping from substring to occurrence count.

use crate::sorting::{lemma_rearranged_distinct, lemma_same_elements, sort_by_rank, sorted};
use crate::substring::{to_chars, Substring, SubstringCount};
use crate::trie::{longest_prefix_len, Trie};
use vstd::prelude::*;

verus! {

/// Occurrence counts of substrings. Its view is the map from each
/// counted text to its count.
pub struct SubstringCounts {
    trie: Trie<usize>,
}

impl View for SubstringCounts {
    type V = Map<Seq<char>, usize>;

    closed spec fn view(&self) -> Map<Seq<char>, usize> {
        self.trie@
    }
}

impl SubstringCounts {
    /// The invariant: the tree is well formed and every count is at least 1.
    pub closed spec fn wf(&self) -> bool {
        &&& self.trie.wf()
        &&& forall|k: Seq<char>| #[trigger] self.trie@.contains_key(k) ==> self.trie@[k] >= 1
    }

    /// The key object stored for the text `k`.
    pub closed spec fn key_at(&self, k: Seq<char>) -> Substring {
        self.trie.key_at(k)
    }

    /// Every count is at least 1.
    pub proof fn lemma_counts_positive(&self)
        requires
            self.wf(),
        ensures
            forall|k: Seq<char>| #[trigger] self@.contains_key(k) ==> self@[k] >= 1,
            self@.dom().finite(),
    {
        self.trie.lemma_finite();
    }

    /// The stored key for a text has that text as its view.
    pub proof fn lemma_key_at(&self, k: Seq<char>)
        requires
            self.wf(),
            self@.contains_key(k),
        ensures
            self.key_at(k)@ == k,
    {
        self.trie.lemma_key_at(k);
    }

    /// No counts.
    pub fn new() -> (out: Self)
        ensures
            out.wf(),
            out@ == Map::<Seq<char>, usize>::empty(),
    {
        SubstringCounts { trie: Trie::new() }
    }

    /// Number of counted substrings.
    pub fn len(&self) -> (out: usize)
        requires
            self.wf(),
        ensures
            out == self@.dom().len(),
            self@.dom().finite(),
    {
        self.trie.len()
    }

    /// Sets the count of `substring` to `count`.
    pub fn insert(&mut self, substring: Substring, count: usize)
        requires
            old(self).wf(),
            count >= 1,
        ensures
            final(self).wf(),
            final(self)@ == old(self)@.insert(substring@, count),
            final(self).key_at(substring@) == substring,
            forall|k: Seq<char>|
                k != substring@ && old(self)@.contains_key(k) ==> final(self).key_at(k) == old(
                    self,
                ).key_at(k),
    {
        self.trie.insert(substring, count);
    }

    /// Mutable access to the count of `substring`, if it is counted. The
    /// invariant holds again once the count is left at 1 or more.
    pub fn get_count_mut(&mut self, substring: &Substring) -> (out: Option<&mut usize>)
        requires
            old(self).wf(),
        ensures
            out is Some <==> old(self)@.contains_key(substring@),
            out is Some ==> *out->0 == old(self)@[substring@],
            out is Some ==> final(self)@ == old(self)@.insert(substring@, *final(out->0)),
            out is Some && *final(out->0) >= 1 ==> final(self).wf(),
            out is None ==> *final(self) == *old(self),
    {
        self.trie.get_mut(substring)
    }

    /// Whether `substring` is counted.
    pub fn contains_key(&self, substring: &Substring) -> (out: bool)
        requires
            self.wf(),
        ensures
            out == self@.contains_key(substring@),
    {
        self.trie.contains_key(substring)
    }

    /// The longest counted substring that `text` has as a prefix from
    /// position `start` on, with its count.
    pub fn find_match_at(&self, text: &Vec<char>, start: usize) -> (out: Option<SubstringCount>)
        requires
            self.wf(),
            start <= text@.len(),
        ensures
            ({
                let t = text@.skip(start as int);
                let k = longest_prefix_len(self@.dom(), t);
                match out {
                    None => k == 0,
                    Some(found) => {
                        &&& 0 < k <= t.len()
                        &&& found.value@ == t.take(k as int)
                        &&& self@.contains_key(found.value@)
                        &&& found.count == self@[found.value@]
                    },
                }
            }),
    {
        match self.trie.find_match_at(text, start) {
            Some((_, key, value)) => Some(SubstringCount { value: key.clone(), count: *value }),
            None => None,
        }
    }

    /// The longest counted substring that is a prefix of `text`, with its count.
    pub fn find_match(&self, text: &str) -> (out: Option<SubstringCount>)
        requires
            self.wf(),
        ensures
            ({
                let k = longest_prefix_len(self@.dom(), text@);
                match out {
                    None => k == 0,
                    Some(found) => {
                        &&& 0 < k <= text@.len()
                        &&& found.value@ == text@.take(k as int)
                        &&& self@.contains_key(found.value@)
                        &&& found.count == self@[found.value@]
                    },
                }
            }),
    {
        let chars = to_chars(text);
        proof {
            assert(chars@.skip(0) =~= chars@);
        }
        self.find_match_at(&chars, 0)
    }

    /// Every counted substring with its count, each once.
    pub fn iter(&self) -> (out: Vec<(&Substring, usize)>)
        requires
            self.wf(),
        ensures
            out@.len() == self@.dom().len(),
            forall|e: int|
                0 <= e < out@.len() ==> {
                    &&& self@.contains_key((#[trigger] out@[e]).0@)
                    &&& out@[e].1 == self@[out@[e].0@]
                    &&& *out@[e].0 == self.key_at(out@[e].0@)
                },
            forall|e1: int, e2: int|
                0 <= e1 < e2 < out@.len() ==> (#[trigger] out@[e1]).0@ != (#[trigger] out@[e2]).0@,
            forall|k: Seq<char>|
                self@.contains_key(k) ==> exists|e: int|
                    0 <= e < out@.len() && (#[trigger] out@[e]).0@ == k,
    {
        let entries = self.trie.iter();
        let mut out: Vec<(&Substring, usize)> = Vec::new();
        let mut i: usize = 0;
        while i < entries.len()
            invariant
                i <= entries@.len(),
                out@.len() == i,
                forall|e: int|
                    0 <= e < i ==> (#[trigger] out@[e]).0 == entries@[e].0 && out@[e].1
                        == *entries@[e].1,
            decreases entries@.len() - i,
        {
            let entry = &entries[i];
            out.push((entry.0, *entry.1));
            i = i + 1;
        }
        proof {
            assert forall|k: Seq<char>| self@.contains_key(k) implies exists|e: int|
                0 <= e < out@.len() && (#[trigger] out@[e]).0@ == k by {
                let e = choose|e: int| 0 <= e < entries@.len() && (#[trigger] entries@[e]).0@ == k;
                assert(out@[e].0@ == k);
            }
            assert forall|e1: int, e2: int| 0 <= e1 < e2 < out@.len() implies (
            #[trigger] out@[e1]).0@ != (#[trigger] out@[e2]).0@ by {
                assert(entries@[e1].0@ != entries@[e2].0@);
            }
            assert forall|e: int| 0 <= e < out@.len() implies {
                &&& self@.contains_key((#[trigger] out@[e]).0@)
                &&& out@[e].1 == self@[out@[e].0@]
                &&& *out@[e].0 == self.key_at(out@[e].0@)
            } by {
                assert(self.trie@.contains_key(entries@[e].0@));
            }
        }
        out
    }

    /// Keeps the entries for which `f` answers true and drops the others.
    pub fn retain<F: Fn(&Substring, usize) -> bool>(&mut self, f: F)
        requires
            old(self).wf(),
            forall|k: &Substring, c: usize| f.requires((k, c)),
        ensures
            final(self).wf(),
            final(self)@.submap_of(old(self)@),
            forall|k: Seq<char>| #[trigger]
                final(self)@.contains_key(k) ==> f.ensures(
                    (&old(self).key_at(k), old(self)@[k]),
                    true,
                ),
            forall|k: Seq<char>| #[trigger]
                old(self)@.contains_key(k) && !final(self)@.contains_key(k) ==> f.ensures(
                    (&old(self).key_at(k), old(self)@[k]),
                    false,
                ),
    {
        let ghost before = self.trie;
        let decide = &f;
        let by_ref = |k: &Substring, c: &usize| -> (b: bool)
            requires
                decide.requires((k, *c)),
            ensures
                decide.ensures((k, *c), b),
            { decide(k, *c) };
        self.trie.retain(by_ref);
        proof {
            assert forall|k: Seq<char>| #[trigger] self.trie@.contains_key(k) implies before@.contains_key(k)
                && self.trie@[k] == before@[k] && self.trie@[k] >= 1 && f.ensures(
                (&before.key_at(k), before@[k]),
                true,
            ) by {
                assert(by_ref.ensures((&before.key_at(k), &before@[k]), true));
            }
            assert forall|k: Seq<char>| #[trigger]
                before@.contains_key(k) && !self.trie@.contains_key(k) implies f.ensures(
                (&before.key_at(k), before@[k]),
                false,
            ) by {
                assert(by_ref.ensures((&before.key_at(k), &before@[k]), false));
            }
        }
    }

    /// Every counted substring with its count, in the canonical order of
    /// substrings.
    pub fn get_sorted_counts(&self) -> (out: Vec<(&Substring, usize)>)
        requires
            self.wf(),
        ensures
            sorted(out@),
            out@.len() == self@.dom().len(),
            forall|e: int|
                0 <= e < out@.len() ==> {
                    &&& self@.contains_key((#[trigger] out@[e]).0@)
                    &&& out@[e].1 == self@[out@[e].0@]
                },
            forall|k: Seq<char>|
                self@.contains_key(k) ==> exists|e: int|
                    0 <= e < out@.len() && (#[trigger] out@[e]).0@ == k,
            forall|e1: int, e2: int|
                0 <= e1 < e2 < out@.len() ==> (#[trigger] out@[e1]).0@ != (#[trigger] out@[e2]).0@,
    {
        let listed = self.iter();
        let ghost before = listed@;
        let out = sort_by_rank(listed);
        proof {
            lemma_same_elements(out@, before);
            assert(before.no_duplicates()) by {
                assert forall|a: int, b: int|
                    0 <= a < before.len() && 0 <= b < before.len() && a != b implies before[a]
                    != before[b] by {
                    if a < b {
                        assert(before[a].0@ != before[b].0@);
                    } else {
                        assert(before[b].0@ != before[a].0@);
                    }
                }
            }
            lemma_rearranged_distinct(before, out@);
            assert forall|e1: int, e2: int| 0 <= e1 < e2 < out@.len() implies (
            #[trigger] out@[e1]).0@ != (#[trigger] out@[e2]).0@ by {
                assert(out@.contains(out@[e1]));
                assert(out@.contains(out@[e2]));
                let a = choose|a: int| 0 <= a < before.len() && before[a] == out@[e1];
                let b = choose|b: int| 0 <= b < before.len() && before[b] == out@[e2];
                if a < b {
                    assert(before[a].0@ != before[b].0@);
                } else if b < a {
                    assert(before[b].0@ != before[a].0@);
                }
            }
            assert forall|e: int| 0 <= e < out@.len() implies {
                &&& self@.contains_key((#[trigger] out@[e]).0@)
                &&& out@[e].1 == self@[out@[e].0@]
            } by {
                assert(out@.contains(out@[e]));
                assert(before.contains(out@[e]));
                let j = choose|j: int| 0 <= j < before.len() && before[j] == out@[e];
                assert(self@.contains_key(before[j].0@));
            }
            assert forall|k: Seq<char>| self@.contains_key(k) implies exists|e: int|
                0 <= e < out@.len() && (#[trigger] out@[e]).0@ == k by {
                let j = choose|j: int| 0 <= j < before.len() && (#[trigger] before[j]).0@ == k;
                assert(before.contains(before[j]));
                assert(out@.contains(before[j]));
                let e = choose|e: int| 0 <= e < out@.len() && out@[e] == before[j];
                assert(out@[e].0@ == k);
            }
        }
        out
    }
}

} // verus!
