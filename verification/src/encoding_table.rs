//! The dictionary used to encode and to decode: substrings by position,
//! searchable by longest prefix.

use crate::sorting::{sort_by_rank, sorted, Ranked};
use crate::substring::{precedes, to_chars, Substring};
use crate::trie::{lemma_best_len, longest_prefix_len, Trie};
use vstd::prelude::*;

verus! {

/// The texts that occur in `table`.
pub open spec fn table_keys(table: Seq<Seq<char>>) -> Set<Seq<char>> {
    Set::new(|k: Seq<char>| table.contains(k))
}

/// The last position of `table` that holds `key`, or -1 where none does.
pub open spec fn last_position(table: Seq<Seq<char>>, key: Seq<char>) -> int
    decreases table.len(),
{
    if table.len() == 0 {
        -1
    } else if table.last() == key {
        table.len() - 1
    } else {
        last_position(table.drop_last(), key)
    }
}

/// The last position of a text that occurs in the table holds that text.
pub proof fn lemma_last_position(table: Seq<Seq<char>>, key: Seq<char>)
    ensures
        -1 <= last_position(table, key) < table.len(),
        table.contains(key) <==> last_position(table, key) >= 0,
        last_position(table, key) >= 0 ==> table[last_position(table, key)] == key,
    decreases table.len(),
{
    if table.len() > 0 {
        if table.last() == key {
            assert(table[table.len() - 1] == key);
        } else {
            lemma_last_position(table.drop_last(), key);
            if table.contains(key) {
                let e = choose|e: int| 0 <= e < table.len() && table[e] == key;
                assert(table.drop_last()[e] == key);
            }
            let p = last_position(table.drop_last(), key);
            if p >= 0 {
                assert(table[p] == table.drop_last()[p]);
            }
        }
    }
}

/// The views of `entries`, position by position.
pub open spec fn texts_of(entries: Seq<Substring>) -> Seq<Seq<char>> {
    entries.map_values(|s: Substring| s@)
}

/// The longest match is an entry of the table and a prefix of the text;
/// every entry that is a non-empty prefix of the text is at most as
/// long, and equal to it where it is as long.
pub proof fn lemma_longest_match(table: Seq<Seq<char>>, text: Seq<char>)
    ensures
        ({
            let k = longest_prefix_len(table_keys(table), text);
            &&& k <= text.len()
            &&& k > 0 ==> table.contains(text.take(k as int))
            &&& forall|i: int|
                0 <= i < table.len() && (#[trigger] table[i]).len() > 0 && table[i].is_prefix_of(
                    text,
                ) ==> table[i].len() <= k && (table[i].len() == k ==> table[i] == text.take(
                    k as int,
                ))
        }),
{
    let dom = table_keys(table);
    let k = longest_prefix_len(dom, text);
    lemma_best_len(dom, text, text.len());
    assert forall|i: int|
        0 <= i < table.len() && (#[trigger] table[i]).len() > 0 && table[i].is_prefix_of(
            text,
        ) implies table[i].len() <= k && (table[i].len() == k ==> table[i] == text.take(
        k as int,
    )) by {
        let e = table[i];
        assert(e =~= text.take(e.len() as int));
        assert(table.contains(e));
        assert(dom.contains(text.take(e.len() as int)));
    }
}

/// The dictionary: substrings in canonical order, each position being
/// the index that stands for the substring in encoded data. Its view is
/// the sequence of texts.
pub struct EncodingTable {
    entries: Vec<Substring>,
    search_index: Trie<usize>,
}

impl View for EncodingTable {
    type V = Seq<Seq<char>>;

    closed spec fn view(&self) -> Seq<Seq<char>> {
        texts_of(self.entries@)
    }
}

impl EncodingTable {
    /// The invariant: the entries are in canonical order and the search
    /// index maps each text of the table to a position that holds it.
    pub closed spec fn wf(&self) -> bool {
        &&& self.search_index.wf()
        &&& sorted(self.entries@)
        &&& self.search_index@.dom() =~= table_keys(self@)
        &&& forall|k: Seq<char>| #[trigger]
            self.search_index@.contains_key(k) ==> self.search_index@[k] == last_position(
                self@,
                k,
            )
    }

    /// The entries as substrings.
    pub closed spec fn entries(&self) -> Seq<Substring> {
        self.entries@
    }

    /// The view lists the texts of the entries, which are in canonical order.
    pub proof fn lemma_entries(&self)
        requires
            self.wf(),
        ensures
            self@ == texts_of(self.entries()),
            sorted(self.entries()),
    {
    }

    /// Earlier entries come first in the canonical order: they are at
    /// least as long in bytes, and on equal lengths lexicographically
    /// no greater.
    pub proof fn lemma_order(&self, i: int, j: int)
        requires
            self.wf(),
            0 <= i < j < self@.len(),
        ensures
            precedes(self@[i], self@[j]),
    {
        assert(self.entries@[i].rank_le(&self.entries@[j]));
    }

    /// The table of `substrings`, put in canonical order.
    pub fn new(substrings: Vec<Substring>) -> (out: Self)
        ensures
            out.wf(),
            out.entries().to_multiset() == substrings@.to_multiset(),
            out@.len() == substrings@.len(),
    {
        let entries = sort_by_rank(substrings);
        let mut search_index: Trie<usize> = Trie::new();
        let mut i: usize = 0;
        while i < entries.len()
            invariant
                i <= entries@.len(),
                search_index.wf(),
                forall|k: Seq<char>|
                    search_index@.contains_key(k) <==> texts_of(entries@).take(i as int).contains(
                        k,
                    ),
                forall|k: Seq<char>| #[trigger]
                    search_index@.contains_key(k) ==> search_index@[k] == last_position(
                        texts_of(entries@).take(i as int),
                        k,
                    ),
            decreases entries@.len() - i,
        {
            let ghost before = search_index@;
            let key = entries[i].clone();
            search_index.insert(key, i);
            proof {
                let texts = texts_of(entries@);
                assert(texts.take(i as int + 1) =~= texts.take(i as int).push(texts[i as int]));
                assert(texts.take(i as int + 1).drop_last() =~= texts.take(i as int));
                assert forall|k: Seq<char>| #[trigger]
                    search_index@.contains_key(k) implies search_index@[k] == last_position(
                    texts.take(i as int + 1),
                    k,
                ) by {
                    if k != texts[i as int] {
                        assert(before.contains_key(k));
                    }
                }
                assert forall|k: Seq<char>| search_index@.contains_key(k) <==> texts.take(
                    i as int + 1,
                ).contains(k) by {
                    if texts.take(i as int + 1).contains(k) {
                        let longer = texts.take(i as int + 1);
                        let e = choose|e: int| 0 <= e < longer.len() && longer[e] == k;
                        if e < i {
                            assert(texts.take(i as int)[e] == k);
                        }
                    }
                    if search_index@.contains_key(k) {
                        if k == texts[i as int] {
                            assert(texts.take(i as int + 1)[i as int] == k);
                        } else {
                            assert(before.contains_key(k));
                            let shorter = texts.take(i as int);
                            let e = choose|e: int| 0 <= e < shorter.len() && shorter[e] == k;
                            assert(texts.take(i as int + 1)[e] == k);
                        }
                    }
                }
            }
            i = i + 1;
        }
        let out = EncodingTable { entries, search_index };
        proof {
            assert(texts_of(out.entries@).take(i as int) =~= out@);
            assert(out.search_index@.dom() =~= table_keys(out@));
        }
        out
    }

    /// Number of entries.
    pub fn len(&self) -> (out: usize)
        ensures
            out == self@.len(),
    {
        self.entries.len()
    }

    /// The substring at position `index`.
    pub fn get(&self, index: usize) -> (out: &str)
        requires
            index < self@.len(),
        ensures
            out@ == self@[index as int],
    {
        self.entries[index].as_str()
    }

    /// The longest entry that `text` has as a prefix from position
    /// `start` on: its position and its length in scalars.
    pub fn find_match_at(&self, text: &Vec<char>, start: usize) -> (out: Option<(usize, usize)>)
        requires
            self.wf(),
            start <= text@.len(),
        ensures
            ({
                let t = text@.skip(start as int);
                let k = longest_prefix_len(table_keys(self@), t);
                match out {
                    None => k == 0,
                    Some((index, len)) => {
                        &&& len == k
                        &&& 0 < k <= t.len()
                        &&& index < self@.len()
                        &&& index == last_position(self@, t.take(k as int))
                        &&& self@[index as int] == t.take(k as int)
                    },
                }
            }),
    {
        match self.search_index.find_match_at(text, start) {
            Some((len, key, index)) => {
                proof {
                    lemma_last_position(self@, key@);
                }
                Some((*index, len))
            },
            None => None,
        }
    }

    /// The longest entry that is a prefix of `text`: its position and its text.
    pub fn find_match(&self, text: &str) -> (out: Option<(usize, &str)>)
        requires
            self.wf(),
        ensures
            ({
                let k = longest_prefix_len(table_keys(self@), text@);
                match out {
                    None => k == 0,
                    Some((index, found)) => {
                        &&& 0 < k <= text@.len()
                        &&& index < self@.len()
                        &&& index == last_position(self@, text@.take(k as int))
                        &&& self@[index as int] == text@.take(k as int)
                        &&& found@ == self@[index as int]
                    },
                }
            }),
    {
        let chars = to_chars(text);
        proof {
            assert(chars@.skip(0) =~= chars@);
        }
        match self.find_match_at(&chars, 0) {
            Some((index, _)) => Some((index, self.entries[index].as_str())),
            None => None,
        }
    }

    /// The texts of the entries from position `from` up to `to`.
    fn strings_between(&self, from: usize, to: usize) -> (out: Vec<String>)
        requires
            from <= to <= self@.len(),
        ensures
            out@.len() == to - from,
            forall|i: int| 0 <= i < out@.len() ==> (#[trigger] out@[i])@ == self@[from + i],
    {
        let mut out: Vec<String> = Vec::new();
        let mut i: usize = from;
        while i < to
            invariant
                from <= i <= to <= self@.len(),
                out@.len() == i - from,
                forall|j: int| 0 <= j < out@.len() ==> (#[trigger] out@[j])@ == self@[from + j],
            decreases to - i,
        {
            out.push(self.entries[i].to_string());
            i = i + 1;
        }
        out
    }

    /// The texts of all entries, in order.
    pub fn to_vec(&self) -> (out: Vec<String>)
        ensures
            out@.len() == self@.len(),
            forall|i: int| 0 <= i < out@.len() ==> (#[trigger] out@[i])@ == self@[i],
    {
        self.strings_between(0, self.entries.len())
    }

    /// The texts of the first `n` entries.
    pub fn top(&self, n: usize) -> (out: Vec<String>)
        requires
            n <= self@.len(),
        ensures
            out@.len() == n,
            forall|i: int| 0 <= i < n ==> (#[trigger] out@[i])@ == self@[i],
    {
        self.strings_between(0, n)
    }

    /// The texts of the last `n` entries.
    pub fn bottom(&self, n: usize) -> (out: Vec<String>)
        requires
            n <= self@.len(),
        ensures
            out@.len() == n,
            forall|i: int| 0 <= i < n ==> (#[trigger] out@[i])@ == self@[self@.len() - n + i],
    {
        self.strings_between(self.entries.len() - n, self.entries.len())
    }
}

} // verus!
