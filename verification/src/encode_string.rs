//! Writing a text as literal scalars and dictionary references.

use crate::encoder_spec::{INDEX_START, NUM_STRINGS};
use crate::encoding_table::{last_position, table_keys, EncodingTable};
use crate::substring::{byte_len, to_chars};
use crate::trie::longest_prefix_len;
use vstd::prelude::*;
use vstd::utf8::*;

verus! {

/// The two bytes of the reference to position `index`.
pub open spec fn reference_bytes(index: int) -> Seq<u8> {
    seq![(0xF5 + index / 256) as u8, (index % 256) as u8]
}

/// The encoded form of `text` under `table`: at each position the
/// longest entry that matches is written as a reference to its last
/// position in the table, and where none matches the next scalar is
/// written in UTF-8.
pub open spec fn encoded(table: Seq<Seq<char>>, text: Seq<char>) -> Seq<u8>
    decreases text.len(),
{
    if text.len() == 0 {
        Seq::empty()
    } else {
        let k = longest_prefix_len(table_keys(table), text);
        if 0 < k <= text.len() {
            reference_bytes(last_position(table, text.take(k as int))) + encoded(
                table,
                text.skip(k as int),
            )
        } else {
            encode_scalar(text[0] as u32) + encoded(table, text.skip(1))
        }
    }
}

/// Appends the UTF-8 encoding of `c` to `out`.
pub fn push_scalar(out: &mut Vec<u8>, c: char)
    ensures
        final(out)@ == old(out)@ + encode_scalar(c as u32),
{
    let v: u32 = c as u32;
    proof {
        char_is_scalar(c);
    }
    if v <= 0x7F {
        out.push((v & 0x7F) as u8);
        proof {
            assert(out@ =~= old(out)@ + encode_scalar(v));
        }
    } else if v <= 0x7FF {
        out.push(0xC0 | ((v >> 6) & 0x1F) as u8);
        out.push(0x80 | (v & 0x3F) as u8);
        proof {
            assert(out@ =~= old(out)@ + encode_scalar(v));
        }
    } else if v <= 0xFFFF {
        out.push(0xE0 | ((v >> 12) & 0x0F) as u8);
        out.push(0x80 | ((v >> 6) & 0x3F) as u8);
        out.push(0x80 | (v & 0x3F) as u8);
        proof {
            assert(out@ =~= old(out)@ + encode_scalar(v));
        }
    } else {
        out.push(0xF0 | ((v >> 18) & 0x7) as u8);
        out.push(0x80 | ((v >> 12) & 0x3F) as u8);
        out.push(0x80 | ((v >> 6) & 0x3F) as u8);
        out.push(0x80 | (v & 0x3F) as u8);
        proof {
            assert(out@ =~= old(out)@ + encode_scalar(v));
        }
    }
}


/// Encodes `text` under `table`.
pub fn encode_chars(text: &Vec<char>, table: &EncodingTable) -> (out: Vec<u8>)
    requires
        table.wf(),
        table@.len() <= NUM_STRINGS,
    ensures
        out@ == encoded(table@, text@),
{
    let mut out: Vec<u8> = Vec::new();
    let mut pos: usize = 0;
    proof {
        assert(text@.skip(0) =~= text@);
    }
    while pos < text.len()
        invariant
            table.wf(),
            table@.len() <= NUM_STRINGS,
            pos <= text@.len(),
            encoded(table@, text@) == out@ + encoded(table@, text@.skip(pos as int)),
        decreases text@.len() - pos,
    {
        let ghost t = text@.skip(pos as int);
        let ghost before = out@;
        match table.find_match_at(text, pos) {
            Some((index, len)) => {
                let code: u16 = INDEX_START + index as u16;
                out.push((code / 256) as u8);
                out.push((code % 256) as u8);
                proof {
                    assert(out@ =~= before + reference_bytes(index as int));
                    assert(t.skip(len as int) =~= text@.skip(pos + len));
                    assert(out@ + encoded(table@, text@.skip(pos + len)) =~= before + encoded(
                        table@,
                        t,
                    ));
                }
                pos = pos + len;
            },
            None => {
                let c = text[pos];
                push_scalar(&mut out, c);
                proof {
                    assert(t[0] == c);
                    assert(t.skip(1) =~= text@.skip(pos + 1));
                    assert(out@ + encoded(table@, text@.skip(pos + 1)) =~= before + encoded(
                        table@,
                        t,
                    ));
                }
                pos = pos + 1;
            },
        }
    }
    proof {
        assert(out@ + encoded(table@, text@.skip(pos as int)) =~= out@);
    }
    out
}

/// Encodes `source` with the dictionary `substrings`, which must hold
/// no more entries than references can tell apart.
pub fn encode_string(source: &str, substrings: &EncodingTable) -> (out: Vec<u8>)
    requires
        substrings.wf(),
        substrings@.len() <= NUM_STRINGS,
    ensures
        out@ == encoded(substrings@, source@),
{
    let chars = to_chars(source);
    encode_chars(&chars, substrings)
}

/// Without a dictionary the encoded form is the UTF-8 encoding of the
/// text: every scalar is written as it is.
pub proof fn lemma_encoded_without_table(table: Seq<Seq<char>>, text: Seq<char>)
    requires
        table.len() == 0,
    ensures
        encoded(table, text) == encode_utf8(text),
    decreases text.len(),
{
    if text.len() > 0 {
        let keys = table_keys(table);
        crate::trie::lemma_best_len(keys, text, text.len());
        let k = longest_prefix_len(keys, text);
        if k > 0 {
            assert(table.contains(text.take(k as int)));
        }
        assert(text.skip(1) =~= text.drop_first());
        lemma_encoded_without_table(table, text.skip(1));
    }
}

/// Number of references in the encoded form of `text` under `table`.
pub open spec fn reference_count(table: Seq<Seq<char>>, text: Seq<char>) -> nat
    decreases text.len(),
{
    if text.len() == 0 {
        0
    } else {
        let k = longest_prefix_len(table_keys(table), text);
        if 0 < k <= text.len() {
            1 + reference_count(table, text.skip(k as int))
        } else {
            reference_count(table, text.skip(1))
        }
    }
}

/// The bytes of a text are those of its first `k` scalars and those
/// of the rest.
pub proof fn lemma_byte_len_split(text: Seq<char>, k: int)
    requires
        0 <= k <= text.len(),
    ensures
        byte_len(text) == byte_len(text.take(k)) + byte_len(text.skip(k)),
    decreases k,
{
    if k == 0 {
        assert(text.skip(0) =~= text);
        assert(text.take(0) =~= Seq::<char>::empty());
    } else {
        let rest = text.drop_first();
        lemma_byte_len_split(rest, k - 1);
        assert(rest.skip(k - 1) =~= text.skip(k));
        assert(text.take(k).drop_first() =~= rest.take(k - 1));
        assert(text.take(k)[0] == text[0]);
    }
}

/// Where every entry of the dictionary takes more than two bytes, each
/// reference saves a byte at least: the encoded form and the number of
/// its references together are no more than the bytes of the text.
pub proof fn lemma_references_shrink(table: Seq<Seq<char>>, text: Seq<char>)
    requires
        forall|i: int| 0 <= i < table.len() ==> byte_len(#[trigger] table[i]) > 2,
    ensures
        encoded(table, text).len() + reference_count(table, text) <= byte_len(text),
    decreases text.len(),
{
    if text.len() > 0 {
        let keys = table_keys(table);
        let k = longest_prefix_len(keys, text);
        crate::trie::lemma_best_len(keys, text, text.len());
        if 0 < k <= text.len() {
            let key = text.take(k as int);
            assert(table.contains(key));
            let i = choose|i: int| 0 <= i < table.len() && table[i] == key;
            assert(byte_len(table[i]) > 2);
            lemma_byte_len_split(text, k as int);
            lemma_references_shrink(table, text.skip(k as int));
        } else {
            assert(text.skip(1) =~= text.drop_first());
            lemma_references_shrink(table, text.skip(1));
        }
    }
}

/// A text takes at least one byte for each scalar.
pub proof fn lemma_byte_len_at_least(text: Seq<char>)
    ensures
        encode_utf8(text).len() >= text.len(),
    decreases text.len(),
{
    if text.len() > 0 {
        lemma_byte_len_at_least(text.drop_first());
    }
}

/// The encoded form takes at most four bytes for each scalar of the
/// text, and so at most four times the bytes of the text.
pub proof fn lemma_bounded_blowup(table: Seq<Seq<char>>, text: Seq<char>)
    ensures
        encoded(table, text).len() <= 4 * text.len(),
        encoded(table, text).len() <= 4 * encode_utf8(text).len(),
    decreases text.len(),
{
    lemma_byte_len_at_least(text);
    if text.len() > 0 {
        let k = longest_prefix_len(table_keys(table), text);
        if 0 < k <= text.len() {
            lemma_bounded_blowup(table, text.skip(k as int));
        } else {
            lemma_bounded_blowup(table, text.skip(1));
        }
    }
}

} // verus!
