//! Reading encoded data back into text.

use crate::encode_string::{encoded, reference_bytes};
use crate::encoder_spec::{ENCODED_MARKER, NUM_STRINGS};
use crate::encoding_table::{lemma_last_position, table_keys, EncodingTable};
use crate::trie::{lemma_best_len, longest_prefix_len};
use crate::substring::push_char;
use vstd::prelude::*;
use vstd::string::StringExecFns;
use vstd::utf8::*;

verus! {

/// Why encoded data could not be read.
#[derive(Clone, Copy, Debug, PartialEq, Eq)]
pub enum DecodeError {
    /// The data ends after the first byte of a reference.
    TruncatedReference,
    /// A reference names a position that the dictionary does not have.
    IndexOutOfRange,
    /// A record starts with a byte that can start neither a scalar nor a reference.
    InvalidLeadingByte,
    /// The bytes after a leading byte do not complete a scalar.
    InvalidScalar,
}

/// Number of bytes of the scalar that starts with `first_byte`; 0 where
/// no scalar starts with it.
pub open spec fn scalar_width(first_byte: u8) -> nat {
    if first_byte <= 0x7F {
        1
    } else if 0xC2 <= first_byte <= 0xDF {
        2
    } else if 0xE0 <= first_byte <= 0xEF {
        3
    } else if 0xF0 <= first_byte <= 0xF4 {
        4
    } else {
        0
    }
}

/// The data starts with one well-formed scalar.
pub open spec fn literal_ok(bytes: Seq<u8>) -> bool {
    bytes.len() > 0 && scalar_width(bytes[0]) > 0 && valid_first_scalar(bytes)
}

/// The error for data that does not start with a well-formed scalar.
pub open spec fn literal_error(bytes: Seq<u8>) -> DecodeError {
    if bytes.len() > 0 && scalar_width(bytes[0]) == 0 {
        DecodeError::InvalidLeadingByte
    } else {
        DecodeError::InvalidScalar
    }
}

/// `text` in front of a decoded rest; an error stays as it is.
pub open spec fn with_prefix(text: Seq<char>, rest: Result<Seq<char>, DecodeError>) -> Result<
    Seq<char>,
    DecodeError,
> {
    match rest {
        Ok(tail) => Ok(text + tail),
        Err(e) => Err(e),
    }
}

/// The text that `bytes` stand for under `table`, or the first error
/// met when reading from the front: a byte of 0xF5 or more starts a
/// two-byte reference, any other byte a UTF-8 scalar.
pub open spec fn decoded(table: Seq<Seq<char>>, bytes: Seq<u8>) -> Result<Seq<char>, DecodeError>
    decreases bytes.len(),
{
    if bytes.len() == 0 {
        Ok(Seq::empty())
    } else if bytes[0] >= 0xF5 {
        if bytes.len() < 2 {
            Err(DecodeError::TruncatedReference)
        } else {
            let index = (bytes[0] - 0xF5) * 256 + bytes[1];
            if index >= table.len() {
                Err(DecodeError::IndexOutOfRange)
            } else {
                with_prefix(table[index], decoded(table, bytes.skip(2)))
            }
        }
    } else if !literal_ok(bytes) {
        Err(literal_error(bytes))
    } else {
        with_prefix(
            seq![decode_first_scalar(bytes) as char],
            decoded(table, bytes.skip(length_of_first_scalar(bytes))),
        )
    }
}

/// Number of bytes of the scalar that starts with `first_byte`; 0 where
/// no scalar starts with it.
pub fn utf8_char_width(first_byte: u8) -> (out: usize)
    ensures
        out == scalar_width(first_byte),
{
    if first_byte <= 0x7F {
        1
    } else if 0xC2 <= first_byte && first_byte <= 0xDF {
        2
    } else if 0xE0 <= first_byte && first_byte <= 0xEF {
        3
    } else if 0xF0 <= first_byte && first_byte <= 0xF4 {
        4
    } else {
        0
    }
}

/// `char::from_u32`: the scalar with the value `v`, where `v` is the
/// value of a scalar, that is at most 0x10FFFF and no surrogate.
#[verifier::external_body]
fn char_from_u32(v: u32) -> (out: Option<char>)
    ensures
        out is Some <==> is_scalar(v),
        out is Some ==> out->0 as u32 == v,
{
    char::from_u32(v)
}

/// The bits of a one-byte scalar are at most 0x7F.
proof fn lemma_bits_width_1(b0: u8)
    by (bit_vector)
    ensures
        (b0 & 0x7F) as u32 <= 0x7F,
{
}

/// The bits of a two-byte sequence are at most 0x7FF, and below 0x80
/// where the leading byte is 0xC0 or 0xC1.
proof fn lemma_bits_width_2(b0: u8, b1: u8)
    by (bit_vector)
    ensures
        ((((b0 & 0x1F) as u32) << 6) | ((b1 & 0x3F) as u32)) <= 0x7FF,
        0xC0 <= b0 <= 0xC1 ==> ((((b0 & 0x1F) as u32) << 6) | ((b1 & 0x3F) as u32)) < 0x80,
{
}

/// The bits of a three-byte sequence are at most 0xFFFF.
proof fn lemma_bits_width_3(b0: u8, b1: u8, b2: u8)
    by (bit_vector)
    ensures
        ((((b0 & 0x0F) as u32) << 12) | (((b1 & 0x3F) as u32) << 6) | ((b2 & 0x3F) as u32))
            <= 0xFFFF,
{
}

/// The bits of a four-byte sequence whose leading byte is 0xF5 or more
/// lie beyond the last scalar.
proof fn lemma_bits_width_4(b0: u8, b1: u8, b2: u8, b3: u8)
    by (bit_vector)
    ensures
        0xF5 <= b0 <= 0xF7 ==> ((((b0 & 0x07) as u32) << 18) | (((b1 & 0x3F) as u32) << 12) | (((b2
            & 0x3F) as u32) << 6) | ((b3 & 0x3F) as u32)) >= 0x140000,
{
}

/// Whether `b` can follow the leading byte of a scalar.
fn is_continuation(b: u8) -> (out: bool)
    ensures
        out == is_continuation_byte(b),
{
    0x80 <= b && b <= 0xBF
}

/// Reads the scalar that starts at position `pos` of `bytes`, and says
/// how many bytes it takes.
pub fn decode_first_char_at(bytes: &[u8], pos: usize) -> (out: Result<(char, usize), DecodeError>)
    requires
        pos < bytes@.len(),
    ensures
        ({
            let rest = bytes@.skip(pos as int);
            match out {
                Ok((c, width)) => {
                    &&& literal_ok(rest)
                    &&& c == decode_first_scalar(rest) as char
                    &&& width == length_of_first_scalar(rest)
                    &&& 1 <= width <= rest.len()
                },
                Err(e) => !literal_ok(rest) && e == literal_error(rest),
            }
        }),
{
    let ghost rest = bytes@.skip(pos as int);
    let b0 = bytes[pos];
    let width = utf8_char_width(b0);
    proof {
        assert(rest[0] == b0);
    }
    if width == 0 {
        return Err(DecodeError::InvalidLeadingByte);
    }
    if bytes.len() - pos < width {
        return Err(DecodeError::InvalidScalar);
    }
    let mut code: u32 = 0;
    if width == 1 {
        code = (b0 & 0x7F) as u32;
        proof {
            lemma_bits_width_1(b0);
        }
    } else if width == 2 {
        let b1 = bytes[pos + 1];
        proof {
            assert(rest[1] == b1);
            lemma_bits_width_2(b0, b1);
        }
        if !is_continuation(b1) {
            return Err(DecodeError::InvalidScalar);
        }
        code = (((b0 & 0x1F) as u32) << 6) | ((b1 & 0x3F) as u32);
        if code < 0x80 {
            return Err(DecodeError::InvalidScalar);
        }
    } else if width == 3 {
        let b1 = bytes[pos + 1];
        let b2 = bytes[pos + 2];
        proof {
            assert(rest[1] == b1);
            assert(rest[2] == b2);
            lemma_bits_width_3(b0, b1, b2);
        }
        if !is_continuation(b1) || !is_continuation(b2) {
            return Err(DecodeError::InvalidScalar);
        }
        code = (((b0 & 0x0F) as u32) << 12) | (((b1 & 0x3F) as u32) << 6) | ((b2 & 0x3F) as u32);
        if code < 0x800 || (0xD800 <= code && code <= 0xDFFF) {
            return Err(DecodeError::InvalidScalar);
        }
    } else {
        let b1 = bytes[pos + 1];
        let b2 = bytes[pos + 2];
        let b3 = bytes[pos + 3];
        proof {
            assert(rest[1] == b1);
            assert(rest[2] == b2);
            assert(rest[3] == b3);
        }
        if !is_continuation(b1) || !is_continuation(b2) || !is_continuation(b3) {
            return Err(DecodeError::InvalidScalar);
        }
        code = (((b0 & 0x07) as u32) << 18) | (((b1 & 0x3F) as u32) << 12) | (((b2 & 0x3F) as u32)
            << 6) | ((b3 & 0x3F) as u32);
        if code < 0x10000 || code > 0x10FFFF {
            return Err(DecodeError::InvalidScalar);
        }
    }
    proof {
        assert(valid_first_scalar(rest));
        assert(code == decode_first_scalar(rest));
        assert(is_scalar(code));
    }
    match char_from_u32(code) {
        Some(c) => {
            proof {
                char_u32_cast(c, code);
            }
            Ok((c, width))
        },
        None => Err(DecodeError::InvalidScalar),
    }
}

/// Reads the scalar at the start of `bytes`, and says how many bytes it takes.
pub fn decode_first_char(bytes: &[u8]) -> (out: Result<(char, usize), DecodeError>)
    requires
        bytes@.len() > 0,
    ensures
        match out {
            Ok((c, width)) => {
                &&& literal_ok(bytes@)
                &&& c == decode_first_scalar(bytes@) as char
                &&& width == length_of_first_scalar(bytes@)
            },
            Err(e) => !literal_ok(bytes@) && e == literal_error(bytes@),
        },
{
    proof {
        assert(bytes@.skip(0) =~= bytes@);
    }
    decode_first_char_at(bytes, 0)
}


/// Putting a text in front twice is putting the joined text in front once.
pub proof fn lemma_with_prefix_twice(
    a: Seq<char>,
    b: Seq<char>,
    rest: Result<Seq<char>, DecodeError>,
)
    ensures
        with_prefix(a, with_prefix(b, rest)) == with_prefix(a + b, rest),
{
    match rest {
        Ok(tail) => {
            assert(a + (b + tail) =~= (a + b) + tail);
        },
        Err(e) => {},
    }
}

/// Decodes `encoded_bytes` with the dictionary `substrings`. The result
/// is the text that the data stands for, or the first error in it.
pub fn decode_string(encoded_bytes: &[u8], substrings: &EncodingTable) -> (out: Result<
    String,
    DecodeError,
>)
    ensures
        match decoded(substrings@, encoded_bytes@) {
            Ok(text) => out is Ok && out->Ok_0@ == text,
            Err(e) => out is Err && out->Err_0 == e,
        },
{
    let ghost table = substrings@;
    let ghost all = encoded_bytes@;
    let n: usize = encoded_bytes.len();
    let mut result = String::new();
    let mut pos: usize = 0;
    proof {
        assert(all.skip(0) =~= all);
        assert(Seq::<char>::empty() + decoded(table, all)->Ok_0 =~= decoded(table, all)->Ok_0);
    }
    while pos < n
        invariant
            table == substrings@,
            all == encoded_bytes@,
            n == all.len(),
            pos <= n,
            decoded(table, all) == with_prefix(result@, decoded(table, all.skip(pos as int))),
        decreases n - pos,
    {
        let ghost rest = all.skip(pos as int);
        let ghost so_far = result@;
        let byte = encoded_bytes[pos];
        proof {
            assert(rest[0] == byte);
        }
        if byte >= ENCODED_MARKER {
            if n - pos < 2 {
                return Err(DecodeError::TruncatedReference);
            }
            let low = encoded_bytes[pos + 1];
            proof {
                assert(rest[1] == low);
            }
            let index: usize = ((byte - ENCODED_MARKER) as usize) * 256 + (low as usize);
            if index >= substrings.len() {
                return Err(DecodeError::IndexOutOfRange);
            }
            result.append(substrings.get(index));
            proof {
                assert(rest.skip(2) =~= all.skip(pos + 2));
                lemma_with_prefix_twice(so_far, table[index as int], decoded(table, rest.skip(2)));
            }
            pos = pos + 2;
        } else {
            match decode_first_char_at(encoded_bytes, pos) {
                Ok((c, width)) => {
                    push_char(&mut result, c);
                    proof {
                        assert(rest.skip(width as int) =~= all.skip(pos + width));
                        assert(so_far.push(c) =~= so_far + seq![c]);
                        lemma_with_prefix_twice(
                            so_far,
                            seq![c],
                            decoded(table, rest.skip(width as int)),
                        );
                    }
                    pos = pos + width;
                },
                Err(e) => {
                    return Err(e);
                },
            }
        }
    }
    proof {
        assert(result@ + Seq::<char>::empty() =~= result@);
    }
    Ok(result)
}

/// Decodes `bytes` with the dictionary `table`.
pub fn decode(bytes: &[u8], table: &EncodingTable) -> (out: Result<String, DecodeError>)
    ensures
        match decoded(table@, bytes@) {
            Ok(text) => out is Ok && out->Ok_0@ == text,
            Err(e) => out is Err && out->Err_0 == e,
        },
{
    decode_string(bytes, table)
}

/// A scalar written in UTF-8 in front of any data is read back as that
/// scalar, and its leading byte is below 0xF5.
pub proof fn lemma_literal_round_trip(c: char, tail: Seq<u8>)
    ensures
        ({
            let bytes = encode_scalar(c as u32) + tail;
            &&& bytes[0] < 0xF5
            &&& literal_ok(bytes)
            &&& decode_first_scalar(bytes) as char == c
            &&& length_of_first_scalar(bytes) == encode_scalar(c as u32).len()
        }),
{
    let own = encode_scalar(c as u32);
    let bytes = own + tail;
    let one = seq![c];
    assert(one.drop_first() =~= Seq::<char>::empty());
    assert(encode_utf8(one.drop_first()) =~= Seq::<u8>::empty());
    assert(encode_utf8(one) =~= own);
    encode_utf8_first_scalar(one);
    char_is_scalar(c);
    char_u32_cast(c, c as u32);
    assert(1 <= own.len() <= 4);
    assert(forall|i: int| 0 <= i < own.len() ==> bytes[i] == own[i]);
    assert(valid_leading_and_continuation_bytes_first_codepoint(own));
    assert(bytes[0] == own[0]);
    assert(is_leading_byte_width_2(own[0]) ==> own.len() >= 2);
    assert(is_leading_byte_width_3(own[0]) ==> own.len() >= 3);
    assert(is_leading_byte_width_4(own[0]) ==> own.len() >= 4);
    assert(decode_first_codepoint(bytes) == decode_first_codepoint(own));
    assert(length_of_first_codepoint(bytes) == length_of_first_codepoint(own));
    assert(valid_first_scalar(bytes));
    if is_leading_byte_width_2(own[0]) {
        lemma_bits_width_2(own[0], own[1]);
    }
    if is_leading_byte_width_4(own[0]) {
        lemma_bits_width_4(own[0], own[1], own[2], own[3]);
    }
}

/// Decoding what was encoded gives the text back, whatever the table
/// holds, as long as references can tell its entries apart.
pub proof fn lemma_round_trip(table: Seq<Seq<char>>, text: Seq<char>)
    requires
        table.len() <= NUM_STRINGS,
    ensures
        decoded(table, encoded(table, text)) == Ok::<Seq<char>, DecodeError>(text),
    decreases text.len(),
{
    if text.len() > 0 {
        let k = longest_prefix_len(table_keys(table), text);
        lemma_best_len(table_keys(table), text, text.len());
        if 0 < k <= text.len() {
            let key = text.take(k as int);
            let rest = text.skip(k as int);
            let index = crate::encoding_table::last_position(table, key);
            lemma_last_position(table, key);
            let bytes = reference_bytes(index) + encoded(table, rest);
            assert(bytes == encoded(table, text));
            assert(bytes[0] == (0xF5 + index / 256) as u8);
            assert(bytes[1] == (index % 256) as u8);
            assert(bytes.skip(2) =~= encoded(table, rest));
            lemma_round_trip(table, rest);
            assert(key + rest =~= text);
            assert(table.contains(key));
            assert(bytes[0] >= 0xF5);
            assert((bytes[0] - 0xF5) * 256 + bytes[1] == index);
            assert(decoded(table, bytes) == with_prefix(key, decoded(table, bytes.skip(2))));
        } else {
            let c = text[0];
            let rest = text.skip(1);
            let tail = encoded(table, rest);
            let bytes = encode_scalar(c as u32) + tail;
            assert(bytes == encoded(table, text));
            lemma_literal_round_trip(c, tail);
            assert(bytes.skip(encode_scalar(c as u32).len() as int) =~= tail);
            lemma_round_trip(table, rest);
            assert(seq![c] + rest =~= text);
            assert(decoded(table, bytes) == with_prefix(seq![c], decoded(table, tail)));
        }
    } else {
        assert(text =~= Seq::<char>::empty());
    }
}

} // verus!
