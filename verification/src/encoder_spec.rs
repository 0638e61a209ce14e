//! The parameters of the encoded form.

use vstd::prelude::*;

verus! {

/// First value of the two-byte references.
pub const INDEX_START: u16 = 0xF500;

/// Last value that a two-byte reference could take.
pub const INDEX_END: u16 = 0xFFFF;

/// Smallest leading byte of a reference.
pub const ENCODED_MARKER: u8 = 0xF5;

/// Number of substrings that references can tell apart.
pub const NUM_STRINGS: usize = 2815;

/// Number of bytes that one reference takes.
pub const ENCODED_SIZE: usize = 2;

/// What the selection of substrings needs to know of the encoded form.
#[derive(Clone, Copy, Debug, PartialEq, Eq)]
pub struct EncoderSpec {
    pub num_strings: usize,
    pub encoded_size: usize,
}

/// Bytes saved by replacing `count` occurrences of a text of `len`
/// bytes with references of `encoded_size` bytes; 0 where nothing is
/// saved.
pub open spec fn gain(len: nat, count: nat, encoded_size: nat) -> nat {
    if len * count >= encoded_size * count {
        (len * count - encoded_size * count) as nat
    } else {
        0
    }
}

impl EncoderSpec {
    /// Bytes saved by replacing `count` occurrences of `string` with
    /// references. The result saturates at the largest `usize`.
    pub fn compression_gain(&self, string: &str, count: usize) -> (out: usize)
        ensures
            out == vstd::math::min(
                gain(crate::substring::byte_len(string@), count as nat, self.encoded_size as nat) as int,
                usize::MAX as int,
            ),
    {
        let bytes = string.as_bytes();
        saturating_gain(bytes.len(), count, self.encoded_size)
    }
}

/// The gain for a text of `len` bytes, saturating at the largest `usize`.
pub fn saturating_gain(len: usize, count: usize, encoded_size: usize) -> (out: usize)
    ensures
        out == vstd::math::min(
            gain(len as nat, count as nat, encoded_size as nat) as int,
            usize::MAX as int,
        ),
{
    if len <= encoded_size {
        proof {
            assert(len * count <= encoded_size * count) by (nonlinear_arith)
                requires
                    len <= encoded_size,
            ;
        }
        0
    } else {
        let per_occurrence: usize = len - encoded_size;
        proof {
            assert(len * count - encoded_size * count == per_occurrence * count) by (nonlinear_arith)
                requires
                    per_occurrence == len - encoded_size,
            ;
            assert(per_occurrence * count >= 0) by (nonlinear_arith);
        }
        match per_occurrence.checked_mul(count) {
            Some(total) => total,
            None => usize::MAX,
        }
    }
}

/// The parameters of this encoder: as many substrings as there are
/// values from `INDEX_START` up to, and without, `INDEX_END`, and two
/// bytes for each reference.
pub fn encoder_spec() -> (out: EncoderSpec)
    ensures
        out.num_strings == NUM_STRINGS,
        out.num_strings == INDEX_END - INDEX_START,
        out.encoded_size == ENCODED_SIZE,
{
    EncoderSpec { num_strings: NUM_STRINGS, encoded_size: ENCODED_SIZE }
}

} // verus!
