//! Compressing a text: learn the ledger, choose the dictionary, encode.

use crate::build_ledger::{build_ledger, runs};
use crate::decoder::{decoded, lemma_round_trip, DecodeError};
use crate::encode_string::{
    encode_string, encoded, lemma_bounded_blowup, lemma_encoded_without_table,
    lemma_references_shrink, reference_count,
};
use crate::substring::byte_len;
use crate::encoder_spec::{encoder_spec, EncoderSpec, ENCODED_SIZE, NUM_STRINGS};
use crate::encoding_table::EncodingTable;
use crate::ledger_policies::{LedgerPolicy, LimitLedgerSize};
use crate::substring_ledger::{chosen_from, lemma_nothing_eligible};
use crate::substring_selector::SubstringSelector;
use vstd::prelude::*;
use vstd::utf8::encode_utf8;

verus! {

/// The bound on the ledger that `encode` works with.
pub const LEDGER_SIZE: usize = 65_536;

/// Compresses `string` with the ledger governed by `policy` and the
/// dictionary chosen by `selector`. Returns the encoded data, the
/// dictionary that decodes it, and the size that the ledger reached.
pub fn encode_with_policy<P: LedgerPolicy>(
    string: &str,
    policy: P,
    selector: &SubstringSelector,
) -> (out: (Vec<u8>, EncodingTable, usize))
    requires
        selector.spec.num_strings <= NUM_STRINGS,
    ensures
        out.1.wf(),
        out.1@.len() <= selector.spec.num_strings,
        out.0@ == encoded(out.1@, string@),
        decoded(out.1@, out.0@) == Ok::<Seq<char>, DecodeError>(string@),
        out.0@.len() <= 4 * string@.len(),
        string@.no_duplicates() ==> out.1@.len() == 0 && out.0@ == encode_utf8(string@),
        selector.spec.encoded_size >= ENCODED_SIZE ==> out.0@.len() + reference_count(
            out.1@,
            string@,
        ) <= byte_len(string@),
        exists|ledger: Map<Seq<char>, usize>|
            {
                &&& #[trigger] runs(policy, string@, Map::<Seq<char>, usize>::empty(), None, ledger)
                &&& out.2 == ledger.dom().len()
                &&& chosen_from(selector, ledger, out.1@)
            },
{
    let ledger = build_ledger(string, policy);
    let ghost counts = ledger@;
    let ledger_size = ledger.len();
    let substrings = ledger.build_encoding_table(selector);
    let encoded_bytes = encode_string(string, &substrings);
    proof {
        lemma_round_trip(substrings@, string@);
        lemma_bounded_blowup(substrings@, string@);
        if string@.no_duplicates() {
            lemma_nothing_eligible(selector, counts, substrings@);
            lemma_encoded_without_table(substrings@, string@);
        }
        if selector.spec.encoded_size >= ENCODED_SIZE {
            lemma_references_shrink(substrings@, string@);
        }
    }
    (encoded_bytes, substrings, ledger_size)
}

/// The selector that `encode` works with: the most frequent substrings
/// first, as many as references can tell apart.
pub open spec fn default_selector() -> SubstringSelector {
    SubstringSelector {
        spec: EncoderSpec { num_strings: NUM_STRINGS, encoded_size: ENCODED_SIZE },
        by_gain: false,
    }
}

/// Compresses `string` with a ledger of at most 65,536 entries and the
/// most frequent substrings as dictionary. Returns the encoded data and
/// the dictionary that decodes it.
pub fn encode(string: &str) -> (out: (Vec<u8>, EncodingTable))
    ensures
        out.1.wf(),
        out.1@.len() <= NUM_STRINGS,
        out.0@ == encoded(out.1@, string@),
        decoded(out.1@, out.0@) == Ok::<Seq<char>, DecodeError>(string@),
        out.0@.len() <= 4 * string@.len(),
        string@.no_duplicates() ==> out.1@.len() == 0 && out.0@ == encode_utf8(string@),
        out.0@.len() + reference_count(out.1@, string@) <= byte_len(string@),
        exists|ledger: Map<Seq<char>, usize>|
            {
                &&& #[trigger] runs(
                    LimitLedgerSize { max_size: LEDGER_SIZE },
                    string@,
                    Map::<Seq<char>, usize>::empty(),
                    None,
                    ledger,
                )
                &&& chosen_from(&default_selector(), ledger, out.1@)
            },
{
    let policy = LimitLedgerSize::with_max_size(LEDGER_SIZE);
    let ghost used = policy;
    let selector = SubstringSelector::order_by_frequency(encoder_spec());
    let (encoded_bytes, substrings, ledger_size) = encode_with_policy(string, policy, &selector);
    proof {
        let ledger = choose|ledger: Map<Seq<char>, usize>|
            {
                &&& #[trigger] runs(used, string@, Map::<Seq<char>, usize>::empty(), None, ledger)
                &&& ledger_size == ledger.dom().len()
                &&& chosen_from(&selector, ledger, substrings@)
            };
        assert(used == LimitLedgerSize { max_size: LEDGER_SIZE });
        assert(selector == default_selector());
        assert(runs(
            LimitLedgerSize { max_size: LEDGER_SIZE },
            string@,
            Map::<Seq<char>, usize>::empty(),
            None,
            ledger,
        ));
    }
    (encoded_bytes, substrings)
}

} // verus!
