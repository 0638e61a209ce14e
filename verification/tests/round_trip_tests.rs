use text_compression::ledger_policies::{CaptureAll, LimitLedgerSize};
use text_compression::substring_selector::SubstringSelector;
use text_compression::encoder_spec::{encoder_spec, EncoderSpec};
use text_compression::{decode, encode, encode_with_policy};

const SAMPLE: &str =
    "low low low low low lowest lowest newer newer newer newer newer newer wider wider wider new new";

#[test]
fn lib_encode_and_decode_ascii_string() {
    let source = SAMPLE;

    let (encoded, substrings) = encode(source);
    let decoded = decode(&encoded, &substrings).unwrap();

    assert_eq!(decoded, source);
}

#[test]
fn main_encode_and_decode_ascii_string() {
    let source = SAMPLE.to_string();

    let (encoded, substrings) = encode(&source);
    let decoded = decode(&encoded, &substrings).unwrap();

    assert_eq!(decoded, source);
}

#[test]
fn encode_and_decode_multi_byte_string() {
    let source = "こんにちはこんにちは世界世界";

    let (encoded, substrings) = encode(source);
    let decoded = decode(&encoded, &substrings).unwrap();
    assert_eq!(decoded, source);
    assert!(encoded.len() < source.len());
}

#[test]
fn round_trip_under_both_policies_and_both_selectors() {
    let sources = [
        "",
        "a",
        "abc",
        "abcabcabc",
        "xxxxxxxxxxxxxxxx",
        SAMPLE,
        "こんにちはこんにちは世界世界",
        "a😀b😀a😀b😀 é é é é",
    ];
    for source in sources {
        for by_gain in [false, true] {
            let selector = if by_gain {
                SubstringSelector::order_by_compression_gain(encoder_spec())
            } else {
                SubstringSelector::order_by_frequency(encoder_spec())
            };
            let (encoded, table, _) = encode_with_policy(source, CaptureAll, &selector);
            assert_eq!(Ok(source.to_string()), decode(&encoded, &table));
            assert!(encoded.len() <= 4 * source.len());

            let (encoded, table, _) =
                encode_with_policy(source, LimitLedgerSize::with_max_size(65_536), &selector);
            assert_eq!(Ok(source.to_string()), decode(&encoded, &table));

            let (encoded, table, size) =
                encode_with_policy(source, LimitLedgerSize::with_max_size(4), &selector);
            assert_eq!(Ok(source.to_string()), decode(&encoded, &table));
            assert!(table.len() <= size);
        }
    }
}

#[test]
fn text_without_repetition_is_written_as_it_is() {
    let (encoded, table) = encode("abc");
    assert_eq!(vec![0x61, 0x62, 0x63], encoded);
    assert_eq!(0, table.len());
    assert_eq!(Ok("abc".to_string()), decode(&encoded, &table));
}

#[test]
fn empty_text_gives_empty_data_and_empty_dictionary() {
    let (encoded, table) = encode("");
    assert!(encoded.is_empty());
    assert_eq!(0, table.len());
    assert_eq!(Ok(String::new()), decode(&encoded, &table));
}

#[test]
fn single_scalar_is_one_literal() {
    let (encoded, table) = encode("世");
    assert_eq!("世".as_bytes(), encoded);
    assert_eq!(0, table.len());
}

#[test]
fn distinct_scalars_leave_the_dictionary_empty() {
    let source = "abcdefghijklmnopqrstuvwxyz世界";
    let (encoded, table, size) =
        encode_with_policy(source, CaptureAll, &SubstringSelector::order_by_frequency(encoder_spec()));
    assert_eq!(source.as_bytes(), encoded);
    assert_eq!(0, table.len());
    assert_eq!(28, size);
}

#[test]
fn dictionary_entries_occur_twice_and_are_longer_than_a_reference() {
    let selector = SubstringSelector::order_by_frequency(encoder_spec());
    let (_, table, _) = encode_with_policy(SAMPLE, CaptureAll, &selector);
    assert!(table.len() > 0);
    for entry in table.to_vec() {
        assert!(entry.len() > 2);
        assert!(SAMPLE.matches(entry.as_str()).count() >= 2);
    }
}

#[test]
fn dictionary_is_cut_off_at_the_selector() {
    let mut source = String::new();
    for i in 0..3000u32 {
        let c = char::from_u32(0x4E00 + i).unwrap();
        source.push(c);
        source.push(c);
    }
    let (encoded, table) = encode(&source);
    assert_eq!(2815, table.len());
    assert_eq!(Ok(source.clone()), decode(&encoded, &table));

    let small = SubstringSelector::order_by_frequency(EncoderSpec {
        num_strings: 5,
        encoded_size: 2,
    });
    let (encoded, table, _) = encode_with_policy(&source, CaptureAll, &small);
    assert_eq!(5, table.len());
    assert_eq!(Ok(source), decode(&encoded, &table));
}

#[test]
fn repeated_multi_byte_scalars_shrink() {
    let source = "こんにちはこんにちは世界世界";
    let (encoded, table) = encode(source);
    assert_eq!(28, encoded.len());
    assert_eq!(
        vec!["こ", "ち", "に", "は", "ん", "世", "界"],
        table.to_vec()
    );
}

#[test]
fn two_references_decode_back() {
    let table = text_compression::EncodingTable::new(vec![
        text_compression::Substring::from_str("abc"),
    ]);
    let encoded = text_compression::encode_string("abcabc", &table);
    assert_eq!(vec![0xF5, 0x00, 0xF5, 0x00], encoded);
    assert_eq!(Ok("abcabc".to_string()), decode(&encoded, &table));
}

#[test]
fn dictionary_holds_no_text_twice() {
    for source in [SAMPLE, "abababababab", "こんにちはこんにちは世界世界"] {
        let (_, table) = encode(source);
        let mut entries = table.to_vec();
        let total = entries.len();
        entries.sort();
        entries.dedup();
        assert_eq!(total, entries.len());
    }
}

#[test]
fn each_reference_saves_a_byte_at_least() {
    for source in [SAMPLE, "abababababab", "こんにちはこんにちは世界世界", "abc", ""] {
        let (encoded, _) = encode(source);
        let references = encoded.iter().filter(|b| **b >= 0xF5).count();
        assert!(encoded.len() + references <= source.len());
    }
}

#[test]
fn default_dictionary_holds_every_repeated_scalar_of_the_sample() {
    let source = "こんにちはこんにちは世界世界";
    let (encoded, table) = encode(source);
    assert_eq!(7, table.len());
    assert_eq!(14, encoded.iter().filter(|b| **b >= 0xF5).count());
    assert!(encoded.len() < source.len());
}
