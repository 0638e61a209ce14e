use text_compression::decoder::{
    decode, decode_first_char, decode_first_char_at, decode_string, utf8_char_width, DecodeError,
};
use text_compression::encoding_table::EncodingTable;
use text_compression::substring::Substring;

fn make_encoding_table(substrings: Vec<String>) -> EncodingTable {
    EncodingTable::new(
        substrings
            .into_iter()
            .map(|s| Substring::from_str(&s))
            .collect(),
    )
}

#[test]
fn decode_simple_encoded_string() {
    let string = "abcdef";
    let substrings = EncodingTable::new(vec![]);

    let decoded = decode_string(string.as_bytes(), &substrings).unwrap();
    assert_eq!(string, decoded);
}

#[test]
fn decode_string_with_encoded_substring() {
    let encoded = vec![0xF5, 0x00];
    let substrings = make_encoding_table(vec!["abc".to_string()]);

    let decoded = decode_string(&encoded, &substrings).unwrap();
    assert_eq!(decoded, "abc");
}

#[test]
fn decode_string_with_encoded_substrings_and_single_characters() {
    let encoded = vec![0xF5, 0x00, 0x41, 0xF5, 0x01, 0x41, 0x42, 0x43];
    let substrings = make_encoding_table(vec!["abc".to_string(), "def".to_string()]);

    let decoded = decode_string(&encoded, &substrings).unwrap();
    assert_eq!(decoded, "abcAdefABC");
}

#[test]
fn decode_string_with_multi_byte_characters() {
    let sample_string = "犬猫魚鳥";
    let encoded = sample_string.as_bytes();

    let decoded = decode_string(&encoded, &make_encoding_table(vec![])).unwrap();
    assert_eq!(decoded, sample_string);
}

#[test]
fn decode_string_with_large_encoding_table() {
    let encoded = vec![0xF6, 0x00, 0xF6, 0x01, 0x61, 0x62, 0x63];
    let mut substrings: Vec<String> = (0..256).map(|i| format!("string_{}", i)).collect();
    substrings.push("bb".to_string());
    substrings.push("cc".to_string());

    let decoded = decode_string(&encoded, &make_encoding_table(substrings)).unwrap();
    assert_eq!(decoded, "bbccabc");
}

#[test]
fn decode_empty_data_gives_empty_text() {
    assert_eq!(Ok(String::new()), decode(&[], &make_encoding_table(vec![])));
}

#[test]
fn decode_fails_on_truncated_reference() {
    let table = make_encoding_table(vec!["abc".to_string()]);
    assert_eq!(
        Err(DecodeError::TruncatedReference),
        decode_string(&[0x61, 0xF5], &table)
    );
    assert_eq!(
        Err(DecodeError::TruncatedReference),
        decode_string(&[0xFF], &table)
    );
}

#[test]
fn decode_fails_on_index_out_of_range() {
    let table = make_encoding_table(vec!["abc".to_string()]);
    assert_eq!(
        Err(DecodeError::IndexOutOfRange),
        decode_string(&[0xF5, 0x01], &table)
    );
    assert_eq!(
        Err(DecodeError::IndexOutOfRange),
        decode_string(&[0xF5, 0x00, 0xF6, 0x00], &table)
    );
    assert_eq!(
        Err(DecodeError::IndexOutOfRange),
        decode_string(&[0xF5, 0x00], &make_encoding_table(vec![]))
    );
}

#[test]
fn decode_fails_on_invalid_leading_byte() {
    let table = make_encoding_table(vec![]);
    for lead in [0x80u8, 0xBF, 0xC0, 0xC1] {
        assert_eq!(
            Err(DecodeError::InvalidLeadingByte),
            decode_string(&[0x61, lead, 0x80], &table)
        );
    }
}

#[test]
fn decode_fails_on_malformed_scalar() {
    let table = make_encoding_table(vec![]);
    // A scalar cut short.
    assert_eq!(Err(DecodeError::InvalidScalar), decode_string(&[0xE4, 0xB8], &table));
    // A byte that continues nothing.
    assert_eq!(Err(DecodeError::InvalidScalar), decode_string(&[0xC3, 0x41], &table));
    // An encoding longer than needed.
    assert_eq!(Err(DecodeError::InvalidScalar), decode_string(&[0xE0, 0x80, 0x80], &table));
    // A surrogate.
    assert_eq!(Err(DecodeError::InvalidScalar), decode_string(&[0xED, 0xA0, 0x80], &table));
    // Beyond the last scalar.
    assert_eq!(
        Err(DecodeError::InvalidScalar),
        decode_string(&[0xF4, 0x90, 0x80, 0x80], &table)
    );
}

#[test]
fn decode_reports_the_first_error() {
    let table = make_encoding_table(vec![]);
    assert_eq!(
        Err(DecodeError::InvalidLeadingByte),
        decode_string(&[0x80, 0xF5], &table)
    );
    assert_eq!(
        Err(DecodeError::IndexOutOfRange),
        decode_string(&[0xF5, 0x00, 0x80], &table)
    );
}

#[test]
fn width_of_a_scalar_by_its_leading_byte() {
    assert_eq!(1, utf8_char_width(0x00));
    assert_eq!(1, utf8_char_width(0x7F));
    assert_eq!(0, utf8_char_width(0x80));
    assert_eq!(0, utf8_char_width(0xC1));
    assert_eq!(2, utf8_char_width(0xC2));
    assert_eq!(2, utf8_char_width(0xDF));
    assert_eq!(3, utf8_char_width(0xE0));
    assert_eq!(3, utf8_char_width(0xEF));
    assert_eq!(4, utf8_char_width(0xF0));
    assert_eq!(4, utf8_char_width(0xF4));
    assert_eq!(0, utf8_char_width(0xF5));
    assert_eq!(0, utf8_char_width(0xFF));
}

#[test]
fn first_scalar_of_each_width() {
    assert_eq!(Ok(('a', 1)), decode_first_char("ab".as_bytes()));
    assert_eq!(Ok(('é', 2)), decode_first_char("éb".as_bytes()));
    assert_eq!(Ok(('世', 3)), decode_first_char("世b".as_bytes()));
    assert_eq!(Ok(('😀', 4)), decode_first_char("😀b".as_bytes()));
    assert_eq!(Ok(('\u{10FFFF}', 4)), decode_first_char("\u{10FFFF}".as_bytes()));
    assert_eq!(Ok(('世', 3)), decode_first_char_at("a世".as_bytes(), 1));
    assert_eq!(
        Err(DecodeError::InvalidLeadingByte),
        decode_first_char(&[0xF5, 0x00])
    );
    assert_eq!(
        Err(DecodeError::InvalidLeadingByte),
        decode_first_char_at("a世".as_bytes(), 2)
    );
}
