use text_compression::encode_string::{encode_chars, encode_string, push_scalar};
use text_compression::encoding_table::EncodingTable;
use text_compression::substring::Substring;

fn make_dictionary(substrings: Vec<String>) -> EncodingTable {
    EncodingTable::new(
        substrings
            .into_iter()
            .map(|s| Substring::from_str(&s))
            .collect(),
    )
}

#[test]
fn encode_string_with_empty_substrings() {
    let source = "abc";

    let encoded = encode_string(&source, &make_dictionary(vec![]));
    assert_eq!(source.as_bytes(), encoded);
    assert_eq!(vec![0x61, 0x62, 0x63], encoded);
}

#[test]
fn encode_substring_with_index_in_substring_list() {
    let source = "abc";
    let substrings = vec!["abc".to_string()];

    let encoded = encode_string(&source, &make_dictionary(substrings));
    assert_eq!(vec![0xF5, 0x00], encoded);
}

#[test]
fn encode_two_consecutive_substrings() {
    let source = "abcabc";
    let substrings = vec!["abc".to_string()];

    let encoded = encode_string(&source, &make_dictionary(substrings));
    assert_eq!(vec![0xF5, 0x00, 0xF5, 0x00], encoded);
}

#[test]
fn encode_two_consecutive_substrings_with_different_substrings() {
    let source = "abcdef";
    let substrings = vec!["abc".to_string(), "def".to_string()];

    let encoded = encode_string(&source, &make_dictionary(substrings));
    assert_eq!(vec![0xF5, 0x00, 0xF5, 0x01], encoded);
}

#[test]
fn encode_mix_of_substrings_and_single_characters() {
    let source = "abcxyzdef";
    let substrings = vec!["abc".to_string(), "def".to_string()];

    let encoded = encode_string(&source, &make_dictionary(substrings));
    assert_eq!(
        vec![0xF5, 0x00, 'x' as u8, 'y' as u8, 'z' as u8, 0xF5, 0x01],
        encoded
    );
}

#[test]
fn encode_string_with_large_dictionary() {
    let source = "bbccabc";
    let mut substrings: Vec<String> = (0..256).map(|i| format!("string_{}", i)).collect();
    substrings.push("bb".to_string());
    substrings.push("cc".to_string());

    let encoded = encode_string(&source, &make_dictionary(substrings));
    assert_eq!(
        vec![0xF6, 0x00, 0xF6, 0x01, 'a' as u8, 'b' as u8, 'c' as u8],
        encoded
    );
}

#[test]
fn encode_multibyte_string() {
    let source = "こんにちはこんにちは世界世界";

    let encoded = encode_string(&source, &make_dictionary(vec![]));
    assert_eq!(source.as_bytes(), encoded);
}

#[test]
fn encode_empty_text_gives_no_bytes() {
    assert_eq!(Vec::<u8>::new(), encode_string("", &make_dictionary(vec![])));
    assert_eq!(
        Vec::<u8>::new(),
        encode_string("", &make_dictionary(vec!["abc".to_string()]))
    );
}

#[test]
fn encode_single_scalar_as_one_literal() {
    assert_eq!(vec![0x61], encode_string("a", &make_dictionary(vec![])));
    assert_eq!(
        vec![0xE4, 0xB8, 0x96],
        encode_string("世", &make_dictionary(vec![]))
    );
}

#[test]
fn encode_takes_the_longest_entry() {
    let table = make_dictionary(vec!["ab".to_string(), "abc".to_string(), "c".to_string()]);
    // Positions: "abc" 0, "ab" 1, "c" 2.
    assert_eq!(vec![0xF5, 0x00, 0xF5, 0x00], encode_string("abcabc", &table));
    assert_eq!(vec![0xF5, 0x00, 0xF5, 0x02, 0xF5, 0x01], encode_string("abccab", &table));
    let chars: Vec<char> = "abd".chars().collect();
    assert_eq!(vec![0xF5, 0x01, 0x64], encode_chars(&chars, &table));
}

#[test]
fn encode_reaches_the_last_index() {
    let substrings: Vec<String> = (0..2815).map(|i| format!("k{:04}", i)).collect();
    let table = make_dictionary(substrings);
    assert_eq!(2815, table.len());
    assert_eq!(vec![0xFF, 0xFE], encode_string("k2814", &table));
    assert_eq!(vec![0xF5, 0xFF, 0xF6, 0x00], encode_string("k0255k0256", &table));
}

#[test]
fn push_scalar_writes_utf8() {
    for c in ['a', '\u{7F}', '\u{80}', 'é', '\u{7FF}', '\u{800}', '世', '\u{FFFF}', '\u{10000}', '😀', '\u{10FFFF}'] {
        let mut out = vec![0x2A];
        push_scalar(&mut out, c);
        let mut expected = vec![0x2A];
        expected.extend_from_slice(c.to_string().as_bytes());
        assert_eq!(expected, out);
    }
}

#[test]
fn encoded_data_is_at_most_four_times_the_text() {
    let table = make_dictionary(vec!["ab".to_string()]);
    for source in ["", "a", "ababab", "😀😀😀", "a世😀é", "xyz"] {
        let encoded = encode_string(source, &table);
        assert!(encoded.len() <= 4 * source.chars().count());
        assert!(encoded.len() <= 4 * source.len());
    }
}
