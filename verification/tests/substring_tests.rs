use std::cmp::Ordering;
use text_compression::sorting::sort_by_rank;
use text_compression::substring::{lex_le_exec, starts_with_at, string_from_chars, to_chars, Substring};

fn named(s: &str) -> Substring {
    Substring::from_str(s)
}

fn to_strings(substrings: &Vec<Substring>) -> Vec<String> {
    substrings.iter().map(|s| s.to_string()).collect()
}

#[test]
fn substring_order_substrings_by_length_descending() {
    let mut substrings = vec![named("abc"), named("bc"), named("a")];

    substrings.sort_by(|a, b| a.partial_cmp(b).unwrap());
    assert_eq!(vec!["abc", "bc", "a"], to_strings(&substrings));
}

#[test]
fn substring_order_substrings_of_same_length_lexicographically() {
    let mut substrings = vec![named("bcd"), named("abc"), named("xyz")];

    substrings.sort_by(|a, b| a.partial_cmp(b).unwrap());
    assert_eq!(vec!["abc", "bcd", "xyz"], to_strings(&substrings));
}

#[test]
fn substring_order_goes_by_bytes_not_scalars() {
    // "世" takes three bytes, "ab" two.
    let substrings = sort_by_rank(vec![named("ab"), named("世"), named("abcd")]);
    assert_eq!(vec!["abcd", "世", "ab"], to_strings(&substrings));
    assert!(named("世").comes_before(&named("ab")));
    assert!(!named("ab").comes_before(&named("世")));
    assert!(named("ab").comes_before(&named("ab")));
}

#[test]
fn substring_from_char_and_len() {
    let s = Substring::from_char('世');
    assert_eq!("世", s.as_str());
    assert_eq!(3, s.len());
    assert_eq!(1, s.char_count());
    assert_eq!(&vec!['世'], s.chars());
}

#[test]
fn substring_try_from_str_rejects_empty_text() {
    assert_eq!(None, Substring::try_from_str(""));
    assert_eq!(Some(named("a")), Substring::try_from_str("a"));
}

#[test]
fn substring_concat_joins_texts() {
    let joined = named("ab").concat(&named("世界"));
    assert_eq!("ab世界", joined.as_str());
    assert_eq!(8, joined.len());
    assert_eq!(named("ab世界"), joined);
}

#[test]
fn substring_matches_start_of_text() {
    assert!(named("ab").matches_start("abc"));
    assert!(named("ab").matches_start("ab"));
    assert!(!named("ab").matches_start("a"));
    assert!(!named("ab").matches_start("ba"));
    assert!(!named("ab").matches_start(""));
}

#[test]
fn chars_and_strings_convert_both_ways() {
    let chars = to_chars("a世b");
    assert_eq!(vec!['a', '世', 'b'], chars);
    assert_eq!("a世b", string_from_chars(&chars));
    assert_eq!("", string_from_chars(&Vec::new()));
}

#[test]
fn starts_with_at_checks_a_position() {
    let text: Vec<char> = "abcabc".chars().collect();
    let piece: Vec<char> = "bc".chars().collect();
    assert!(starts_with_at(&text, 1, &piece));
    assert!(starts_with_at(&text, 4, &piece));
    assert!(!starts_with_at(&text, 0, &piece));
    assert!(!starts_with_at(&text, 5, &piece));
    assert!(!starts_with_at(&text, 6, &piece));
}

#[test]
fn lexicographic_order_of_texts() {
    let a: Vec<char> = "ab".chars().collect();
    let b: Vec<char> = "abc".chars().collect();
    let c: Vec<char> = "b".chars().collect();
    assert!(lex_le_exec(&a, &b));
    assert!(!lex_le_exec(&b, &a));
    assert!(lex_le_exec(&b, &c));
    assert!(lex_le_exec(&a, &a));
    assert!(lex_le_exec(&Vec::new(), &a));
}

#[test]
fn sort_by_rank_orders_numbers_ascending() {
    assert_eq!(vec![1usize, 1, 2, 3, 8, 9], sort_by_rank(vec![9usize, 1, 8, 3, 1, 2]));
    assert_eq!(Vec::<usize>::new(), sort_by_rank(Vec::<usize>::new()));
}

#[test]
fn order_substrings_by_length_descending() {
    let abc = named("abc");
    let bc = named("bc");
    let a = named("a");
    assert!(abc.comes_before(&bc));
    assert!(bc.comes_before(&a));
    assert!(abc.comes_before(&a));
    assert!(!a.comes_before(&bc));
    assert!(!bc.comes_before(&abc));
    let sorted = sort_by_rank(vec![a, bc, abc]);
    assert_eq!(vec!["abc", "bc", "a"], to_strings(&sorted));
}

#[test]
fn order_substrings_of_same_length_lexicographically() {
    let bcd = named("bcd");
    let abc = named("abc");
    let xyz = named("xyz");
    assert!(abc.comes_before(&bcd));
    assert!(bcd.comes_before(&xyz));
    assert!(!xyz.comes_before(&abc));
    let sorted = sort_by_rank(vec![xyz, bcd, abc]);
    assert_eq!(vec!["abc", "bcd", "xyz"], to_strings(&sorted));
}

#[test]
fn comparison_operators_follow_the_canonical_order() {
    assert!(named("abc") < named("bc"));
    assert!(named("bc") > named("abc"));
    assert!(named("abc") < named("abd"));
    assert!(named("世") < named("zz"));
    assert!(named("ab") <= named("ab"));
    assert_eq!(Some(Ordering::Equal), named("ab").partial_cmp(&named("ab")));
    assert_eq!(Some(Ordering::Less), named("abc").partial_cmp(&named("b")));
    assert_eq!(Some(Ordering::Greater), named("b").partial_cmp(&named("a")));
}
