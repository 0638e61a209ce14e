use text_compression::substring::{Substring, SubstringCount};
use text_compression::substring_counts::SubstringCounts;

fn text(s: &str) -> Substring {
    Substring::from_str(s)
}

fn found(counts: &SubstringCounts, input: &str) -> Option<String> {
    counts.find_match(input).map(|m| m.value.to_string())
}

fn assert_counted(counts: &mut SubstringCounts, name: &str, mut value: usize) {
    assert_eq!(Some(&mut value), counts.get_count_mut(&text(name)));
    assert!(counts.contains_key(&text(name)));
}

fn assert_not_counted(counts: &mut SubstringCounts, name: &str) {
    assert_eq!(None, counts.get_count_mut(&text(name)));
    assert!(!counts.contains_key(&text(name)));
}

fn sorted_strings(counts: &SubstringCounts) -> Vec<String> {
    let mut strings = counts.iter().iter().map(|(s, _)| s.to_string()).collect::<Vec<_>>();
    strings.sort();
    strings
}

#[test]
fn tries_insert_single_char() {
    let mut counts = SubstringCounts::new();
    counts.insert(text("a"), 10);

    assert_eq!(1, counts.len());
    assert_counted(&mut counts, "a", 10);
    assert_not_counted(&mut counts, "ab");
}

#[test]
fn tries_insert_long_string() {
    let mut counts = SubstringCounts::new();
    counts.insert(text("abcd"), 10);

    assert_eq!(1, counts.len());
    assert_not_counted(&mut counts, "ab");
    assert_not_counted(&mut counts, "abc");
    assert_counted(&mut counts, "abcd", 10);
}

#[test]
fn tries_insert_same_string_twice_replaces_old_value() {
    let mut counts = SubstringCounts::new();
    counts.insert(text("abcd"), 10);
    counts.insert(text("abcd"), 20);

    assert_eq!(1, counts.len());
    assert_counted(&mut counts, "abcd", 20);
}

#[test]
fn tries_insert_prefix_of_existing_string() {
    let mut counts = SubstringCounts::new();
    counts.insert(text("abcd"), 10);
    counts.insert(text("abc"), 20);

    assert_eq!(2, counts.len());
    assert_counted(&mut counts, "abc", 20);
    assert_counted(&mut counts, "abcd", 10);
}

#[test]
fn tries_insert_different_strings() {
    let mut counts = SubstringCounts::new();
    counts.insert(text("abc"), 10);
    counts.insert(text("def"), 20);

    assert_eq!(2, counts.len());
    assert_counted(&mut counts, "abc", 10);
    assert_counted(&mut counts, "def", 20);
}

#[test]
fn tries_find_match_in_empty_trie() {
    let counts = SubstringCounts::new();
    assert_eq!(None, counts.find_match("abc"));
}

#[test]
fn tries_find_match_for_empty_string() {
    let mut counts = SubstringCounts::new();
    counts.insert(text("abc"), 10);
    assert_eq!(None, counts.find_match(""));
}

#[test]
fn tries_find_match_for_substrings() {
    let mut counts = SubstringCounts::new();
    counts.insert(text("abc"), 10);
    counts.insert(text("abcde"), 30);

    assert_eq!(None, counts.find_match("ab"));
    assert_eq!(
        Some(SubstringCount::new(text("abc"), 10)),
        counts.find_match("abcd")
    );
    assert_eq!(
        Some(SubstringCount::new(text("abcde"), 30)),
        counts.find_match("abcde")
    );
}

#[test]
fn tries_finds_longest_possible_match() {
    let mut counts = SubstringCounts::new();
    counts.insert(text("abc"), 10);
    counts.insert(text("abcd"), 20);

    let best_match = counts.find_match("abcd");
    assert_eq!(Some(SubstringCount::new(text("abcd"), 20)), best_match);
}

#[test]
fn tries_finds_match_in_different_branches() {
    let mut counts = SubstringCounts::new();
    counts.insert(text("abc"), 10);
    counts.insert(text("abcd"), 10);
    counts.insert(text("def"), 20);
    counts.insert(text("abx"), 30);

    assert_eq!(Some("abc".to_string()), found(&counts, "abc"));
    assert_eq!(Some("abcd".to_string()), found(&counts, "abcde"));
    assert_eq!(Some("def".to_string()), found(&counts, "def"));
    assert_eq!(Some("abx".to_string()), found(&counts, "abx"));
    assert_eq!(None, found(&counts, "xyz"));
}

#[test]
fn tries_finds_match_with_extra_characters() {
    let mut counts = SubstringCounts::new();
    counts.insert(text("hello"), 10);

    assert_eq!(Some("hello".to_string()), found(&counts, "hello world"));
    assert_eq!(Some("hello".to_string()), found(&counts, "hello!"));
}

#[test]
fn tries_finds_match_with_multiple_possibilities() {
    let mut counts = SubstringCounts::new();
    counts.insert(text("a"), 10);
    counts.insert(text("ab"), 20);
    counts.insert(text("abc"), 30);
    counts.insert(text("abcd"), 40);

    assert_eq!(Some("abcd".to_string()), found(&counts, "abcdef"));
    assert_eq!(Some("abc".to_string()), found(&counts, "abc"));
    assert_eq!(Some("ab".to_string()), found(&counts, "abxyz"));
    assert_eq!(Some("a".to_string()), found(&counts, "a"));
}

#[test]
fn tries_finds_match_with_unicode() {
    let mut counts = SubstringCounts::new();
    counts.insert(text("こんにちは"), 10);
    counts.insert(text("世界"), 20);

    assert_eq!(
        Some("こんにちは".to_string()),
        found(&counts, "こんにちは世界")
    );
    assert_eq!(Some("世界".to_string()), found(&counts, "世界"));
}

#[test]
fn tries_empty_trie() {
    let counts = SubstringCounts::new();
    let strings = counts.iter();
    assert!(strings.is_empty());
}

#[test]
fn tries_iterate_over_entries() {
    let mut counts = SubstringCounts::new();
    counts.insert(text("abc"), 10);
    counts.insert(text("abx"), 10);
    counts.insert(text("abcd"), 20);
    counts.insert(text("abcde"), 30);
    counts.insert(text("def"), 40);

    let mut entries = counts.iter();
    entries.sort_by_key(|(s, _)| s.to_string());

    assert_eq!(
        vec![
            (&text("abc"), 10),
            (&text("abcd"), 20),
            (&text("abcde"), 30),
            (&text("abx"), 10),
            (&text("def"), 40),
        ],
        entries
    );
}

#[test]
fn tries_retain_entries() {
    let mut counts = SubstringCounts::new();
    counts.insert(text("abc"), 10);
    counts.insert(text("abx"), 10);
    counts.insert(text("abcd"), 20);
    counts.insert(text("xyz"), 30);

    counts.retain(|_, count| count > 10);
    assert_eq!(2, counts.len());
    assert_eq!(vec!["abcd", "xyz"], sorted_strings(&counts));
}

#[test]
fn sorted_counts_come_in_canonical_order() {
    let mut counts = SubstringCounts::new();
    counts.insert(text("b"), 1);
    counts.insert(text("abc"), 2);
    counts.insert(text("a"), 3);
    counts.insert(text("zz"), 4);
    assert_eq!(
        vec![
            (&text("abc"), 2),
            (&text("zz"), 4),
            (&text("a"), 3),
            (&text("b"), 1)
        ],
        counts.get_sorted_counts()
    );
}

#[test]
fn len_equals_number_of_counted_keys() {
    let mut counts = SubstringCounts::new();
    for name in ["a", "ab", "abc", "a", "b"] {
        counts.insert(text(name), 1);
    }
    assert_eq!(4, counts.len());
    assert_eq!(4, counts.iter().len());
}
