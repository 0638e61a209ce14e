use text_compression::encoding_table::EncodingTable;
use text_compression::substring::Substring;

fn table_of(names: &[&str]) -> EncodingTable {
    EncodingTable::new(names.iter().map(|s| Substring::from_str(s)).collect())
}

#[test]
fn encoding_table_find_the_longest_match_possible() {
    let table = table_of(&["a", "aa", "aaaa", "b", "bb"]);

    let found = table.find_match("aaaabb");
    assert_eq!(Some((0, "aaaa")), found);
}

#[test]
fn encoding_table_no_match_found() {
    let table = table_of(&["a", "aa"]);
    let miss = table.find_match("bcd");
    assert_eq!(None, miss);
}

#[test]
fn encoding_table_get_substring_at_index() {
    let table = table_of(&["a", "aaaa", "b", "bb"]);

    assert_eq!("aaaa", table.get(0));
    assert_eq!("bb", table.get(1));
}

#[test]
fn sorts_substrings_by_length_at_creation() {
    let table = table_of(&["a", "aa", "aaa", "b", "bb"]);
    assert_eq!(vec!["aaa", "aa", "bb", "a", "b"], table.to_vec());
}

#[test]
fn encoding_table_entries_never_grow_in_length() {
    let table = table_of(&["世界", "z", "hello", "ab", "aa", "世", "b"]);
    assert_eq!(7, table.len());
    assert_eq!(
        vec!["世界", "hello", "世", "aa", "ab", "b", "z"],
        table.to_vec()
    );
    for i in 1..table.len() {
        let before = table.get(i - 1);
        let after = table.get(i);
        assert!(before.len() > after.len() || (before.len() == after.len() && before <= after));
    }
}

#[test]
fn encoding_table_top_and_bottom() {
    let table = table_of(&["a", "aa", "aaa", "b", "bb"]);
    assert_eq!(vec!["aaa", "aa"], table.top(2));
    assert_eq!(vec!["a", "b"], table.bottom(2));
    assert_eq!(Vec::<String>::new(), table.top(0));
}

#[test]
fn encoding_table_match_is_the_longest_prefix() {
    let table = table_of(&["ab", "abc", "abcd", "b"]);
    assert_eq!(Some((0, "abcd")), table.find_match("abcdx"));
    assert_eq!(Some((1, "abc")), table.find_match("abcx"));
    assert_eq!(Some((2, "ab")), table.find_match("abx"));
    assert_eq!(Some((3, "b")), table.find_match("bx"));
    assert_eq!(None, table.find_match("xab"));
    assert_eq!(None, table.find_match(""));
}

#[test]
fn encoding_table_match_at_a_position() {
    let table = table_of(&["世界", "ab"]);
    let text: Vec<char> = "x世界ab".chars().collect();
    assert_eq!(None, table.find_match_at(&text, 0));
    assert_eq!(Some((0, 2)), table.find_match_at(&text, 1));
    assert_eq!(Some((1, 2)), table.find_match_at(&text, 3));
    assert_eq!(None, table.find_match_at(&text, 5));
}

#[test]
fn encoding_table_repeated_entry_is_found_at_its_last_position() {
    let table = table_of(&["ab", "ab", "c"]);
    assert_eq!(3, table.len());
    assert_eq!(Some((1, "ab")), table.find_match("abc"));
}

#[test]
fn find_the_longest_match_possible() {
    let table = table_of(&["a", "aa", "aaaa", "b", "bb"]);
    let text: Vec<char> = "aaaabb".chars().collect();

    assert_eq!(Some((0, 4)), table.find_match_at(&text, 0));
    assert_eq!("aaaa", table.get(0));
    assert_eq!(Some((1, 2)), table.find_match_at(&text, 2));
    assert_eq!(Some((2, 2)), table.find_match_at(&text, 4));
}

#[test]
fn no_match_found() {
    let table = table_of(&["a", "aa"]);
    let text: Vec<char> = "bcd".chars().collect();
    assert_eq!(None, table.find_match_at(&text, 0));
    assert_eq!(None, table.find_match_at(&text, 3));
}

#[test]
fn get_substring_at_index() {
    let table = table_of(&["a", "aaaa", "b", "bb"]);

    assert_eq!("aaaa", table.get(0));
    assert_eq!("bb", table.get(1));
    assert_eq!("a", table.get(2));
    assert_eq!("b", table.get(3));
}
