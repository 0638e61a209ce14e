use text_compression::substring::Substring;
use text_compression::trie::Trie;

fn counted_key(s: &str) -> Substring {
    Substring::from_str(s)
}

fn assert_holds(trie: &mut Trie<usize>, name: &str, mut value: usize) {
    assert_eq!(Some(&mut value), trie.get_mut(&counted_key(name)));
    assert_eq!(Some(&value), trie.get(&counted_key(name)));
}

fn assert_lacks(trie: &mut Trie<usize>, name: &str) {
    assert_eq!(None, trie.get_mut(&counted_key(name)));
    assert_eq!(None, trie.get(&counted_key(name)));
}

#[test]
fn insert_single_char() {
    let mut trie: Trie<usize> = Trie::new();
    trie.insert(counted_key("a"), 10);

    assert_eq!(1, trie.len());
    assert_holds(&mut trie, "a", 10);
    assert_lacks(&mut trie, "ab");
}

#[test]
fn insert_long_string() {
    let mut trie: Trie<usize> = Trie::new();
    trie.insert(counted_key("abcd"), 10);

    assert_eq!(1, trie.len());
    assert_lacks(&mut trie, "ab");
    assert_lacks(&mut trie, "abc");
    assert_holds(&mut trie, "abcd", 10);
}

#[test]
fn insert_same_string_twice_replaces_old_value() {
    let mut trie: Trie<usize> = Trie::new();
    assert_eq!(None::<usize>, trie.insert(counted_key("abcd"), 10));
    assert_eq!(Some(10), trie.insert(counted_key("abcd"), 20));

    assert_eq!(1, trie.len());
    assert_holds(&mut trie, "abcd", 20);
}

#[test]
fn insert_prefix_of_existing_string() {
    let mut trie: Trie<usize> = Trie::new();
    trie.insert(counted_key("abcd"), 10);
    trie.insert(counted_key("abc"), 20);

    assert_eq!(2, trie.len());
    assert_holds(&mut trie, "abc", 20);
    assert_holds(&mut trie, "abcd", 10);
}

#[test]
fn insert_different_strings() {
    let mut trie: Trie<usize> = Trie::new();
    trie.insert(counted_key("abc"), 10);
    trie.insert(counted_key("def"), 20);

    assert_eq!(2, trie.len());
    assert_holds(&mut trie, "abc", 10);
    assert_holds(&mut trie, "def", 20);
}

#[test]
fn find_match_in_empty_trie() {
    let trie: Trie<usize> = Trie::new();
    assert_eq!(None, trie.find_match("abc"));
}

#[test]
fn find_match_for_empty_string() {
    let mut trie: Trie<usize> = Trie::new();
    trie.insert(counted_key("abc"), 10);
    assert_eq!(None, trie.find_match(""));
}

#[test]
fn find_match_for_substrings() {
    let mut trie: Trie<usize> = Trie::new();
    trie.insert(counted_key("abc"), 10);
    trie.insert(counted_key("abcde"), 30);

    assert_eq!(None, trie.find_match("ab"));
    assert_eq!(Some((&counted_key("abc"), &10)), trie.find_match("abcd"));
    assert_eq!(Some((&counted_key("abcde"), &30)), trie.find_match("abcde"));
}

#[test]
fn finds_longest_possible_match() {
    let mut trie: Trie<usize> = Trie::new();
    trie.insert(counted_key("abc"), 10);
    trie.insert(counted_key("abcd"), 20);

    let best_match = trie.find_match("abcd");
    assert_eq!(Some((&counted_key("abcd"), &20)), best_match);
}

#[test]
fn finds_match_in_different_branches() {
    let mut trie: Trie<usize> = Trie::new();
    trie.insert(counted_key("abc"), 10);
    trie.insert(counted_key("abcd"), 10);
    trie.insert(counted_key("def"), 20);
    trie.insert(counted_key("abx"), 30);

    assert_eq!(Some((&counted_key("abc"), &10)), trie.find_match("abc"));
    assert_eq!(Some((&counted_key("abcd"), &10)), trie.find_match("abcde"));
    assert_eq!(Some((&counted_key("def"), &20)), trie.find_match("def"));
    assert_eq!(Some((&counted_key("abx"), &30)), trie.find_match("abx"));
    assert_eq!(None, trie.find_match("xyz"));
}

#[test]
fn finds_match_with_extra_characters() {
    let mut trie: Trie<usize> = Trie::new();
    trie.insert(counted_key("hello"), 10);

    assert_eq!(Some((&counted_key("hello"), &10)), trie.find_match("hello world"));
    assert_eq!(Some((&counted_key("hello"), &10)), trie.find_match("hello!"));
}

#[test]
fn finds_match_with_multiple_possibilities() {
    let mut trie: Trie<usize> = Trie::new();
    trie.insert(counted_key("a"), 10);
    trie.insert(counted_key("ab"), 20);
    trie.insert(counted_key("abc"), 30);
    trie.insert(counted_key("abcd"), 40);

    assert_eq!(Some((&counted_key("abcd"), &40)), trie.find_match("abcdef"));
    assert_eq!(Some((&counted_key("abc"), &30)), trie.find_match("abc"));
    assert_eq!(Some((&counted_key("ab"), &20)), trie.find_match("abxyz"));
    assert_eq!(Some((&counted_key("a"), &10)), trie.find_match("a"));
}

#[test]
fn finds_match_with_unicode() {
    let mut trie: Trie<usize> = Trie::new();
    trie.insert(counted_key("こんにちは"), 10);
    trie.insert(counted_key("世界"), 20);

    assert_eq!(
        Some((&counted_key("こんにちは"), &10)),
        trie.find_match("こんにちは世界")
    );
    assert_eq!(Some((&counted_key("世界"), &20)), trie.find_match("世界"));
}

#[test]
fn empty_trie() {
    let trie: Trie<usize> = Trie::new();
    let strings = trie.iter();
    assert!(strings.is_empty());
}

#[test]
fn iterate_over_entries() {
    let mut trie: Trie<usize> = Trie::new();
    trie.insert(counted_key("abc"), 10);
    trie.insert(counted_key("abx"), 10);
    trie.insert(counted_key("abcd"), 20);
    trie.insert(counted_key("abcde"), 30);
    trie.insert(counted_key("def"), 40);

    let mut entries = trie.iter();
    entries.sort_by_key(|(s, _)| s.to_string());

    assert_eq!(
        vec![
            (&counted_key("abc"), &10),
            (&counted_key("abcd"), &20),
            (&counted_key("abcde"), &30),
            (&counted_key("abx"), &10),
            (&counted_key("def"), &40),
        ],
        entries
    );
}

