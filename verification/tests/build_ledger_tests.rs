use text_compression::build_ledger::{build_ledger, BuildState};
use text_compression::ledger_policies::{CaptureAll, LedgerPolicy, LimitLedgerSize};
use text_compression::substring::Substring;
use text_compression::substring_counts::SubstringCounts;

fn substring(s: &str) -> Substring {
    Substring::from_str(s)
}

struct RemoveAll;
struct DisallowMerging;

impl LedgerPolicy for DisallowMerging {
    fn should_merge(&self, _x_count: usize, _y_count: usize, _substrings: &SubstringCounts) -> bool {
        false
    }

    fn cleanup(&self, _counts: &mut SubstringCounts) {}
}

impl LedgerPolicy for RemoveAll {
    fn cleanup(&self, counts: &mut SubstringCounts) {
        counts.retain(|_, _| false);
    }

    fn should_merge(&self, _x_count: usize, _y_count: usize, _substrings: &SubstringCounts) -> bool {
        true
    }
}

#[test]
fn learn_unique_characters() {
    let mut state = BuildState::new("abc", CaptureAll);
    state = state.run_until_end();
    assert_eq!(vec![("a", 1), ("b", 1), ("c", 1)], state.ledger.entries());
}

#[test]
fn build_ledger_learn_substring() {
    let mut state = BuildState::new("abab", CaptureAll);
    state = state.run_until_end();
    assert_eq!(vec![("ab", 1), ("a", 2), ("b", 2)], state.ledger.entries());
}

#[test]
fn learn_several_substrings_step_by_step() {
    let mut state = BuildState::new("abcabcabc", CaptureAll);

    state = state.run_until_end();
    assert_eq!(
        vec![
            ("abc", 1),
            ("cab", 1),
            ("ab", 2),
            ("bc", 1),
            ("a", 2),
            ("b", 2),
            ("c", 3)
        ],
        state.ledger.entries()
    );
}

#[test]
fn build_ledger_learn_substrings_with_multi_byte_characters() {
    let mut state = BuildState::new("犬猫魚鳥", CaptureAll);
    state = state.run_until_end();
    assert_eq!(
        vec![("犬", 1), ("猫", 1), ("魚", 1), ("鳥", 1)],
        state.ledger.entries()
    );
}

#[test]
fn merge_three_consecutive_substrings() {
    let mut state = BuildState::new("camelot", CaptureAll);
    state.ledger.increment_count(&substring("ca"));
    state.ledger.increment_count(&substring("me"));
    state.ledger.increment_count(&substring("lot"));

    // Processing "ca" + "me" = "came"
    state = state.step();
    assert_eq!(
        vec![("came", 1), ("lot", 1), ("ca", 2), ("me", 1)],
        state.ledger.entries()
    );

    // Processing "me" + "lot" = "melot"
    state = state.step();
    assert_eq!(
        vec![("melot", 1), ("came", 1), ("lot", 1), ("ca", 2), ("me", 2)],
        state.ledger.entries()
    );

    // Processing "lot"
    state = state.step();
    assert_eq!(
        vec![("melot", 1), ("came", 1), ("lot", 2), ("ca", 2), ("me", 2)],
        state.ledger.entries()
    );
}

#[test]
fn learn_same_substring_at_next_step() {
    let mut state = BuildState::new("xxx", CaptureAll);
    state.ledger.increment_count(&substring("x"));

    state = state.step();
    assert_eq!(vec![("xx", 1), ("x", 2)], state.ledger.entries());
    state = state.step();
    assert_eq!(vec![("xx", 2), ("x", 3)], state.ledger.entries());
}

#[test]
fn do_not_merge_substrings_if_not_allowed_by_policy() {
    let state = BuildState::new("ababab", DisallowMerging);
    let next_state = state.run_until_end();
    assert_eq!(vec![("a", 3), ("b", 3)], next_state.ledger.entries());
}

#[test]
fn clear_last_match_if_removed_from_ledger() {
    let mut state = BuildState::new("ababab", RemoveAll);
    state.ledger.increment_count(&substring("ab"));

    let next_state = state.step();
    assert!(next_state.last_match.is_none());
}

#[test]
fn build_ledger_counts_every_scalar_once() {
    let ledger = build_ledger("aaaa", DisallowMerging);
    assert_eq!(vec![("a", 4)], ledger.entries());
}

#[test]
fn steps_that_start_from_a_match_keep_the_ledger_within_its_bound() {
    for max_size in [2usize, 3, 5, 8] {
        let text = "abababcabcabcababab";
        let mut state = BuildState::new(text, LimitLedgerSize::with_max_size(max_size));
        while !state.at_end() {
            let tail: String = state.chars[state.pos..].iter().collect();
            let from_match =
                state.last_match.is_some() || state.ledger.find_longest_match(&tail).is_some();
            let before = state.ledger.len();
            state = state.step();
            if from_match && before <= max_size {
                assert!(state.ledger.len() <= max_size);
            }
            assert!(state.ledger.len() <= before + 2);
        }
    }
}

#[test]
fn steps_never_lower_a_count_that_stays() {
    let text = "low low low low low lowest lowest newer newer newer wider wider new new";
    let mut state = BuildState::new(text, LimitLedgerSize::with_max_size(6));
    let mut last: Vec<(String, usize)> = Vec::new();
    while !state.at_end() {
        state = state.step();
        let now: Vec<(String, usize)> = state
            .ledger
            .entries()
            .iter()
            .map(|(s, c)| (s.to_string(), *c))
            .collect();
        for (key, before) in &last {
            for (same, after) in &now {
                if key == same {
                    assert!(after >= before);
                }
            }
        }
        last = now;
    }
    assert!(state.at_end());
}

#[test]
fn step_at_the_end_changes_nothing() {
    let mut state = BuildState::new("ab", CaptureAll);
    state = state.run_until_end();
    let before: Vec<(String, usize)> = state
        .ledger
        .entries()
        .iter()
        .map(|(s, c)| (s.to_string(), *c))
        .collect();
    state = state.step();
    let after: Vec<(String, usize)> = state
        .ledger
        .entries()
        .iter()
        .map(|(s, c)| (s.to_string(), *c))
        .collect();
    assert_eq!(before, after);
    assert!(state.last_match.is_none());
    assert!(state.at_end());
}

#[test]
fn a_new_scalar_enters_a_full_ledger_when_pruning_removes_nothing() {
    let ledger = build_ledger("abc", LimitLedgerSize::with_max_size(2));
    assert_eq!(vec![("a", 1), ("b", 1), ("c", 1)], ledger.entries());
    assert_eq!(3, ledger.len());
}

#[test]
fn a_text_no_longer_than_the_bound_keeps_the_ledger_within_it() {
    for text in ["", "a", "abab", "aaaa", "abca", "abcd", "世界世界"] {
        let max_size = text.chars().count();
        let ledger = build_ledger(text, LimitLedgerSize::with_max_size(max_size));
        assert!(ledger.len() <= max_size);
    }
}

#[test]
fn pruning_that_removes_an_entry_makes_room_for_a_new_scalar() {
    let mut state = BuildState::new("e", LimitLedgerSize::with_max_size(4));
    for name in ["a", "b", "b", "c", "c", "d", "d"] {
        state.ledger.increment_count(&substring(name));
    }
    assert_eq!(4, state.ledger.len());

    // The counts are 1, 2, 2, 2: the median is 2 and "a" leaves.
    state = state.step();
    assert_eq!(
        vec![("b", 2), ("c", 2), ("d", 2), ("e", 1)],
        state.ledger.entries()
    );
    assert!(state.ledger.len() <= 4);
}

#[test]
fn text_without_a_repeated_scalar_counts_each_scalar_once() {
    for max_size in [0usize, 1, 3, 100] {
        let ledger = build_ledger("abcdefg世界", LimitLedgerSize::with_max_size(max_size));
        for (text, count) in ledger.entries() {
            assert_eq!(1, text.chars().count());
            assert_eq!(1, count);
        }
    }
}
