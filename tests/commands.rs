use gh_triage::commands::{is_target_char, parse_commands, TargetMap};
use gh_triage::types::Action;

#[test]
fn parses_single_actions() {
    let targets = TargetMap::new();
    let result = parse_commands("1o", 10, &targets);
    assert_eq!(result.get(&1), Some(&vec![Action::Open]));

    let result = parse_commands("3y", 10, &targets);
    assert_eq!(result.get(&3), Some(&vec![Action::Yank]));

    let result = parse_commands("5r", 10, &targets);
    assert_eq!(result.get(&5), Some(&vec![Action::Read]));

    let result = parse_commands("7d", 10, &targets);
    assert_eq!(result.get(&7), Some(&vec![Action::Done]));

    let result = parse_commands("2q", 10, &targets);
    assert_eq!(result.get(&2), Some(&vec![Action::Unsubscribe]));
}

#[test]
fn parses_multi_digit_indices() {
    let targets = TargetMap::new();
    let result = parse_commands("11o", 20, &targets);
    assert_eq!(result.get(&11), Some(&vec![Action::Open]));

    let result = parse_commands("123d", 200, &targets);
    assert_eq!(result.get(&123), Some(&vec![Action::Done]));
}

#[test]
fn splits_concatenated_indices_when_out_of_range() {
    let targets = TargetMap::new();
    let result = parse_commands("23r", 10, &targets);
    assert_eq!(result.get(&2), Some(&vec![Action::Read]));
    assert_eq!(result.get(&3), Some(&vec![Action::Read]));
    assert!(!result.contains_key(&23));
}

#[test]
fn keeps_multi_digit_index_when_in_range() {
    let targets = TargetMap::new();
    let result = parse_commands("23r", 30, &targets);
    assert_eq!(result.get(&23), Some(&vec![Action::Read]));
    assert!(!result.contains_key(&2));
    assert!(!result.contains_key(&3));
}

#[test]
fn splits_long_runs_greedily() {
    let targets = TargetMap::new();
    let result = parse_commands("123456r", 50, &targets);
    assert_eq!(result.get(&12), Some(&vec![Action::Read]));
    assert_eq!(result.get(&34), Some(&vec![Action::Read]));
    assert_eq!(result.get(&5), Some(&vec![Action::Read]));
    assert_eq!(result.get(&6), Some(&vec![Action::Read]));
}

#[test]
fn splits_trailing_zero_when_out_of_range() {
    let targets = TargetMap::new();
    let result = parse_commands("10r", 9, &targets);
    assert_eq!(result.get(&1), Some(&vec![Action::Read]));
    assert!(!result.contains_key(&10));
}

#[test]
fn splits_ranges_with_greedy_endpoints() {
    let targets = TargetMap::new();
    let result = parse_commands("1-23r", 10, &targets);
    assert_eq!(result.get(&1), Some(&vec![Action::Read]));
    assert_eq!(result.get(&2), Some(&vec![Action::Read]));
    assert_eq!(result.get(&3), Some(&vec![Action::Read]));
}

#[test]
fn parses_ranges() {
    let targets = TargetMap::new();
    let result = parse_commands("1-3q", 10, &targets);
    assert_eq!(result.get(&1), Some(&vec![Action::Unsubscribe]));
    assert_eq!(result.get(&2), Some(&vec![Action::Unsubscribe]));
    assert_eq!(result.get(&3), Some(&vec![Action::Unsubscribe]));
}

#[test]
fn parses_reverse_ranges() {
    let targets = TargetMap::new();
    let result = parse_commands("3-1q", 10, &targets);
    assert_eq!(result.get(&1), Some(&vec![Action::Unsubscribe]));
    assert_eq!(result.get(&2), Some(&vec![Action::Unsubscribe]));
    assert_eq!(result.get(&3), Some(&vec![Action::Unsubscribe]));
}

#[test]
fn parses_lists_with_separators_and_multiple_actions() {
    let targets = TargetMap::new();
    let result = parse_commands("1, 2 3 q y", 10, &targets);
    let expected = vec![Action::Unsubscribe, Action::Yank];
    assert_eq!(result.get(&1), Some(&expected));
    assert_eq!(result.get(&2), Some(&expected));
    assert_eq!(result.get(&3), Some(&expected));
}

#[test]
fn parses_multiple_actions_for_same_index() {
    let targets = TargetMap::new();
    let result = parse_commands("1o1r1y", 10, &targets);
    assert_eq!(
        result.get(&1),
        Some(&vec![Action::Open, Action::Read, Action::Yank])
    );
}

#[test]
fn ignores_out_of_range_indices() {
    let targets = TargetMap::new();
    let result = parse_commands("99o1r", 5, &targets);
    assert_eq!(result.get(&1), Some(&vec![Action::Read]));
    assert!(!result.contains_key(&99));
}

#[test]
fn resets_on_invalid_chars() {
    let targets = TargetMap::new();
    let result = parse_commands("1o x 2r", 10, &targets);
    assert_eq!(result.get(&1), Some(&vec![Action::Open]));
    assert_eq!(result.get(&2), Some(&vec![Action::Read]));
}

#[test]
fn supports_repeated_actions_after_single_index() {
    let targets = TargetMap::new();
    let result = parse_commands("11oooyd", 20, &targets);
    assert_eq!(
        result.get(&11),
        Some(&vec![
            Action::Open,
            Action::Open,
            Action::Open,
            Action::Yank,
            Action::Done
        ])
    );
}

#[test]
fn parses_status_targets() {
    let mut targets = TargetMap::new();
    targets.insert('m', vec![2, 4]);
    let result = parse_commands("md", 10, &targets);
    assert_eq!(result.get(&2), Some(&vec![Action::Done]));
    assert_eq!(result.get(&4), Some(&vec![Action::Done]));
}

#[test]
fn parses_review_targets() {
    let mut targets = TargetMap::new();
    targets.insert('?', vec![1, 3]);
    let result = parse_commands("?o", 10, &targets);
    assert_eq!(result.get(&1), Some(&vec![Action::Open]));
    assert_eq!(result.get(&3), Some(&vec![Action::Open]));
}

#[test]
fn greedy_split_uses_longest_valid_prefix() {
    let targets = TargetMap::new();
    let result = parse_commands("23r", 10, &targets);
    assert_eq!(result.len(), 2);
    let result = parse_commands("23r", 30, &targets);
    assert_eq!(result.len(), 1);
    let result = parse_commands("00r", 10, &targets);
    assert!(result.is_empty());
    let result = parse_commands("05r", 10, &targets);
    assert_eq!(result.get(&5), Some(&vec![Action::Read]));
}

#[test]
fn range_order_does_not_matter() {
    let targets = TargetMap::new();
    let forward = parse_commands("2-4q", 4, &targets);
    let backward = parse_commands("4-2q", 4, &targets);
    assert_eq!(forward, backward);
    let mut keys: Vec<usize> = forward.keys().copied().collect();
    keys.sort();
    assert_eq!(keys, vec![2, 3, 4]);
    let clipped = parse_commands("2-5q", 4, &targets);
    assert_eq!(clipped.len(), 1);
    assert_eq!(clipped.get(&2), Some(&vec![Action::Unsubscribe]));
}

#[test]
fn unknown_character_discards_pending_indices() {
    let targets = TargetMap::new();
    let result = parse_commands("1 2 zq", 10, &targets);
    assert!(result.is_empty());
    let result = parse_commands("1-z3q", 10, &targets);
    assert_eq!(result.get(&3), Some(&vec![Action::Unsubscribe]));
    assert!(!result.contains_key(&1));
}

#[test]
fn alias_unions_without_duplicates_and_digits_start_new_set() {
    let mut targets = TargetMap::new();
    targets.insert('u', vec![1, 2]);
    targets.insert('m', vec![2, 3]);
    let result = parse_commands("umd", 10, &targets);
    assert_eq!(result.get(&1), Some(&vec![Action::Done]));
    assert_eq!(result.get(&2), Some(&vec![Action::Done]));
    assert_eq!(result.get(&3), Some(&vec![Action::Done]));
    let result = parse_commands("1o2r", 10, &targets);
    assert_eq!(result.get(&1), Some(&vec![Action::Open]));
    assert_eq!(result.get(&2), Some(&vec![Action::Read]));
    let result = parse_commands("ad", 10, &targets);
    assert!(result.is_empty());
}

#[test]
fn target_characters_are_recognised() {
    for ch in ['m', 'c', 'f', '?', 'a', 'x', 'u'] {
        assert!(is_target_char(ch));
    }
    assert!(!is_target_char('o'));
    assert!(!is_target_char('1'));
}

#[test]
fn target_map_append_and_replace() {
    let mut targets = TargetMap::new();
    assert!(targets.get('u').is_none());
    targets.append('u', 3);
    targets.append('u', 5);
    assert_eq!(targets.get('u'), Some(&vec![3, 5]));
    targets.insert('u', vec![7]);
    assert_eq!(targets.get('u'), Some(&vec![7]));
}

#[test]
fn invalid_leading_digit_is_dropped_and_rest_kept() {
    let targets = TargetMap::new();
    let result = parse_commands("73d", 5, &targets);
    assert_eq!(result.len(), 1);
    assert_eq!(result.get(&3), Some(&vec![Action::Done]));
    let result = parse_commands("9912r", 5, &targets);
    let mut keys: Vec<usize> = result.keys().copied().collect();
    keys.sort();
    assert_eq!(keys, vec![1, 2]);
    let result = parse_commands("7d", 5, &targets);
    assert!(result.is_empty());
}

#[test]
fn reset_character_splits_line() {
    let targets = TargetMap::new();
    let whole = parse_commands("1o 2 z1r", 10, &targets);
    assert_eq!(whole.get(&1), Some(&vec![Action::Open, Action::Read]));
    assert!(!whole.contains_key(&2));
}
