use std::collections::HashMap;
use std::collections::HashSet;

use anagram_solver_core::char_utils::CharCounts;
use anagram_solver_core::constraints::{count_first_letters, SolverConstraints};
use anagram_solver_core::pattern::ProcessedPattern;

fn words(texts: &[&str]) -> Vec<Vec<char>> {
    texts.iter().map(|t| t.chars().collect()).collect()
}

fn codes(text: &str) -> HashSet<u32> {
    text.chars().map(|c| c as u32).collect()
}

#[test]
fn new_constraints_set_no_rule() {
    let rules = SolverConstraints::new();
    assert!(rules.must_start_with.is_none());
    assert!(rules.can_only_ever_start_with.is_none());
    assert!(rules.must_not_start_with.is_none());
    assert!(rules.max_words.is_none());
    assert!(rules.min_word_length.is_none());
    assert!(rules.timeout_nanos.is_none());
    assert!(rules.max_solutions.is_none());
    assert!(rules.contains_patterns.is_none());
}

#[test]
fn any_letter_may_begin_a_word_without_rules() {
    let rules = SolverConstraints::new();
    assert!(rules.is_valid_start_char('a'));
    assert!(rules.is_valid_start_char('z'));
}

#[test]
fn denied_letter_may_not_begin_a_word() {
    let mut rules = SolverConstraints::new();
    rules.must_not_start_with = Some(codes("xy"));
    assert!(!rules.is_valid_start_char('x'));
    assert!(!rules.is_valid_start_char('y'));
    assert!(rules.is_valid_start_char('a'));
}

#[test]
fn only_allowed_letters_may_begin_a_word() {
    let mut rules = SolverConstraints::new();
    rules.can_only_ever_start_with = Some(codes("ab"));
    assert!(rules.is_valid_start_char('a'));
    assert!(rules.is_valid_start_char('b'));
    assert!(!rules.is_valid_start_char('c'));
}

#[test]
fn denial_wins_over_allowance() {
    let mut rules = SolverConstraints::new();
    rules.can_only_ever_start_with = Some(codes("ab"));
    rules.must_not_start_with = Some(codes("b"));
    assert!(rules.is_valid_start_char('a'));
    assert!(!rules.is_valid_start_char('b'));
    assert!(!rules.is_valid_start_char('c'));
}

#[test]
fn time_is_up_only_past_the_budget() {
    let mut rules = SolverConstraints::new();
    assert!(!rules.time_is_up(0));
    assert!(!rules.time_is_up(u128::MAX));
    rules.timeout_nanos = Some(1_000);
    assert!(!rules.time_is_up(999));
    assert!(!rules.time_is_up(1_000));
    assert!(rules.time_is_up(1_001));
    rules.timeout_nanos = Some(0);
    assert!(!rules.time_is_up(0));
    assert!(rules.time_is_up(1));
}

#[test]
fn count_first_letters_counts_words_by_first_letter() {
    let list = words(&["apple", "avocado", "banana", ""]);
    assert_eq!(count_first_letters(&list, 'a' as u32), 2);
    assert_eq!(count_first_letters(&list, 'b' as u32), 1);
    assert_eq!(count_first_letters(&list, 'c' as u32), 0);
    assert_eq!(count_first_letters(&words(&[]), 'a' as u32), 0);
}

#[test]
fn first_letters_suffice_when_each_minimum_is_met() {
    let list = words(&["apple", "avocado", "banana"]);
    let mut rules = SolverConstraints::new();
    assert!(rules.first_letters_suffice(&list));
    let mut required: HashMap<u32, usize> = HashMap::new();
    required.insert('a' as u32, 2);
    required.insert('b' as u32, 1);
    rules.must_start_with = Some(required.clone());
    assert!(rules.first_letters_suffice(&list));
    required.insert('b' as u32, 2);
    rules.must_start_with = Some(required.clone());
    assert!(!rules.first_letters_suffice(&list));
    required.insert('b' as u32, 0);
    required.insert('c' as u32, 1);
    rules.must_start_with = Some(required);
    assert!(!rules.first_letters_suffice(&list));
}

#[test]
fn pattern_is_normalised_as_words_are() {
    let pattern = ProcessedPattern::new(" C-t ");
    assert_eq!(pattern.text(), "ct");
    assert_eq!(*pattern.counts(), CharCounts::from_str("ct").unwrap());
}

#[test]
fn pattern_occurs_only_where_its_letters_stand_side_by_side() {
    let pattern = ProcessedPattern::new("at");
    let cat: Vec<char> = "cat".chars().collect();
    let tac: Vec<char> = "tac".chars().collect();
    let att: Vec<char> = "matter".chars().collect();
    let a: Vec<char> = "a".chars().collect();
    assert!(pattern.occurs_in(&cat));
    assert!(!pattern.occurs_in(&tac));
    assert!(pattern.occurs_in(&att));
    assert!(!pattern.occurs_in(&a));
    let scattered = ProcessedPattern::new("ct");
    assert!(!scattered.occurs_in(&cat));
}

#[test]
fn empty_pattern_occurs_in_every_word() {
    let pattern = ProcessedPattern::new("");
    let cat: Vec<char> = "cat".chars().collect();
    let none: Vec<char> = Vec::new();
    assert!(pattern.occurs_in(&cat));
    assert!(pattern.occurs_in(&none));
    assert!(pattern.counts().is_empty());
}
