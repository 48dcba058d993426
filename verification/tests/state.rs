use std::time::Instant;

use anagram_solver_core::constraints::SolverConstraints;
use anagram_solver_core::pattern::ProcessedPattern;
use anagram_solver_core::solver::SolverInternalState;

#[test]
fn new_state_has_found_nothing_and_has_time() {
    let state = SolverInternalState::new(&SolverConstraints::new());
    assert!(!state.timed_out);
    assert_eq!(state.solutions_found_count, 0);
    assert_eq!(state.patterns_satisfied_mask, None);
    assert!(state.start_time <= Instant::now());
}

#[test]
fn new_state_has_a_clear_mark_for_each_pattern() {
    let mut rules = SolverConstraints::new();
    rules.contains_patterns = Some(vec![ProcessedPattern::new("ab"), ProcessedPattern::new("cd")]);
    let state = SolverInternalState::new(&rules);
    assert_eq!(state.patterns_satisfied_mask, Some(vec![false, false]));
    rules.contains_patterns = Some(Vec::new());
    let state = SolverInternalState::new(&rules);
    assert_eq!(state.patterns_satisfied_mask, Some(Vec::new()));
}

#[test]
fn limits_are_reached_at_the_cap() {
    let mut rules = SolverConstraints::new();
    let mut state = SolverInternalState::new(&rules);
    assert!(!state.limits_reached(&rules));
    rules.max_solutions = Some(2);
    assert!(!state.limits_reached(&rules));
    state.solutions_found_count = 1;
    assert!(!state.limits_reached(&rules));
    state.solutions_found_count = 2;
    assert!(state.limits_reached(&rules));
    state.solutions_found_count = 3;
    assert!(state.limits_reached(&rules));
    rules.max_solutions = Some(0);
    state.solutions_found_count = 0;
    assert!(state.limits_reached(&rules));
}

#[test]
fn limits_are_reached_once_time_is_up() {
    let rules = SolverConstraints::new();
    let mut state = SolverInternalState::new(&rules);
    state.timed_out = true;
    assert!(state.limits_reached(&rules));
}

#[test]
fn note_elapsed_marks_the_state_past_the_budget() {
    let mut rules = SolverConstraints::new();
    rules.timeout_nanos = Some(500);
    let mut state = SolverInternalState::new(&rules);
    assert!(!state.note_elapsed(&rules, 499));
    assert!(!state.timed_out);
    assert!(!state.note_elapsed(&rules, 500));
    assert!(!state.timed_out);
    assert!(state.note_elapsed(&rules, 501));
    assert!(state.timed_out);
    assert!(state.note_elapsed(&rules, 0));
    assert!(state.timed_out);
}

#[test]
fn note_elapsed_without_budget_never_marks_the_state() {
    let rules = SolverConstraints::new();
    let mut state = SolverInternalState::new(&rules);
    assert!(!state.note_elapsed(&rules, u128::MAX));
    assert!(!state.timed_out);
}

#[test]
fn note_elapsed_reports_the_cap_too() {
    let mut rules = SolverConstraints::new();
    rules.max_solutions = Some(1);
    let mut state = SolverInternalState::new(&rules);
    assert!(!state.note_elapsed(&rules, 7));
    state.solutions_found_count = 1;
    assert!(state.note_elapsed(&rules, 7));
    assert!(!state.timed_out);
}

#[test]
fn check_limits_marks_the_state_when_the_budget_is_used_up() {
    let mut rules = SolverConstraints::new();
    rules.timeout_nanos = Some(0);
    let mut state = SolverInternalState::new(&rules);
    let mut stopped = false;
    for _ in 0..1_000_000 {
        if state.check_limits(&rules) {
            stopped = true;
            break;
        }
    }
    assert!(stopped);
    assert!(state.timed_out);
    assert!(state.check_limits(&rules));
}

#[test]
fn check_limits_with_a_long_budget_lets_the_search_go_on() {
    let mut rules = SolverConstraints::new();
    rules.timeout_nanos = Some(u128::MAX);
    let mut state = SolverInternalState::new(&rules);
    assert!(!state.check_limits(&rules));
    assert!(!state.timed_out);
    assert_eq!(state.solutions_found_count, 0);
}
