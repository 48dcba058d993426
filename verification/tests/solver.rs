use std::collections::HashMap;
use std::collections::HashSet;

use anagram_solver_core::char_utils::{parse_char_list_to_counts, parse_char_list_to_set, CharCounts};
use anagram_solver_core::constraints::SolverConstraints;
use anagram_solver_core::pattern::ProcessedPattern;
use anagram_solver_core::solver::AnagramSolver;

fn solver_with(words: &[&str]) -> AnagramSolver {
    let mut solver = AnagramSolver::new();
    for word in words {
        solver.add_word(word);
    }
    solver
}

fn lists(expected: &[&[&str]]) -> Vec<Vec<String>> {
    expected.iter().map(|words| words.iter().map(|w| w.to_string()).collect()).collect()
}

fn pooled(solution: &[String]) -> CharCounts {
    CharCounts::from_str(&solution.concat()).unwrap()
}

#[test]
fn single_words_come_in_dictionary_order() {
    let solver = solver_with(&["cat", "act", "tac"]);
    let found = solver.solve("cat", &SolverConstraints::new());
    assert_eq!(found, lists(&[&["act"], &["cat"], &["tac"]]));
}

#[test]
fn two_words_within_the_word_bound() {
    let solver = solver_with(&["cat", "a"]);
    let mut rules = SolverConstraints::new();
    rules.max_words = Some(2);
    let found = solver.solve("acta", &rules);
    assert_eq!(found, lists(&[&["a", "cat"]]));
}

#[test]
fn no_time_gives_a_prompt_partial_result() {
    let mut solver = AnagramSolver::new();
    let mut text = String::new();
    for a in b'a'..=b'z' {
        for b in b'a'..=b'z' {
            for c in b'a'..=b'z' {
                text.push(a as char);
                text.push(b as char);
                text.push(c as char);
                text.push('\n');
            }
        }
    }
    solver.load_dictionary_from_text(&text);
    let mut rules = SolverConstraints::new();
    rules.timeout_nanos = Some(0);
    let phrase = "the quick brown fox jumps over the lazy dog";
    let found = solver.solve(phrase, &rules);
    let target = CharCounts::from_str(phrase).unwrap();
    for (i, solution) in found.iter().enumerate() {
        assert_eq!(pooled(solution), target);
        for other in &found[i + 1..] {
            assert_ne!(solution, other);
        }
    }
}

#[test]
fn phrase_without_letters_gives_nothing() {
    let solver = solver_with(&["cat", "a"]);
    let found = solver.solve("123", &SolverConstraints::new());
    assert!(found.is_empty());
}

#[test]
fn blank_phrase_gives_nothing() {
    let solver = solver_with(&["cat", "a"]);
    assert!(solver.solve("", &SolverConstraints::new()).is_empty());
    assert!(solver.solve(" \t\n", &SolverConstraints::new()).is_empty());
}

#[test]
fn phrase_with_a_foreign_character_gives_nothing() {
    let solver = solver_with(&["cat", "a"]);
    assert!(solver.solve("cat!", &SolverConstraints::new()).is_empty());
    assert!(solver.solve("c\u{e4}t", &SolverConstraints::new()).is_empty());
}

#[test]
fn empty_dictionary_gives_nothing() {
    let solver = AnagramSolver::new();
    assert!(solver.solve("cat", &SolverConstraints::new()).is_empty());
}

#[test]
fn pattern_that_a_word_contains_is_met() {
    let solver = solver_with(&["cat", "a"]);
    let mut rules = SolverConstraints::new();
    rules.max_words = Some(2);
    rules.contains_patterns = Some(vec![ProcessedPattern::new("at")]);
    let found = solver.solve("acta", &rules);
    assert_eq!(found, lists(&[&["a", "cat"]]));
}

#[test]
fn pattern_that_is_only_scattered_in_a_word_is_not_met() {
    let solver = solver_with(&["cat", "a"]);
    let mut rules = SolverConstraints::new();
    rules.max_words = Some(2);
    rules.contains_patterns = Some(vec![ProcessedPattern::new("ct")]);
    let found = solver.solve("acta", &rules);
    assert!(found.is_empty());
}

#[test]
fn pattern_that_no_word_contains_gives_nothing() {
    let solver = solver_with(&["cat", "a"]);
    let mut rules = SolverConstraints::new();
    rules.max_words = Some(2);
    rules.contains_patterns = Some(vec![ProcessedPattern::new("xy")]);
    let found = solver.solve("acta", &rules);
    assert!(found.is_empty());
}

#[test]
fn an_anagram_of_a_pattern_does_not_meet_it() {
    let solver = solver_with(&["tac", "cat"]);
    let mut rules = SolverConstraints::new();
    rules.contains_patterns = Some(vec![ProcessedPattern::new("ca")]);
    let found = solver.solve("cat", &rules);
    assert_eq!(found, lists(&[&["cat"]]));
}

#[test]
fn every_pattern_must_be_met() {
    let solver = solver_with(&["in", "on", "no", "ni"]);
    let mut rules = SolverConstraints::new();
    rules.contains_patterns = Some(vec![ProcessedPattern::new("in"), ProcessedPattern::new("no")]);
    let found = solver.solve("inno", &rules);
    assert_eq!(found, lists(&[&["in", "no"]]));
}

#[test]
fn results_are_ordered_by_count_then_shortest_word_then_words() {
    let solver = solver_with(&["ab", "cd", "abcd", "a", "bcd", "abc", "d", "dcba", "b", "c"]);
    let found = solver.solve("abcd", &SolverConstraints::new());
    assert_eq!(
        found,
        lists(&[
            &["abcd"],
            &["dcba"],
            &["ab", "cd"],
            &["a", "bcd"],
            &["abc", "d"],
            &["a", "b", "cd"],
            &["ab", "c", "d"],
            &["a", "b", "c", "d"],
        ])
    );
}

#[test]
fn a_word_may_be_used_as_often_as_the_letters_allow() {
    let solver = solver_with(&["ab"]);
    let found = solver.solve("abab", &SolverConstraints::new());
    assert_eq!(found, lists(&[&["ab", "ab"]]));
}

#[test]
fn upper_case_and_spaces_in_the_phrase_do_not_matter() {
    let solver = solver_with(&["cat", "a"]);
    let found = solver.solve("A Cat", &SolverConstraints::new());
    assert_eq!(found, lists(&[&["a", "cat"]]));
}

#[test]
fn word_bound_is_kept() {
    let solver = solver_with(&["ab", "cd", "abcd", "a", "bcd"]);
    let mut rules = SolverConstraints::new();
    rules.max_words = Some(1);
    assert_eq!(solver.solve("abcd", &rules), lists(&[&["abcd"]]));
    rules.max_words = Some(0);
    assert!(solver.solve("abcd", &rules).is_empty());
}

#[test]
fn shortest_word_bound_is_kept() {
    let solver = solver_with(&["ab", "cd", "abcd", "a", "bcd"]);
    let mut rules = SolverConstraints::new();
    rules.min_word_length = Some(2);
    assert_eq!(solver.solve("abcd", &rules), lists(&[&["abcd"], &["ab", "cd"]]));
    rules.min_word_length = Some(5);
    assert!(solver.solve("abcd", &rules).is_empty());
}

#[test]
fn cap_on_solutions_is_kept() {
    let solver = solver_with(&["ab", "cd", "abcd", "a", "bcd"]);
    let all = solver.solve("abcd", &SolverConstraints::new());
    assert_eq!(all.len(), 3);
    let mut rules = SolverConstraints::new();
    for cap in 0..5usize {
        rules.max_solutions = Some(cap);
        let found = solver.solve("abcd", &rules);
        assert_eq!(found.len(), cap.min(3));
        for solution in &found {
            assert!(all.contains(solution));
        }
    }
}

#[test]
fn denied_first_letters_are_kept_out() {
    let solver = solver_with(&["ab", "cd", "abcd", "a", "bcd"]);
    let mut rules = SolverConstraints::new();
    rules.must_not_start_with = parse_char_list_to_set(Some("C"));
    assert_eq!(solver.solve("abcd", &rules), lists(&[&["abcd"], &["a", "bcd"]]));
}

#[test]
fn only_allowed_first_letters_are_used() {
    let solver = solver_with(&["ab", "cd", "abcd", "a", "bcd"]);
    let mut rules = SolverConstraints::new();
    rules.can_only_ever_start_with = parse_char_list_to_set(Some("ac"));
    assert_eq!(solver.solve("abcd", &rules), lists(&[&["abcd"], &["ab", "cd"]]));
    rules.can_only_ever_start_with = Some(HashSet::new());
    assert!(solver.solve("abcd", &rules).is_empty());
}

#[test]
fn required_first_letters_are_counted_over_the_solution() {
    let solver = solver_with(&["ab", "cd", "abcd", "a", "bcd", "ba", "dc"]);
    let mut rules = SolverConstraints::new();
    rules.must_start_with = parse_char_list_to_counts(Some("b"));
    assert_eq!(solver.solve("abcd", &rules), lists(&[&["ba", "cd"], &["ba", "dc"], &["a", "bcd"]]));
    rules.must_start_with = parse_char_list_to_counts(Some("bB"));
    assert!(solver.solve("abcd", &rules).is_empty());
    let mut odd: HashMap<u32, usize> = HashMap::new();
    odd.insert('1' as u32, 1);
    rules.must_start_with = Some(odd);
    assert!(solver.solve("abcd", &rules).is_empty());
    let mut idle: HashMap<u32, usize> = HashMap::new();
    idle.insert('1' as u32, 0);
    rules.must_start_with = Some(idle);
    assert_eq!(solver.solve("abcd", &rules).len(), 6);
}

#[test]
fn long_single_word_is_found() {
    let solver = solver_with(&["conversation", "voices", "rant", "on"]);
    let found = solver.solve("Voices rant on", &SolverConstraints::new());
    assert_eq!(found, lists(&[&["conversation"], &["on", "rant", "voices"]]));
}

#[test]
fn generous_time_budget_changes_nothing() {
    let solver = solver_with(&["ab", "cd", "abcd", "a", "bcd"]);
    let mut rules = SolverConstraints::new();
    rules.timeout_nanos = Some(u128::MAX);
    assert_eq!(solver.solve("abcd", &rules).len(), 3);
}

#[test]
fn dictionary_from_words_and_from_text_agree() {
    let words: Vec<String> = vec!["Cat".to_string(), "  a ".to_string(), "--".to_string()];
    let mut from_words = AnagramSolver::new();
    from_words.load_dictionary_from_words(&words);
    let mut from_text = AnagramSolver::new();
    from_text.load_dictionary_from_text("Cat\r\n  a \n--\n\n");
    let expected = lists(&[&["a", "cat"]]);
    assert_eq!(from_words.solve("acta", &SolverConstraints::new()), expected);
    assert_eq!(from_text.solve("acta", &SolverConstraints::new()), expected);
}

#[test]
fn last_line_without_line_feed_is_a_word() {
    let mut solver = AnagramSolver::new();
    solver.load_dictionary_from_text("a\ncat");
    assert_eq!(solver.solve("acta", &SolverConstraints::new()), lists(&[&["a", "cat"]]));
}

fn all_partitions(dictionary: &[&str], phrase: &str) -> Vec<Vec<String>> {
    fn extend(
        dictionary: &[&str],
        from: usize,
        left: &mut Vec<usize>,
        chosen: &mut Vec<String>,
        out: &mut Vec<Vec<String>>,
    ) {
        if left.iter().all(|n| *n == 0) {
            if !chosen.is_empty() {
                let mut sorted = chosen.clone();
                sorted.sort();
                out.push(sorted);
            }
            return;
        }
        for at in from..dictionary.len() {
            let word = dictionary[at];
            let mut need = vec![0usize; 26];
            for b in word.bytes() {
                need[(b - b'a') as usize] += 1;
            }
            if (0..26).all(|k| need[k] <= left[k]) {
                for k in 0..26 {
                    left[k] -= need[k];
                }
                chosen.push(word.to_string());
                extend(dictionary, at, left, chosen, out);
                chosen.pop();
                for k in 0..26 {
                    left[k] += need[k];
                }
            }
        }
    }
    let mut left = vec![0usize; 26];
    for b in phrase.bytes() {
        left[(b - b'a') as usize] += 1;
    }
    let mut out = Vec::new();
    extend(dictionary, 0, &mut left, &mut Vec::new(), &mut out);
    out.sort_by(|a, b| {
        let least = |ws: &Vec<String>| ws.iter().map(|w| w.len()).min().unwrap_or(0);
        a.len().cmp(&b.len()).then(least(b).cmp(&least(a))).then(a.cmp(b))
    });
    out
}

#[test]
fn search_agrees_with_plain_enumeration() {
    let dictionary = [
        "a", "an", "at", "ant", "tan", "nat", "eat", "tea", "ate", "eta", "net", "ten", "neat",
        "ante", "tent", "nett", "ne", "en", "ta", "te", "tt", "n", "e", "t", "tenant", "anent",
    ];
    let solver = solver_with(&dictionary);
    for phrase in ["tenant", "neat", "ante", "tat", "nnn", "eaten", "attent", "z", "tenantz"] {
        let found = solver.solve(phrase, &SolverConstraints::new());
        assert_eq!(found, all_partitions(&dictionary, phrase), "{}", phrase);
    }
}
