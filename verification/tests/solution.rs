use anagram_solver_core::solution::{
    compare_solutions, compare_word_lists, compare_words, copy_word, shortest_word_len,
    sort_words, Order, SolutionSet,
};

fn word(text: &str) -> Vec<char> {
    text.chars().collect()
}

fn words(texts: &[&str]) -> Vec<Vec<char>> {
    texts.iter().map(|t| word(t)).collect()
}

fn strings(texts: &[&str]) -> Vec<String> {
    texts.iter().map(|t| t.to_string()).collect()
}

#[test]
fn compare_words_is_dictionary_order() {
    assert_eq!(compare_words(&word("act"), &word("cat")), Order::Less);
    assert_eq!(compare_words(&word("cat"), &word("act")), Order::Greater);
    assert_eq!(compare_words(&word("cat"), &word("cat")), Order::Equal);
    assert_eq!(compare_words(&word("ca"), &word("cat")), Order::Less);
    assert_eq!(compare_words(&word("cat"), &word("ca")), Order::Greater);
    assert_eq!(compare_words(&word(""), &word("a")), Order::Less);
    assert_eq!(compare_words(&word(""), &word("")), Order::Equal);
    assert_eq!(compare_words(&word("b"), &word("abc")), Order::Greater);
}

#[test]
fn compare_words_agrees_with_string_order() {
    let samples = ["", "a", "ab", "abc", "abd", "b", "ba", "z", "zz"];
    for a in samples {
        for b in samples {
            let expected = match a.cmp(b) {
                std::cmp::Ordering::Less => Order::Less,
                std::cmp::Ordering::Equal => Order::Equal,
                std::cmp::Ordering::Greater => Order::Greater,
            };
            assert_eq!(compare_words(&word(a), &word(b)), expected);
        }
    }
}

#[test]
fn compare_word_lists_goes_word_by_word() {
    assert_eq!(compare_word_lists(&words(&["a", "cat"]), &words(&["a", "cot"])), Order::Less);
    assert_eq!(compare_word_lists(&words(&["b"]), &words(&["a", "cot"])), Order::Greater);
    assert_eq!(compare_word_lists(&words(&["a"]), &words(&["a", "b"])), Order::Less);
    assert_eq!(compare_word_lists(&words(&["a", "b"]), &words(&["a", "b"])), Order::Equal);
}

#[test]
fn shortest_word_len_is_the_least_length() {
    assert_eq!(shortest_word_len(&words(&[])), 0);
    assert_eq!(shortest_word_len(&words(&["abc"])), 3);
    assert_eq!(shortest_word_len(&words(&["abc", "a", "ab"])), 1);
    assert_eq!(shortest_word_len(&words(&["ab", "abcd"])), 2);
}

#[test]
fn fewer_words_come_first() {
    assert_eq!(compare_solutions(&words(&["zzzz"]), &words(&["aa", "bb"])), Order::Less);
    assert_eq!(compare_solutions(&words(&["aa", "bb"]), &words(&["zzzz"])), Order::Greater);
}

#[test]
fn longer_shortest_word_comes_first() {
    assert_eq!(compare_solutions(&words(&["xx", "yy"]), &words(&["a", "bcd"])), Order::Less);
    assert_eq!(compare_solutions(&words(&["a", "bcd"]), &words(&["xx", "yy"])), Order::Greater);
}

#[test]
fn ties_are_broken_in_dictionary_order() {
    assert_eq!(compare_solutions(&words(&["act"]), &words(&["cat"])), Order::Less);
    assert_eq!(compare_solutions(&words(&["tac"]), &words(&["cat"])), Order::Greater);
    assert_eq!(compare_solutions(&words(&["a", "cat"]), &words(&["a", "cat"])), Order::Equal);
}

#[test]
fn copy_word_gives_the_same_letters() {
    assert_eq!(copy_word(&word("anagram")), word("anagram"));
    assert_eq!(copy_word(&word("")), word(""));
}

#[test]
fn sort_words_puts_words_in_dictionary_order() {
    assert_eq!(sort_words(&words(&["cat", "a", "act", "a"])), words(&["a", "a", "act", "cat"]));
    assert_eq!(sort_words(&words(&[])), words(&[]));
    assert_eq!(sort_words(&words(&["b", "ab", "abc", "a"])), words(&["a", "ab", "abc", "b"]));
}

#[test]
fn solution_set_keeps_each_solution_once_and_in_order() {
    let mut set = SolutionSet::new();
    assert_eq!(set.len(), 0);
    assert!(set.insert(words(&["a", "cat"])));
    assert!(set.insert(words(&["tac"])));
    assert!(set.insert(words(&["act"])));
    assert!(!set.insert(words(&["tac"])));
    assert!(set.insert(words(&["ac", "at"])));
    assert!(!set.insert(words(&["a", "cat"])));
    assert_eq!(set.len(), 4);
    assert_eq!(
        set.into_strings(),
        vec![strings(&["act"]), strings(&["tac"]), strings(&["ac", "at"]), strings(&["a", "cat"])]
    );
}

#[test]
fn empty_solution_set_gives_no_strings() {
    let set = SolutionSet::new();
    assert!(set.into_strings().is_empty());
}
