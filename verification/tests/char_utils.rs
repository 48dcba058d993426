use std::collections::HashMap;
use std::collections::HashSet;

use anagram_solver_core::char_utils::{
    char_to_index, index_to_char, is_space_char, lower_char, normalize_word, normalized_letters,
    parse_char_list_to_counts, parse_char_list_to_set, string_of, CharCounts, ALPHABET_SIZE,
};

#[test]
fn alphabet_has_26_letters() {
    assert_eq!(ALPHABET_SIZE, 26);
}

#[test]
fn char_to_index_takes_lower_case_letters_only() {
    assert_eq!(char_to_index('a'), Some(0));
    assert_eq!(char_to_index('m'), Some(12));
    assert_eq!(char_to_index('z'), Some(25));
    assert_eq!(char_to_index('A'), None);
    assert_eq!(char_to_index('`'), None);
    assert_eq!(char_to_index('{'), None);
    assert_eq!(char_to_index('\u{e9}'), None);
}

#[test]
fn index_to_char_undoes_char_to_index() {
    assert_eq!(index_to_char(0), 'a');
    assert_eq!(index_to_char(25), 'z');
    for i in 0..ALPHABET_SIZE {
        assert_eq!(char_to_index(index_to_char(i)), Some(i));
    }
}

#[test]
fn lower_char_moves_ascii_capitals_only() {
    assert_eq!(lower_char('A'), 'a');
    assert_eq!(lower_char('Z'), 'z');
    assert_eq!(lower_char('q'), 'q');
    assert_eq!(lower_char('@'), '@');
    assert_eq!(lower_char('['), '[');
    assert_eq!(lower_char('\u{c9}'), '\u{c9}');
}

#[test]
fn is_space_char_agrees_with_the_standard_library() {
    for code in 0..=0x3100u32 {
        if let Some(c) = char::from_u32(code) {
            assert_eq!(is_space_char(c), c.is_whitespace(), "U+{:04X}", code);
        }
    }
}

#[test]
fn normalize_word_keeps_letters_in_lower_case() {
    assert_eq!(normalize_word("  Hello, World! "), "helloworld");
    assert_eq!(normalize_word("don't"), "dont");
    assert_eq!(normalize_word("na\u{ef}ve"), "nave");
    assert_eq!(normalize_word(" 12 "), "");
    assert_eq!(normalize_word(""), "");
}

#[test]
fn normalized_letters_and_string_of_agree_with_normalize_word() {
    let letters = normalized_letters("A-b c");
    assert_eq!(letters, vec!['a', 'b', 'c']);
    assert_eq!(string_of(&letters), "abc");
}

#[test]
fn new_counts_are_all_zero() {
    let counts = CharCounts::new();
    assert!(counts.is_empty());
    assert_eq!(counts.total(), 0);
    for i in 0..ALPHABET_SIZE {
        assert_eq!(counts.get(index_to_char(i)), Some(0));
    }
}

#[test]
fn from_str_counts_letters_of_either_case() {
    let counts = CharCounts::from_str("Aa b\tZ").unwrap();
    assert_eq!(counts.get('a'), Some(2));
    assert_eq!(counts.get('b'), Some(1));
    assert_eq!(counts.get('c'), Some(0));
    assert_eq!(counts.get('z'), Some(1));
    assert_eq!(counts.total(), 4);
    assert!(!counts.is_empty());
}

#[test]
fn from_str_of_white_space_is_empty() {
    let counts = CharCounts::from_str(" \n\t\u{a0}").unwrap();
    assert!(counts.is_empty());
    assert_eq!(counts, CharCounts::new());
}

#[test]
fn from_str_names_the_first_character_it_cannot_take() {
    assert_eq!(
        CharCounts::from_str("ab1c?"),
        Err("Invalid character in input string: 1".to_string())
    );
    assert_eq!(
        CharCounts::from_str("caf\u{e9}"),
        Err("Invalid character in input string: \u{e9}".to_string())
    );
    assert!(CharCounts::from_str("123").is_err());
}

#[test]
fn get_gives_nothing_for_other_characters() {
    let counts = CharCounts::from_str("abc").unwrap();
    assert_eq!(counts.get('A'), None);
    assert_eq!(counts.get('1'), None);
    assert_eq!(counts.get(' '), None);
}

#[test]
fn can_subtract_compares_letter_by_letter() {
    let large = CharCounts::from_str("aabbc").unwrap();
    let small = CharCounts::from_str("abc").unwrap();
    let other = CharCounts::from_str("abd").unwrap();
    assert!(large.can_subtract(&small));
    assert!(large.can_subtract(&large));
    assert!(large.can_subtract(&CharCounts::new()));
    assert!(!small.can_subtract(&large));
    assert!(!large.can_subtract(&other));
}

#[test]
fn subtract_mut_takes_the_letters_out() {
    let mut counts = CharCounts::from_str("aabbc").unwrap();
    let small = CharCounts::from_str("abc").unwrap();
    assert_eq!(counts.subtract_mut(&small), Ok(()));
    assert_eq!(counts, CharCounts::from_str("ab").unwrap());
    assert_eq!(counts.total(), 2);
}

#[test]
fn subtract_mut_refuses_what_is_not_there() {
    let mut counts = CharCounts::from_str("abc").unwrap();
    let other = CharCounts::from_str("abd").unwrap();
    assert_eq!(
        counts.subtract_mut(&other),
        Err("Cannot subtract, insufficient characters.".to_string())
    );
    assert_eq!(counts, CharCounts::from_str("abc").unwrap());
}

#[test]
fn add_mut_undoes_subtract_mut() {
    let whole = CharCounts::from_str("anagram").unwrap();
    let part = CharCounts::from_str("nag").unwrap();
    let mut counts = whole.clone();
    counts.subtract_mut(&part).unwrap();
    counts.add_mut(&part);
    assert_eq!(counts, whole);
    assert_eq!(counts.total(), 7);
}

#[test]
fn decrement_and_increment_move_one_letter() {
    let mut counts = CharCounts::from_str("ab").unwrap();
    assert_eq!(counts.decrement_char('a'), Ok(()));
    assert_eq!(counts.get('a'), Some(0));
    assert_eq!(counts.total(), 1);
    assert_eq!(counts.decrement_char('a'), Err("No such letter left to use.".to_string()));
    assert_eq!(counts.decrement_char('A'), Err("No such letter left to use.".to_string()));
    assert_eq!(counts.total(), 1);
    assert_eq!(counts.increment_char('a'), Ok(()));
    assert_eq!(counts, CharCounts::from_str("ab").unwrap());
    assert_eq!(counts.increment_char('!'), Err("No room for another letter.".to_string()));
    assert_eq!(counts, CharCounts::from_str("ab").unwrap());
}

#[test]
fn parse_char_list_to_set_lowers_its_characters() {
    assert_eq!(parse_char_list_to_set(None), None);
    let expected: HashSet<u32> = ['a' as u32, 'b' as u32, '1' as u32].into_iter().collect();
    assert_eq!(parse_char_list_to_set(Some("aAb1")), Some(expected));
    assert_eq!(parse_char_list_to_set(Some("")), Some(HashSet::new()));
}

#[test]
fn parse_char_list_to_counts_counts_lowered_characters() {
    assert_eq!(parse_char_list_to_counts(None), None);
    let mut expected: HashMap<u32, usize> = HashMap::new();
    expected.insert('a' as u32, 3);
    expected.insert('b' as u32, 1);
    expected.insert('-' as u32, 2);
    assert_eq!(parse_char_list_to_counts(Some("aAb-a-")), Some(expected));
    assert_eq!(parse_char_list_to_counts(Some("")), Some(HashMap::new()));
}
