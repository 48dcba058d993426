use anagram_solver_core::trie::{Trie, TrieNode};

fn holds(trie: &Trie, word: &str) -> bool {
    let mut node: &TrieNode = trie.root();
    for c in word.chars() {
        if !c.is_ascii_lowercase() {
            return false;
        }
        match &node.children[(c as u8 - b'a') as usize] {
            Some(child) => node = child,
            None => return false,
        }
    }
    node.is_end_of_word
}

#[test]
fn new_trie_has_no_word() {
    let trie = Trie::new();
    assert_eq!(trie.get_min_word_len(), 0);
    assert_eq!(trie.get_max_word_len(), 0);
    assert!(!trie.root().is_end_of_word);
    assert!(trie.root().children.iter().all(|child| child.is_none()));
}

#[test]
fn default_node_is_a_leaf_where_no_word_ends() {
    let node = TrieNode::default();
    assert!(!node.is_end_of_word);
    assert!(node.children.iter().all(|child| child.is_none()));
}

#[test]
fn insert_adds_the_normalised_word() {
    let mut trie = Trie::new();
    trie.insert(" Can't ");
    assert!(holds(&trie, "cant"));
    assert!(!holds(&trie, "can"));
    assert!(!holds(&trie, "cants"));
    assert!(!holds(&trie, ""));
    trie.insert("can");
    assert!(holds(&trie, "can"));
    assert!(holds(&trie, "cant"));
}

#[test]
fn insert_leaves_out_a_word_without_letters() {
    let mut trie = Trie::new();
    trie.insert("");
    trie.insert(" 42 ");
    assert_eq!(trie.get_min_word_len(), 0);
    assert_eq!(trie.get_max_word_len(), 0);
    assert!(!trie.root().is_end_of_word);
    assert!(trie.root().children.iter().all(|child| child.is_none()));
}

#[test]
fn word_lengths_are_tracked() {
    let mut trie = Trie::new();
    trie.insert("horse");
    assert_eq!(trie.get_min_word_len(), 5);
    assert_eq!(trie.get_max_word_len(), 5);
    trie.insert("ox");
    assert_eq!(trie.get_min_word_len(), 2);
    assert_eq!(trie.get_max_word_len(), 5);
    trie.insert("elephant");
    assert_eq!(trie.get_min_word_len(), 2);
    assert_eq!(trie.get_max_word_len(), 8);
    trie.insert("o-x");
    assert_eq!(trie.get_min_word_len(), 2);
    assert_eq!(trie.get_max_word_len(), 8);
}
