//! Multiword anagram search.
//!
//! The letters of a phrase are partitioned into dictionary words so that every
//! letter is used exactly once. The dictionary is a prefix tree, the letters
//! left to place are a count per letter, and a backtracking search walks the
//! tree under optional rules (first letters, word count and length bounds,
//! required substrings, a time budget and a cap on the number of results).
//!
//! - `char_utils`: letters, letter counts, word normalisation.
//! - `trie`: the dictionary.
//! - `pattern`, `constraints`: required substrings and the other rules.
//! - `partition`: what a solution is.
//! - `solution`: the order of words and of solutions, and the set that
//!   collects solutions.
//! - `solver`: the search; `exhaustion`: why it may leave a branch.
//! - `laws`: what holds of every result.
//! - `clock`: the clock behind the time budget.

pub mod char_utils;
pub mod clock;
pub mod constraints;
pub mod exhaustion;
pub mod laws;
pub mod partition;
pub mod pattern;
pub mod solution;
pub mod solver;
pub mod trie;
