//! The rules that a search is run under.

use vstd::prelude::*;
use vstd::std_specs::hash::spec_hash_map_iter;
use vstd::std_specs::iter::IteratorSpec;
use std::collections::HashMap;
use std::collections::HashSet;
use crate::pattern::{is_substring, ProcessedPattern};
use crate::solution::words_of;

verus! {

/// How many of the words begin with the character whose code point is `code`.
pub open spec fn first_letter_count(ws: Seq<Seq<char>>, code: u32) -> nat
    decreases ws.len(),
{
    if ws.len() == 0 {
        0
    } else {
        first_letter_count(ws.drop_last(), code) + if begins_with(ws.last(), code) {
            1nat
        } else {
            0nat
        }
    }
}

/// Whether the word begins with the character whose code point is `code`.
pub open spec fn begins_with(w: Seq<char>, code: u32) -> bool {
    w.len() > 0 && w[0] as u32 == code
}

/// The rules of one search. A field that is `None` sets no rule.
pub struct SolverConstraints {
    /// For the code point of a first letter, how many words of a solution
    /// must begin with it at least.
    pub must_start_with: Option<HashMap<u32, usize>>,
    /// The code points that the first letter of every word must be among.
    pub can_only_ever_start_with: Option<HashSet<u32>>,
    /// The code points that no word may begin with.
    pub must_not_start_with: Option<HashSet<u32>>,
    /// The largest number of words in a solution.
    pub max_words: Option<usize>,
    /// The smallest length of a word.
    pub min_word_length: Option<usize>,
    /// The time that a search may take, in nanoseconds.
    pub timeout_nanos: Option<u128>,
    /// The largest number of solutions that a search returns.
    pub max_solutions: Option<usize>,
    /// The substrings of which each must stand in some word of a solution.
    pub contains_patterns: Option<Vec<ProcessedPattern>>,
}

impl SolverConstraints {
    /// Whether a word may begin with `c`.
    pub open spec fn start_allowed(&self, c: char) -> bool {
        &&& self.must_not_start_with matches Some(denied) ==> !denied@.contains(c as u32)
        &&& self.can_only_ever_start_with matches Some(allowed) ==> allowed@.contains(c as u32)
    }

    /// Whether a solution may hold the word `w`: it is not empty, long enough,
    /// and begins with a letter that words may begin with.
    pub open spec fn word_allowed(&self, w: Seq<char>) -> bool {
        &&& w.len() > 0
        &&& self.start_allowed(w[0])
        &&& self.min_word_length matches Some(least) ==> w.len() >= least
    }

    /// Whether a solution may hold `n` words.
    pub open spec fn count_allowed(&self, n: nat) -> bool {
        self.max_words matches Some(most) ==> n <= most
    }

    /// Whether enough of the words begin with each letter that asks for it.
    pub open spec fn starts_met(&self, ws: Seq<Seq<char>>) -> bool {
        self.must_start_with matches Some(required) ==> forall|code: u32|
            #[trigger] required@.contains_key(code) ==> first_letter_count(ws, code)
                >= required@[code]
    }

    /// Number of required substrings.
    pub open spec fn pattern_count(&self) -> nat {
        match self.contains_patterns {
            Some(patterns) => patterns@.len(),
            None => 0,
        }
    }

    /// Text of the required substring at position `i`.
    pub open spec fn pattern_text(&self, i: int) -> Seq<char> {
        self.contains_patterns->0@[i]@
    }

    /// Whether one of the words contains the required substring at position `i`.
    pub open spec fn pattern_found(&self, i: int, ws: Seq<Seq<char>>) -> bool {
        exists|j: int| 0 <= j < ws.len() && is_substring(self.pattern_text(i), #[trigger] ws[j])
    }

    /// Whether each required substring stands in one of the words.
    pub open spec fn patterns_met(&self, ws: Seq<Seq<char>>) -> bool {
        forall|i: int| 0 <= i < self.pattern_count() ==> #[trigger] self.pattern_found(i, ws)
    }

    /// Whether a reading of the clock is past the time that a search may take.
    pub open spec fn spec_time_is_up(&self, elapsed_nanos: u128) -> bool {
        self.timeout_nanos matches Some(limit) && elapsed_nanos > limit
    }

    /// Rules that set no rule.
    pub fn new() -> (r: Self)
        ensures
            r.must_start_with is None,
            r.can_only_ever_start_with is None,
            r.must_not_start_with is None,
            r.max_words is None,
            r.min_word_length is None,
            r.timeout_nanos is None,
            r.max_solutions is None,
            r.contains_patterns is None,
    {
        SolverConstraints {
            must_start_with: None,
            can_only_ever_start_with: None,
            must_not_start_with: None,
            max_words: None,
            min_word_length: None,
            timeout_nanos: None,
            max_solutions: None,
            contains_patterns: None,
        }
    }

    /// Whether a word may begin with `c`: `c` is not denied, and is among the
    /// allowed first letters where those are set.
    pub fn is_valid_start_char(&self, c: char) -> (r: bool)
        ensures
            r == self.start_allowed(c),
    {
        broadcast use vstd::std_specs::hash::group_hash_axioms;

        let code = c as u32;
        if let Some(denied) = &self.must_not_start_with {
            if denied.contains(&code) {
                return false;
            }
        }
        if let Some(allowed) = &self.can_only_ever_start_with {
            if !allowed.contains(&code) {
                return false;
            }
        }
        true
    }

    /// Whether a reading of the clock is past the time that a search may take.
    pub fn time_is_up(&self, elapsed_nanos: u128) -> (r: bool)
        ensures
            r == self.spec_time_is_up(elapsed_nanos),
    {
        match self.timeout_nanos {
            Some(limit) => elapsed_nanos > limit,
            None => false,
        }
    }

    /// Whether enough of the words begin with each letter that asks for it.
    pub fn first_letters_suffice(&self, words: &Vec<Vec<char>>) -> (r: bool)
        ensures
            r == self.starts_met(words_of(words@)),
    {
        broadcast use vstd::std_specs::hash::group_hash_axioms;

        match &self.must_start_with {
            None => true,
            Some(required) => {
                let ghost ws = words_of(words@);
                let mut enough = true;
                for entry in it: required.iter()
                    invariant
                        it.seq() == spec_hash_map_iter(required).remaining(),
                        ws == words_of(words@),
                        enough == (forall|i: int|
                            0 <= i < it.index() ==> first_letter_count(ws, *it.seq()[i].0)
                                >= *it.seq()[i].1),
                {
                    let (code, least) = entry;
                    if count_first_letters(words, *code) < *least {
                        enough = false;
                    }
                }
                proof {
                    let entries = spec_hash_map_iter(required).remaining();
                    if enough {
                        assert forall|code: u32| #[trigger]
                            required@.contains_key(code) implies first_letter_count(ws, code)
                            >= required@[code] by {
                            assert(entries.contains((&code, &required@[code])));
                            let i = choose|i: int|
                                0 <= i < entries.len() && entries[i] == (&code, &required@[code]);
                            assert(first_letter_count(ws, *entries[i].0) >= *entries[i].1);
                        }
                    } else {
                        let i = choose|i: int|
                            0 <= i < entries.len() && !(first_letter_count(ws, *entries[i].0)
                                >= *entries[i].1);
                        assert(required@.contains_key(*entries[i].0));
                    }
                }
                enough
            },
        }
    }
}

/// How many of the words begin with the character whose code point is `code`.
pub fn count_first_letters(words: &Vec<Vec<char>>, code: u32) -> (r: usize)
    ensures
        r == first_letter_count(words_of(words@), code),
{
    let ghost ws = words_of(words@);
    let mut found: usize = 0;
    let mut i: usize = 0;
    while i < words.len()
        invariant
            i <= words.len(),
            ws == words_of(words@),
            found == first_letter_count(ws.take(i as int), code),
            found <= i,
        decreases words.len() - i,
    {
        proof {
            assert(ws.take(i as int + 1).drop_last() =~= ws.take(i as int));
            assert(ws.take(i as int + 1).last() == words@[i as int]@);
        }
        if words[i].len() > 0 && words[i][0] as u32 == code {
            found = found + 1;
        }
        i = i + 1;
    }
    proof {
        assert(ws.take(ws.len() as int) =~= ws);
    }
    found
}

} // verus!
