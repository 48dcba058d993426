//! Required substrings: each pattern is held as its normalised text together
//! with the letters that a word must offer to contain it.

use vstd::prelude::*;
use crate::char_utils::{
    counts_of, lemma_letter_count_concat, lemma_normalize_lower, letter_count, normalize,
    normalized_letters, string_of, CharCounts,
};

verus! {

/// Whether `pattern` stands in `word` as it is, letter by letter, at position `at`.
pub open spec fn occurs_at(pattern: Seq<char>, word: Seq<char>, at: int) -> bool {
    0 <= at && at + pattern.len() <= word.len() && word.subrange(at, at + pattern.len())
        == pattern
}

/// Whether `pattern` stands somewhere in `word` as it is, letter by letter.
pub open spec fn is_substring(pattern: Seq<char>, word: Seq<char>) -> bool {
    exists|at: int| occurs_at(pattern, word, at)
}

/// A word that contains a pattern holds each letter at least as often as the
/// pattern does.
pub proof fn lemma_substring_letters(pattern: Seq<char>, word: Seq<char>, c: char)
    requires
        is_substring(pattern, word),
    ensures
        letter_count(pattern, c) <= letter_count(word, c),
{
    let at = choose|at: int| occurs_at(pattern, word, at);
    let head = word.subrange(0, at);
    let tail = word.subrange(at + pattern.len(), word.len() as int);
    assert(word =~= (head + pattern) + tail);
    lemma_letter_count_concat(head + pattern, tail, c);
    lemma_letter_count_concat(head, pattern, c);
}

/// A required substring after preparation.
///
/// The value of a `ProcessedPattern` is its text: the letters of the pattern
/// as given, in lower case. The counts it holds are those of that text.
pub struct ProcessedPattern {
    text: String,
    letters: Vec<char>,
    counts: CharCounts,
}

impl View for ProcessedPattern {
    type V = Seq<char>;

    closed spec fn view(&self) -> Seq<char> {
        self.text@
    }
}

impl ProcessedPattern {
    #[verifier::type_invariant]
    pub closed spec fn wf(&self) -> bool {
        &&& self.letters@ == self.text@
        &&& self.counts@ == counts_of(self.text@)
    }

    /// The counts that the pattern holds.
    pub closed spec fn spec_counts(&self) -> CharCounts {
        self.counts
    }

    /// Prepares a pattern: its letters are kept, in lower case, as words are
    /// normalised, and counted.
    pub fn new(pattern: &str) -> (r: Self)
        ensures
            r@ == normalize(pattern@),
            r.wf(),
    {
        let letters = normalized_letters(pattern);
        let text = string_of(&letters);
        proof {
            lemma_normalize_lower(pattern@);
        }
        match CharCounts::from_str(text.as_str()) {
            Ok(counts) => ProcessedPattern { text, letters, counts },
            Err(_) => {
                proof {
                    assert(false);
                }
                ProcessedPattern { text, letters, counts: CharCounts::new() }
            },
        }
    }

    /// The text of the pattern.
    pub fn text(&self) -> (r: &String)
        ensures
            r@ == self@,
    {
        &self.text
    }

    /// The letters that a word must offer to contain the pattern.
    pub fn counts(&self) -> (r: &CharCounts)
        ensures
            *r == self.spec_counts(),
            r@ == counts_of(self@),
    {
        proof {
            use_type_invariant(self);
        }
        &self.counts
    }

    /// Whether the text of the pattern stands in `word` as it is.
    ///
    /// This asks for the letters in their order, side by side; that a word
    /// offers the letters of the pattern is not enough.
    pub fn occurs_in(&self, word: &Vec<char>) -> (r: bool)
        ensures
            r == is_substring(self@, word@),
    {
        proof {
            use_type_invariant(self);
        }
        let size = self.letters.len();
        if size > word.len() {
            return false;
        }
        let last = word.len() - size;
        let mut at: usize = 0;
        while at <= last
            invariant
                at <= last + 1,
                last == word.len() - size,
                size == self.letters.len(),
                self.letters@ == self@,
                forall|k: int| 0 <= k < at ==> !occurs_at(self@, word@, k),
            decreases last + 1 - at,
        {
            let mut i: usize = 0;
            while i < size && word[at + i] == self.letters[i]
                invariant
                    i <= size,
                    at <= last,
                    last == word.len() - size,
                    size == self.letters.len(),
                    forall|k: int| 0 <= k < i ==> word@[at + k] == self.letters@[k],
                decreases size - i,
            {
                i = i + 1;
            }
            if i == size {
                proof {
                    assert(word@.subrange(at as int, at + size) =~= self@);
                    assert(occurs_at(self@, word@, at as int));
                }
                return true;
            }
            proof {
                let part = word@.subrange(at as int, at + size);
                assert(part[i as int] != self@[i as int]);
            }
            at = at + 1;
        }
        proof {
            assert forall|k: int| !occurs_at(self@, word@, k) by {}
        }
        false
    }
}

} // verus!
