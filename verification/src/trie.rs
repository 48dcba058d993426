//! The dictionary: a prefix tree over normalised words.

use vstd::prelude::*;
use crate::char_utils::{
    char_to_index, is_lower, lemma_normalize_lower, letter_index, normalize, normalized_letters,
};

verus! {

/// One node of the prefix tree: a child for each letter that continues some
/// word from here, and whether a word ends here.
pub struct TrieNode {
    pub children: [Option<Box<TrieNode>>; 26],
    pub is_end_of_word: bool,
}

impl TrieNode {
    /// Whether the letters of `w`, followed from this node, end at a node
    /// that ends a word.
    pub open spec fn accepts(&self, w: Seq<char>) -> bool
        decreases w.len(),
    {
        if w.len() == 0 {
            self.is_end_of_word
        } else if !is_lower(w[0]) {
            false
        } else {
            match self.children[letter_index(w[0])] {
                Some(child) => child.accepts(w.drop_first()),
                None => false,
            }
        }
    }

    /// A word that a node accepts holds lower-case letters only.
    pub proof fn lemma_accepts_lower(&self, w: Seq<char>)
        requires
            self.accepts(w),
        ensures
            forall|i: int| 0 <= i < w.len() ==> is_lower(#[trigger] w[i]),
        decreases w.len(),
    {
        if w.len() > 0 {
            let child = self.children[letter_index(w[0])]->0;
            child.lemma_accepts_lower(w.drop_first());
            assert forall|i: int| 0 <= i < w.len() implies is_lower(#[trigger] w[i]) by {
                if i > 0 {
                    assert(w[i] == w.drop_first()[i - 1]);
                }
            }
        }
    }

    /// What the child for the letter `c` accepts is what this node accepts
    /// after `c`.
    pub proof fn lemma_accepts_step(&self, c: char, rest: Seq<char>)
        requires
            is_lower(c),
        ensures
            self.accepts(seq![c] + rest) == match self.children[letter_index(c)] {
                Some(child) => child.accepts(rest),
                None => false,
            },
    {
        let w = seq![c] + rest;
        assert(w[0] == c);
        assert(w.drop_first() =~= rest);
    }

    /// A node without children at which no word ends.
    pub fn new() -> (r: TrieNode)
        ensures
            forall|w: Seq<char>| !r.accepts(w),
            !r.is_end_of_word,
            forall|i: int| 0 <= i < 26 ==> r.children[i] is None,
    {
        let r = TrieNode {
            children: [
                None,
                None,
                None,
                None,
                None,
                None,
                None,
                None,
                None,
                None,
                None,
                None,
                None,
                None,
                None,
                None,
                None,
                None,
                None,
                None,
                None,
                None,
                None,
                None,
                None,
                None,
            ],
            is_end_of_word: false,
        };
        assert forall|w: Seq<char>| !r.accepts(w) by {
            if w.len() > 0 && is_lower(w[0]) {
                assert(r.children[letter_index(w[0])] is None);
            }
        }
        r
    }

    /// Adds the word `letters[pos..]` below this node.
    fn insert_from(&mut self, letters: &Vec<char>, pos: usize)
        requires
            pos <= letters.len(),
            forall|i: int| 0 <= i < letters.len() ==> is_lower(#[trigger] letters[i]),
        ensures
            forall|w: Seq<char>|
                final(self).accepts(w) <==> (old(self).accepts(w) || w == letters@.skip(pos as int)),
        decreases letters.len() - pos,
    {
        let ghost suffix = letters@.skip(pos as int);
        if pos == letters.len() {
            self.is_end_of_word = true;
            assert forall|w: Seq<char>| self.accepts(w) <==> (old(self).accepts(w) || w
                == suffix) by {
                if w.len() == 0 {
                    assert(w =~= suffix);
                }
            }
        } else {
            let c = letters[pos];
            let idx = char_to_index(c).unwrap();
            if self.children[idx].is_none() {
                self.children[idx] = Some(Box::new(TrieNode::new()));
            }
            let ghost mid = *self;
            assert forall|w: Seq<char>| mid.accepts(w) <==> old(self).accepts(w) by {
                if w.len() > 0 && is_lower(w[0]) {
                    let j = letter_index(w[0]);
                    if j != idx as int {
                        assert(mid.children[j] == old(self).children[j]);
                    } else if old(self).children[j] is None {
                        assert(!mid.children[j].unwrap().accepts(w.drop_first()));
                    } else {
                        assert(mid.children[j] == old(self).children[j]);
                    }
                }
            }
            match &mut self.children[idx] {
                Some(child) => {
                    child.insert_from(letters, pos + 1);
                },
                None => {},
            }
            assert(suffix.len() > 0 && suffix[0] == c);
            assert(suffix.drop_first() =~= letters@.skip(pos + 1));
            assert(self.is_end_of_word == mid.is_end_of_word);
            assert(self.children[idx as int] is Some);
            assert(forall|j: int| 0 <= j < 26 && j != idx ==> self.children[j] == mid.children[j]);
            assert forall|w: Seq<char>| self.accepts(w) <==> (old(self).accepts(w) || w
                == suffix) by {
                assert(mid.accepts(w) <==> old(self).accepts(w));
                if w.len() > 0 && is_lower(w[0]) {
                    let j = letter_index(w[0]);
                    if j == idx as int {
                        let tail = w.drop_first();
                        assert(self.accepts(w) == self.children[j].unwrap().accepts(tail));
                        assert(mid.accepts(w) == mid.children[j].unwrap().accepts(tail));
                        if tail == letters@.skip(pos + 1) {
                            assert(w =~= seq![w[0]] + tail);
                            assert(suffix =~= seq![c] + suffix.drop_first());
                        }
                    } else {
                        assert(self.children[j] == mid.children[j]);
                    }
                }
            }
        }
    }
}

impl Default for TrieNode {
    fn default() -> (r: TrieNode)
        ensures
            forall|w: Seq<char>| !r.accepts(w),
            !r.is_end_of_word,
            forall|i: int| 0 <= i < 26 ==> r.children[i] is None,
    {
        TrieNode::new()
    }
}

/// The dictionary index: a prefix tree with the lengths of its shortest and
/// longest word.
///
/// The value of a `Trie` is the set of its words.
pub struct Trie {
    root: TrieNode,
    min_word_len: usize,
    max_word_len: usize,
}

/// The lengths `min` and `max` are those of the shortest and the longest
/// word that `root` accepts; without words, `max` is 0 and `min` is `usize::MAX`.
pub open spec fn bounds_fit(root: TrieNode, min: usize, max: usize) -> bool {
    &&& !root.accepts(Seq::empty())
    &&& forall|w: Seq<char>| #[trigger] root.accepts(w) ==> min <= w.len() <= max
    &&& if exists|w: Seq<char>| root.accepts(w) {
        &&& exists|w: Seq<char>| #[trigger] root.accepts(w) && w.len() == min
        &&& exists|w: Seq<char>| #[trigger] root.accepts(w) && w.len() == max
    } else {
        min == usize::MAX && max == 0
    }
}

impl View for Trie {
    type V = Set<Seq<char>>;

    closed spec fn view(&self) -> Set<Seq<char>> {
        Set::new(|w: Seq<char>| self.root.accepts(w))
    }
}

impl Trie {
    #[verifier::type_invariant]
    pub closed spec fn wf(&self) -> bool {
        bounds_fit(self.root, self.min_word_len, self.max_word_len)
    }

    /// The root of the tree.
    pub closed spec fn root_node(&self) -> TrieNode {
        self.root
    }

    /// Length of the longest word, 0 without words.
    pub closed spec fn longest(&self) -> nat {
        self.max_word_len as nat
    }

    /// Length of the shortest word, 0 without words.
    pub closed spec fn shortest(&self) -> nat {
        if self.max_word_len == 0 {
            0
        } else {
            self.min_word_len as nat
        }
    }

    /// The words of the dictionary are what the root accepts.
    pub proof fn lemma_view(&self, w: Seq<char>)
        ensures
            self@.contains(w) == self.root_node().accepts(w),
    {
    }

    /// What the two lengths say of the words: every word is a non-empty run
    /// of lower-case letters whose length lies between them, and each of the
    /// two is the length of some word unless there is none.
    pub proof fn lemma_lengths(&self)
        requires
            self.wf(),
        ensures
            forall|w: Seq<char>| #[trigger]
                self@.contains(w) ==> 0 < w.len() && self.shortest() <= w.len() <= self.longest(),
            forall|w: Seq<char>, i: int| #[trigger]
                self@.contains(w) && 0 <= i < w.len() ==> is_lower(#[trigger] w[i]),
            self@ =~= Set::empty() ==> self.shortest() == 0 && self.longest() == 0,
            !(self@ =~= Set::empty()) ==> (exists|w: Seq<char>| #[trigger]
                self@.contains(w) && w.len() == self.shortest()) && (exists|w: Seq<char>|
             #[trigger]
                self@.contains(w) && w.len() == self.longest()),
    {
        assert forall|w: Seq<char>| #[trigger] self@.contains(w) implies 0 < w.len()
            && self.shortest() <= w.len() <= self.longest() by {
            assert(self.root.accepts(w));
            if w.len() == 0 {
                assert(w =~= Seq::empty());
            }
        }
        assert forall|w: Seq<char>, i: int| #[trigger]
            self@.contains(w) && 0 <= i < w.len() implies is_lower(#[trigger] w[i]) by {
            self.root.lemma_accepts_lower(w);
        }
        if self@ =~= Set::empty() {
            if exists|w: Seq<char>| self.root.accepts(w) {
                let w = choose|w: Seq<char>| self.root.accepts(w);
                assert(self@.contains(w));
            }
        } else {
            let w = choose|w: Seq<char>| self@.contains(w) != Set::<Seq<char>>::empty().contains(w);
            assert(self.root.accepts(w));
            let w1 = choose|w: Seq<char>| #[trigger]
                self.root.accepts(w) && w.len() == self.min_word_len;
            let w2 = choose|w: Seq<char>| #[trigger]
                self.root.accepts(w) && w.len() == self.max_word_len;
            assert(self@.contains(w1) && w1.len() == self.shortest());
            assert(self@.contains(w2) && w2.len() == self.longest());
        }
    }

    /// A dictionary without words: its root has no child and ends no word.
    pub fn new() -> (r: Self)
        ensures
            r@ == Set::<Seq<char>>::empty(),
            !r.root_node().is_end_of_word,
            forall|i: int| 0 <= i < 26 ==> r.root_node().children[i] is None,
            r.shortest() == 0,
            r.longest() == 0,
            r.wf(),
    {
        let root = TrieNode::new();
        let r = Trie { root, min_word_len: usize::MAX, max_word_len: 0 };
        assert(r@ =~= Set::<Seq<char>>::empty());
        r
    }

    /// The root of the tree.
    pub fn root(&self) -> (r: &TrieNode)
        ensures
            *r == self.root_node(),
    {
        &self.root
    }

    /// Length of the shortest word, 0 for a dictionary without words.
    pub fn get_min_word_len(&self) -> (r: usize)
        ensures
            r == self.shortest(),
            self@ =~= Set::empty() ==> r == 0,
            forall|w: Seq<char>| #[trigger] self@.contains(w) ==> 0 < r <= w.len(),
            !(self@ =~= Set::empty()) ==> exists|w: Seq<char>| #[trigger]
                self@.contains(w) && w.len() == r,
    {
        proof {
            use_type_invariant(self);
            self.lemma_lengths();
            if !(self@ =~= Set::empty()) {
                let w = choose|w: Seq<char>| #[trigger]
                    self@.contains(w) && w.len() == self.shortest();
                assert(0 < w.len());
            }
        }
        if self.max_word_len == 0 {
            0
        } else {
            self.min_word_len
        }
    }

    /// Length of the longest word, 0 for a dictionary without words.
    pub fn get_max_word_len(&self) -> (r: usize)
        ensures
            r == self.longest(),
            self@ =~= Set::empty() ==> r == 0,
            forall|w: Seq<char>| #[trigger] self@.contains(w) ==> w.len() <= r,
            !(self@ =~= Set::empty()) ==> exists|w: Seq<char>| #[trigger]
                self@.contains(w) && w.len() == r,
    {
        proof {
            use_type_invariant(self);
            self.lemma_lengths();
        }
        self.max_word_len
    }

    /// Adds a word to the dictionary.
    ///
    /// The word is normalised first: its letters are kept, in lower case, and
    /// everything else is dropped. A word without letters is not added.
    pub fn insert(&mut self, word: &str)
        ensures
            final(self)@ == (if normalize(word@).len() == 0 {
                old(self)@
            } else {
                old(self)@.insert(normalize(word@))
            }),
            final(self).wf(),
    {
        let letters = normalized_letters(word);
        if letters.len() == 0 {
            proof {
                use_type_invariant(&*self);
            }
            return ;
        }
        proof {
            use_type_invariant(&*self);
            lemma_normalize_lower(word@);
        }
        let len = letters.len();
        let mut taken = Trie::new();
        std::mem::swap(self, &mut taken);
        let Trie { root: mut root, min_word_len, max_word_len } = taken;
        let ghost old_root = root;
        let new_min = if len < min_word_len {
            len
        } else {
            min_word_len
        };
        let new_max = if len > max_word_len {
            len
        } else {
            max_word_len
        };
        root.insert_from(&letters, 0);
        proof {
            assert(letters@.skip(0) =~= letters@);
            assert(root.accepts(letters@));
            assert(!root.accepts(Seq::empty()));
            if exists|w: Seq<char>| old_root.accepts(w) {
                let w1 = choose|w: Seq<char>| #[trigger]
                    old_root.accepts(w) && w.len() == min_word_len;
                let w2 = choose|w: Seq<char>| #[trigger]
                    old_root.accepts(w) && w.len() == max_word_len;
                assert(root.accepts(w1) && root.accepts(w2));
            }
            assert(bounds_fit(root, new_min, new_max));
        }
        *self = Trie { root, min_word_len: new_min, max_word_len: new_max };
        assert(self@ =~= old(self)@.insert(normalize(word@)));
    }
}

} // verus!
