//! The search: which lists of dictionary words use the letters of a phrase
//! exactly once.

use vstd::prelude::*;
use std::time::Instant;
use crate::char_utils::{
    counts_of, index_to_char, lemma_letter_round_trip, lemma_sum_to_zero, letter_at,
    letter_index, normalize, phrase_valid, sum_of, CharCounts,
};
use crate::constraints::SolverConstraints;
use crate::exhaustion::{
    at_node, balanced, blocks_at, continues, continues_with, exhausted, exhausted_upto,
    exhausted_with, fresh_continue, fresh_continue_with, lemma_balanced_start,
    lemma_balanced_step, lemma_balanced_word, lemma_blocked_by_pattern, lemma_child_node,
    lemma_continues_after_letter, lemma_continues_after_word, lemma_continues_from_root,
    lemma_continues_itself, lemma_covered_grows, lemma_exhausted_upto_grows, lemma_fresh_chain,
    lemma_grown_chain, lemma_next_letter, lemma_next_word_fits, lemma_nothing_left,
    lemma_pattern_found_push, lemma_something_left, lemma_take_word, lemma_word_ends, path_ok,
    proper,
};
use crate::partition::{
    covered, grown, holds_all_solutions, holds_only_solutions, is_partition,
    lemma_partition_permutation, pooled_count,
};
use crate::pattern::is_substring;
use crate::solution::{
    copy_word, solutions_ordered, sort_words, words_of, words_sorted, SolutionSet,
};
use crate::trie::{Trie, TrieNode};

verus! {

/// Whether `text[from..to]` is a line of `text`: it holds no line feed,
/// begins at the start of the text or behind a line feed, and ends at
/// the end of the text or before a line feed.
pub open spec fn is_line(text: Seq<char>, from: int, to: int) -> bool {
    &&& 0 <= from <= to <= text.len()
    &&& from == 0 || text[from - 1] == '\n'
    &&& to == text.len() || text[to] == '\n'
    &&& forall|i: int| from <= i < to ==> text[i] != '\n'
}

/// The words that the lines of a text give: each line normalised, those
/// without letters left out.
pub open spec fn words_of_lines(text: Seq<char>) -> Set<Seq<char>> {
    Set::new(
        |w: Seq<char>|
            w.len() > 0 && exists|from: int, to: int|
                #[trigger] is_line(text, from, to) && normalize(text.subrange(from, to)) == w,
    )
}

/// The words that the lines of a text give which end before position `n`.
pub open spec fn words_of_lines_before(text: Seq<char>, n: int) -> Set<Seq<char>> {
    Set::new(
        |w: Seq<char>|
            w.len() > 0 && exists|from: int, to: int|
                #[trigger] is_line(text, from, to) && to < n && normalize(text.subrange(from, to))
                    == w,
    )
}

/// The one line that ends at `to`, where the text holds no line feed from
/// `start` up to `to`, begins at `start`.
pub proof fn lemma_line_start(text: Seq<char>, start: int, from: int, to: int)
    requires
        is_line(text, from, to),
        0 <= start <= to,
        start == 0 || text[start - 1] == '\n',
        forall|i: int| start <= i < to ==> text[i] != '\n',
    ensures
        from == start,
{
    if from < start {
        assert(text[start - 1] != '\n');
    } else if from > start {
        assert(text[from - 1] != '\n');
    }
}

/// The words that a list of texts gives: each text normalised, those
/// without letters left out.
pub open spec fn words_of_texts(texts: Seq<String>) -> Set<Seq<char>> {
    Set::new(
        |w: Seq<char>|
            w.len() > 0 && exists|i: int|
                0 <= i < texts.len() && normalize((#[trigger] texts[i])@) == w,
    )
}

/// What a running search keeps beside the letters and the words: when it
/// began, whether its time is up, how many solutions it has found, and for
/// each required substring whether a word chosen so far contains it.
pub struct SolverInternalState {
    pub start_time: Instant,
    pub timed_out: bool,
    pub solutions_found_count: usize,
    pub patterns_satisfied_mask: Option<Vec<bool>>,
}

impl SolverInternalState {
    /// Whether the search is to stop: its time is up, or it has found as
    /// many solutions as it may return.
    pub open spec fn cut_off(&self, rules: &SolverConstraints) -> bool {
        self.timed_out || (rules.max_solutions matches Some(most) && self.solutions_found_count
            >= most)
    }

    /// The state in which a search under `rules` begins, the clock read now.
    pub fn new(rules: &SolverConstraints) -> (r: Self)
        ensures
            !r.timed_out,
            r.solutions_found_count == 0,
            mask_shaped(rules, r.patterns_satisfied_mask),
            r.patterns_satisfied_mask matches Some(bits) ==> forall|i: int|
                0 <= i < bits@.len() ==> !#[trigger] bits@[i],
            mask_fits(rules, r.patterns_satisfied_mask, Seq::empty()),
    {
        let mask = match &rules.contains_patterns {
            Some(patterns) => {
                let mut bits: Vec<bool> = Vec::with_capacity(patterns.len());
                let mut i: usize = 0;
                while i < patterns.len()
                    invariant
                        i <= patterns.len(),
                        bits.len() == i,
                        forall|j: int| 0 <= j < i ==> !#[trigger] bits@[j],
                    decreases patterns.len() - i,
                {
                    bits.push(false);
                    i = i + 1;
                }
                Some(bits)
            },
            None => None,
        };
        SolverInternalState {
            start_time: Instant::now(),
            timed_out: false,
            solutions_found_count: 0,
            patterns_satisfied_mask: mask,
        }
    }

    /// Whether the search is to stop, as far as the state tells.
    pub fn limits_reached(&self, rules: &SolverConstraints) -> (r: bool)
        ensures
            r == self.cut_off(rules),
    {
        if self.timed_out {
            return true;
        }
        match rules.max_solutions {
            Some(most) => self.solutions_found_count >= most,
            None => false,
        }
    }

    /// Takes a reading of the time that has passed since the search began,
    /// notes it where the time is up, and says whether the search is to stop.
    pub fn note_elapsed(&mut self, rules: &SolverConstraints, elapsed_nanos: u128) -> (r: bool)
        ensures
            r == final(self).cut_off(rules),
            final(self).timed_out == (old(self).timed_out || rules.spec_time_is_up(elapsed_nanos)),
            final(self).solutions_found_count == old(self).solutions_found_count,
            final(self).patterns_satisfied_mask == old(self).patterns_satisfied_mask,
            final(self).start_time == old(self).start_time,
    {
        if rules.time_is_up(elapsed_nanos) {
            self.timed_out = true;
            return true;
        }
        self.limits_reached(rules)
    }

    /// Reads the clock, notes it where the time is up, and says whether the
    /// search is to stop. Once the time is up the clock is read no more.
    pub fn check_limits(&mut self, rules: &SolverConstraints) -> (r: bool)
        ensures
            r == final(self).cut_off(rules),
            final(self).solutions_found_count == old(self).solutions_found_count,
            final(self).patterns_satisfied_mask == old(self).patterns_satisfied_mask,
            final(self).start_time == old(self).start_time,
            old(self).timed_out ==> final(self).timed_out,
            rules.timeout_nanos is None ==> final(self).timed_out == old(self).timed_out,
    {
        if self.timed_out {
            return true;
        }
        let elapsed = self.start_time.elapsed().as_nanos();
        self.note_elapsed(rules, elapsed)
    }
}

/// Whether the marks say of each required substring whether one of the
/// words chosen contains it.
pub open spec fn mask_fits(
    rules: &SolverConstraints,
    mask: Option<Vec<bool>>,
    path: Seq<Seq<char>>,
) -> bool {
    match rules.contains_patterns {
        Some(patterns) => {
            &&& mask is Some
            &&& mask->0@.len() == patterns@.len()
            &&& forall|i: int|
                0 <= i < patterns@.len() ==> #[trigger] mask->0@[i] == rules.pattern_found(i, path)
        },
        None => mask is None,
    }
}

/// Whether what has been found is sound: the state counts the solutions
/// found, each of them is a solution in canonical form, they are no more
/// than may be returned, and time is not up where no budget was set.
pub open spec fn found_ok(
    dict: Set<Seq<char>>,
    target: Seq<nat>,
    rules: &SolverConstraints,
    state: &SolverInternalState,
    found: Seq<Seq<Seq<char>>>,
) -> bool {
    &&& state.solutions_found_count == found.len()
    &&& forall|i: int|
        0 <= i < found.len() ==> is_partition(dict, target, rules, #[trigger] found[i])
            && words_sorted(found[i])
    &&& rules.max_solutions matches Some(most) ==> found.len() <= most
    &&& rules.timeout_nanos is None ==> !state.timed_out
}

/// Whether a required substring that no chosen word contains closes the
/// branch: the letters left do not offer its letters, or no letter is
/// left, or no further word may be chosen.
pub open spec fn pattern_blocks(
    rules: &SolverConstraints,
    bits: Seq<bool>,
    remaining: Seq<nat>,
    chosen: nat,
) -> bool {
    exists|i: int| 0 <= i < bits.len() && !#[trigger] bits[i] && blocks_at(rules, i, remaining, chosen)
}

/// Whether a required substring that no chosen word contains closes the branch.
fn unmet_pattern_blocks(
    rules: &SolverConstraints,
    state: &SolverInternalState,
    remaining: &CharCounts,
    chosen: usize,
) -> (r: bool)
    requires
        rules.contains_patterns is Some <==> state.patterns_satisfied_mask is Some,
        rules.contains_patterns is Some ==> state.patterns_satisfied_mask->0@.len()
            == rules.contains_patterns->0@.len(),
    ensures
        r == (state.patterns_satisfied_mask is Some && pattern_blocks(
            rules,
            state.patterns_satisfied_mask->0@,
            remaining@,
            chosen as nat,
        )),
{
    broadcast use CharCounts::lemma_view_len;

    match (&rules.contains_patterns, &state.patterns_satisfied_mask) {
        (Some(patterns), Some(mask)) => {
            let ghost bits = mask@;
            let mut unmet = false;
            let mut i: usize = 0;
            while i < patterns.len()
                invariant
                    i <= patterns.len(),
                    bits == mask@,
                    bits.len() == patterns@.len(),
                    rules.contains_patterns == Some(*patterns),
                    state.patterns_satisfied_mask == Some(*mask),
                    unmet == (exists|j: int| 0 <= j < i && !#[trigger] bits[j]),
                    forall|j: int|
                        0 <= j < i && !#[trigger] bits[j] ==> forall|k: int|
                            0 <= k < 26 ==> #[trigger] remaining@[k] >= counts_of(
                                rules.pattern_text(j),
                            )[k],
                decreases patterns.len() - i,
            {
                if !mask[i] {
                    unmet = true;
                    assert(!bits[i as int]);
                    let needed = patterns[i].counts();
                    assert(needed@ == counts_of(rules.pattern_text(i as int)));
                    if !remaining.can_subtract(needed) {
                        proof {
                            let k = choose|k: int| 0 <= k < 26 && !(remaining@[k] >= needed@[k]);
                            assert(remaining@[k] < counts_of(rules.pattern_text(i as int))[k]);
                        }
                        return true;
                    }
                    proof {
                        assert forall|k: int| 0 <= k < 26 implies #[trigger] remaining@[k]
                            >= counts_of(rules.pattern_text(i as int))[k] by {
                            assert(remaining@[k] >= needed@[k]);
                        }
                    }
                }
                i = i + 1;
            }
            if !unmet {
                return false;
            }
            if remaining.is_empty() {
                return true;
            }
            match rules.max_words {
                Some(most) => chosen >= most,
                None => false,
            }
        },
        _ => false,
    }
}

/// Whether every required substring is marked.
fn all_marked(state: &SolverInternalState) -> (r: bool)
    ensures
        r == (state.patterns_satisfied_mask is Some ==> forall|i: int|
            0 <= i < state.patterns_satisfied_mask->0@.len()
                ==> #[trigger] state.patterns_satisfied_mask->0@[i]),
{
    match &state.patterns_satisfied_mask {
        Some(mask) => {
            let mut i: usize = 0;
            while i < mask.len()
                invariant
                    i <= mask.len(),
                    state.patterns_satisfied_mask == Some(*mask),
                    forall|j: int| 0 <= j < i ==> #[trigger] mask@[j],
                decreases mask.len() - i,
            {
                if !mask[i] {
                    assert(!state.patterns_satisfied_mask->0@[i as int]);
                    return false;
                }
                i = i + 1;
            }
            true
        },
        None => true,
    }
}

/// Whether the marks have the shape that the rules ask for: one mark for
/// each required substring, none where no substring is required.
pub open spec fn mask_shaped(rules: &SolverConstraints, mask: Option<Vec<bool>>) -> bool {
    match rules.contains_patterns {
        Some(patterns) => mask is Some && mask->0@.len() == patterns@.len(),
        None => mask is None,
    }
}

/// Whether position `i` is among the positions listed.
pub open spec fn listed(positions: Seq<usize>, i: int) -> bool {
    exists|m: int| 0 <= m < positions.len() && #[trigger] positions[m] == i
}

/// Marks each required substring that stands in `word` and was not marked
/// before, and returns the positions of the marks it has set.
fn mark_patterns(
    rules: &SolverConstraints,
    state: &mut SolverInternalState,
    word: &Vec<char>,
) -> (flipped: Vec<usize>)
    requires
        mask_shaped(rules, old(state).patterns_satisfied_mask),
    ensures
        mask_shaped(rules, final(state).patterns_satisfied_mask),
        final(state).timed_out == old(state).timed_out,
        final(state).solutions_found_count == old(state).solutions_found_count,
        forall|i: int|
            0 <= i < rules.pattern_count() ==> #[trigger] final(state).patterns_satisfied_mask->0@[i]
                == (old(state).patterns_satisfied_mask->0@[i] || is_substring(
                rules.pattern_text(i),
                word@,
            )),
        forall|j: int|
            0 <= j < flipped@.len() ==> #[trigger] flipped@[j] < rules.pattern_count() && !old(
                state,
            ).patterns_satisfied_mask->0@[flipped@[j] as int],
        forall|i: int|
            0 <= i < rules.pattern_count() && #[trigger] final(state).patterns_satisfied_mask->0@[i]
                != old(state).patterns_satisfied_mask->0@[i] ==> listed(flipped@, i),
{
    let mut flipped: Vec<usize> = Vec::new();
    match (&rules.contains_patterns, &mut state.patterns_satisfied_mask) {
        (Some(patterns), Some(mask)) => {
            let ghost before = mask@;
            let mut i: usize = 0;
            while i < patterns.len()
                invariant
                    i <= patterns.len(),
                    rules.contains_patterns == Some(*patterns),
                    mask@.len() == patterns@.len(),
                    before.len() == patterns@.len(),
                    forall|j: int|
                        0 <= j < i ==> #[trigger] mask@[j] == (before[j] || is_substring(
                            rules.pattern_text(j),
                            word@,
                        )),
                    forall|j: int| i <= j < before.len() ==> #[trigger] mask@[j] == before[j],
                    forall|j: int|
                        0 <= j < flipped@.len() ==> #[trigger] flipped@[j] < patterns@.len()
                            && !before[flipped@[j] as int],
                    forall|j: int|
                        0 <= j < before.len() && #[trigger] mask@[j] != before[j]
                            ==> listed(flipped@, j),
                decreases patterns.len() - i,
            {
                if !mask[i] && patterns[i].occurs_in(word) {
                    let ghost marks = mask@;
                    let ghost list = flipped@;
                    mask[i] = true;
                    flipped.push(i);
                    proof {
                        assert(mask@ =~= marks.update(i as int, true));
                        assert(flipped@ =~= list.push(i));
                        assert(flipped@[list.len() as int] == i);
                        assert forall|j: int|
                            0 <= j < before.len() && #[trigger] mask@[j]
                                != before[j] implies listed(flipped@, j) by {
                            if j != i {
                                assert(listed(list, j));
                                let m = choose|m: int|
                                    0 <= m < list.len() && #[trigger] list[m] == j;
                                assert(flipped@[m] == j);
                            }
                        }
                    }
                }
                i = i + 1;
            }
        },
        _ => {},
    }
    flipped
}

/// Takes back the marks at the positions given.
fn unmark_patterns(state: &mut SolverInternalState, flipped: &Vec<usize>)
    requires
        old(state).patterns_satisfied_mask is Some ==> forall|j: int|
            0 <= j < flipped@.len() ==> #[trigger] flipped@[j] < old(
                state,
            ).patterns_satisfied_mask->0@.len(),
    ensures
        final(state).timed_out == old(state).timed_out,
        final(state).solutions_found_count == old(state).solutions_found_count,
        final(state).patterns_satisfied_mask is Some <==> old(state).patterns_satisfied_mask is Some,
        final(state).patterns_satisfied_mask is Some ==> {
            let after = final(state).patterns_satisfied_mask->0@;
            let before = old(state).patterns_satisfied_mask->0@;
            &&& after.len() == before.len()
            &&& forall|i: int|
                0 <= i < after.len() ==> #[trigger] after[i] == (before[i] && !listed(flipped@, i))
        },
{
    match &mut state.patterns_satisfied_mask {
        Some(mask) => {
            let ghost before = mask@;
            let mut j: usize = 0;
            while j < flipped.len()
                invariant
                    j <= flipped.len(),
                    mask@.len() == before.len(),
                    forall|m: int| 0 <= m < flipped@.len() ==> #[trigger] flipped@[m] < before.len(),
                    forall|i: int|
                        0 <= i < before.len() ==> #[trigger] mask@[i] == (before[i]
                            && !listed(flipped@.take(j as int), i)),
                decreases flipped.len() - j,
            {
                let at = flipped[j];
                let ghost marks = mask@;
                mask[at] = false;
                proof {
                    assert(mask@ =~= marks.update(at as int, false));
                    let done = flipped@.take(j as int);
                    let next = flipped@.take(j as int + 1);
                    assert(next =~= done.push(at));
                    assert forall|i: int| 0 <= i < before.len() implies #[trigger] mask@[i] == (
                    before[i] && !listed(next, i)) by {
                        if listed(done, i) {
                            let m = choose|m: int| 0 <= m < done.len() && #[trigger] done[m] == i;
                            assert(next[m] == i);
                        }
                        if i == at {
                            assert(next[j as int] == at);
                        }
                        if listed(next, i) {
                            let m = choose|m: int| 0 <= m < next.len() && #[trigger] next[m] == i;
                            if m < j {
                                assert(done[m] == i);
                            }
                        }
                    }
                }
                j = j + 1;
            }
            proof {
                assert(flipped@.take(flipped@.len() as int) =~= flipped@);
            }
        },
        None => {},
    }
}

/// A dictionary with the search over it.
///
/// The value of an `AnagramSolver` is the set of its dictionary words.
pub struct AnagramSolver {
    trie: Trie,
}

impl View for AnagramSolver {
    type V = Set<Seq<char>>;

    closed spec fn view(&self) -> Set<Seq<char>> {
        self.trie@
    }
}

impl AnagramSolver {
    /// A solver is well formed when its dictionary is. Every solver that
    /// the functions of this type make or change is.
    pub closed spec fn wf(&self) -> bool {
        self.trie.wf()
    }

    /// The dictionary of a well-formed solver holds words only: each is a
    /// non-empty run of lower-case letters.
    pub proof fn lemma_proper(&self)
        requires
            self.wf(),
        ensures
            proper(self@),
    {
        self.lemma_dictionary();
    }

    /// A solver with an empty dictionary: the root of its tree has no child
    /// and ends no word.
    pub fn new() -> (r: Self)
        ensures
            r@ == Set::<Seq<char>>::empty(),
            !r.root_node().is_end_of_word,
            forall|i: int| 0 <= i < 26 ==> r.root_node().children[i] is None,
            r.wf(),
    {
        AnagramSolver { trie: Trie::new() }
    }

    /// The root of the dictionary tree.
    pub closed spec fn root_node(&self) -> TrieNode {
        self.trie.root_node()
    }

    /// Whether a search stands on firm ground: the letters are accounted
    /// for, the words chosen are allowed, the marks fit them, and what has
    /// been found is sound.
    pub open spec fn steady(
        &self,
        rules: &SolverConstraints,
        target: Seq<nat>,
        path: Seq<Seq<char>>,
        word: Seq<char>,
        remaining: Seq<nat>,
        state: &SolverInternalState,
        found: Seq<Seq<Seq<char>>>,
    ) -> bool {
        &&& balanced(target, path, word, remaining)
        &&& path_ok(self@, rules, path)
        &&& mask_fits(rules, state.patterns_satisfied_mask, path)
        &&& found_ok(self@, target, rules, state, found)
    }

    /// The dictionary holds words only, and they are what the root accepts.
    proof fn lemma_dictionary(&self)
        requires
            self.trie.wf(),
        ensures
            proper(self@),
            forall|w: Seq<char>| self@.contains(w) == self.root_node().accepts(w),
            forall|w: Seq<char>| #[trigger]
                self@.contains(w) ==> self.trie.shortest() <= w.len() <= self.trie.longest(),
    {
        self.trie.lemma_lengths();
        assert forall|w: Seq<char>| self@.contains(w) == self.root_node().accepts(w) by {
            self.trie.lemma_view(w);
        }
    }

    /// Decides whether the words chosen can be completed, or are a solution.
    ///
    /// Leaves at once where the search is to stop, where a required
    /// substring that no chosen word contains can no longer be had, or where
    /// too many words are chosen. With no letter left, the words chosen are
    /// taken as a solution if they keep the rules on the whole list. With
    /// fewer letters left than the shortest dictionary word has, or no
    /// further word allowed, it leaves; else it looks for the next word.
    /// What it changes on the way it puts back.
    fn backtrack(
        &self,
        current_path: &mut Vec<Vec<char>>,
        remaining_counts: &mut CharCounts,
        constraints: &SolverConstraints,
        solutions_set: &mut SolutionSet,
        internal_state: &mut SolverInternalState,
        Ghost(target): Ghost<Seq<nat>>,
    )
        requires
            self.steady(
                constraints,
                target,
                words_of(old(current_path)@),
                Seq::empty(),
                old(remaining_counts)@,
                old(internal_state),
                old(solutions_set)@,
            ),
        ensures
            final(current_path)@ == old(current_path)@,
            final(remaining_counts)@ == old(remaining_counts)@,
            mask_fits(
                constraints,
                final(internal_state).patterns_satisfied_mask,
                words_of(old(current_path)@),
            ),
            found_ok(self@, target, constraints, final(internal_state), final(solutions_set)@),
            grown(old(solutions_set)@, final(solutions_set)@),
            old(internal_state).timed_out ==> final(internal_state).timed_out,
            old(internal_state).cut_off(constraints) ==> final(internal_state).cut_off(constraints),
            old(internal_state).cut_off(constraints) ==> final(solutions_set)@ == old(
                solutions_set,
            )@,
            sum_of(old(remaining_counts)@) == 0 && !is_partition(
                self@,
                target,
                constraints,
                words_of(old(current_path)@),
            ) ==> final(solutions_set)@ == old(solutions_set)@,
            sum_of(old(remaining_counts)@) == 0 && is_partition(
                self@,
                target,
                constraints,
                words_of(old(current_path)@),
            ) && !old(internal_state).cut_off(constraints) && !final(internal_state).timed_out
                ==> covered(final(solutions_set)@, words_of(old(current_path)@)),
            fresh_continue(
                self@,
                target,
                constraints,
                words_of(old(current_path)@),
                old(remaining_counts)@,
                old(solutions_set)@,
                final(solutions_set)@,
            ),
            !final(internal_state).cut_off(constraints) ==> exhausted(
                self@,
                target,
                constraints,
                words_of(old(current_path)@),
                final(solutions_set)@,
            ),
        decreases old(remaining_counts).spec_total(), 1int,
    {
        broadcast use CharCounts::lemma_view_len;

        let ghost dict = self@;
        let ghost path = words_of(current_path@);
        let ghost remaining = remaining_counts@;
        let ghost found = solutions_set@;
        proof {
            use_type_invariant(&self.trie);
            self.lemma_dictionary();
            assert forall|i: int| 0 <= i < found.len() implies found.contains(
                #[trigger] found[i],
            ) by {}
            assert(grown(found, found));
            assert(fresh_continue(dict, target, constraints, path, remaining, found, found));
            assert(path + Seq::<Seq<char>>::empty() =~= path);
        }
        if internal_state.check_limits(constraints) {
            return ;
        }
        if unmet_pattern_blocks(constraints, internal_state, remaining_counts, current_path.len()) {
            proof {
                let bits = internal_state.patterns_satisfied_mask->0@;
                let i = choose|i: int|
                    0 <= i < bits.len() && !#[trigger] bits[i] && blocks_at(
                        constraints,
                        i,
                        remaining,
                        path.len(),
                    );
                assert forall|rest: Seq<Seq<char>>| #[trigger]
                    is_partition(dict, target, constraints, path + rest) implies covered(
                    found,
                    path + rest,
                ) by {
                    lemma_blocked_by_pattern(dict, target, constraints, path, remaining, rest, i);
                }
            }
            return ;
        }
        if let Some(max_w) = constraints.max_words {
            if current_path.len() > max_w {
                proof {
                    assert forall|rest: Seq<Seq<char>>| #[trigger]
                        is_partition(dict, target, constraints, path + rest) implies covered(
                        found,
                        path + rest,
                    ) by {
                        assert((path + rest).len() == path.len() + rest.len());
                    }
                }
                return ;
            }
        }
        if remaining_counts.is_empty() {
            if current_path.len() > 0 && constraints.first_letters_suffice(current_path)
                && all_marked(internal_state) {
                let candidate = sort_words(current_path);
                let ghost sorted = words_of(candidate@);
                proof {
                    assert(is_partition(dict, target, constraints, path)) by {
                        assert(path.len() == current_path.len());
                        assert forall|k: int| 0 <= k < 26 implies pooled_count(
                            path,
                            letter_at(k),
                        ) == #[trigger] target[k] by {
                            assert(remaining[k] == 0);
                        }
                        assert forall|i: int|
                            0 <= i < constraints.pattern_count() implies #[trigger] constraints.pattern_found(
                            i,
                            path,
                        ) by {
                            assert(internal_state.patterns_satisfied_mask->0@[i]);
                        }
                    }
                    lemma_partition_permutation(dict, target, constraints, path, sorted);
                }
                if solutions_set.insert(candidate) {
                    internal_state.solutions_found_count = solutions_set.len();
                }
                proof {
                    let after = solutions_set@;
                    assert(after.contains(sorted));
                    assert(grown(found, after)) by {
                        assert forall|i: int| 0 <= i < found.len() implies after.contains(
                            #[trigger] found[i],
                        ) by {
                            assert(found.contains(found[i]));
                        }
                    }
                    assert forall|i: int| 0 <= i < after.len() implies is_partition(
                        dict,
                        target,
                        constraints,
                        #[trigger] after[i],
                    ) && words_sorted(after[i]) by {
                        assert(after.contains(after[i]));
                        if found.contains(after[i]) {
                            let j = choose|j: int| 0 <= j < found.len() && found[j] == after[i];
                            assert(is_partition(dict, target, constraints, found[j]));
                        }
                    }
                    let j = choose|j: int| 0 <= j < after.len() && after[j] == sorted;
                    assert(covered(after, path)) by {
                        assert(after[j].to_multiset() == path.to_multiset());
                    }
                    assert forall|i: int|
                        0 <= i < after.len() && !found.contains(
                            #[trigger] after[i],
                        ) implies continues(
                        dict,
                        target,
                        constraints,
                        path,
                        remaining,
                        after[i],
                    ) by {
                        assert(after.contains(after[i]));
                        lemma_continues_itself(dict, target, constraints, path, remaining, sorted);
                    }
                }
            }
            proof {
                let after = solutions_set@;
                lemma_sum_to_zero(remaining, 26);
                assert forall|rest: Seq<Seq<char>>| #[trigger]
                    is_partition(dict, target, constraints, path + rest) implies covered(
                    after,
                    path + rest,
                ) by {
                    lemma_nothing_left(dict, target, constraints, path, remaining, rest);
                    assert(path + rest =~= path);
                    assert(is_partition(dict, target, constraints, path));
                    assert(constraints.starts_met(path));
                    assert forall|i: int| 0 <= i < constraints.pattern_count() implies (
                    #[trigger] internal_state.patterns_satisfied_mask->0@[i]) by {
                        assert(constraints.pattern_found(i, path));
                    }
                }
            }
            return ;
        }
        proof {
            lemma_sum_to_zero(remaining, 26);
        }
        let ghost some = choose|k: int| 0 <= k < 26 && remaining[k] != 0;
        if remaining_counts.total() < self.trie.get_min_word_len() {
            proof {
                assert forall|rest: Seq<Seq<char>>| #[trigger]
                    is_partition(dict, target, constraints, path + rest) implies covered(
                    found,
                    path + rest,
                ) by {
                    lemma_something_left(dict, target, constraints, path, remaining, rest, some);
                    lemma_next_word_fits(dict, target, constraints, path, remaining, rest);
                }
            }
            return ;
        }
        if let Some(max_w) = constraints.max_words {
            if current_path.len() == max_w {
                proof {
                    assert forall|rest: Seq<Seq<char>>| #[trigger]
                        is_partition(dict, target, constraints, path + rest) implies covered(
                        found,
                        path + rest,
                    ) by {
                        lemma_something_left(
                            dict,
                            target,
                            constraints,
                            path,
                            remaining,
                            rest,
                            some,
                        );
                        assert((path + rest).len() == path.len() + rest.len());
                    }
                }
                return ;
            }
        }
        let mut word_buffer: Vec<char> = Vec::new();
        proof {
            assert forall|s: Seq<char>| #[trigger]
                self.root_node().accepts(s) == self.root_node().accepts(word_buffer@ + s) by {
                assert(word_buffer@ + s =~= s);
            }
        }
        self.find_one_word_recursive(
            self.trie.root(),
            &mut word_buffer,
            remaining_counts,
            current_path,
            constraints,
            solutions_set,
            internal_state,
            Ghost(target),
        );
        proof {
            let after = solutions_set@;
            if !internal_state.cut_off(constraints) {
                assert forall|rest: Seq<Seq<char>>| #[trigger]
                    is_partition(dict, target, constraints, path + rest) implies covered(
                    after,
                    path + rest,
                ) by {
                    lemma_something_left(dict, target, constraints, path, remaining, rest, some);
                    assert(word_buffer@.is_prefix_of(rest[0]));
                }
            }
            assert forall|i: int|
                0 <= i < after.len() && !found.contains(#[trigger] after[i]) implies continues(
                dict,
                target,
                constraints,
                path,
                remaining,
                after[i],
            ) by {
                lemma_continues_from_root(dict, target, constraints, path, remaining, after[i]);
            }
        }
    }

    /// Looks for the next word, letter by letter down the dictionary tree.
    ///
    /// Where a word ends at the node and is long enough, it is taken as the
    /// next word: the required substrings that it contains are marked, the
    /// search goes on with the words chosen and this one, and the word and
    /// the marks are taken back. The word is not extended where it cannot
    /// go on: it is longer than the longest dictionary word, or no letter
    /// is left. Else each child for a letter that is left is tried, unless
    /// the letter would begin a word that may not begin with it. What is
    /// changed on the way is put back.
    fn find_one_word_recursive(
        &self,
        current_trie_node: &TrieNode,
        word_so_far: &mut Vec<char>,
        current_overall_counts: &mut CharCounts,
        path: &mut Vec<Vec<char>>,
        constraints: &SolverConstraints,
        solutions_set: &mut SolutionSet,
        internal_state: &mut SolverInternalState,
        Ghost(target): Ghost<Seq<nat>>,
    )
        requires
            at_node(self.root_node(), old(word_so_far)@, *current_trie_node),
            old(word_so_far)@.len() > 0 ==> constraints.start_allowed(old(word_so_far)@[0]),
            self.steady(
                constraints,
                target,
                words_of(old(path)@),
                old(word_so_far)@,
                old(current_overall_counts)@,
                old(internal_state),
                old(solutions_set)@,
            ),
        ensures
            final(word_so_far)@ == old(word_so_far)@,
            final(path)@ == old(path)@,
            final(current_overall_counts)@ == old(current_overall_counts)@,
            mask_fits(constraints, final(internal_state).patterns_satisfied_mask, words_of(old(path)@)),
            found_ok(self@, target, constraints, final(internal_state), final(solutions_set)@),
            grown(old(solutions_set)@, final(solutions_set)@),
            old(internal_state).timed_out ==> final(internal_state).timed_out,
            old(internal_state).cut_off(constraints) ==> final(internal_state).cut_off(constraints),
            old(internal_state).cut_off(constraints) ==> final(solutions_set)@ == old(
                solutions_set,
            )@,
            fresh_continue_with(
                self@,
                target,
                constraints,
                words_of(old(path)@),
                old(word_so_far)@,
                old(current_overall_counts)@,
                old(solutions_set)@,
                final(solutions_set)@,
            ),
            !final(internal_state).cut_off(constraints) ==> exhausted_with(
                self@,
                target,
                constraints,
                words_of(old(path)@),
                old(word_so_far)@,
                final(solutions_set)@,
            ),
        decreases
                old(current_overall_counts).spec_total(),
                (if old(word_so_far)@.len() == 0 {
                    0int
                } else {
                    2int
                }),
    {
        broadcast use CharCounts::lemma_view_len;

        let ghost dict = self@;
        let ghost root = self.root_node();
        let ghost chosen = words_of(path@);
        let ghost word = word_so_far@;
        let ghost remaining = current_overall_counts@;
        let ghost found = solutions_set@;
        proof {
            use_type_invariant(&self.trie);
            self.lemma_dictionary();
            lemma_word_ends(root, word, *current_trie_node);
            assert forall|i: int| 0 <= i < found.len() implies found.contains(
                #[trigger] found[i],
            ) by {}
            assert(grown(found, found));
            assert(fresh_continue_with(
                dict,
                target,
                constraints,
                chosen,
                word,
                remaining,
                found,
                found,
            ));
        }
        if internal_state.check_limits(constraints) {
            return ;
        }
        let long_enough = match constraints.min_word_length {
            Some(least) => word_so_far.len() >= least,
            None => true,
        };
        if current_trie_node.is_end_of_word && word_so_far.len() > 0 && long_enough {
            let flipped = mark_patterns(constraints, internal_state, word_so_far);
            path.push(copy_word(word_so_far));
            proof {
                assert(words_of(path@) =~= chosen.push(word));
                lemma_balanced_word(target, chosen, word, remaining);
                assert forall|i: int| 0 <= i < constraints.pattern_count() implies (
                #[trigger] internal_state.patterns_satisfied_mask->0@[i])
                    == constraints.pattern_found(i, chosen.push(word)) by {
                    lemma_pattern_found_push(constraints, i, chosen, word);
                }
                assert(path_ok(dict, constraints, chosen.push(word))) by {
                    assert forall|i: int| 0 <= i < chosen.push(word).len() implies dict.contains(
                        #[trigger] chosen.push(word)[i],
                    ) && constraints.word_allowed(chosen.push(word)[i]) by {
                        if i < chosen.len() {
                            assert(chosen.push(word)[i] == chosen[i]);
                        }
                    }
                }
            }
            let ghost marked = internal_state.patterns_satisfied_mask->0@;
            self.backtrack(
                path,
                current_overall_counts,
                constraints,
                solutions_set,
                internal_state,
                Ghost(target),
            );
            path.pop();
            let ghost kept = internal_state.patterns_satisfied_mask->0@;
            unmark_patterns(internal_state, &flipped);
            proof {
                let after = solutions_set@;
                assert forall|i: int|
                    0 <= i < after.len() && !found.contains(
                        #[trigger] after[i],
                    ) implies continues_with(
                    dict,
                    target,
                    constraints,
                    chosen,
                    word,
                    remaining,
                    after[i],
                ) by {
                    lemma_continues_after_word(
                        dict,
                        target,
                        constraints,
                        chosen,
                        word,
                        remaining,
                        after[i],
                    );
                }
                assert(path@ =~= old(path)@);
                if constraints.contains_patterns is Some {
                    let bits = internal_state.patterns_satisfied_mask->0@;
                    let back = old(internal_state).patterns_satisfied_mask->0@;
                    assert forall|i: int| 0 <= i < bits.len() implies #[trigger] bits[i]
                        == constraints.pattern_found(i, chosen) by {
                        assert(back[i] == constraints.pattern_found(i, chosen));
                        assert(marked[i] == constraints.pattern_found(i, chosen.push(word)));
                        assert(kept[i] == constraints.pattern_found(i, chosen.push(word)));
                        assert(bits[i] == (kept[i] && !listed(flipped@, i)));
                        if listed(flipped@, i) {
                            let m = choose|m: int|
                                0 <= m < flipped@.len() && #[trigger] flipped@[m] == i;
                            assert(!back[flipped@[m] as int]);
                        }
                    }
                }
            }
            if internal_state.limits_reached(constraints) {
                return ;
            }
        }
        let ghost found_one = solutions_set@;
        proof {
            // the solutions whose next word is the word under way
            assert forall|rest: Seq<Seq<char>>|
                rest.len() > 0 && rest[0] == word && #[trigger] is_partition(
                    dict,
                    target,
                    constraints,
                    chosen + rest,
                ) implies covered(found_one, chosen + rest) by {
                assert((chosen + rest)[chosen.len() as int] == rest[0]);
                lemma_take_word(chosen, rest);
                assert(is_partition(
                    dict,
                    target,
                    constraints,
                    chosen.push(word) + rest.drop_first(),
                ));
            }
        }
        if word_so_far.len() > self.trie.get_max_word_len() || current_overall_counts.is_empty() {
            proof {
                assert forall|rest: Seq<Seq<char>>|
                    rest.len() > 0 && word.is_prefix_of(rest[0]) && #[trigger] is_partition(
                        dict,
                        target,
                        constraints,
                        chosen + rest,
                    ) implies covered(found_one, chosen + rest) by {
                    assert((chosen + rest)[chosen.len() as int] == rest[0]);
                    if rest[0].len() == word.len() {
                        assert(rest[0] =~= word);
                    } else {
                        lemma_next_letter(
                            dict,
                            target,
                            constraints,
                            root,
                            *current_trie_node,
                            chosen,
                            word,
                            remaining,
                            rest,
                        );
                    }
                }
            }
            return ;
        }
        proof {
            assert forall|rest: Seq<Seq<char>>|
                rest.len() > 0 && word.is_prefix_of(rest[0]) && rest[0].len() > word.len()
                    && letter_index(rest[0][word.len() as int]) < 0 && #[trigger] is_partition(
                    dict,
                    target,
                    constraints,
                    chosen + rest,
                ) implies covered(found_one, chosen + rest) by {
                lemma_next_letter(
                    dict,
                    target,
                    constraints,
                    root,
                    *current_trie_node,
                    chosen,
                    word,
                    remaining,
                    rest,
                );
            }
            use_type_invariant(&*current_overall_counts);
            current_overall_counts.lemma_total_fits();
        }
        let mut k: usize = 0;
        while k < 26
            invariant
                k <= 26,
                sum_of(remaining) <= usize::MAX,
                dict == self@,
                root == self.root_node(),
                proper(dict),
                forall|w: Seq<char>| dict.contains(w) == root.accepts(w),
                at_node(root, word, *current_trie_node),
                word.len() > 0 ==> constraints.start_allowed(word[0]),
                word_so_far@ == word,
                word == old(word_so_far)@,
                path@ == old(path)@,
                chosen == words_of(path@),
                current_overall_counts@ == remaining,
                remaining == old(current_overall_counts)@,
                self.steady(
                    constraints,
                    target,
                    chosen,
                    word,
                    remaining,
                    internal_state,
                    solutions_set@,
                ),
                grown(old(solutions_set)@, solutions_set@),
                grown(found_one, solutions_set@),
                fresh_continue_with(
                    dict,
                    target,
                    constraints,
                    chosen,
                    word,
                    remaining,
                    old(solutions_set)@,
                    solutions_set@,
                ),
                !old(internal_state).cut_off(constraints),
                !internal_state.cut_off(constraints),
                forall|rest: Seq<Seq<char>>|
                    rest.len() > 0 && rest[0] == word && #[trigger] is_partition(
                        dict,
                        target,
                        constraints,
                        chosen + rest,
                    ) ==> covered(found_one, chosen + rest),
                exhausted_upto(dict, target, constraints, chosen, word, k as int, solutions_set@),
            decreases 26 - k,
        {
            let ghost found_now = solutions_set@;
            let ghost mut open = false;
            match &current_trie_node.children[k] {
                Some(child) => {
                    let ch = index_to_char(k);
                    let left = match current_overall_counts.get(ch) {
                        Some(n) => n,
                        None => 0,
                    };
                    if left > 0 && (word_so_far.len() > 0 || constraints.is_valid_start_char(ch)) {
                        proof {
                            open = true;
                            lemma_letter_round_trip(k as int);
                            lemma_balanced_step(target, chosen, word, remaining, k as int);
                            lemma_child_node(root, word, *current_trie_node, k as int);
                            assert(word.push(ch)[0] == if word.len() > 0 {
                                word[0]
                            } else {
                                ch
                            });
                        }
                        current_overall_counts.decrement_char(ch).unwrap();
                        let ghost less = current_overall_counts@;
                        word_so_far.push(ch);
                        self.find_one_word_recursive(
                            child,
                            word_so_far,
                            current_overall_counts,
                            path,
                            constraints,
                            solutions_set,
                            internal_state,
                            Ghost(target),
                        );
                        word_so_far.pop();
                        current_overall_counts.increment_char(ch).unwrap();
                        proof {
                            assert(word_so_far@ =~= word);
                            assert(current_overall_counts@ =~= remaining);
                            lemma_grown_chain(old(solutions_set)@, found_now, solutions_set@);
                            lemma_grown_chain(found_one, found_now, solutions_set@);
                            let after = solutions_set@;
                            assert forall|i: int|
                                0 <= i < after.len() && !found_now.contains(
                                    #[trigger] after[i],
                                ) implies continues_with(
                                dict,
                                target,
                                constraints,
                                chosen,
                                word,
                                remaining,
                                after[i],
                            ) by {
                                lemma_continues_after_letter(
                                    dict,
                                    target,
                                    constraints,
                                    chosen,
                                    word,
                                    ch,
                                    remaining,
                                    less,
                                    after[i],
                                );
                            }
                            lemma_fresh_chain(
                                dict,
                                target,
                                constraints,
                                chosen,
                                word,
                                remaining,
                                old(solutions_set)@,
                                found_now,
                                after,
                            );
                        }
                        if internal_state.limits_reached(constraints) {
                            return ;
                        }
                    }
                },
                None => {},
            }
            proof {
                let after = solutions_set@;
                lemma_exhausted_upto_grows(
                    dict,
                    target,
                    constraints,
                    chosen,
                    word,
                    k as int,
                    found_now,
                    after,
                );
                assert forall|rest: Seq<Seq<char>>|
                    rest.len() > 0 && word.is_prefix_of(rest[0]) && rest[0].len() > word.len()
                        && letter_index(rest[0][word.len() as int]) < k + 1
                        && #[trigger] is_partition(
                        dict,
                        target,
                        constraints,
                        chosen + rest,
                    ) implies covered(after, chosen + rest) by {
                    if letter_index(rest[0][word.len() as int]) == k {
                        lemma_letter_round_trip(k as int);
                        lemma_next_letter(
                            dict,
                            target,
                            constraints,
                            root,
                            *current_trie_node,
                            chosen,
                            word,
                            remaining,
                            rest,
                        );
                        assert(open);
                    }
                }
            }
            k = k + 1;
        }
        proof {
            let after = solutions_set@;
            assert forall|rest: Seq<Seq<char>>|
                rest.len() > 0 && word.is_prefix_of(rest[0]) && #[trigger] is_partition(
                    dict,
                    target,
                    constraints,
                    chosen + rest,
                ) implies covered(after, chosen + rest) by {
                if rest[0].len() == word.len() {
                    assert(rest[0] =~= word);
                    lemma_covered_grows(found_one, after, chosen + rest);
                } else {
                    lemma_next_letter(
                        dict,
                        target,
                        constraints,
                        root,
                        *current_trie_node,
                        chosen,
                        word,
                        remaining,
                        rest,
                    );
                }
            }
        }
    }

    /// All the ways to write the letters of `phrase` as dictionary words
    /// under the rules of `constraints`.
    ///
    /// Each solution lists its words in dictionary order. The solutions come
    /// with fewer words first, among those the ones whose shortest word is
    /// longer first, then in dictionary order word by word; none comes twice.
    /// A phrase that holds anything but letters and white space, a phrase
    /// without letters and an empty dictionary give no solution.
    ///
    /// With no time budget set, and fewer solutions returned than the cap
    /// allows, the result holds every solution. A search cut short by its
    /// budget or by the cap returns those it has found.
    pub fn solve(&self, phrase: &str, constraints: &SolverConstraints) -> (r: Vec<Vec<String>>)
        ensures
            !phrase_valid(phrase@) ==> r.len() == 0,
            sum_of(counts_of(phrase@)) == 0 ==> r.len() == 0,
            self@ =~= Set::empty() ==> r.len() == 0,
            holds_only_solutions(self@, counts_of(phrase@), constraints, r.deep_view()),
            solutions_ordered(r.deep_view()),
            constraints.max_solutions matches Some(most) ==> r.len() <= most,
            phrase_valid(phrase@) && constraints.timeout_nanos is None
                && (constraints.max_solutions matches Some(most) ==> r.len() < most)
                ==> holds_all_solutions(self@, counts_of(phrase@), constraints, r.deep_view()),
    {
        broadcast use CharCounts::lemma_view_len;

        let ghost dict = self@;
        let ghost target = counts_of(phrase@);
        proof {
            reveal(holds_all_solutions);
            use_type_invariant(&self.trie);
            self.lemma_dictionary();
            self.trie.lemma_lengths();
        }
        let target_counts = match CharCounts::from_str(phrase) {
            Ok(counts) => counts,
            Err(_) => {
                let none: Vec<Vec<String>> = Vec::new();
                assert(none.deep_view() =~= Seq::empty());
                return none;
            },
        };
        if target_counts.is_empty() || self.trie.get_min_word_len() == 0 {
            let none: Vec<Vec<String>> = Vec::new();
            proof {
                assert(none.deep_view() =~= Seq::empty());
                assert forall|ws: Seq<Seq<char>>| #[trigger]
                    is_partition(dict, target, constraints, ws) implies covered(
                    none.deep_view(),
                    ws,
                ) by {
                    let path = Seq::<Seq<char>>::empty();
                    assert(path + ws =~= ws);
                    assert(dict.contains(ws[0]));
                    if target_counts.spec_total() == 0 {
                        lemma_balanced_start(target);
                        lemma_nothing_left(dict, target, constraints, path, target, ws);
                    }
                }
            }
            return none;
        }
        let mut solutions_set = SolutionSet::new();
        let mut current_path: Vec<Vec<char>> = Vec::new();
        let mut current_char_counts = target_counts.clone();
        let mut internal_state = SolverInternalState::new(constraints);
        proof {
            assert(words_of(current_path@) =~= Seq::empty());
            lemma_balanced_start(target);
        }
        self.backtrack(
            &mut current_path,
            &mut current_char_counts,
            constraints,
            &mut solutions_set,
            &mut internal_state,
            Ghost(target),
        );
        proof {
            use_type_invariant(&solutions_set);
            solutions_set.lemma_ordered();
            let found = solutions_set@;
            let path = Seq::<Seq<char>>::empty();
            if !internal_state.cut_off(constraints) {
                assert forall|ws: Seq<Seq<char>>| #[trigger]
                    is_partition(dict, target, constraints, ws) implies covered(found, ws) by {
                    assert(path + ws =~= ws);
                    assert(is_partition(dict, target, constraints, path + ws));
                }
            }
        }
        solutions_set.into_strings()
    }

    /// Adds each of the words to the dictionary, normalised; a word without
    /// letters is left out.
    pub fn load_dictionary_from_words(&mut self, words: &[String])
        ensures
            final(self)@ == old(self)@.union(words_of_texts(words@)),
            final(self).wf(),
    {
        let mut i: usize = 0;
        proof {
            assert(words_of_texts(words@.take(0)) =~= Set::empty());
            assert(self@ =~= old(self)@.union(words_of_texts(words@.take(0))));
        }
        while i < words.len()
            invariant
                i <= words.len(),
                self@ == old(self)@.union(words_of_texts(words@.take(i as int))),
            decreases words.len() - i,
        {
            let ghost before = self@;
            self.trie.insert(words[i].as_str());
            proof {
                let done = words@.take(i as int);
                let next = words@.take(i as int + 1);
                let w = normalize(words@[i as int]@);
                assert forall|x: Seq<char>| words_of_texts(next).contains(x) <==> (words_of_texts(
                    done,
                ).contains(x) || (x == w && w.len() > 0)) by {
                    if words_of_texts(done).contains(x) {
                        let j = choose|j: int|
                            0 <= j < done.len() && normalize((#[trigger] done[j])@) == x;
                        assert(normalize(next[j]@) == x);
                    }
                    if x == w && w.len() > 0 {
                        assert(normalize(next[i as int]@) == x);
                    }
                    if words_of_texts(next).contains(x) {
                        let j = choose|j: int|
                            0 <= j < next.len() && normalize((#[trigger] next[j])@) == x;
                        if j < i {
                            assert(normalize(done[j]@) == x);
                        }
                    }
                }
                assert(self@ =~= old(self)@.union(words_of_texts(next)));
            }
            i = i + 1;
        }
        proof {
            assert(words@.take(words@.len() as int) =~= words@);
            use_type_invariant(&self.trie);
        }
    }

    /// Adds each line of the text to the dictionary as a word, normalised; a
    /// line without letters is left out.
    pub fn load_dictionary_from_text(&mut self, text_content: &str)
        ensures
            final(self)@ == old(self)@.union(words_of_lines(text_content@)),
            final(self).wf(),
    {
        let ghost text = text_content@;
        let ghost mut start: int = 0;
        let mut line = String::new();
        proof {
            assert(words_of_lines_before(text, 0) =~= Set::empty());
            assert(self@ =~= old(self)@.union(words_of_lines_before(text, 0)));
            assert(line@ =~= text.subrange(0, 0));
        }
        for c in it: text_content.chars()
            invariant
                it.seq() == text,
                text == text_content@,
                0 <= start <= it.index(),
                start == 0 || text[start - 1] == '\n',
                forall|i: int| start <= i < it.index() ==> text[i] != '\n',
                line@ == text.subrange(start, it.index() as int),
                self@ == old(self)@.union(words_of_lines_before(text, start)),
        {
            let ghost at = it.index() as int;
            if c == '\n' {
                self.trie.insert(line.as_str());
                line = String::new();
                proof {
                    let w = normalize(text.subrange(start, at));
                    assert(is_line(text, start, at));
                    assert forall|x: Seq<char>|
                        words_of_lines_before(text, at + 1).contains(x) <==> (
                        words_of_lines_before(text, start).contains(x) || (x == w && w.len()
                            > 0)) by {
                        if words_of_lines_before(text, at + 1).contains(x) {
                            let (from, to) = choose|from: int, to: int|
                                #[trigger] is_line(text, from, to) && to < at + 1 && normalize(
                                    text.subrange(from, to),
                                ) == x;
                            if to >= start {
                                assert(to == at);
                                lemma_line_start(text, start, from, to);
                            }
                        }
                    }
                    start = at + 1;
                    assert(self@ =~= old(self)@.union(words_of_lines_before(text, start)));
                    assert(line@ =~= text.subrange(start, at + 1));
                }
            } else {
                line.push(c);
                proof {
                    assert(line@ =~= text.subrange(start, at + 1));
                }
            }
        }
        self.trie.insert(line.as_str());
        proof {
            let end = text.len() as int;
            let w = normalize(text.subrange(start, end));
            assert(is_line(text, start, end));
            assert forall|x: Seq<char>| words_of_lines(text).contains(x) <==> (
            words_of_lines_before(text, start).contains(x) || (x == w && w.len() > 0)) by {
                if words_of_lines(text).contains(x) {
                    let (from, to) = choose|from: int, to: int|
                        #[trigger] is_line(text, from, to) && normalize(text.subrange(from, to))
                            == x;
                    if to >= start {
                        assert(to == end);
                        lemma_line_start(text, start, from, to);
                    }
                }
            }
            assert(self@ =~= old(self)@.union(words_of_lines(text)));
        }
    }

    /// Adds one word to the dictionary, normalised; a word without letters
    /// is left out.
    pub fn add_word(&mut self, word: &str)
        ensures
            final(self)@ == (if normalize(word@).len() == 0 {
                old(self)@
            } else {
                old(self)@.insert(normalize(word@))
            }),
            final(self).wf(),
    {
        self.trie.insert(word);
    }
}

} // verus!
