//! What holds of every solution and of every list of results.

use vstd::prelude::*;
use vstd::relations::{sorted_by, total_ordering};
use vstd::seq_lib::lemma_sorted_unique;
use crate::char_utils::{counts_of, is_lower, lemma_index_round_trip, letter_count, letter_index};
use crate::constraints::{first_letter_count, SolverConstraints};
use crate::exhaustion::is_word;
use crate::partition::{
    covered, holds_all_solutions, holds_only_solutions, is_partition, pooled_count,
};
use crate::pattern::is_substring;
use crate::solver::AnagramSolver;
use crate::solution::{
    char_lt, lemma_char_order, lemma_equal_or_before, lemma_lex_transitive,
    lemma_ordered_distinct, lemma_solution_irreflexive, lemma_solution_transitive,
    solution_before, solutions_ordered, word_before, words_sorted,
};

verus! {

/// Letter conservation: the words of a solution together hold each letter
/// as often as the phrase holds it, upper and lower case counted alike.
pub proof fn law_letters_conserved(
    dict: Set<Seq<char>>,
    phrase: Seq<char>,
    rules: &SolverConstraints,
    ws: Seq<Seq<char>>,
    c: char,
)
    requires
        is_partition(dict, counts_of(phrase), rules, ws),
        is_lower(c),
    ensures
        pooled_count(ws, c) == letter_count(phrase, c),
{
    lemma_index_round_trip(c);
    assert(counts_of(phrase)[letter_index(c)] == letter_count(phrase, c));
}

/// The words of a solution hold nothing but lower-case letters, so the
/// letters that the law of conservation counts are all there is to them.
pub proof fn law_words_are_lower_case(
    solver: AnagramSolver,
    target: Seq<nat>,
    rules: &SolverConstraints,
    ws: Seq<Seq<char>>,
    i: int,
)
    requires
        solver.wf(),
        is_partition(solver@, target, rules, ws),
        0 <= i < ws.len(),
    ensures
        is_word(ws[i]),
{
    solver.lemma_proper();
}

/// Membership: every word of a solution is a word of the dictionary.
pub proof fn law_words_from_dictionary(
    dict: Set<Seq<char>>,
    target: Seq<nat>,
    rules: &SolverConstraints,
    ws: Seq<Seq<char>>,
    i: int,
)
    requires
        is_partition(dict, target, rules, ws),
        0 <= i < ws.len(),
    ensures
        dict.contains(ws[i]),
{
}

/// Dictionary order of words, equal words allowed.
pub open spec fn word_le() -> spec_fn(Seq<char>, Seq<char>) -> bool {
    |a: Seq<char>, b: Seq<char>| !word_before(b, a)
}

/// Dictionary order with equality is a total order of words.
pub proof fn lemma_word_le_total()
    ensures
        total_ordering(word_le()),
{
    let le = word_le();
    lemma_char_order();
    assert forall|a: Seq<char>| #[trigger] le(a, a) by {
        lemma_equal_or_before(a, a);
    }
    assert forall|a: Seq<char>, b: Seq<char>| #[trigger] le(a, b) && #[trigger] le(b, a) implies a
        == b by {
        lemma_equal_or_before(a, b);
    }
    assert forall|a: Seq<char>, b: Seq<char>| #[trigger] le(a, b) || #[trigger] le(b, a) by {
        lemma_equal_or_before(a, b);
    }
    assert forall|a: Seq<char>, b: Seq<char>, c: Seq<char>| #[trigger]
        le(a, b) && #[trigger] le(b, c) implies le(a, c) by {
        lemma_equal_or_before(a, b);
        lemma_equal_or_before(b, c);
        if word_before(c, a) {
            if a == b {
            } else {
                lemma_lex_transitive(c, a, b, char_lt());
            }
        }
    }
}

/// Uniqueness: no two results hold the same words, in whatever order.
pub proof fn law_no_solution_twice(results: Seq<Seq<Seq<char>>>, i: int, j: int)
    requires
        solutions_ordered(results),
        forall|k: int| 0 <= k < results.len() ==> words_sorted(#[trigger] results[k]),
        0 <= i < results.len(),
        0 <= j < results.len(),
        i != j,
    ensures
        results[i].to_multiset() != results[j].to_multiset(),
{
    let x = results[i];
    let y = results[j];
    if x.to_multiset() == y.to_multiset() {
        lemma_word_le_total();
        assert(words_sorted(x) && words_sorted(y));
        assert(sorted_by(x, word_le()));
        assert(sorted_by(y, word_le()));
        lemma_sorted_unique(x, y, word_le());
        lemma_ordered_distinct(results);
    }
}

/// Bounds: a solution has no more words than the rules allow, and none of
/// its words is shorter than they allow.
pub proof fn law_bounds_kept(
    dict: Set<Seq<char>>,
    target: Seq<nat>,
    rules: &SolverConstraints,
    ws: Seq<Seq<char>>,
    i: int,
)
    requires
        is_partition(dict, target, rules, ws),
        0 <= i < ws.len(),
    ensures
        rules.max_words matches Some(most) ==> ws.len() <= most,
        rules.min_word_length matches Some(least) ==> ws[i].len() >= least,
{
    assert(rules.word_allowed(ws[i]));
}

/// First letters: every word of a solution begins with a letter that is
/// not denied and that is among the allowed ones where those are set, and
/// enough words begin with each letter that asks for a number of them.
pub proof fn law_first_letters_kept(
    dict: Set<Seq<char>>,
    target: Seq<nat>,
    rules: &SolverConstraints,
    ws: Seq<Seq<char>>,
    i: int,
)
    requires
        is_partition(dict, target, rules, ws),
        0 <= i < ws.len(),
    ensures
        ws[i].len() > 0,
        rules.must_not_start_with matches Some(denied) ==> !denied@.contains(ws[i][0] as u32),
        rules.can_only_ever_start_with matches Some(allowed) ==> allowed@.contains(
            ws[i][0] as u32,
        ),
        rules.must_start_with matches Some(required) ==> forall|code: u32|
            #[trigger] required@.contains_key(code) ==> first_letter_count(ws, code)
                >= required@[code],
{
    assert(rules.word_allowed(ws[i]));
}

/// Patterns: every required substring stands, as it is, in some word of a solution.
pub proof fn law_patterns_found(
    dict: Set<Seq<char>>,
    target: Seq<nat>,
    rules: &SolverConstraints,
    ws: Seq<Seq<char>>,
    i: int,
)
    requires
        is_partition(dict, target, rules, ws),
        rules.contains_patterns is Some,
        0 <= i < rules.contains_patterns->0@.len(),
    ensures
        exists|j: int|
            0 <= j < ws.len() && is_substring(rules.contains_patterns->0@[i]@, #[trigger] ws[j]),
{
    assert(rules.pattern_found(i, ws));
}

/// Order: of two results the earlier has fewer words; or as many, and a
/// longer shortest word; or as many and an equally long shortest word, and
/// comes first in dictionary order, word by word.
pub proof fn law_results_in_order(results: Seq<Seq<Seq<char>>>, i: int, j: int)
    requires
        solutions_ordered(results),
        0 <= i < j < results.len(),
    ensures
        solution_before(results[i], results[j]),
{
}


/// Two lists in the order of results that hold the same solutions are the same list.
pub proof fn lemma_ordered_lists_equal(a: Seq<Seq<Seq<char>>>, b: Seq<Seq<Seq<char>>>)
    requires
        solutions_ordered(a),
        solutions_ordered(b),
        forall|x: Seq<Seq<char>>| a.contains(x) <==> b.contains(x),
    ensures
        a == b,
    decreases a.len(),
{
    if a.len() == 0 {
        if b.len() > 0 {
            assert(b.contains(b[0]));
        }
        assert(a =~= b);
    } else {
        assert(a.contains(a[0]));
        let j = choose|j: int| 0 <= j < b.len() && b[j] == a[0];
        assert(b.contains(b[0]));
        let i = choose|i: int| 0 <= i < a.len() && a[i] == b[0];
        lemma_solution_irreflexive(a[0]);
        if j > 0 {
            assert(solution_before(b[0], b[j]));
            if i > 0 {
                assert(solution_before(a[0], a[i]));
                lemma_solution_transitive(a[0], a[i], a[0]);
            }
        }
        assert(a[0] == b[0]);
        let ta = a.drop_first();
        let tb = b.drop_first();
        lemma_ordered_distinct(a);
        lemma_ordered_distinct(b);
        assert forall|x: Seq<Seq<char>>| ta.contains(x) <==> tb.contains(x) by {
            if ta.contains(x) {
                let k = choose|k: int| 0 <= k < ta.len() && ta[k] == x;
                assert(a[k + 1] == x);
                assert(a.contains(x));
                let m = choose|m: int| 0 <= m < b.len() && b[m] == x;
                assert(m != 0);
                assert(tb[m - 1] == x);
            }
            if tb.contains(x) {
                let k = choose|k: int| 0 <= k < tb.len() && tb[k] == x;
                assert(b[k + 1] == x);
                assert(b.contains(x));
                let m = choose|m: int| 0 <= m < a.len() && a[m] == x;
                assert(m != 0);
                assert(ta[m - 1] == x);
            }
        }
        assert forall|p: int, q: int| 0 <= p < q < ta.len() implies solution_before(
            #[trigger] ta[p],
            #[trigger] ta[q],
        ) by {
            assert(solution_before(a[p + 1], a[q + 1]));
        }
        assert forall|p: int, q: int| 0 <= p < q < tb.len() implies solution_before(
            #[trigger] tb[p],
            #[trigger] tb[q],
        ) by {
            assert(solution_before(b[p + 1], b[q + 1]));
        }
        lemma_ordered_lists_equal(ta, tb);
        assert(a =~= seq![a[0]] + ta);
        assert(b =~= seq![b[0]] + tb);
    }
}

/// A solution in canonical form that the results cover is one of them.
pub proof fn lemma_covered_is_member(results: Seq<Seq<Seq<char>>>, ws: Seq<Seq<char>>)
    requires
        forall|i: int| 0 <= i < results.len() ==> words_sorted(#[trigger] results[i]),
        words_sorted(ws),
        covered(results, ws),
    ensures
        results.contains(ws),
{
    let i = choose|i: int|
        0 <= i < results.len() && (#[trigger] results[i]).to_multiset() == ws.to_multiset();
    lemma_word_le_total();
    assert(words_sorted(results[i]));
    assert(sorted_by(results[i], word_le()));
    assert(sorted_by(ws, word_le()));
    lemma_sorted_unique(results[i], ws, word_le());
}

/// A solution in canonical form is among the results of any list that
/// holds all the solutions in canonical form.
pub proof fn lemma_solution_is_result(
    dict: Set<Seq<char>>,
    target: Seq<nat>,
    rules: &SolverConstraints,
    results: Seq<Seq<Seq<char>>>,
    ws: Seq<Seq<char>>,
)
    requires
        holds_all_solutions(dict, target, rules, results),
        forall|k: int| 0 <= k < results.len() ==> words_sorted(#[trigger] results[k]),
        is_partition(dict, target, rules, ws),
        words_sorted(ws),
    ensures
        results.contains(ws),
{
    assert(covered(results, ws)) by {
        reveal(holds_all_solutions);
    }
    lemma_covered_is_member(results, ws);
}

/// The result of an unbounded search is determined: two lists of results
/// that each hold all the solutions and nothing else, each in canonical
/// form, in the order of results, are the same list.
pub proof fn law_result_determined(
    dict: Set<Seq<char>>,
    target: Seq<nat>,
    rules: &SolverConstraints,
    a: Seq<Seq<Seq<char>>>,
    b: Seq<Seq<Seq<char>>>,
)
    requires
        holds_only_solutions(dict, target, rules, a),
        holds_only_solutions(dict, target, rules, b),
        holds_all_solutions(dict, target, rules, a),
        holds_all_solutions(dict, target, rules, b),
        solutions_ordered(a),
        solutions_ordered(b),
    ensures
        a == b,
{
    assert forall|x: Seq<Seq<char>>| a.contains(x) <==> b.contains(x) by {
        if a.contains(x) {
            let i = choose|i: int| 0 <= i < a.len() && a[i] == x;
            assert(is_partition(dict, target, rules, a[i]) && words_sorted(a[i]));
            lemma_solution_is_result(dict, target, rules, b, x);
        }
        if b.contains(x) {
            let i = choose|i: int| 0 <= i < b.len() && b[i] == x;
            assert(is_partition(dict, target, rules, b[i]) && words_sorted(b[i]));
            lemma_solution_is_result(dict, target, rules, a, x);
        }
    }
    lemma_ordered_lists_equal(a, b);
}

} // verus!
