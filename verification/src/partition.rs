//! What a solution is: a list of dictionary words that uses every letter of
//! the phrase exactly once and keeps the rules.

use vstd::prelude::*;
use vstd::seq_lib::{group_to_multiset_ensures, to_multiset_remove};
use crate::char_utils::{letter_at, letter_count};
use crate::constraints::{begins_with, first_letter_count, SolverConstraints};
use crate::pattern::is_substring;
use crate::solution::words_sorted;

verus! {

/// How often the letter `c` occurs in all the words together.
pub open spec fn pooled_count(ws: Seq<Seq<char>>, c: char) -> nat
    decreases ws.len(),
{
    if ws.len() == 0 {
        0
    } else {
        pooled_count(ws.drop_last(), c) + letter_count(ws.last(), c)
    }
}

/// Whether `ws` is a solution: at least one word, each of them a word of
/// the dictionary that the rules allow; together they hold each letter as often
/// as `target` asks, the count at position `k` being that of the letter
/// `letter_at(k)`; and the rules on the whole list are kept.
pub open spec fn is_partition(
    dict: Set<Seq<char>>,
    target: Seq<nat>,
    rules: &SolverConstraints,
    ws: Seq<Seq<char>>,
) -> bool {
    &&& ws.len() > 0
    &&& forall|i: int|
        0 <= i < ws.len() ==> dict.contains(#[trigger] ws[i]) && rules.word_allowed(ws[i])
    &&& forall|k: int| 0 <= k < 26 ==> pooled_count(ws, letter_at(k)) == #[trigger] target[k]
    &&& rules.count_allowed(ws.len())
    &&& rules.starts_met(ws)
    &&& rules.patterns_met(ws)
}

/// Whether the solutions found hold one with the words of `ws`, in whatever order.
pub open spec fn covered(found: Seq<Seq<Seq<char>>>, ws: Seq<Seq<char>>) -> bool {
    exists|i: int| 0 <= i < found.len() && (#[trigger] found[i]).to_multiset() == ws.to_multiset()
}

/// Whether every result is a solution in canonical form.
pub open spec fn holds_only_solutions(
    dict: Set<Seq<char>>,
    target: Seq<nat>,
    rules: &SolverConstraints,
    results: Seq<Seq<Seq<char>>>,
) -> bool {
    forall|i: int|
        0 <= i < results.len() ==> is_partition(dict, target, rules, #[trigger] results[i])
            && words_sorted(results[i])
}

/// Whether the results hold every solution: for each list of words that is
/// a solution, the results hold one with the same words, in whatever order.
#[verifier::opaque]
pub open spec fn holds_all_solutions(
    dict: Set<Seq<char>>,
    target: Seq<nat>,
    rules: &SolverConstraints,
    results: Seq<Seq<Seq<char>>>,
) -> bool {
    forall|ws: Seq<Seq<char>>| #[trigger]
        is_partition(dict, target, rules, ws) ==> covered(results, ws)
}

/// Whether every solution found before is still there.
pub open spec fn grown(before: Seq<Seq<Seq<char>>>, after: Seq<Seq<Seq<char>>>) -> bool {
    forall|i: int| 0 <= i < before.len() ==> after.contains(#[trigger] before[i])
}

/// Sum of `f` over the words.
pub open spec fn sum_by(ws: Seq<Seq<char>>, f: spec_fn(Seq<char>) -> nat) -> nat
    decreases ws.len(),
{
    if ws.len() == 0 {
        0
    } else {
        sum_by(ws.drop_last(), f) + f(ws.last())
    }
}

/// Counts the letter `c` in a word.
pub open spec fn letter_counter(c: char) -> spec_fn(Seq<char>) -> nat {
    |w: Seq<char>| letter_count(w, c)
}

/// Counts 1 for a word that begins with the character of code point `code`.
pub open spec fn start_counter(code: u32) -> spec_fn(Seq<char>) -> nat {
    |w: Seq<char>|
        if begins_with(w, code) {
            1nat
        } else {
            0nat
        }
}

/// The pooled count of a letter is the sum of its counts in the words.
pub proof fn lemma_pooled_is_sum(ws: Seq<Seq<char>>, c: char)
    ensures
        pooled_count(ws, c) == sum_by(ws, letter_counter(c)),
    decreases ws.len(),
{
    if ws.len() > 0 {
        lemma_pooled_is_sum(ws.drop_last(), c);
    }
}

/// The count of a first letter is the sum of 1 for each word that begins with it.
pub proof fn lemma_starts_is_sum(ws: Seq<Seq<char>>, code: u32)
    ensures
        first_letter_count(ws, code) == sum_by(ws, start_counter(code)),
    decreases ws.len(),
{
    if ws.len() > 0 {
        lemma_starts_is_sum(ws.drop_last(), code);
    }
}

/// Taking one word out lowers the sum by what that word counts.
pub proof fn lemma_sum_by_remove(ws: Seq<Seq<char>>, i: int, f: spec_fn(Seq<char>) -> nat)
    requires
        0 <= i < ws.len(),
    ensures
        sum_by(ws, f) == sum_by(ws.remove(i), f) + f(ws[i]),
    decreases ws.len(),
{
    if i == ws.len() - 1 {
        assert(ws.remove(i) =~= ws.drop_last());
    } else {
        lemma_sum_by_remove(ws.drop_last(), i, f);
        assert(ws.drop_last().remove(i) =~= ws.remove(i).drop_last());
        assert(ws.remove(i).last() == ws.last());
    }
}

/// A sum over words does not depend on their order.
pub proof fn lemma_sum_by_permutation(
    a: Seq<Seq<char>>,
    b: Seq<Seq<char>>,
    f: spec_fn(Seq<char>) -> nat,
)
    requires
        a.to_multiset() == b.to_multiset(),
    ensures
        sum_by(a, f) == sum_by(b, f),
    decreases a.len(),
{
    broadcast use group_to_multiset_ensures;

    if a.len() == 0 {
        assert(b.to_multiset().len() == 0);
        assert(b.len() == 0);
    } else {
        let x = a.last();
        assert(a.to_multiset().count(x) > 0);
        assert(b.contains(x));
        let i = choose|i: int| 0 <= i < b.len() && b[i] == x;
        assert(a.drop_last() =~= a.remove(a.len() - 1));
        to_multiset_remove(a, a.len() - 1);
        to_multiset_remove(b, i);
        lemma_sum_by_permutation(a.drop_last(), b.remove(i), f);
        lemma_sum_by_remove(b, i, f);
    }
}

/// One more word adds its own letters to those of the others.
pub proof fn lemma_pooled_push(ws: Seq<Seq<char>>, w: Seq<char>, c: char)
    ensures
        pooled_count(ws.push(w), c) == pooled_count(ws, c) + letter_count(w, c),
{
    assert(ws.push(w).drop_last() =~= ws);
}

/// The letters of two lists of words add up.
pub proof fn lemma_pooled_concat(a: Seq<Seq<char>>, b: Seq<Seq<char>>, c: char)
    ensures
        pooled_count(a + b, c) == pooled_count(a, c) + pooled_count(b, c),
    decreases b.len(),
{
    if b.len() == 0 {
        assert(a + b =~= a);
    } else {
        assert((a + b).drop_last() =~= a + b.drop_last());
        lemma_pooled_concat(a, b.drop_last(), c);
    }
}

/// All the words together hold a letter at least as often as one of them.
pub proof fn lemma_pooled_ge(ws: Seq<Seq<char>>, j: int, c: char)
    requires
        0 <= j < ws.len(),
    ensures
        pooled_count(ws, c) >= letter_count(ws[j], c),
    decreases ws.len(),
{
    if j < ws.len() - 1 {
        lemma_pooled_ge(ws.drop_last(), j, c);
    }
}

/// The letters of a list of words do not depend on the order of the words.
pub proof fn lemma_pooled_permutation(a: Seq<Seq<char>>, b: Seq<Seq<char>>, c: char)
    requires
        a.to_multiset() == b.to_multiset(),
    ensures
        pooled_count(a, c) == pooled_count(b, c),
{
    lemma_pooled_is_sum(a, c);
    lemma_pooled_is_sum(b, c);
    lemma_sum_by_permutation(a, b, letter_counter(c));
}

/// Whether a list of words is a solution does not depend on the order of the words.
pub proof fn lemma_partition_permutation(
    dict: Set<Seq<char>>,
    target: Seq<nat>,
    rules: &SolverConstraints,
    a: Seq<Seq<char>>,
    b: Seq<Seq<char>>,
)
    requires
        is_partition(dict, target, rules, a),
        a.to_multiset() == b.to_multiset(),
    ensures
        is_partition(dict, target, rules, b),
{
    broadcast use group_to_multiset_ensures;

    vstd::seq_lib::to_multiset_len(a);
    vstd::seq_lib::to_multiset_len(b);
    assert(a.len() == b.len());
    assert forall|j: int| 0 <= j < b.len() implies dict.contains(#[trigger] b[j])
        && rules.word_allowed(b[j]) by {
        assert(b.to_multiset().count(b[j]) > 0);
        assert(a.contains(b[j]));
    }
    assert forall|k: int| 0 <= k < 26 implies pooled_count(b, letter_at(k))
        == #[trigger] target[k] by {
        lemma_pooled_permutation(a, b, letter_at(k));
    }
    if rules.must_start_with is Some {
        let required = rules.must_start_with->0;
        assert forall|code: u32| #[trigger] required@.contains_key(code) implies first_letter_count(
            b,
            code,
        ) >= required@[code] by {
            lemma_starts_is_sum(a, code);
            lemma_starts_is_sum(b, code);
            lemma_sum_by_permutation(a, b, start_counter(code));
        }
    }
    assert forall|i: int| 0 <= i < rules.pattern_count() implies #[trigger] rules.pattern_found(
        i,
        b,
    ) by {
        assert(rules.pattern_found(i, a));
        let j = choose|j: int|
            0 <= j < a.len() && is_substring(rules.pattern_text(i), #[trigger] a[j]);
        assert(a.to_multiset().count(a[j]) > 0);
        assert(b.contains(a[j]));
        let m = choose|m: int| 0 <= m < b.len() && b[m] == a[j];
        assert(is_substring(rules.pattern_text(i), b[m]));
    }
}

} // verus!
