//! Why the search may leave a branch: what every solution that continues a
//! given state must look like, and where therefore none exists.

use vstd::prelude::*;
use crate::char_utils::{
    counts_of, is_letter, is_lower, lemma_counts_sum_total_step, lemma_index_round_trip,
    lemma_letter_count_concat, lemma_letter_count_push, lemma_letter_round_trip,
    lemma_sum_to_pointwise, lemma_sum_to_zero, letter_at, letter_count, letter_index, sum_of,
};
use crate::constraints::SolverConstraints;
use crate::partition::{
    covered, grown, is_partition, lemma_pooled_concat, lemma_pooled_ge, lemma_pooled_push,
    pooled_count,
};
use crate::pattern::{is_substring, lemma_substring_letters};
use crate::trie::TrieNode;

verus! {

/// A dictionary word: not empty, lower-case letters only.
pub open spec fn is_word(w: Seq<char>) -> bool {
    &&& w.len() > 0
    &&& forall|i: int| 0 <= i < w.len() ==> is_lower(#[trigger] w[i])
}

/// A dictionary holds words only.
pub open spec fn proper(dict: Set<Seq<char>>) -> bool {
    forall|w: Seq<char>| #[trigger] dict.contains(w) ==> is_word(w)
}

/// The letters are all accounted for: those of the words chosen, those of
/// the word under way and those left make up the target.
pub open spec fn balanced(
    target: Seq<nat>,
    path: Seq<Seq<char>>,
    word: Seq<char>,
    remaining: Seq<nat>,
) -> bool {
    &&& target.len() == 26
    &&& remaining.len() == 26
    &&& forall|k: int|
        0 <= k < 26 ==> pooled_count(path, letter_at(k)) + letter_count(word, letter_at(k))
            + #[trigger] remaining[k] == target[k]
}

/// Every word chosen is a dictionary word that the rules allow.
pub open spec fn path_ok(
    dict: Set<Seq<char>>,
    rules: &SolverConstraints,
    path: Seq<Seq<char>>,
) -> bool {
    forall|i: int|
        0 <= i < path.len() ==> dict.contains(#[trigger] path[i]) && rules.word_allowed(path[i])
}

/// The node is the one that the letters of `word` lead to from the root.
pub open spec fn at_node(root: TrieNode, word: Seq<char>, node: TrieNode) -> bool {
    forall|s: Seq<char>| #[trigger] node.accepts(s) == root.accepts(word + s)
}

/// Every solution that begins with the words of `path` is among those found.
pub open spec fn exhausted(
    dict: Set<Seq<char>>,
    target: Seq<nat>,
    rules: &SolverConstraints,
    path: Seq<Seq<char>>,
    found: Seq<Seq<Seq<char>>>,
) -> bool {
    forall|rest: Seq<Seq<char>>| #[trigger]
        is_partition(dict, target, rules, path + rest) ==> covered(found, path + rest)
}

/// Every solution that begins with the words of `path` and then a word that
/// begins with `word` is among those found.
pub open spec fn exhausted_with(
    dict: Set<Seq<char>>,
    target: Seq<nat>,
    rules: &SolverConstraints,
    path: Seq<Seq<char>>,
    word: Seq<char>,
    found: Seq<Seq<Seq<char>>>,
) -> bool {
    forall|rest: Seq<Seq<char>>|
        rest.len() > 0 && word.is_prefix_of(rest[0]) && #[trigger] is_partition(
            dict,
            target,
            rules,
            path + rest,
        ) ==> covered(found, path + rest)
}

/// As `exhausted_with`, for the solutions whose next word goes on after
/// `word` with one of the first `k` letters of the alphabet.
pub open spec fn exhausted_upto(
    dict: Set<Seq<char>>,
    target: Seq<nat>,
    rules: &SolverConstraints,
    path: Seq<Seq<char>>,
    word: Seq<char>,
    k: int,
    found: Seq<Seq<Seq<char>>>,
) -> bool {
    forall|rest: Seq<Seq<char>>|
        rest.len() > 0 && word.is_prefix_of(rest[0]) && rest[0].len() > word.len()
            && letter_index(rest[0][word.len() as int]) < k && #[trigger] is_partition(
            dict,
            target,
            rules,
            path + rest,
        ) ==> covered(found, path + rest)
}

/// What is covered stays covered when more solutions are found.
pub proof fn lemma_covered_grows(
    before: Seq<Seq<Seq<char>>>,
    after: Seq<Seq<Seq<char>>>,
    ws: Seq<Seq<char>>,
)
    requires
        grown(before, after),
        covered(before, ws),
    ensures
        covered(after, ws),
{
    let i = choose|i: int|
        0 <= i < before.len() && (#[trigger] before[i]).to_multiset() == ws.to_multiset();
    assert(after.contains(before[i]));
    let j = choose|j: int| 0 <= j < after.len() && after[j] == before[i];
    assert(after[j].to_multiset() == ws.to_multiset());
}

/// What has grown twice has grown.
pub proof fn lemma_grown_chain(
    a: Seq<Seq<Seq<char>>>,
    b: Seq<Seq<Seq<char>>>,
    c: Seq<Seq<Seq<char>>>,
)
    requires
        grown(a, b),
        grown(b, c),
    ensures
        grown(a, c),
{
    assert forall|i: int| 0 <= i < a.len() implies c.contains(#[trigger] a[i]) by {
        assert(b.contains(a[i]));
        let j = choose|j: int| 0 <= j < b.len() && b[j] == a[i];
        assert(c.contains(b[j]));
    }
}

pub proof fn lemma_exhausted_upto_grows(
    dict: Set<Seq<char>>,
    target: Seq<nat>,
    rules: &SolverConstraints,
    path: Seq<Seq<char>>,
    word: Seq<char>,
    k: int,
    before: Seq<Seq<Seq<char>>>,
    after: Seq<Seq<Seq<char>>>,
)
    requires
        grown(before, after),
        exhausted_upto(dict, target, rules, path, word, k, before),
    ensures
        exhausted_upto(dict, target, rules, path, word, k, after),
{
    assert forall|rest: Seq<Seq<char>>|
        rest.len() > 0 && word.is_prefix_of(rest[0]) && rest[0].len() > word.len()
            && letter_index(rest[0][word.len() as int]) < k && #[trigger] is_partition(
            dict,
            target,
            rules,
            path + rest,
        ) implies covered(after, path + rest) by {
        lemma_covered_grows(before, after, path + rest);
    }
}

/// A lower-case letter that stands in a text is counted there.
pub proof fn lemma_letter_counted(s: Seq<char>, i: int)
    requires
        0 <= i < s.len(),
        is_lower(s[i]),
    ensures
        letter_count(s, s[i]) >= 1,
    decreases s.len(),
{
    if i < s.len() - 1 {
        lemma_letter_counted(s.drop_last(), i);
    }
}

/// The 26 counts of a run of letters add up to its length.
pub proof fn lemma_counts_total_of_letters(s: Seq<char>)
    requires
        forall|i: int| 0 <= i < s.len() ==> is_letter(#[trigger] s[i]),
    ensures
        sum_of(counts_of(s)) == s.len(),
    decreases s.len(),
{
    if s.len() == 0 {
        assert forall|i: int| 0 <= i < 26 implies #[trigger] counts_of(s)[i] == 0 by {}
        lemma_sum_to_zero(counts_of(s), 26);
    } else {
        lemma_counts_total_of_letters(s.drop_last());
        lemma_counts_sum_total_step(s);
    }
}

/// The words that continue a state hold the letters that are left, on top
/// of those of the word under way.
pub proof fn lemma_rest_letters(
    dict: Set<Seq<char>>,
    target: Seq<nat>,
    rules: &SolverConstraints,
    path: Seq<Seq<char>>,
    word: Seq<char>,
    remaining: Seq<nat>,
    rest: Seq<Seq<char>>,
    k: int,
)
    requires
        balanced(target, path, word, remaining),
        is_partition(dict, target, rules, path + rest),
        0 <= k < 26,
    ensures
        pooled_count(rest, letter_at(k)) == letter_count(word, letter_at(k)) + remaining[k],
{
    lemma_pooled_concat(path, rest, letter_at(k));
    assert(pooled_count(path + rest, letter_at(k)) == target[k]);
    assert(pooled_count(path, letter_at(k)) + letter_count(word, letter_at(k)) + remaining[k]
        == target[k]);
}

/// The next word of a solution goes on after the word under way with
/// letters that are left.
pub proof fn lemma_suffix_letters(
    dict: Set<Seq<char>>,
    target: Seq<nat>,
    rules: &SolverConstraints,
    path: Seq<Seq<char>>,
    word: Seq<char>,
    remaining: Seq<nat>,
    rest: Seq<Seq<char>>,
    k: int,
)
    requires
        balanced(target, path, word, remaining),
        is_partition(dict, target, rules, path + rest),
        rest.len() > 0,
        word.is_prefix_of(rest[0]),
        0 <= k < 26,
    ensures
        letter_count(rest[0].skip(word.len() as int), letter_at(k)) <= remaining[k],
{
    lemma_rest_letters(dict, target, rules, path, word, remaining, rest, k);
    lemma_pooled_ge(rest, 0, letter_at(k));
    assert(rest[0] =~= word + rest[0].skip(word.len() as int));
    lemma_letter_count_concat(word, rest[0].skip(word.len() as int), letter_at(k));
}

/// With no letter left, a solution holds no further word.
pub proof fn lemma_nothing_left(
    dict: Set<Seq<char>>,
    target: Seq<nat>,
    rules: &SolverConstraints,
    path: Seq<Seq<char>>,
    remaining: Seq<nat>,
    rest: Seq<Seq<char>>,
)
    requires
        proper(dict),
        balanced(target, path, Seq::empty(), remaining),
        is_partition(dict, target, rules, path + rest),
        forall|k: int| 0 <= k < 26 ==> remaining[k] == 0,
    ensures
        rest.len() == 0,
{
    if rest.len() > 0 {
        let w = rest[0];
        assert((path + rest)[path.len() as int] == w);
        assert(dict.contains(w));
        assert(is_word(w));
        let c = w[0];
        lemma_index_round_trip(c);
        let k = letter_index(c);
        lemma_letter_counted(w, 0);
        assert(Seq::<char>::empty().is_prefix_of(w));
        lemma_suffix_letters(dict, target, rules, path, Seq::empty(), remaining, rest, k);
        assert(w.skip(0) =~= w);
    }
}

/// With letters left, a solution holds a further word.
pub proof fn lemma_something_left(
    dict: Set<Seq<char>>,
    target: Seq<nat>,
    rules: &SolverConstraints,
    path: Seq<Seq<char>>,
    remaining: Seq<nat>,
    rest: Seq<Seq<char>>,
    k: int,
)
    requires
        balanced(target, path, Seq::empty(), remaining),
        is_partition(dict, target, rules, path + rest),
        0 <= k < 26,
        remaining[k] > 0,
    ensures
        rest.len() > 0,
{
    lemma_rest_letters(dict, target, rules, path, Seq::empty(), remaining, rest, k);
}

/// The next word of a solution is no longer than the letters that are left.
pub proof fn lemma_next_word_fits(
    dict: Set<Seq<char>>,
    target: Seq<nat>,
    rules: &SolverConstraints,
    path: Seq<Seq<char>>,
    remaining: Seq<nat>,
    rest: Seq<Seq<char>>,
)
    requires
        proper(dict),
        balanced(target, path, Seq::empty(), remaining),
        is_partition(dict, target, rules, path + rest),
        rest.len() > 0,
    ensures
        rest[0].len() <= sum_of(remaining),
        dict.contains(rest[0]),
{
    let w = rest[0];
    assert((path + rest)[path.len() as int] == w);
    assert(is_word(w));
    lemma_counts_total_of_letters(w);
    assert(Seq::<char>::empty().is_prefix_of(w));
    assert(w.skip(0) =~= w);
    assert forall|k: int| 0 <= k < 26 implies counts_of(w)[k] <= remaining[k] by {
        lemma_suffix_letters(dict, target, rules, path, Seq::empty(), remaining, rest, k);
    }
    lemma_sum_to_pointwise(counts_of(w), remaining, 26);
}

/// A required substring that no chosen word contains stands in a further
/// word, so its letters are among those left.
pub proof fn lemma_pattern_needs_letters(
    dict: Set<Seq<char>>,
    target: Seq<nat>,
    rules: &SolverConstraints,
    path: Seq<Seq<char>>,
    remaining: Seq<nat>,
    rest: Seq<Seq<char>>,
    i: int,
    k: int,
)
    requires
        balanced(target, path, Seq::empty(), remaining),
        is_partition(dict, target, rules, path + rest),
        0 <= i < rules.pattern_count(),
        !rules.pattern_found(i, path),
        0 <= k < 26,
    ensures
        rest.len() > 0,
        counts_of(rules.pattern_text(i))[k] <= remaining[k],
{
    let all = path + rest;
    assert(rules.pattern_found(i, all));
    let j = choose|j: int|
        0 <= j < all.len() && is_substring(rules.pattern_text(i), #[trigger] all[j]);
    if j < path.len() {
        assert(all[j] == path[j]);
        assert(is_substring(rules.pattern_text(i), path[j]));
    }
    let w = rest[j - path.len()];
    assert(all[j] == w);
    lemma_substring_letters(rules.pattern_text(i), w, letter_at(k));
    lemma_pooled_ge(rest, j - path.len(), letter_at(k));
    lemma_rest_letters(dict, target, rules, path, Seq::empty(), remaining, rest, k);
}

/// The child for a letter is the node that the word with that letter added leads to.
pub proof fn lemma_child_node(root: TrieNode, word: Seq<char>, node: TrieNode, k: int)
    requires
        at_node(root, word, node),
        0 <= k < 26,
        node.children[k] is Some,
    ensures
        at_node(root, word.push(letter_at(k)), *node.children[k]->0),
{
    let c = letter_at(k);
    let child = *node.children[k]->0;
    lemma_letter_round_trip(k);
    assert forall|s: Seq<char>| #[trigger] child.accepts(s) == root.accepts(word.push(c) + s) by {
        node.lemma_accepts_step(c, s);
        assert(word.push(c) + s =~= word + (seq![c] + s));
        assert(node.accepts(seq![c] + s) == root.accepts(word + (seq![c] + s)));
    }
}

/// A solution whose next word is the word under way is one that begins
/// with the words chosen and that word.
pub proof fn lemma_take_word(path: Seq<Seq<char>>, rest: Seq<Seq<char>>)
    requires
        rest.len() > 0,
    ensures
        path + rest == path.push(rest[0]) + rest.drop_first(),
{
    assert(path + rest =~= path.push(rest[0]) + rest.drop_first());
}


/// Whether the required substring at position `i`, if no chosen word
/// contains it, closes the branch: the letters left do not offer its
/// letters, or no letter is left, or no further word may be chosen.
pub open spec fn blocks_at(
    rules: &SolverConstraints,
    i: int,
    remaining: Seq<nat>,
    chosen: nat,
) -> bool {
    ||| exists|k: int| 0 <= k < 26 && #[trigger] remaining[k] < counts_of(rules.pattern_text(i))[k]
    ||| sum_of(remaining) == 0
    ||| rules.max_words matches Some(most) && chosen >= most
}

/// No solution continues a state in which a required substring that no
/// chosen word contains closes the branch.
pub proof fn lemma_blocked_by_pattern(
    dict: Set<Seq<char>>,
    target: Seq<nat>,
    rules: &SolverConstraints,
    path: Seq<Seq<char>>,
    remaining: Seq<nat>,
    rest: Seq<Seq<char>>,
    i: int,
)
    requires
        proper(dict),
        balanced(target, path, Seq::empty(), remaining),
        0 <= i < rules.pattern_count(),
        !rules.pattern_found(i, path),
        blocks_at(rules, i, remaining, path.len()),
    ensures
        !is_partition(dict, target, rules, path + rest),
{
    if is_partition(dict, target, rules, path + rest) {
        lemma_pattern_needs_letters(dict, target, rules, path, remaining, rest, i, 0);
        if exists|k: int|
            0 <= k < 26 && #[trigger] remaining[k] < counts_of(rules.pattern_text(i))[k] {
            let k = choose|k: int|
                0 <= k < 26 && #[trigger] remaining[k] < counts_of(rules.pattern_text(i))[k];
            lemma_pattern_needs_letters(dict, target, rules, path, remaining, rest, i, k);
        } else if sum_of(remaining) == 0 {
            lemma_sum_to_zero(remaining, 26);
            lemma_nothing_left(dict, target, rules, path, remaining, rest);
        } else {
            assert((path + rest).len() == path.len() + rest.len());
        }
    }
}

/// A solution whose next word begins with the word under way and goes on
/// with the letter at position `k` needs a child for that letter, one more
/// of that letter among those left, and, where the word under way is empty,
/// leave to begin a word with it.
pub proof fn lemma_next_letter(
    dict: Set<Seq<char>>,
    target: Seq<nat>,
    rules: &SolverConstraints,
    root: TrieNode,
    node: TrieNode,
    path: Seq<Seq<char>>,
    word: Seq<char>,
    remaining: Seq<nat>,
    rest: Seq<Seq<char>>,
)
    requires
        proper(dict),
        forall|w: Seq<char>| dict.contains(w) == root.accepts(w),
        at_node(root, word, node),
        balanced(target, path, word, remaining),
        is_partition(dict, target, rules, path + rest),
        rest.len() > 0,
        word.is_prefix_of(rest[0]),
        rest[0].len() > word.len(),
    ensures
        ({
            let c = rest[0][word.len() as int];
            let k = letter_index(c);
            &&& is_lower(c)
            &&& 0 <= k < 26
            &&& letter_at(k) == c
            &&& node.children[k] is Some
            &&& remaining[k] > 0
            &&& word.len() == 0 ==> rules.start_allowed(c)
            &&& word.push(c).is_prefix_of(rest[0])
        }),
{
    let w = rest[0];
    let c = w[word.len() as int];
    let k = letter_index(c);
    let suffix = w.skip(word.len() as int);
    assert((path + rest)[path.len() as int] == w);
    assert(dict.contains(w) && rules.word_allowed(w));
    assert(is_word(w));
    lemma_index_round_trip(c);
    assert(w =~= word + suffix);
    assert(root.accepts(word + suffix));
    assert(node.accepts(suffix));
    assert(suffix[0] == c);
    lemma_suffix_letters(dict, target, rules, path, word, remaining, rest, k);
    lemma_letter_counted(suffix, 0);
    assert(word.push(c) =~= w.subrange(0, word.len() as int + 1));
}

/// The word under way is a dictionary word exactly if a word ends at its node.
pub proof fn lemma_word_ends(root: TrieNode, word: Seq<char>, node: TrieNode)
    requires
        at_node(root, word, node),
    ensures
        root.accepts(word) == node.is_end_of_word,
{
    assert(word + Seq::<char>::empty() =~= word);
    assert(node.accepts(Seq::empty()) == root.accepts(word + Seq::<char>::empty()));
}

/// Before a word is chosen, all the letters of the target are left.
pub proof fn lemma_balanced_start(target: Seq<nat>)
    requires
        target.len() == 26,
    ensures
        balanced(target, Seq::empty(), Seq::empty(), target),
{
}

/// The letters are accounted for after one of those left has gone to the
/// word under way.
pub proof fn lemma_balanced_step(
    target: Seq<nat>,
    path: Seq<Seq<char>>,
    word: Seq<char>,
    remaining: Seq<nat>,
    k: int,
)
    requires
        balanced(target, path, word, remaining),
        0 <= k < 26,
        remaining[k] > 0,
    ensures
        balanced(
            target,
            path,
            word.push(letter_at(k)),
            remaining.update(k, (remaining[k] - 1) as nat),
        ),
{
    let c = letter_at(k);
    let after = remaining.update(k, (remaining[k] - 1) as nat);
    assert forall|j: int| 0 <= j < 26 implies pooled_count(path, letter_at(j)) + letter_count(
        word.push(c),
        letter_at(j),
    ) + #[trigger] after[j] == target[j] by {
        lemma_letter_count_push(word, c, letter_at(j));
        lemma_letter_round_trip(j);
        lemma_letter_round_trip(k);
        assert(pooled_count(path, letter_at(j)) + letter_count(word, letter_at(j)) + remaining[j]
            == target[j]);
    }
}

/// The letters are accounted for after the word under way has joined the
/// words chosen.
pub proof fn lemma_balanced_word(
    target: Seq<nat>,
    path: Seq<Seq<char>>,
    word: Seq<char>,
    remaining: Seq<nat>,
)
    requires
        balanced(target, path, word, remaining),
    ensures
        balanced(target, path.push(word), Seq::empty(), remaining),
{
    assert forall|j: int| 0 <= j < 26 implies pooled_count(path.push(word), letter_at(j))
        + letter_count(Seq::empty(), letter_at(j)) + #[trigger] remaining[j] == target[j] by {
        lemma_pooled_push(path, word, letter_at(j));
        assert(pooled_count(path, letter_at(j)) + letter_count(word, letter_at(j)) + remaining[j]
            == target[j]);
    }
}

/// A required substring stands in one of the words chosen and the new word
/// exactly if it stands in one of the words chosen or in the new word.
pub proof fn lemma_pattern_found_push(
    rules: &SolverConstraints,
    i: int,
    path: Seq<Seq<char>>,
    word: Seq<char>,
)
    ensures
        rules.pattern_found(i, path.push(word)) == (rules.pattern_found(i, path) || is_substring(
            rules.pattern_text(i),
            word,
        )),
{
    let more = path.push(word);
    if rules.pattern_found(i, path) {
        let j = choose|j: int|
            0 <= j < path.len() && is_substring(rules.pattern_text(i), #[trigger] path[j]);
        assert(more[j] == path[j]);
    }
    if is_substring(rules.pattern_text(i), word) {
        assert(more[path.len() as int] == word);
    }
    if rules.pattern_found(i, more) {
        let j = choose|j: int|
            0 <= j < more.len() && is_substring(rules.pattern_text(i), #[trigger] more[j]);
        if j < path.len() {
            assert(path[j] == more[j]);
        }
    }
}


/// Whether the words of `rest` can follow the word under way: each is a
/// dictionary word that the rules allow, and together they are made of the
/// letters of the word under way and the letters left, no more and no less.
pub open spec fn rest_fits(
    dict: Set<Seq<char>>,
    rules: &SolverConstraints,
    word: Seq<char>,
    remaining: Seq<nat>,
    rest: Seq<Seq<char>>,
) -> bool {
    &&& forall|j: int|
        0 <= j < rest.len() ==> dict.contains(#[trigger] rest[j]) && rules.word_allowed(rest[j])
    &&& forall|k: int|
        0 <= k < 26 ==> pooled_count(rest, letter_at(k)) == letter_count(word, letter_at(k))
            + #[trigger] remaining[k]
}

/// Whether the solution `x` continues the words chosen: it holds the words
/// of `path` and then words made of exactly the letters left, in whatever
/// order.
pub open spec fn continues(
    dict: Set<Seq<char>>,
    target: Seq<nat>,
    rules: &SolverConstraints,
    path: Seq<Seq<char>>,
    remaining: Seq<nat>,
    x: Seq<Seq<char>>,
) -> bool {
    exists|rest: Seq<Seq<char>>|
        #[trigger] is_partition(dict, target, rules, path + rest) && x.to_multiset() == (path
            + rest).to_multiset() && rest_fits(dict, rules, Seq::empty(), remaining, rest)
}

/// Whether the solution `x` continues the words chosen and the word under
/// way: it holds the words of `path`, then a word that begins with `word`,
/// then further words, in whatever order; the words after those of `path`
/// are made of exactly the letters of `word` and the letters left.
pub open spec fn continues_with(
    dict: Set<Seq<char>>,
    target: Seq<nat>,
    rules: &SolverConstraints,
    path: Seq<Seq<char>>,
    word: Seq<char>,
    remaining: Seq<nat>,
    x: Seq<Seq<char>>,
) -> bool {
    exists|rest: Seq<Seq<char>>|
        rest.len() > 0 && word.is_prefix_of(rest[0]) && #[trigger] is_partition(
            dict,
            target,
            rules,
            path + rest,
        ) && x.to_multiset() == (path + rest).to_multiset() && rest_fits(
            dict,
            rules,
            word,
            remaining,
            rest,
        )
}

/// Whether every solution found since `before` continues the words chosen.
pub open spec fn fresh_continue(
    dict: Set<Seq<char>>,
    target: Seq<nat>,
    rules: &SolverConstraints,
    path: Seq<Seq<char>>,
    remaining: Seq<nat>,
    before: Seq<Seq<Seq<char>>>,
    after: Seq<Seq<Seq<char>>>,
) -> bool {
    forall|i: int|
        0 <= i < after.len() && !before.contains(#[trigger] after[i]) ==> continues(
            dict,
            target,
            rules,
            path,
            remaining,
            after[i],
        )
}

/// Whether every solution found since `before` continues the words chosen
/// and the word under way.
pub open spec fn fresh_continue_with(
    dict: Set<Seq<char>>,
    target: Seq<nat>,
    rules: &SolverConstraints,
    path: Seq<Seq<char>>,
    word: Seq<char>,
    remaining: Seq<nat>,
    before: Seq<Seq<Seq<char>>>,
    after: Seq<Seq<Seq<char>>>,
) -> bool {
    forall|i: int|
        0 <= i < after.len() && !before.contains(#[trigger] after[i]) ==> continues_with(
            dict,
            target,
            rules,
            path,
            word,
            remaining,
            after[i],
        )
}

/// The words that complete a solution after the words chosen fit the word
/// under way and the letters left.
pub proof fn lemma_rest_fits(
    dict: Set<Seq<char>>,
    target: Seq<nat>,
    rules: &SolverConstraints,
    path: Seq<Seq<char>>,
    word: Seq<char>,
    remaining: Seq<nat>,
    rest: Seq<Seq<char>>,
)
    requires
        balanced(target, path, word, remaining),
        is_partition(dict, target, rules, path + rest),
    ensures
        rest_fits(dict, rules, word, remaining, rest),
{
    assert forall|j: int| 0 <= j < rest.len() implies dict.contains(#[trigger] rest[j])
        && rules.word_allowed(rest[j]) by {
        assert((path + rest)[path.len() + j] == rest[j]);
    }
    assert forall|k: int| 0 <= k < 26 implies pooled_count(rest, letter_at(k)) == letter_count(
        word,
        letter_at(k),
    ) + #[trigger] remaining[k] by {
        lemma_rest_letters(dict, target, rules, path, word, remaining, rest, k);
    }
}

/// The words chosen, where they are a solution, continue themselves in
/// any order of their words.
pub proof fn lemma_continues_itself(
    dict: Set<Seq<char>>,
    target: Seq<nat>,
    rules: &SolverConstraints,
    path: Seq<Seq<char>>,
    remaining: Seq<nat>,
    x: Seq<Seq<char>>,
)
    requires
        balanced(target, path, Seq::empty(), remaining),
        is_partition(dict, target, rules, path),
        x.to_multiset() == path.to_multiset(),
    ensures
        continues(dict, target, rules, path, remaining, x),
{
    let rest = Seq::<Seq<char>>::empty();
    assert(path + rest =~= path);
    lemma_rest_fits(dict, target, rules, path, Seq::empty(), remaining, rest);
    assert(is_partition(dict, target, rules, path + rest));
}

/// A solution that continues the words chosen with a next word continues
/// the words chosen.
pub proof fn lemma_continues_from_root(
    dict: Set<Seq<char>>,
    target: Seq<nat>,
    rules: &SolverConstraints,
    path: Seq<Seq<char>>,
    remaining: Seq<nat>,
    x: Seq<Seq<char>>,
)
    requires
        continues_with(dict, target, rules, path, Seq::empty(), remaining, x),
    ensures
        continues(dict, target, rules, path, remaining, x),
{
    let rest = choose|rest: Seq<Seq<char>>|
        rest.len() > 0 && Seq::<char>::empty().is_prefix_of(rest[0]) && #[trigger] is_partition(
            dict,
            target,
            rules,
            path + rest,
        ) && x.to_multiset() == (path + rest).to_multiset() && rest_fits(
            dict,
            rules,
            Seq::empty(),
            remaining,
            rest,
        );
    assert(is_partition(dict, target, rules, path + rest));
}

/// A solution that continues the words chosen and the word under way as
/// one more word chosen continues the words chosen and the word under way.
pub proof fn lemma_continues_after_word(
    dict: Set<Seq<char>>,
    target: Seq<nat>,
    rules: &SolverConstraints,
    path: Seq<Seq<char>>,
    word: Seq<char>,
    remaining: Seq<nat>,
    x: Seq<Seq<char>>,
)
    requires
        balanced(target, path, word, remaining),
        continues(dict, target, rules, path.push(word), remaining, x),
    ensures
        continues_with(dict, target, rules, path, word, remaining, x),
{
    let more = choose|more: Seq<Seq<char>>|
        #[trigger] is_partition(dict, target, rules, path.push(word) + more) && x.to_multiset()
            == (path.push(word) + more).to_multiset() && rest_fits(
            dict,
            rules,
            Seq::empty(),
            remaining,
            more,
        );
    let rest = seq![word] + more;
    assert(path + rest =~= path.push(word) + more);
    assert(rest[0] == word);
    assert(word.is_prefix_of(rest[0])) by {
        assert(word =~= word.subrange(0, word.len() as int));
    }
    lemma_rest_fits(dict, target, rules, path, word, remaining, rest);
    assert(is_partition(dict, target, rules, path + rest));
}

/// A solution that continues the word under way with one more letter
/// continues the word under way.
pub proof fn lemma_continues_after_letter(
    dict: Set<Seq<char>>,
    target: Seq<nat>,
    rules: &SolverConstraints,
    path: Seq<Seq<char>>,
    word: Seq<char>,
    c: char,
    remaining: Seq<nat>,
    less: Seq<nat>,
    x: Seq<Seq<char>>,
)
    requires
        balanced(target, path, word, remaining),
        continues_with(dict, target, rules, path, word.push(c), less, x),
    ensures
        continues_with(dict, target, rules, path, word, remaining, x),
{
    let longer = word.push(c);
    let rest = choose|rest: Seq<Seq<char>>|
        rest.len() > 0 && longer.is_prefix_of(rest[0]) && #[trigger] is_partition(
            dict,
            target,
            rules,
            path + rest,
        ) && x.to_multiset() == (path + rest).to_multiset() && rest_fits(
            dict,
            rules,
            longer,
            less,
            rest,
        );
    assert(word.is_prefix_of(rest[0])) by {
        assert(longer =~= rest[0].subrange(0, longer.len() as int));
        assert(word =~= rest[0].subrange(0, word.len() as int)) by {
            assert forall|i: int| 0 <= i < word.len() implies word[i] == rest[0][i] by {
                assert(longer[i] == word[i]);
            }
        }
    }
    lemma_rest_fits(dict, target, rules, path, word, remaining, rest);
    assert(is_partition(dict, target, rules, path + rest));
}

/// What was found in two steps, each continuing the word under way, was
/// found continuing it.
pub proof fn lemma_fresh_chain(
    dict: Set<Seq<char>>,
    target: Seq<nat>,
    rules: &SolverConstraints,
    path: Seq<Seq<char>>,
    word: Seq<char>,
    remaining: Seq<nat>,
    first: Seq<Seq<Seq<char>>>,
    second: Seq<Seq<Seq<char>>>,
    third: Seq<Seq<Seq<char>>>,
)
    requires
        fresh_continue_with(dict, target, rules, path, word, remaining, first, second),
        fresh_continue_with(dict, target, rules, path, word, remaining, second, third),
    ensures
        fresh_continue_with(dict, target, rules, path, word, remaining, first, third),
{
    assert forall|i: int| 0 <= i < third.len() && !first.contains(#[trigger] third[i]) implies continues_with(
        dict,
        target,
        rules,
        path,
        word,
        remaining,
        third[i],
    ) by {
        if second.contains(third[i]) {
            let j = choose|j: int| 0 <= j < second.len() && second[j] == third[i];
            assert(!first.contains(second[j]));
        }
    }
}

} // verus!
