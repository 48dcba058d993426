//! Order among words and among solutions, the canonical form of a solution,
//! and the ordered set in which a search collects its solutions.

use vstd::prelude::*;
use crate::char_utils::string_of;
use vstd::relations::{
    antisymmetric, connected, irreflexive, strict_total_ordering, transitive,
};

verus! {

/// How one value stands to another in an order.
#[derive(Clone, Copy, Debug, PartialEq, Eq, Structural)]
pub enum Order {
    Less,
    Equal,
    Greater,
}

/// Lexicographic order on sequences: at the first position where `a` and `b`
/// differ, `a` holds the smaller item, or `a` ends there and `b` goes on.
pub open spec fn lex_lt<A>(a: Seq<A>, b: Seq<A>, lt: spec_fn(A, A) -> bool) -> bool
    decreases a.len(),
{
    if b.len() == 0 {
        false
    } else if a.len() == 0 {
        true
    } else if a[0] == b[0] {
        lex_lt(a.drop_first(), b.drop_first(), lt)
    } else {
        lt(a[0], b[0])
    }
}

/// No sequence comes before itself.
pub proof fn lemma_lex_irreflexive<A>(a: Seq<A>, lt: spec_fn(A, A) -> bool)
    ensures
        !lex_lt(a, a, lt),
    decreases a.len(),
{
    if a.len() > 0 {
        lemma_lex_irreflexive(a.drop_first(), lt);
    }
}

/// Of two sequences at most one comes before the other.
pub proof fn lemma_lex_asymmetric<A>(a: Seq<A>, b: Seq<A>, lt: spec_fn(A, A) -> bool)
    requires
        strict_total_ordering(lt),
    ensures
        !(lex_lt(a, b, lt) && lex_lt(b, a, lt)),
    decreases a.len(),
{
    if a.len() > 0 && b.len() > 0 {
        if a[0] == b[0] {
            lemma_lex_asymmetric(a.drop_first(), b.drop_first(), lt);
        } else {
            assert(!(lt(a[0], b[0]) && lt(b[0], a[0])));
        }
    }
}

/// Of two different sequences one comes before the other.
pub proof fn lemma_lex_connected<A>(a: Seq<A>, b: Seq<A>, lt: spec_fn(A, A) -> bool)
    requires
        strict_total_ordering(lt),
    ensures
        a != b ==> lex_lt(a, b, lt) || lex_lt(b, a, lt),
    decreases a.len(),
{
    if a.len() > 0 && b.len() > 0 {
        if a[0] == b[0] {
            lemma_lex_connected(a.drop_first(), b.drop_first(), lt);
            if a.drop_first() == b.drop_first() {
                assert(a =~= seq![a[0]] + a.drop_first());
                assert(b =~= seq![b[0]] + b.drop_first());
            }
        } else {
            assert(lt(a[0], b[0]) || lt(b[0], a[0]));
        }
    } else if a.len() == 0 && b.len() == 0 {
        assert(a =~= b);
    }
}

/// The order carries over from a first to a third sequence through a second.
pub proof fn lemma_lex_transitive<A>(a: Seq<A>, b: Seq<A>, c: Seq<A>, lt: spec_fn(A, A) -> bool)
    requires
        strict_total_ordering(lt),
        lex_lt(a, b, lt),
        lex_lt(b, c, lt),
    ensures
        lex_lt(a, c, lt),
    decreases a.len(),
{
    if a.len() > 0 {
        if a[0] == b[0] && b[0] == c[0] {
            lemma_lex_transitive(a.drop_first(), b.drop_first(), c.drop_first(), lt);
        } else if a[0] == b[0] {
            assert(lt(b[0], c[0]));
        } else if b[0] == c[0] {
            assert(lt(a[0], b[0]));
        } else {
            assert(lt(a[0], b[0]) && lt(b[0], c[0]));
            assert(lt(a[0], c[0]));
            if a[0] == c[0] {
                assert(lt(a[0], b[0]) && lt(b[0], a[0]));
            }
        }
    }
}

/// Order of characters by code point.
pub open spec fn char_lt() -> spec_fn(char, char) -> bool {
    |x: char, y: char| x < y
}

/// Whether the word `a` comes before the word `b` in dictionary order.
pub open spec fn word_before(a: Seq<char>, b: Seq<char>) -> bool {
    lex_lt(a, b, char_lt())
}

/// Dictionary order of words, as a relation.
pub open spec fn word_lt() -> spec_fn(Seq<char>, Seq<char>) -> bool {
    |a: Seq<char>, b: Seq<char>| word_before(a, b)
}

/// Order by code point is a strict total order of characters.
pub proof fn lemma_char_order()
    ensures
        strict_total_ordering(char_lt()),
{
    let lt = char_lt();
    assert(irreflexive(lt));
    assert(antisymmetric(lt));
    assert(transitive(lt));
    assert(connected(lt));
}

/// Dictionary order is a strict total order of words.
pub proof fn lemma_word_order()
    ensures
        strict_total_ordering(word_lt()),
{
    lemma_char_order();
    let lt = word_lt();
    assert forall|a: Seq<char>| !#[trigger] lt(a, a) by {
        lemma_lex_irreflexive(a, char_lt());
    }
    assert forall|a: Seq<char>, b: Seq<char>| #[trigger] lt(a, b) && #[trigger] lt(b, a) implies a
        == b by {
        lemma_lex_asymmetric(a, b, char_lt());
    }
    assert forall|a: Seq<char>, b: Seq<char>, c: Seq<char>| #[trigger]
        lt(a, b) && #[trigger] lt(b, c) implies lt(a, c) by {
        lemma_lex_transitive(a, b, c, char_lt());
    }
    assert forall|a: Seq<char>, b: Seq<char>| a != b implies #[trigger] lt(a, b) || #[trigger] lt(
        b,
        a,
    ) by {
        lemma_lex_connected(a, b, char_lt());
    }
}

/// Compares two words in dictionary order.
pub fn compare_words(a: &Vec<char>, b: &Vec<char>) -> (r: Order)
    ensures
        r == Order::Less <==> word_before(a@, b@),
        r == Order::Equal <==> a@ == b@,
        r == Order::Greater <==> word_before(b@, a@),
{
    let mut i: usize = 0;
    proof {
        assert(a@.skip(0) =~= a@);
        assert(b@.skip(0) =~= b@);
    }
    while i < a.len() && i < b.len()
        invariant
            i <= a.len(),
            i <= b.len(),
            forall|j: int| 0 <= j < i ==> a@[j] == b@[j],
            word_before(a@, b@) == word_before(a@.skip(i as int), b@.skip(i as int)),
            word_before(b@, a@) == word_before(b@.skip(i as int), a@.skip(i as int)),
        decreases a.len() - i,
    {
        let ghost x = a@.skip(i as int);
        let ghost y = b@.skip(i as int);
        proof {
            assert(x[0] == a@[i as int] && y[0] == b@[i as int]);
            assert(x.drop_first() =~= a@.skip(i as int + 1));
            assert(y.drop_first() =~= b@.skip(i as int + 1));
        }
        if a[i] < b[i] {
            proof {
                lemma_equal_or_before(a@, b@);
            }
            return Order::Less;
        }
        if a[i] > b[i] {
            proof {
                lemma_equal_or_before(a@, b@);
            }
            return Order::Greater;
        }
        i = i + 1;
    }
    proof {
        lemma_equal_or_before(a@, b@);
        if a.len() == b.len() {
            assert(a@ =~= b@);
        }
    }
    if a.len() < b.len() {
        Order::Less
    } else if a.len() > b.len() {
        Order::Greater
    } else {
        Order::Equal
    }
}

/// Two words are equal, or exactly one comes before the other.
pub proof fn lemma_equal_or_before(a: Seq<char>, b: Seq<char>)
    ensures
        a == b ==> !word_before(a, b) && !word_before(b, a),
        a != b ==> (word_before(a, b) != word_before(b, a)),
{
    lemma_char_order();
    lemma_lex_irreflexive(a, char_lt());
    lemma_lex_asymmetric(a, b, char_lt());
    lemma_lex_connected(a, b, char_lt());
}


/// The words held in a list of letter vectors.
pub open spec fn words_of(v: Seq<Vec<char>>) -> Seq<Seq<char>> {
    v.map_values(|w: Vec<char>| w@)
}

/// Whether the words stand in dictionary order, equal words side by side.
pub open spec fn words_sorted(ws: Seq<Seq<char>>) -> bool {
    forall|i: int, j: int| 0 <= i < j < ws.len() ==> !word_before(#[trigger] ws[j], #[trigger] ws[i])
}

/// Length of the shortest of the words, 0 where there is none.
pub open spec fn shortest_len(ws: Seq<Seq<char>>) -> nat
    decreases ws.len(),
{
    if ws.len() == 0 {
        0
    } else if ws.len() == 1 {
        ws[0].len()
    } else {
        let rest = shortest_len(ws.drop_last());
        if ws.last().len() < rest {
            ws.last().len()
        } else {
            rest
        }
    }
}

/// Whether the solution `a` comes before the solution `b`: fewer words
/// first; among equally many words, the longer shortest word first; then
/// the word lists in dictionary order, word by word.
pub open spec fn solution_before(a: Seq<Seq<char>>, b: Seq<Seq<char>>) -> bool {
    ||| a.len() < b.len()
    ||| a.len() == b.len() && shortest_len(a) > shortest_len(b)
    ||| a.len() == b.len() && shortest_len(a) == shortest_len(b) && lex_lt(a, b, word_lt())
}

/// No solution comes before itself.
pub proof fn lemma_solution_irreflexive(a: Seq<Seq<char>>)
    ensures
        !solution_before(a, a),
{
    lemma_lex_irreflexive(a, word_lt());
}

/// Of two different solutions exactly one comes before the other.
pub proof fn lemma_solution_connected(a: Seq<Seq<char>>, b: Seq<Seq<char>>)
    ensures
        a != b ==> (solution_before(a, b) != solution_before(b, a)),
        a == b ==> !solution_before(a, b),
{
    lemma_word_order();
    lemma_lex_irreflexive(a, word_lt());
    lemma_lex_asymmetric(a, b, word_lt());
    lemma_lex_connected(a, b, word_lt());
}

/// The order of solutions carries over from a first to a third through a second.
pub proof fn lemma_solution_transitive(a: Seq<Seq<char>>, b: Seq<Seq<char>>, c: Seq<Seq<char>>)
    requires
        solution_before(a, b),
        solution_before(b, c),
    ensures
        solution_before(a, c),
{
    lemma_word_order();
    if a.len() == b.len() && b.len() == c.len() && shortest_len(a) == shortest_len(b)
        && shortest_len(b) == shortest_len(c) {
        lemma_lex_transitive(a, b, c, word_lt());
    }
}

/// Length of the shortest of the words, 0 where there is none.
pub fn shortest_word_len(words: &Vec<Vec<char>>) -> (r: usize)
    ensures
        r == shortest_len(words_of(words@)),
{
    if words.len() == 0 {
        return 0;
    }
    let ghost ws = words_of(words@);
    let mut least = words[0].len();
    let mut i: usize = 1;
    proof {
        assert(ws.take(1).len() == 1);
    }
    while i < words.len()
        invariant
            1 <= i <= words.len(),
            ws == words_of(words@),
            least == shortest_len(ws.take(i as int)),
        decreases words.len() - i,
    {
        proof {
            assert(ws.take(i as int + 1).drop_last() =~= ws.take(i as int));
        }
        if words[i].len() < least {
            least = words[i].len();
        }
        i = i + 1;
    }
    proof {
        assert(ws.take(ws.len() as int) =~= ws);
    }
    least
}

/// Compares two word lists word by word, in dictionary order.
pub fn compare_word_lists(a: &Vec<Vec<char>>, b: &Vec<Vec<char>>) -> (r: Order)
    ensures
        r == Order::Less <==> lex_lt(words_of(a@), words_of(b@), word_lt()),
        r == Order::Equal <==> words_of(a@) == words_of(b@),
        r == Order::Greater <==> lex_lt(words_of(b@), words_of(a@), word_lt()),
{
    let ghost x = words_of(a@);
    let ghost y = words_of(b@);
    let mut i: usize = 0;
    proof {
        assert(x.skip(0) =~= x);
        assert(y.skip(0) =~= y);
        lemma_word_order();
        lemma_lex_irreflexive(x, word_lt());
        lemma_lex_asymmetric(x, y, word_lt());
        lemma_lex_connected(x, y, word_lt());
    }
    while i < a.len() && i < b.len()
        invariant
            i <= a.len(),
            i <= b.len(),
            x == words_of(a@),
            y == words_of(b@),
            forall|j: int| 0 <= j < i ==> x[j] == y[j],
            lex_lt(x, y, word_lt()) == lex_lt(x.skip(i as int), y.skip(i as int), word_lt()),
            lex_lt(y, x, word_lt()) == lex_lt(y.skip(i as int), x.skip(i as int), word_lt()),
            x == y ==> !lex_lt(x, y, word_lt()) && !lex_lt(y, x, word_lt()),
            x != y ==> lex_lt(x, y, word_lt()) != lex_lt(y, x, word_lt()),
        decreases a.len() - i,
    {
        let ghost xs = x.skip(i as int);
        let ghost ys = y.skip(i as int);
        proof {
            assert(xs[0] == x[i as int] && ys[0] == y[i as int]);
            assert(xs.drop_first() =~= x.skip(i as int + 1));
            assert(ys.drop_first() =~= y.skip(i as int + 1));
            lemma_equal_or_before(x[i as int], y[i as int]);
        }
        match compare_words(&a[i], &b[i]) {
            Order::Less => {
                return Order::Less;
            },
            Order::Greater => {
                return Order::Greater;
            },
            Order::Equal => {},
        }
        i = i + 1;
    }
    proof {
        if a.len() == b.len() {
            assert(x =~= y);
        }
    }
    if a.len() < b.len() {
        Order::Less
    } else if a.len() > b.len() {
        Order::Greater
    } else {
        Order::Equal
    }
}

/// Compares two solutions in the order in which results are listed.
pub fn compare_solutions(a: &Vec<Vec<char>>, b: &Vec<Vec<char>>) -> (r: Order)
    ensures
        r == Order::Less <==> solution_before(words_of(a@), words_of(b@)),
        r == Order::Equal <==> words_of(a@) == words_of(b@),
        r == Order::Greater <==> solution_before(words_of(b@), words_of(a@)),
{
    proof {
        lemma_solution_connected(words_of(a@), words_of(b@));
    }
    if a.len() < b.len() {
        return Order::Less;
    }
    if a.len() > b.len() {
        return Order::Greater;
    }
    let least_a = shortest_word_len(a);
    let least_b = shortest_word_len(b);
    if least_a > least_b {
        return Order::Less;
    }
    if least_a < least_b {
        return Order::Greater;
    }
    compare_word_lists(a, b)
}


/// A copy of a word.
pub fn copy_word(word: &Vec<char>) -> (r: Vec<char>)
    ensures
        r@ == word@,
{
    let mut copy: Vec<char> = Vec::with_capacity(word.len());
    let mut i: usize = 0;
    while i < word.len()
        invariant
            i <= word.len(),
            copy@ == word@.take(i as int),
        decreases word.len() - i,
    {
        copy.push(word[i]);
        proof {
            assert(word@.take(i as int + 1) =~= word@.take(i as int).push(word@[i as int]));
        }
        i = i + 1;
    }
    proof {
        assert(word@.take(word@.len() as int) =~= word@);
    }
    copy
}

/// Where a word goes into a sorted list of words: behind every word that
/// does not come after it.
fn place_of(sorted: &Vec<Vec<char>>, word: &Vec<char>) -> (r: usize)
    requires
        words_sorted(words_of(sorted@)),
    ensures
        r <= sorted.len(),
        words_sorted(words_of(sorted@).insert(r as int, word@)),
{
    let ghost ws = words_of(sorted@);
    let mut j: usize = 0;
    loop
        invariant_except_break
            j <= sorted.len(),
            ws == words_of(sorted@),
            forall|k: int| 0 <= k < j ==> !word_before(word@, #[trigger] ws[k]),
        ensures
            j <= sorted.len(),
            forall|k: int| 0 <= k < j ==> !word_before(word@, #[trigger] ws[k]),
            j < sorted.len() ==> word_before(word@, ws[j as int]),
        decreases sorted.len() - j,
    {
        if j >= sorted.len() {
            break ;
        }
        let found = compare_words(&sorted[j], word);
        if found == Order::Greater {
            assert(ws[j as int] == sorted@[j as int]@);
            break ;
        }
        proof {
            assert(ws[j as int] == sorted@[j as int]@);
            lemma_equal_or_before(ws[j as int], word@);
        }
        j = j + 1;
    }
    proof {
        let out = ws.insert(j as int, word@);
        lemma_word_order();
        assert forall|a: int, b: int| 0 <= a < b < out.len() implies !word_before(
            #[trigger] out[b],
            #[trigger] out[a],
        ) by {
            if a == j {
                // the new word before a later one
                let later = ws[b - 1];
                assert(out[b] == later);
                assert(!word_before(later, ws[j as int]) || b - 1 == j);
                if word_before(later, word@) {
                    lemma_lex_transitive(later, word@, ws[j as int], char_lt());
                    lemma_equal_or_before(later, ws[j as int]);
                }
            } else if b == j {
                assert(out[a] == ws[a]);
            } else {
                let ia = if a < j { a } else { a - 1 };
                let ib = if b < j { b } else { b - 1 };
                assert(out[a] == ws[ia] && out[b] == ws[ib]);
            }
        }
    }
    j
}

/// The canonical form of a solution: its words in dictionary order.
pub fn sort_words(words: &Vec<Vec<char>>) -> (r: Vec<Vec<char>>)
    ensures
        words_sorted(words_of(r@)),
        words_of(r@).to_multiset() == words_of(words@).to_multiset(),
        r.len() == words.len(),
{
    broadcast use vstd::seq_lib::group_to_multiset_ensures;

    let ghost ws = words_of(words@);
    let mut sorted: Vec<Vec<char>> = Vec::with_capacity(words.len());
    let mut i: usize = 0;
    proof {
        assert(words_of(sorted@) =~= ws.take(0));
    }
    while i < words.len()
        invariant
            i <= words.len(),
            ws == words_of(words@),
            sorted.len() == i,
            words_sorted(words_of(sorted@)),
            words_of(sorted@).to_multiset() == ws.take(i as int).to_multiset(),
        decreases words.len() - i,
    {
        let word = copy_word(&words[i]);
        let at = place_of(&sorted, &word);
        let ghost before = words_of(sorted@);
        sorted.insert(at, word);
        proof {
            assert(words_of(sorted@) =~= before.insert(at as int, word@));
            assert(ws.take(i as int + 1) =~= ws.take(i as int).push(word@));
            vstd::seq_lib::to_multiset_insert(before, at as int, word@);
            vstd::seq_lib::to_multiset_build(ws.take(i as int), word@);
        }
        i = i + 1;
    }
    proof {
        assert(ws.take(ws.len() as int) =~= ws);
    }
    sorted
}


/// The solutions held in a list of word lists.
pub open spec fn lists_of(v: Seq<Vec<Vec<char>>>) -> Seq<Seq<Seq<char>>> {
    v.map_values(|s: Vec<Vec<char>>| words_of(s@))
}

/// Whether each solution comes before all that follow it. Such a list holds
/// no solution twice.
pub open spec fn solutions_ordered(s: Seq<Seq<Seq<char>>>) -> bool {
    forall|i: int, j: int| 0 <= i < j < s.len() ==> solution_before(#[trigger] s[i], #[trigger] s[j])
}

/// In an ordered list no two places hold the same solution.
pub proof fn lemma_ordered_distinct(s: Seq<Seq<Seq<char>>>)
    requires
        solutions_ordered(s),
    ensures
        forall|i: int, j: int| 0 <= i < s.len() && 0 <= j < s.len() && i != j ==> s[i] != s[j],
{
    assert forall|i: int, j: int| 0 <= i < s.len() && 0 <= j < s.len() && i != j implies s[i]
        != s[j] by {
        lemma_solution_irreflexive(s[i]);
        if i < j {
            assert(solution_before(s[i], s[j]));
        } else {
            assert(solution_before(s[j], s[i]));
        }
    }
}

/// The solutions found so far, each once, in the order in which results are listed.
///
/// The value of a `SolutionSet` is the list of its solutions.
pub struct SolutionSet {
    items: Vec<Vec<Vec<char>>>,
}

impl View for SolutionSet {
    type V = Seq<Seq<Seq<char>>>;

    closed spec fn view(&self) -> Seq<Seq<Seq<char>>> {
        lists_of(self.items@)
    }
}

impl SolutionSet {
    #[verifier::type_invariant]
    pub closed spec fn wf(&self) -> bool {
        solutions_ordered(self@)
    }

    /// The solutions of a well-formed set stand in their order.
    pub proof fn lemma_ordered(&self)
        requires
            self.wf(),
        ensures
            solutions_ordered(self@),
    {
    }

    /// A set without solutions.
    pub fn new() -> (r: Self)
        ensures
            r@.len() == 0,
            r.wf(),
    {
        SolutionSet { items: Vec::new() }
    }

    /// Number of solutions.
    pub fn len(&self) -> (r: usize)
        ensures
            r == self@.len(),
    {
        self.items.len()
    }

    /// Adds a solution unless the set holds it already, and says whether it
    /// was added. The others keep their order.
    pub fn insert(&mut self, solution: Vec<Vec<char>>) -> (added: bool)
        ensures
            added == !old(self)@.contains(words_of(solution@)),
            !added ==> final(self)@ == old(self)@,
            added ==> exists|at: int|
                0 <= at <= old(self)@.len() && final(self)@ == #[trigger] old(self)@.insert(
                    at,
                    words_of(solution@),
                ),
            forall|x: Seq<Seq<char>>|
                final(self)@.contains(x) <==> (old(self)@.contains(x) || x == words_of(solution@)),
            final(self).wf(),
    {
        proof {
            use_type_invariant(&*self);
        }
        let ghost all = self@;
        let ghost new = words_of(solution@);
        let mut lo: usize = 0;
        let mut hi: usize = self.items.len();
        while lo < hi
            invariant
                lo <= hi <= self.items.len(),
                all == self@,
                *self == *old(self),
                new == words_of(solution@),
                solutions_ordered(all),
                forall|j: int| 0 <= j < lo ==> solution_before(#[trigger] all[j], new),
                forall|j: int| hi <= j < all.len() ==> solution_before(new, #[trigger] all[j]),
            decreases hi - lo,
        {
            let mid = lo + (hi - lo) / 2;
            let found = compare_solutions(&self.items[mid], &solution);
            assert(all[mid as int] == words_of(self.items@[mid as int]@));
            if found == Order::Equal {
                return false;
            }
            if found == Order::Less {
                proof {
                    assert forall|j: int| 0 <= j < mid + 1 implies solution_before(
                        #[trigger] all[j],
                        new,
                    ) by {
                        if j < mid {
                            lemma_solution_transitive(all[j], all[mid as int], new);
                        }
                    }
                }
                lo = mid + 1;
            } else {
                proof {
                    assert forall|j: int| mid <= j < all.len() implies solution_before(
                        new,
                        #[trigger] all[j],
                    ) by {
                        if j > mid {
                            lemma_solution_transitive(new, all[mid as int], all[j]);
                        }
                    }
                }
                hi = mid;
            }
        }
        proof {
            lemma_solution_irreflexive(new);
            assert(!all.contains(new)) by {
                if all.contains(new) {
                    let j = choose|j: int| 0 <= j < all.len() && all[j] == new;
                    if j < lo {
                        assert(solution_before(all[j], new));
                    } else {
                        assert(solution_before(new, all[j]));
                    }
                }
            }
            let out = all.insert(lo as int, new);
            assert forall|a: int, b: int| 0 <= a < b < out.len() implies solution_before(
                #[trigger] out[a],
                #[trigger] out[b],
            ) by {
                let ia = if a < lo { a } else { a - 1 };
                let ib = if b < lo { b } else { b - 1 };
                if a == lo {
                    assert(out[b] == all[ib]);
                } else if b == lo {
                    assert(out[a] == all[ia]);
                } else {
                    assert(out[a] == all[ia] && out[b] == all[ib]);
                }
            }
            assert(lists_of(self.items@.insert(lo as int, solution)) =~= out);
        }
        let mut taken = SolutionSet::new();
        std::mem::swap(self, &mut taken);
        let SolutionSet { items: mut items } = taken;
        items.insert(lo, solution);
        *self = SolutionSet { items };
        proof {
            let out = all.insert(lo as int, new);
            assert(self@ == out);
            assert forall|x: Seq<Seq<char>>| out.contains(x) <==> (all.contains(x) || x == new) by {
                if all.contains(x) {
                    let j = choose|j: int| 0 <= j < all.len() && all[j] == x;
                    if j < lo {
                        assert(out[j] == x);
                    } else {
                        assert(out[j + 1] == x);
                    }
                }
                if x == new {
                    assert(out[lo as int] == x);
                }
                if out.contains(x) {
                    let j = choose|j: int| 0 <= j < out.len() && out[j] == x;
                    if j < lo {
                        assert(all[j] == x);
                    } else if j > lo {
                        assert(all[j - 1] == x);
                    }
                }
            }
        }
        true
    }

    /// The solutions as lists of strings, in their order.
    pub fn into_strings(&self) -> (r: Vec<Vec<String>>)
        ensures
            r.deep_view() == self@,
    {
        let mut out: Vec<Vec<String>> = Vec::with_capacity(self.items.len());
        let mut i: usize = 0;
        while i < self.items.len()
            invariant
                i <= self.items.len(),
                out.len() == i,
                forall|k: int| 0 <= k < i ==> #[trigger] out.deep_view()[k] == self@[k],
            decreases self.items.len() - i,
        {
            let solution = &self.items[i];
            let mut words: Vec<String> = Vec::with_capacity(solution.len());
            let mut j: usize = 0;
            while j < solution.len()
                invariant
                    j <= solution.len(),
                    words.len() == j,
                    forall|k: int| 0 <= k < j ==> #[trigger] words@[k]@ == solution@[k]@,
                decreases solution.len() - j,
            {
                words.push(string_of(&solution[j]));
                j = j + 1;
            }
            proof {
                assert(words.deep_view() =~= words_of(solution@));
            }
            let ghost done = out.deep_view();
            out.push(words);
            proof {
                assert forall|k: int| 0 <= k < i + 1 implies #[trigger] out.deep_view()[k]
                    == self@[k] by {
                    if k < i {
                        assert(out.deep_view()[k] == done[k]);
                    }
                }
            }
            i = i + 1;
        }
        proof {
            assert(out.deep_view() =~= self@);
        }
        out
    }
}

} // verus!
