//! Letters, letter counts and word normalisation.

use vstd::prelude::*;
use vstd::string::StringExecFns;
use std::collections::HashMap;
use std::collections::HashSet;

verus! {

/// Number of letters in the alphabet that words are written in.
pub const ALPHABET_SIZE: usize = 26;

/// `c` is one of `a` to `z`.
pub open spec fn is_lower(c: char) -> bool {
    'a' <= c && c <= 'z'
}

/// `c` is one of `A` to `Z`.
pub open spec fn is_upper(c: char) -> bool {
    'A' <= c && c <= 'Z'
}

/// `c` is an ASCII letter of either case.
pub open spec fn is_letter(c: char) -> bool {
    is_lower(c) || is_upper(c)
}

/// ASCII lower-casing: `A` to `Z` move to `a` to `z`, every other character stays.
pub open spec fn to_lower(c: char) -> char {
    if is_upper(c) {
        (c as int + 32) as char
    } else {
        c
    }
}

/// `c` has the Unicode property White_Space.
pub open spec fn is_space(c: char) -> bool {
    ||| ('\u{9}' <= c && c <= '\u{d}')
    ||| c == ' '
    ||| c == '\u{85}'
    ||| c == '\u{a0}'
    ||| c == '\u{1680}'
    ||| ('\u{2000}' <= c && c <= '\u{200a}')
    ||| c == '\u{2028}'
    ||| c == '\u{2029}'
    ||| c == '\u{202f}'
    ||| c == '\u{205f}'
    ||| c == '\u{3000}'
}

/// Position of a lower-case letter in the alphabet, `a` being 0.
pub open spec fn letter_index(c: char) -> int {
    c as int - 'a' as int
}

/// The lower-case letter at position `i` of the alphabet.
pub open spec fn letter_at(i: int) -> char {
    (i + 'a' as int) as char
}

/// How often the letter `c` occurs in `s`, upper and lower case counted alike.
pub open spec fn letter_count(s: Seq<char>, c: char) -> nat
    decreases s.len(),
{
    if s.len() == 0 {
        0
    } else {
        letter_count(s.drop_last(), c) + if to_lower(s.last()) == c {
            1nat
        } else {
            0nat
        }
    }
}

/// The count of every letter of the alphabet in `s`, in alphabet order.
pub open spec fn counts_of(s: Seq<char>) -> Seq<nat> {
    Seq::new(ALPHABET_SIZE as nat, |i: int| letter_count(s, letter_at(i)))
}

/// Sum of the first `n` entries of `s`.
pub open spec fn sum_to(s: Seq<nat>, n: int) -> nat
    decreases n,
{
    if n <= 0 {
        0
    } else {
        sum_to(s, n - 1) + s[n - 1]
    }
}

/// Sum of all entries of `s`.
pub open spec fn sum_of(s: Seq<nat>) -> nat {
    sum_to(s, s.len() as int)
}

/// A phrase may hold ASCII letters and white space, nothing else.
pub open spec fn phrase_char_ok(c: char) -> bool {
    is_letter(c) || is_space(c)
}

/// Every character of the phrase is a letter or white space.
pub open spec fn phrase_valid(s: Seq<char>) -> bool {
    forall|i: int| 0 <= i < s.len() ==> phrase_char_ok(#[trigger] s[i])
}

/// A word after normalisation: its letters, lower-cased, everything else dropped.
pub open spec fn normalize(s: Seq<char>) -> Seq<char> {
    s.filter(|c: char| is_letter(c)).map_values(|c: char| to_lower(c))
}

/// The letter at a position of the alphabet is a lower-case letter whose
/// position is that one.
pub proof fn lemma_letter_round_trip(i: int)
    requires
        0 <= i < 26,
    ensures
        is_lower(letter_at(i)),
        letter_index(letter_at(i)) == i,
{
}

/// A lower-case letter stands at its position of the alphabet.
pub proof fn lemma_index_round_trip(c: char)
    requires
        is_lower(c),
    ensures
        0 <= letter_index(c) < 26,
        letter_at(letter_index(c)) == c,
{
}

/// The message that reports `c` as a character no phrase may hold.
pub open spec fn invalid_char_message(c: char) -> Seq<char> {
    "Invalid character in input string: "@.push(c)
}

/// Reading one more character changes the count of its own letter by one and
/// no other count.
pub proof fn lemma_letter_count_push(s: Seq<char>, x: char, c: char)
    ensures
        letter_count(s.push(x), c) == letter_count(s, c) + if to_lower(x) == c {
            1nat
        } else {
            0nat
        },
{
    assert(s.push(x).drop_last() =~= s);
}

/// The counts of a text that is read in two parts add up.
pub proof fn lemma_letter_count_concat(a: Seq<char>, b: Seq<char>, c: char)
    ensures
        letter_count(a + b, c) == letter_count(a, c) + letter_count(b, c),
    decreases b.len(),
{
    if b.len() == 0 {
        assert(a + b =~= a);
    } else {
        assert((a + b).drop_last() =~= a + b.drop_last());
        lemma_letter_count_concat(a, b.drop_last(), c);
    }
}

/// No letter occurs more often than the text is long.
pub proof fn lemma_letter_count_le_len(s: Seq<char>, c: char)
    ensures
        letter_count(s, c) <= s.len(),
    decreases s.len(),
{
    if s.len() > 0 {
        lemma_letter_count_le_len(s.drop_last(), c);
    }
}

/// One more character raises the sum of the 26 counts by one if it is a
/// letter and leaves it otherwise.
pub proof fn lemma_counts_sum_total_step(s: Seq<char>)
    requires
        s.len() > 0,
    ensures
        sum_to(counts_of(s), 26) == sum_to(counts_of(s.drop_last()), 26) + if is_letter(s.last()) {
            1nat
        } else {
            0nat
        },
{
    let t = s.drop_last();
    let x = to_lower(s.last());
    if is_letter(s.last()) {
        let k = letter_index(x);
        assert(counts_of(s) =~= counts_of(t).update(k, counts_of(t)[k] + 1)) by {
            assert forall|i: int| 0 <= i < 26 implies counts_of(s)[i] == counts_of(t).update(
                k,
                counts_of(t)[k] + 1,
            )[i] by {
                lemma_letter_round_trip(i);
            }
        }
        lemma_sum_to_update(counts_of(t), 26, k, counts_of(t)[k] + 1);
    } else {
        assert(counts_of(s) =~= counts_of(t)) by {
            assert forall|i: int| 0 <= i < 26 implies counts_of(s)[i] == counts_of(t)[i] by {
                lemma_letter_round_trip(i);
            }
        }
    }
}

/// The 26 counts of a text add up to at most its length.
pub proof fn lemma_counts_total_le_len(s: Seq<char>)
    ensures
        sum_of(counts_of(s)) <= s.len(),
    decreases s.len(),
{
    if s.len() == 0 {
        assert forall|i: int| 0 <= i < 26 implies #[trigger] counts_of(s)[i] == 0 by {}
        lemma_sum_to_zero(counts_of(s), 26);
    } else {
        lemma_counts_total_le_len(s.drop_last());
        lemma_counts_sum_total_step(s);
    }
}

/// Position in the alphabet of a lower-case letter, nothing for any other character.
pub fn char_to_index(c: char) -> (r: Option<usize>)
    ensures
        r == (if is_lower(c) {
            Some(letter_index(c) as usize)
        } else {
            None
        }),
{
    if 'a' <= c && c <= 'z' {
        Some((c as u8 - 97u8) as usize)
    } else {
        None
    }
}

/// The lower-case letter at position `i` of the alphabet.
pub fn index_to_char(i: usize) -> (c: char)
    requires
        i < ALPHABET_SIZE,
    ensures
        c == letter_at(i as int),
        is_lower(c),
{
    (97u8 + i as u8) as char
}

/// ASCII lower-casing of one character.
pub fn lower_char(c: char) -> (r: char)
    ensures
        r == to_lower(c),
{
    if 'A' <= c && c <= 'Z' {
        (c as u8 + 32u8) as char
    } else {
        c
    }
}

/// Whether `c` is white space.
pub fn is_space_char(c: char) -> (r: bool)
    ensures
        r == is_space(c),
{
    ('\u{9}' <= c && c <= '\u{d}') || c == ' ' || c == '\u{85}' || c == '\u{a0}' || c
        == '\u{1680}' || ('\u{2000}' <= c && c <= '\u{200a}') || c == '\u{2028}' || c
        == '\u{2029}' || c == '\u{202f}' || c == '\u{205f}' || c == '\u{3000}'
}

/// Changing one entry changes the sum by as much, where the entry is among
/// those summed.
pub proof fn lemma_sum_to_update(s: Seq<nat>, n: int, i: int, v: nat)
    requires
        0 <= i < s.len(),
        0 <= n <= s.len(),
    ensures
        sum_to(s.update(i, v), n) == sum_to(s, n) + (if i < n {
            v - s[i]
        } else {
            0
        }),
    decreases n,
{
    if n > 0 {
        lemma_sum_to_update(s, n - 1, i, v);
    }
}

/// A longer sum is no smaller, and no entry is larger than a sum it is part of.
pub proof fn lemma_sum_to_bounds(s: Seq<nat>, m: int, n: int)
    requires
        0 <= m <= n,
    ensures
        sum_to(s, m) <= sum_to(s, n),
        forall|i: int| m <= i < n ==> #[trigger] s[i] <= sum_to(s, n) - sum_to(s, m),
    decreases n - m,
{
    if m < n {
        lemma_sum_to_bounds(s, m, n - 1);
    }
}

/// A sum is zero exactly if every entry summed is.
pub proof fn lemma_sum_to_zero(s: Seq<nat>, n: int)
    requires
        0 <= n,
    ensures
        sum_to(s, n) == 0 <==> (forall|i: int| 0 <= i < n ==> #[trigger] s[i] == 0),
    decreases n,
{
    if n > 0 {
        lemma_sum_to_zero(s, n - 1);
    }
}

/// The sum of entry-wise sums is the sum of the two sums.
pub proof fn lemma_sum_to_add(a: Seq<nat>, b: Seq<nat>, n: int)
    requires
        0 <= n <= a.len(),
        n <= b.len(),
    ensures
        sum_to(Seq::new(n as nat, |i: int| a[i] + b[i]), n) == sum_to(a, n) + sum_to(b, n),
    decreases n,
{
    if n > 0 {
        let whole = Seq::new(n as nat, |i: int| a[i] + b[i]);
        let part = Seq::new((n - 1) as nat, |i: int| a[i] + b[i]);
        lemma_sum_to_add(a, b, n - 1);
        lemma_sum_to_pointwise(whole, part, n - 1);
    }
}

/// Entry-wise smaller sequences have the smaller sum, entry-wise equal
/// ones the same.
pub proof fn lemma_sum_to_pointwise(a: Seq<nat>, b: Seq<nat>, n: int)
    requires
        0 <= n,
    ensures
        (forall|i: int| 0 <= i < n ==> a[i] <= b[i]) ==> sum_to(a, n) <= sum_to(b, n),
        (forall|i: int| 0 <= i < n ==> a[i] == b[i]) ==> sum_to(a, n) == sum_to(b, n),
    decreases n,
{
    if n > 0 {
        lemma_sum_to_pointwise(a, b, n - 1);
    }
}

/// The counts held in an array of 26 slots.
pub open spec fn slots_view(slots: [usize; ALPHABET_SIZE]) -> Seq<nat> {
    Seq::new(ALPHABET_SIZE as nat, |i: int| slots[i] as nat)
}

/// `String::push` appends one character to the end of the string.
pub assume_specification[ String::push ](s: &mut String, c: char)
    ensures
        final(s)@ == old(s)@.push(c),
;

/// A count for every letter of the alphabet.
///
/// The value of a `CharCounts` is the sequence of its 26 counts, in alphabet
/// order. Their sum always fits a `usize`.
#[derive(Debug, PartialEq, Eq, Hash)]
pub struct CharCounts([usize; ALPHABET_SIZE]);

impl View for CharCounts {
    type V = Seq<nat>;

    closed spec fn view(&self) -> Seq<nat> {
        slots_view(self.0)
    }
}

impl Clone for CharCounts {
    fn clone(&self) -> (r: Self)
        ensures
            r@ == self@,
    {
        proof {
            use_type_invariant(self);
        }
        CharCounts(self.0)
    }
}

impl CharCounts {
    /// The counts are well formed when their sum fits a `usize`.
    #[verifier::type_invariant]
    pub closed spec fn wf(&self) -> bool {
        sum_of(self@) <= usize::MAX
    }

    /// Sum of the 26 counts.
    pub open spec fn spec_total(&self) -> nat {
        sum_of(self@)
    }

    /// Whether every count of `other` is at most the count of `self`.
    pub open spec fn covers(&self, other: &CharCounts) -> bool {
        forall|i: int| 0 <= i < 26 ==> self@[i] >= other@[i]
    }

    /// The sum of well-formed counts fits a `usize`.
    pub proof fn lemma_total_fits(&self)
        requires
            self.wf(),
        ensures
            self.spec_total() <= usize::MAX,
    {
    }

    /// There are 26 counts.
    pub broadcast proof fn lemma_view_len(&self)
        ensures
            #[trigger] self@.len() == 26,
    {
    }

    /// The counts of an empty text: all zero.
    pub fn new() -> (r: Self)
        ensures
            r@ == Seq::new(26, |i: int| 0nat),
            r.wf(),
    {
        let slots = [0usize;26];
        proof {
            assert(slots_view(slots) =~= Seq::new(26, |i: int| 0nat));
            lemma_sum_to_zero(slots_view(slots), 26);
        }
        CharCounts(slots)
    }

    /// Counts the letters of a phrase, upper and lower case alike.
    ///
    /// White space is skipped. Any other character that is not an ASCII
    /// letter makes the phrase invalid; the error names the first such
    /// character.
    pub fn from_str(s: &str) -> (r: Result<Self, String>)
        ensures
            match r {
                Ok(counts) => phrase_valid(s@) && counts@ == counts_of(s@),
                Err(message) => exists|k: int|
                    0 <= k < s@.len() && !phrase_char_ok(s@[k]) && phrase_valid(s@.take(k))
                        && message@ == invalid_char_message(#[trigger] s@[k]),
            },
    {
        let length = s.unicode_len();
        let mut slots = [0usize;26];
        proof {
            assert(s@.take(0) =~= Seq::<char>::empty());
            assert(slots_view(slots) =~= counts_of(s@.take(0)));
        }
        for c in it: s.chars()
            invariant
                it.seq() == s@,
                s@.len() == length,
                phrase_valid(s@.take(it.index() as int)),
                slots_view(slots) == counts_of(s@.take(it.index() as int)),
        {
            let ghost i = it.index() as int;
            let ghost before = s@.take(i);
            let ghost after = s@.take(i + 1);
            proof {
                assert(after.drop_last() =~= before);
                assert(after.last() == c);
                lemma_counts_sum_total_step(after);
                lemma_counts_total_le_len(after);
            }
            match char_to_index(lower_char(c)) {
                Some(idx) => {
                    proof {
                        lemma_sum_to_bounds(slots_view(slots), 0, 26);
                        lemma_counts_total_le_len(before);
                        assert(slots_view(slots)[idx as int] <= before.len());
                        assert(i < s@.len());
                    }
                    slots[idx] = slots[idx] + 1;
                },
                None => {
                    if !is_space_char(c) {
                        let mut message = String::from_str("Invalid character in input string: ");
                        message.push(c);
                        assert(s@[i] == c);
                        return Err(message);
                    }
                },
            }
            proof {
                assert(slots_view(slots) =~= counts_of(after)) by {
                    assert forall|k: int| 0 <= k < 26 implies slots_view(slots)[k] == counts_of(
                        after,
                    )[k] by {
                        lemma_letter_round_trip(k);
                        assert(counts_of(before)[k] == letter_count(before, letter_at(k)));
                    }
                }
                assert forall|j: int| 0 <= j < after.len() implies phrase_char_ok(
                    #[trigger] after[j],
                ) by {
                    if j < i {
                        assert(before[j] == after[j]);
                    }
                }
            }
        }
        proof {
            assert(s@.take(s@.len() as int) =~= s@);
            lemma_counts_total_le_len(s@);
        }
        Ok(CharCounts(slots))
    }

    /// Sum of the counts.
    pub fn total(&self) -> (r: usize)
        ensures
            r == self.spec_total(),
    {
        proof {
            use_type_invariant(self);
        }
        let mut sum: usize = 0;
        let mut i: usize = 0;
        while i < ALPHABET_SIZE
            invariant
                i <= 26,
                sum == sum_to(self@, i as int),
                sum_to(self@, 26) <= usize::MAX,
            decreases 26 - i,
        {
            proof {
                lemma_sum_to_bounds(self@, i as int + 1, 26);
            }
            sum = sum + self.0[i];
            i = i + 1;
        }
        sum
    }

    /// Whether every count is zero.
    pub fn is_empty(&self) -> (r: bool)
        ensures
            r <==> (forall|i: int| 0 <= i < 26 ==> self@[i] == 0),
            r <==> self.spec_total() == 0,
    {
        let mut i: usize = 0;
        while i < ALPHABET_SIZE
            invariant
                i <= 26,
                forall|j: int| 0 <= j < i ==> self@[j] == 0,
            decreases 26 - i,
        {
            if self.0[i] != 0 {
                proof {
                    assert(self@[i as int] != 0);
                    lemma_sum_to_zero(self@, 26);
                }
                return false;
            }
            i = i + 1;
        }
        proof {
            lemma_sum_to_zero(self@, 26);
        }
        true
    }

    /// The count of a lower-case letter, nothing for any other character.
    pub fn get(&self, c: char) -> (r: Option<usize>)
        ensures
            match r {
                Some(n) => is_lower(c) && n == self@[letter_index(c)],
                None => !is_lower(c),
            },
    {
        match char_to_index(c) {
            Some(idx) => Some(self.0[idx]),
            None => None,
        }
    }

    /// Whether `other` can be taken out of `self`.
    pub fn can_subtract(&self, other: &Self) -> (r: bool)
        ensures
            r == self.covers(other),
    {
        let mut i: usize = 0;
        while i < ALPHABET_SIZE
            invariant
                i <= 26,
                forall|j: int| 0 <= j < i ==> self@[j] >= other@[j],
            decreases 26 - i,
        {
            if self.0[i] < other.0[i] {
                assert(self@[i as int] < other@[i as int]);
                return false;
            }
            i = i + 1;
        }
        true
    }

    /// Takes `other` out of `self`, count by count.
    ///
    /// Where some count of `other` is larger than that of `self`, nothing
    /// changes and an error is returned.
    pub fn subtract_mut(&mut self, other: &Self) -> (r: Result<(), String>)
        ensures
            match r {
                Ok(_) => old(self).covers(other) && final(self)@ == Seq::new(
                    26,
                    |i: int| (old(self)@[i] - other@[i]) as nat,
                ),
                Err(message) => !old(self).covers(other) && final(self)@ == old(self)@
                    && message@ == "Cannot subtract, insufficient characters."@,
            },
    {
        if !self.can_subtract(other) {
            return Err(String::from_str("Cannot subtract, insufficient characters."));
        }
        proof {
            use_type_invariant(&*self);
        }
        let mut slots = self.0;
        let mut i: usize = 0;
        while i < ALPHABET_SIZE
            invariant
                i <= 26,
                old(self).covers(other),
                forall|j: int| 0 <= j < i ==> slots_view(slots)[j] == old(self)@[j] - other@[j],
                forall|j: int| i <= j < 26 ==> slots_view(slots)[j] == old(self)@[j],
            decreases 26 - i,
        {
            assert(old(self)@[i as int] >= other@[i as int]);
            assert(slots_view(slots)[i as int] == old(self)@[i as int]);
            let ghost before = slots_view(slots);
            slots[i] = slots[i] - other.0[i];
            assert(slots_view(slots) =~= before.update(
                i as int,
                (before[i as int] - other@[i as int]) as nat,
            ));
            i = i + 1;
        }
        proof {
            assert(slots_view(slots) =~= Seq::new(26, |i: int| (old(self)@[i] - other@[i]) as nat));
            lemma_sum_to_pointwise(slots_view(slots), old(self)@, 26);
        }
        self.0 = slots;
        Ok(())
    }

    /// Adds `other` to `self`, count by count.
    pub fn add_mut(&mut self, other: &Self)
        requires
            old(self).spec_total() + other.spec_total() <= usize::MAX,
        ensures
            final(self)@ == Seq::new(26, |i: int| old(self)@[i] + other@[i]),
            final(self).spec_total() == old(self).spec_total() + other.spec_total(),
    {
        let ghost sum = Seq::new(26, |i: int| old(self)@[i] + other@[i]);
        proof {
            lemma_sum_to_add(old(self)@, other@, 26);
            lemma_sum_to_pointwise(sum, Seq::new(26, |i: int| old(self)@[i] + other@[i]), 26);
            lemma_sum_to_bounds(sum, 0, 26);
        }
        let mut slots = self.0;
        let mut i: usize = 0;
        while i < ALPHABET_SIZE
            invariant
                i <= 26,
                sum == Seq::new(26, |i: int| old(self)@[i] + other@[i]),
                forall|j: int| 0 <= j < 26 ==> #[trigger] sum[j] <= usize::MAX,
                forall|j: int| 0 <= j < i ==> slots_view(slots)[j] == sum[j],
                forall|j: int| i <= j < 26 ==> slots_view(slots)[j] == old(self)@[j],
            decreases 26 - i,
        {
            assert(sum[i as int] <= usize::MAX);
            assert(slots_view(slots)[i as int] == old(self)@[i as int]);
            let ghost before = slots_view(slots);
            slots[i] = slots[i] + other.0[i];
            assert(slots_view(slots) =~= before.update(i as int, before[i as int] + other@[i as int]));
            i = i + 1;
        }
        proof {
            assert(slots_view(slots) =~= sum);
        }
        self.0 = slots;
    }

    /// Takes one occurrence of the lower-case letter `c` out of the counts.
    ///
    /// Where `c` is no lower-case letter or its count is zero, nothing changes
    /// and an error is returned.
    pub fn decrement_char(&mut self, c: char) -> (r: Result<(), String>)
        ensures
            match r {
                Ok(_) => {
                    let k = letter_index(c);
                    &&& is_lower(c)
                    &&& old(self)@[k] > 0
                    &&& final(self)@ == old(self)@.update(k, (old(self)@[k] - 1) as nat)
                    &&& final(self).spec_total() == old(self).spec_total() - 1
                },
                Err(message) => !(is_lower(c) && old(self)@[letter_index(c)] > 0) && final(self)@
                    == old(self)@ && message@ == "No such letter left to use."@,
            },
    {
        proof {
            use_type_invariant(&*self);
        }
        match char_to_index(c) {
            Some(idx) => {
                if self.0[idx] == 0 {
                    return Err(String::from_str("No such letter left to use."));
                }
                let mut slots = self.0;
                slots[idx] = slots[idx] - 1;
                proof {
                    assert(slots_view(slots) =~= old(self)@.update(
                        idx as int,
                        (old(self)@[idx as int] - 1) as nat,
                    ));
                    lemma_sum_to_update(old(self)@, 26, idx as int, (old(self)@[idx as int] - 1) as nat);
                }
                self.0 = slots;
                Ok(())
            },
            None => Err(String::from_str("No such letter left to use.")),
        }
    }

    /// Puts one occurrence of the lower-case letter `c` back into the counts.
    ///
    /// Where `c` is no lower-case letter, or the sum of the counts would no
    /// longer fit a `usize`, nothing changes and an error is returned.
    pub fn increment_char(&mut self, c: char) -> (r: Result<(), String>)
        ensures
            match r {
                Ok(_) => {
                    let k = letter_index(c);
                    &&& is_lower(c)
                    &&& old(self).spec_total() < usize::MAX
                    &&& final(self)@ == old(self)@.update(k, old(self)@[k] + 1)
                    &&& final(self).spec_total() == old(self).spec_total() + 1
                },
                Err(message) => {
                    &&& !(is_lower(c) && old(self).spec_total() < usize::MAX)
                    &&& final(self)@ == old(self)@
                    &&& message@ == "No room for another letter."@
                },
            },
    {
        proof {
            use_type_invariant(&*self);
        }
        match char_to_index(c) {
            Some(idx) => {
                if self.total() == usize::MAX {
                    return Err(String::from_str("No room for another letter."));
                }
                let mut slots = self.0;
                proof {
                    lemma_sum_to_bounds(old(self)@, 0, 26);
                    assert(old(self)@[idx as int] <= sum_to(old(self)@, 26));
                }
                slots[idx] = slots[idx] + 1;
                proof {
                    assert(slots_view(slots) =~= old(self)@.update(
                        idx as int,
                        old(self)@[idx as int] + 1,
                    ));
                    lemma_sum_to_update(old(self)@, 26, idx as int, old(self)@[idx as int] + 1);
                }
                self.0 = slots;
                Ok(())
            },
            None => Err(String::from_str("No room for another letter.")),
        }
    }
}


/// Normalising a text with one more character: a letter is appended in lower
/// case, any other character is dropped.
pub proof fn lemma_normalize_push(s: Seq<char>, c: char)
    ensures
        normalize(s.push(c)) == if is_letter(c) {
            normalize(s).push(to_lower(c))
        } else {
            normalize(s)
        },
{
    broadcast use Seq::lemma_filter_push, Seq::lemma_push_map_commute;

    let keep = |c: char| is_letter(c);
    let lower = |c: char| to_lower(c);
    assert(s.push(c).filter(keep) == if keep(c) {
        s.filter(keep).push(c)
    } else {
        s.filter(keep)
    });
    if is_letter(c) {
        assert(s.filter(keep).push(c).map_values(lower) =~= s.filter(keep).map_values(lower).push(
            lower(c),
        ));
    }
}

/// A normalised word holds lower-case letters only, and normalising it again
/// changes nothing.
pub proof fn lemma_normalize_lower(s: Seq<char>)
    ensures
        forall|i: int| 0 <= i < normalize(s).len() ==> is_lower(#[trigger] normalize(s)[i]),
        normalize(s).len() <= s.len(),
    decreases s.len(),
{
    if s.len() == 0 {
        assert(normalize(s).len() == 0) by {
            reveal(Seq::filter);
        }
    } else {
        lemma_normalize_lower(s.drop_last());
        lemma_normalize_push(s.drop_last(), s.last());
        assert(s.drop_last().push(s.last()) =~= s);
    }
}

/// The letters of `word` in lower case, everything else dropped.
pub fn normalized_letters(word: &str) -> (r: Vec<char>)
    ensures
        r@ == normalize(word@),
{
    let mut letters: Vec<char> = Vec::new();
    proof {
        assert(word@.take(0) =~= Seq::<char>::empty());
        lemma_normalize_lower(word@.take(0));
    }
    for c in it: word.chars()
        invariant
            it.seq() == word@,
            letters@ == normalize(word@.take(it.index() as int)),
    {
        proof {
            let i = it.index() as int;
            assert(word@.take(i + 1) =~= word@.take(i).push(c));
            lemma_normalize_push(word@.take(i), c);
        }
        let low = lower_char(c);
        if 'a' <= low && low <= 'z' {
            letters.push(low);
        }
    }
    proof {
        assert(word@.take(word@.len() as int) =~= word@);
    }
    letters
}

/// The text that holds the characters of `letters`.
pub fn string_of(letters: &Vec<char>) -> (r: String)
    ensures
        r@ == letters@,
{
    let mut text = String::new();
    let mut i: usize = 0;
    while i < letters.len()
        invariant
            i <= letters.len(),
            text@ == letters@.take(i as int),
        decreases letters.len() - i,
    {
        text.push(letters[i]);
        proof {
            assert(letters@.take(i as int + 1) =~= letters@.take(i as int).push(letters@[i as int]));
        }
        i = i + 1;
    }
    proof {
        assert(letters@.take(letters@.len() as int) =~= letters@);
    }
    text
}

/// Normalises a word: its ASCII letters in lower case, everything else dropped.
pub fn normalize_word(word: &str) -> (r: String)
    ensures
        r@ == normalize(word@),
{
    let letters = normalized_letters(word);
    string_of(&letters)
}


/// The code points of the characters of `s`, each taken in lower case.
pub open spec fn lowered_codes(s: Seq<char>) -> Set<u32> {
    Set::new(|k: u32| exists|i: int| 0 <= i < s.len() && to_lower(#[trigger] s[i]) as u32 == k)
}

/// For each code point of `lowered_codes(s)`, how often its character occurs in `s`.
pub open spec fn lowered_code_counts(s: Seq<char>) -> Map<u32, usize> {
    Map::new(
        |k: u32| lowered_codes(s).contains(k),
        |k: u32| letter_count(s, k as char) as usize,
    )
}

/// One more character adds its code point, taken in lower case, to those
/// of the text.
pub proof fn lemma_lowered_codes_push(s: Seq<char>, c: char)
    ensures
        lowered_codes(s.push(c)) == lowered_codes(s).insert(to_lower(c) as u32),
{
    let more = s.push(c);
    assert forall|k: u32| lowered_codes(more).contains(k) == lowered_codes(s).insert(
        to_lower(c) as u32,
    ).contains(k) by {
        if lowered_codes(s).contains(k) {
            let j = choose|j: int| 0 <= j < s.len() && to_lower(#[trigger] s[j]) as u32 == k;
            assert(to_lower(more[j]) as u32 == k);
        }
        if k == to_lower(c) as u32 {
            assert(to_lower(more[s.len() as int]) as u32 == k);
        }
        if lowered_codes(more).contains(k) {
            let j = choose|j: int| 0 <= j < more.len() && to_lower(#[trigger] more[j]) as u32 == k;
            if j < s.len() {
                assert(to_lower(s[j]) as u32 == k);
            }
        }
    }
    assert(lowered_codes(more) =~= lowered_codes(s).insert(to_lower(c) as u32));
}

/// A character occurs in a text exactly when its count there is positive.
pub proof fn lemma_letter_count_positive(s: Seq<char>, c: char)
    ensures
        letter_count(s, c) > 0 <==> lowered_codes(s).contains(c as u32),
    decreases s.len(),
{
    if s.len() > 0 {
        let t = s.drop_last();
        lemma_letter_count_positive(t, c);
        if lowered_codes(t).contains(c as u32) {
            let i = choose|i: int| 0 <= i < t.len() && to_lower(#[trigger] t[i]) as u32 == c as u32;
            assert(to_lower(s[i]) as u32 == c as u32);
        }
        if to_lower(s.last()) == c {
            assert(to_lower(s[s.len() - 1]) as u32 == c as u32);
        }
        if lowered_codes(s).contains(c as u32) {
            let i = choose|i: int| 0 <= i < s.len() && to_lower(#[trigger] s[i]) as u32 == c as u32;
            if i < s.len() - 1 {
                assert(to_lower(t[i]) as u32 == c as u32);
            }
        }
    }
}

/// Reads a list of characters as a set: the code points of its characters,
/// each taken in lower case. No list gives no set.
pub fn parse_char_list_to_set(s: Option<&str>) -> (r: Option<HashSet<u32>>)
    ensures
        match s {
            Some(text) => r is Some && r->0@ == lowered_codes(text@),
            None => r is None,
        },
{
    broadcast use vstd::std_specs::hash::group_hash_axioms;

    match s {
        None => None,
        Some(text) => {
            let mut codes: HashSet<u32> = HashSet::new();
            proof {
                assert(codes@ =~= lowered_codes(text@.take(0)));
            }
            for c in it: text.chars()
                invariant
                    it.seq() == text@,
                    codes@ == lowered_codes(text@.take(it.index() as int)),
            {
                let ghost i = it.index() as int;
                let code = lower_char(c) as u32;
                codes.insert(code);
                proof {
                    assert(text@.take(i + 1) =~= text@.take(i).push(c));
                    lemma_lowered_codes_push(text@.take(i), c);
                }
            }
            proof {
                assert(text@.take(text@.len() as int) =~= text@);
            }
            Some(codes)
        },
    }
}

/// Reads a list of characters as counts: for the code point of each of its
/// characters, taken in lower case, how often it occurs. No list gives no counts.
pub fn parse_char_list_to_counts(s: Option<&str>) -> (r: Option<HashMap<u32, usize>>)
    ensures
        match s {
            Some(text) => r is Some && r->0@ == lowered_code_counts(text@),
            None => r is None,
        },
{
    broadcast use vstd::std_specs::hash::group_hash_axioms;

    match s {
        None => None,
        Some(text) => {
            let length = text.unicode_len();
            let mut counts: HashMap<u32, usize> = HashMap::new();
            proof {
                assert(counts@ =~= lowered_code_counts(text@.take(0)));
            }
            for c in it: text.chars()
                invariant
                    it.seq() == text@,
                    text@.len() == length,
                    counts@ == lowered_code_counts(text@.take(it.index() as int)),
            {
                let ghost i = it.index() as int;
                let ghost before = text@.take(i);
                let ghost after = text@.take(i + 1);
                let low = lower_char(c);
                let code = low as u32;
                let seen: usize = match counts.get(&code) {
                    Some(n) => *n,
                    None => 0,
                };
                proof {
                    assert(after.drop_last() =~= before);
                    lemma_letter_count_positive(before, low);
                    lemma_letter_count_le_len(before, low);
                    lemma_letter_count_le_len(after, low);
                    assert(code as char == low);
                    assert(seen == letter_count(before, low));
                    assert(i < text@.len());
                }
                counts.insert(code, seen + 1);
                proof {
                    assert(after =~= before.push(c));
                    lemma_lowered_codes_push(before, c);
                    assert forall|k: u32| counts@.contains_key(k) implies counts@[k]
                        == lowered_code_counts(after)[k] by {
                        lemma_letter_count_le_len(after, k as char);
                        if k != code {
                            assert(lowered_codes(before).contains(k));
                            assert(k as char != low);
                        }
                    }
                    assert(counts@ =~= lowered_code_counts(after));
                }
            }
            proof {
                assert(text@.take(text@.len() as int) =~= text@);
            }
            Some(counts)
        },
    }
}

} // verus!
