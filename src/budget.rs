//! Letter budgets: how many times each letter may still be used.

use vstd::prelude::*;
use vstd::multiset::Multiset;
use vstd::string::StrSliceExecFns;

verus! {

broadcast use vstd::seq_lib::group_to_multiset_ensures;

/// A dictionary word of three letters.
pub type Word = [char; 3];

/// The outer letters of a word, first and last, which a grid line charges
/// against the budget on its own (the middle letter is shared).
pub open spec fn edges(w: Word) -> Multiset<char> {
    Multiset::empty().insert(w[0]).insert(w[2])
}

/// A bag of letters. The letters are held in a vector in any order; only how
/// many times each occurs matters, which is what the view states.
pub struct LetterMap {
    letters: Vec<char>,
}

impl View for LetterMap {
    type V = Multiset<char>;

    closed spec fn view(&self) -> Multiset<char> {
        self.letters@.to_multiset()
    }
}

/// Returns the character at position `index` of `word`.
pub fn get_char(word: &str, index: usize) -> (r: char)
    requires
        index < word@.len(),
    ensures
        r == word@[index as int],
{
    word.get_char(index)
}

impl LetterMap {
    /// An empty bag.
    pub fn new() -> (r: LetterMap)
        ensures
            r@ =~= Multiset::empty(),
    {
        LetterMap { letters: Vec::new() }
    }

    /// Number of letters in the bag, counted with repetition.
    pub fn len(&self) -> (r: usize)
        ensures
            r == self@.len(),
    {
        self.letters.len()
    }

    /// Adds one occurrence of `c`.
    pub fn add(&mut self, c: char)
        ensures
            final(self)@ =~= old(self)@.insert(c),
    {
        proof {
            vstd::seq_lib::to_multiset_build(self.letters@, c);
        }
        self.letters.push(c);
    }

    /// How many times `c` is in the bag.
    pub fn count_of(&self, c: char) -> (r: usize)
        ensures
            r == self@.count(c),
    {
        let mut n: usize = 0;
        let mut i: usize = 0;
        while i < self.letters.len()
            invariant
                i <= self.letters@.len(),
                n == self.letters@.take(i as int).to_multiset().count(c),
                n <= i,
            decreases self.letters@.len() - i,
        {
            proof {
                assert(self.letters@.take(i + 1) =~= self.letters@.take(i as int).push(self.letters@[i as int]));
                vstd::seq_lib::to_multiset_build(self.letters@.take(i as int), self.letters@[i as int]);
            }
            if self.letters[i] == c {
                n = n + 1;
            }
            i = i + 1;
        }
        assert(self.letters@.take(i as int) =~= self.letters@);
        n
    }

    /// Removes one occurrence of `c`, which must be in the bag.
    pub fn remove_one(&mut self, c: char)
        requires
            old(self)@.count(c) > 0,
        ensures
            final(self)@ =~= old(self)@.remove(c),
    {
        let ghost s = self.letters@;
        let mut i: usize = 0;
        while i < self.letters.len()
            invariant
                self.letters@ == s,
                s == old(self).letters@,
                i <= s.len(),
                forall|j: int| 0 <= j < i ==> s[j] != c,
            decreases s.len() - i,
        {
            if self.letters[i] == c {
                proof {
                    vstd::seq_lib::to_multiset_remove(s, i as int);
                }
                self.letters.remove(i);
                assert(self.letters@ == s.remove(i as int));
                return;
            }
            i = i + 1;
        }
        proof {
            vstd::seq_lib::to_multiset_contains(s, c);
        }
    }

    /// A separate bag with the same contents, for a search branch of its own.
    pub fn copy(&self) -> (r: LetterMap)
        ensures
            r@ == self@,
    {
        let mut letters: Vec<char> = Vec::new();
        let mut i: usize = 0;
        while i < self.letters.len()
            invariant
                i <= self.letters@.len(),
                letters@ =~= self.letters@.take(i as int),
            decreases self.letters@.len() - i,
        {
            letters.push(self.letters[i]);
            i = i + 1;
        }
        assert(letters@ =~= self.letters@);
        LetterMap { letters }
    }
}

/// The letters of `word`, each counted as often as it occurs.
pub fn construct_letter_map(word: &str) -> (r: LetterMap)
    ensures
        r@ == word@.to_multiset(),
{
    let n = word.unicode_len();
    let mut map = LetterMap::new();
    let mut i: usize = 0;
    while i < n
        invariant
            n == word@.len(),
            i <= n,
            map@ == word@.take(i as int).to_multiset(),
        decreases n - i,
    {
        let c = get_char(word, i);
        proof {
            assert(word@.take(i + 1) =~= word@.take(i as int).push(c));
            vstd::seq_lib::to_multiset_build(word@.take(i as int), c);
        }
        map.add(c);
        i = i + 1;
    }
    assert(word@.take(i as int) =~= word@);
    map
}

/// Whether every letter of `left` occurs in `right` at least as often.
pub fn letter_map_less_than(left: &LetterMap, right: &LetterMap) -> (r: bool)
    ensures
        r == left@.subset_of(right@),
{
    let mut i: usize = 0;
    while i < left.letters.len()
        invariant
            i <= left.letters@.len(),
            forall|j: int|
                0 <= j < i ==> left@.count(#[trigger] left.letters@[j]) <= right@.count(
                    left.letters@[j],
                ),
        decreases left.letters@.len() - i,
    {
        let c = left.letters[i];
        if left.count_of(c) > right.count_of(c) {
            return false;
        }
        i = i + 1;
    }
    assert forall|x: char| left@.count(x) <= right@.count(x) by {
        if left@.count(x) > 0 {
            vstd::seq_lib::to_multiset_contains(left.letters@, x);
            let j = choose|j: int| 0 <= j < left.letters@.len() && left.letters@[j] == x;
            assert(left@.count(left.letters@[j]) <= right@.count(left.letters@[j]));
        }
    }
    true
}

/// Whether the first and the last letter of `word` each occur in `right`
/// (each on its own: a word whose outer letters agree needs only one).
pub fn two_letter_less_than(word: &Word, right: &LetterMap) -> (r: bool)
    ensures
        r == (right@.count(word[0]) > 0 && right@.count(word[2]) > 0),
{
    right.count_of(word[0]) > 0 && right.count_of(word[2]) > 0
}

/// Charges the outer letters of `word` against `letter_map`. Where the bag
/// holds them both (with repetition), they are taken out and the result is
/// `true`; otherwise the bag is left as it was and the result is `false`.
pub fn clear_two_letters(word: &Word, letter_map: &mut LetterMap) -> (r: bool)
    ensures
        r == edges(*word).subset_of(old(letter_map)@),
        r ==> final(letter_map)@ == old(letter_map)@.sub(edges(*word)),
        !r ==> final(letter_map)@ == old(letter_map)@,
{
    let a = word[0];
    let b = word[2];
    if !two_letter_less_than(word, letter_map) {
        assert(!edges(*word).subset_of(old(letter_map)@)) by {
            if old(letter_map)@.count(a) == 0 {
                assert(edges(*word).count(a) > 0);
            } else {
                assert(edges(*word).count(b) > 0);
            }
        }
        return false;
    }
    if a == b && letter_map.count_of(a) < 2 {
        assert(edges(*word).count(a) == 2);
        return false;
    }
    letter_map.remove_one(a);
    letter_map.remove_one(b);
    assert(final(letter_map)@ =~= old(letter_map)@.sub(edges(*word)));
    true
}

} // verus!
