//! A guessing game over five-letter words: words are grouped by their
//! letters, and each answer (how many letters a guess shares with the secret
//! word) narrows the groups left.

use rand::Rng;
use vstd::prelude::*;
use vstd::string::StrSliceExecFns;
use crate::budget::{construct_letter_map, letter_map_less_than};
use crate::grid::lemma_filter_step;

verus! {

broadcast use vstd::seq_lib::group_to_multiset_ensures;

/// Whether no character repeats in `s` and `s` is ASCII (its byte length is
/// then its number of characters; a string with other characters has more
/// bytes than distinct characters, so it never counts as unique).
pub fn is_unique(s: &str) -> (r: bool)
    ensures
        r == (vstd::string::is_ascii(s) && s@.no_duplicates()),
{
    if !s.is_ascii() {
        return false;
    }
    let n = s.unicode_len();
    let mut i: usize = 0;
    while i < n
        invariant
            n == s@.len(),
            i <= n,
            forall|a: int, b: int| 0 <= a < b < n && a < i ==> s@[a] != s@[b],
        decreases n - i,
    {
        let c = s.get_char(i);
        let mut j: usize = i + 1;
        while j < n
            invariant
                n == s@.len(),
                i < j <= n,
                c == s@[i as int],
                forall|b: int| i < b < j ==> s@[i as int] != s@[b],
            decreases n - j,
        {
            if s.get_char(j) == c {
                return false;
            }
            j = j + 1;
        }
        i = i + 1;
    }
    true
}

/// How many of the characters of `first` (counted with repetition) occur in
/// `second`.
pub open spec fn match_count(first: Seq<char>, second: Seq<char>) -> nat
    decreases first.len(),
{
    if first.len() == 0 {
        0
    } else {
        match_count(first.drop_last(), second) + if second.contains(first.last()) {
            1nat
        } else {
            0nat
        }
    }
}

/// Whether `c` occurs in `s`.
pub fn has_char(s: &[char], c: char) -> (r: bool)
    ensures
        r == s@.contains(c),
{
    let mut i: usize = 0;
    while i < s.len()
        invariant
            i <= s@.len(),
            forall|j: int| 0 <= j < i ==> s@[j] != c,
        decreases s@.len() - i,
    {
        if s[i] == c {
            return true;
        }
        i = i + 1;
    }
    false
}

/// How many characters of `first` occur in `second`.
pub fn num_matches(first: &[char], second: &[char]) -> (r: i32)
    requires
        first@.len() <= i32::MAX,
    ensures
        r == match_count(first@, second@),
{
    let mut matches: i32 = 0;
    let mut i: usize = 0;
    while i < first.len()
        invariant
            i <= first@.len(),
            first@.len() <= i32::MAX,
            matches == match_count(first@.take(i as int), second@),
            matches <= i,
        decreases first@.len() - i,
    {
        assert(first@.take(i + 1).drop_last() =~= first@.take(i as int));
        if has_char(second, first[i]) {
            matches = matches + 1;
        }
        i = i + 1;
    }
    assert(first@.take(i as int) =~= first@);
    matches
}

/// Whether the characters of `s` are in non-decreasing order.
pub open spec fn is_sorted(s: Seq<char>) -> bool {
    forall|i: int, j: int| 0 <= i < j < s.len() ==> (s[i] as u32) <= (s[j] as u32)
}

/// The characters of `word` in non-decreasing order.
pub fn sorted_chars(word: &str) -> (r: Vec<char>)
    ensures
        is_sorted(r@),
        r@.to_multiset() == word@.to_multiset(),
{
    let n = word.unicode_len();
    let mut out: Vec<char> = Vec::new();
    let mut i: usize = 0;
    while i < n
        invariant
            n == word@.len(),
            i <= n,
            out@.len() == i,
            is_sorted(out@),
            out@.to_multiset() == word@.take(i as int).to_multiset(),
        decreases n - i,
    {
        let c = word.get_char(i);
        let mut p: usize = 0;
        while p < out.len() && (out[p] as u32) <= (c as u32)
            invariant
                p <= out@.len(),
                forall|q: int| 0 <= q < p ==> (out@[q] as u32) <= (c as u32),
            decreases out@.len() - p,
        {
            p = p + 1;
        }
        let ghost before = out@;
        out.insert(p, c);
        proof {
            assert(word@.take(i + 1) =~= word@.take(i as int).push(c));
            vstd::seq_lib::to_multiset_insert(before, p as int, c);
            assert forall|a: int, b: int| 0 <= a < b < out@.len() implies (out@[a] as u32) <= (
            out@[b] as u32) by {
                if b < p {
                } else if b == p {
                } else if a < p {
                    assert((before[a] as u32) <= (c as u32));
                    assert((before[p as int] as u32) > (c as u32));
                } else if a == p {
                    assert((before[p as int] as u32) > (c as u32));
                    assert(p == b - 1 || (before[p as int] as u32) <= (before[b - 1] as u32));
                } else {
                    assert((before[a - 1] as u32) <= (before[b - 1] as u32));
                }
            }
        }
        i = i + 1;
    }
    assert(word@.take(i as int) =~= word@);
    out
}

/// The words of one letter combination: `key` is the combination's letters
/// in order, `words` the words that are spelled with exactly those letters.
pub struct Combo {
    pub key: Vec<char>,
    pub words: Vec<String>,
}

/// Words grouped by the letters they are spelled with.
pub struct LetterCombos {
    pub entries: Vec<Combo>,
}

/// The characters of each string.
pub open spec fn views(ws: Seq<String>) -> Seq<Seq<char>> {
    ws.map_values(|w: String| w@)
}

/// Whether a word is spelled with the letters of `key` (with repetition).
pub open spec fn spelled_with(key: Seq<char>) -> spec_fn(Seq<char>) -> bool {
    |w: Seq<char>| w.to_multiset() == key.to_multiset()
}

/// `c` groups `words` by their letters: one entry for each combination of
/// letters that some word has, with the letters sorted as its key and, in
/// input order, all the words spelled with them.
pub open spec fn combos_of(words: Seq<String>, c: Seq<Combo>) -> bool {
    &&& forall|e: int|
        0 <= e < c.len() ==> {
            &&& is_sorted((#[trigger] c[e]).key@)
            &&& c[e].words@.len() > 0
            &&& views(c[e].words@) == views(words).filter(spelled_with(c[e].key@))
        }
    &&& forall|e1: int, e2: int|
        0 <= e1 < e2 < c.len() ==> (#[trigger] c[e1]).key@.to_multiset() != (
        #[trigger] c[e2]).key@.to_multiset()
    &&& forall|i: int| 0 <= i < words.len() ==> has_combo(c, (#[trigger] words[i])@)
}

/// Whether some entry of `c` has the letters of `w` as its key.
pub open spec fn has_combo(c: Seq<Combo>, w: Seq<char>) -> bool {
    exists|e: int| 0 <= e < c.len() && c[e].key@.to_multiset() == w.to_multiset()
}

/// Whether `a` and `b` are spelled with the same letters.
pub fn same_letters(a: &str, b: &str) -> (r: bool)
    ensures
        r == (a@.to_multiset() == b@.to_multiset()),
{
    let ma = construct_letter_map(a);
    let mb = construct_letter_map(b);
    let r = letter_map_less_than(&ma, &mb) && letter_map_less_than(&mb, &ma);
    proof {
        if a@.to_multiset().subset_of(b@.to_multiset()) && b@.to_multiset().subset_of(a@.to_multiset()) {
            assert(a@.to_multiset() =~= b@.to_multiset());
        }
    }
    r
}

proof fn lemma_views_step(ws: Seq<String>, k: int, key: Seq<char>)
    requires
        0 <= k < ws.len(),
    ensures
        views(ws.take(k + 1)).filter(spelled_with(key)) == if spelled_with(key)(ws[k]@) {
            views(ws.take(k)).filter(spelled_with(key)).push(ws[k]@)
        } else {
            views(ws.take(k)).filter(spelled_with(key))
        },
{
    reveal(Seq::filter);
    assert(views(ws.take(k + 1)).drop_last() =~= views(ws.take(k)));
    assert(views(ws.take(k + 1)).last() == ws[k]@);
}

/// Groups `words` by the letters they are spelled with.
pub fn letter_combos(words: &[String]) -> (r: LetterCombos)
    ensures
        combos_of(words@, r.entries@),
{
    let mut entries: Vec<Combo> = Vec::new();
    let ghost mut firsts: Seq<int> = Seq::empty();
    let mut i: usize = 0;
    while i < words.len()
        invariant
            i <= words@.len(),
            firsts.len() == entries@.len(),
            forall|e: int|
                0 <= e < entries@.len() ==> {
                    &&& 0 <= #[trigger] firsts[e] < i
                    &&& is_sorted(entries@[e].key@)
                    &&& entries@[e].words@.len() > 0
                    &&& entries@[e].key@.to_multiset() == words@[firsts[e]]@.to_multiset()
                    &&& views(entries@[e].words@) == views(words@).filter(spelled_with(entries@[e].key@))
                    &&& forall|j: int| 0 <= j < firsts[e] ==> (#[trigger] words@[j])@.to_multiset() != words@[firsts[e]]@.to_multiset()
                },
            forall|e1: int, e2: int|
                0 <= e1 < e2 < entries@.len() ==> #[trigger] firsts[e1] < #[trigger] firsts[e2],
            forall|i2: int| 0 <= i2 < i ==> has_combo(entries@, (#[trigger] words@[i2])@),
        decreases words@.len() - i,
    {
        let ghost entries0 = entries@;
        let w = words[i].as_str();
        let mut seen = false;
        let mut j: usize = 0;
        while j < i
            invariant
                i < words@.len(),
                j <= i,
                w@ == words@[i as int]@,
                !seen ==> forall|j2: int| 0 <= j2 < j ==> (#[trigger] words@[j2])@.to_multiset() != w@.to_multiset(),
                seen ==> exists|j2: int| 0 <= j2 < i && (#[trigger] words@[j2])@.to_multiset() == w@.to_multiset(),
            decreases i - j,
        {
            if same_letters(words[j].as_str(), w) {
                seen = true;
            }
            j = j + 1;
        }
        if !seen {
            let key = sorted_chars(w);
            let mut group: Vec<String> = Vec::new();
            let mut k: usize = 0;
            while k < words.len()
                invariant
                    k <= words@.len(),
                    i < words@.len(),
                    w@ == words@[i as int]@,
                    key@.to_multiset() == w@.to_multiset(),
                    views(group@) == views(words@.take(k as int)).filter(spelled_with(key@)),
                    group@.len() > 0 || k <= i,
                decreases words@.len() - k,
            {
                proof {
                    lemma_views_step(words@, k as int, key@);
                }
                if same_letters(words[k].as_str(), w) {
                    let ghost g0 = group@;
                    group.push(words[k].clone());
                    assert(views(group@) =~= views(g0).push(words@[k as int]@));
                }
                k = k + 1;
            }
            assert(words@.take(k as int) =~= words@);
            proof {
                firsts = firsts.push(i as int);
            }
            entries.push(Combo { key, words: group });
        }
        proof {
            assert forall|i2: int| 0 <= i2 <= i implies has_combo(entries@, (#[trigger] words@[i2])@) by {
                if i2 < i {
                    assert(has_combo(entries0, words@[i2]@));
                    let e = choose|e: int| 0 <= e < entries0.len() && entries0[e].key@.to_multiset() == words@[i2]@.to_multiset();
                    assert(entries@[e] == entries0[e]);
                } else if seen {
                    let j2 = choose|j2: int| 0 <= j2 < i && (#[trigger] words@[j2])@.to_multiset() == w@.to_multiset();
                    assert(has_combo(entries0, words@[j2]@));
                    let e = choose|e: int| 0 <= e < entries0.len() && entries0[e].key@.to_multiset() == words@[j2]@.to_multiset();
                    assert(entries@[e] == entries0[e]);
                } else {
                    let e = entries@.len() - 1;
                    assert(entries@[e].key@.to_multiset() == w@.to_multiset());
                }
            }
        }
        i = i + 1;
    }
    proof {
        assert forall|e1: int, e2: int|
            0 <= e1 < e2 < entries@.len() implies (#[trigger] entries@[e1]).key@.to_multiset() != (
            #[trigger] entries@[e2]).key@.to_multiset() by {
            assert(firsts[e1] < firsts[e2]);
        }
        assert forall|e: int| 0 <= e < entries@.len() implies is_sorted((#[trigger] entries@[e]).key@)
            && entries@[e].words@.len() > 0
            && views(entries@[e].words@) == views(words@).filter(spelled_with(entries@[e].key@)) by {
            assert(0 <= firsts[e]);
        }
    }
    LetterCombos { entries }
}

/// Whether the key of a combination shares exactly `matching` letters with
/// `word`.
pub open spec fn keeps(word: Seq<char>, matching: i32) -> spec_fn(Combo) -> bool {
    |e: Combo| match_count(e.key@, word) == matching as int
}

proof fn lemma_match_count_letters(first: Seq<char>, a: Seq<char>, b: Seq<char>)
    requires
        a.to_multiset() == b.to_multiset(),
    ensures
        match_count(first, a) == match_count(first, b),
    decreases first.len(),
{
    if first.len() > 0 {
        lemma_match_count_letters(first.drop_last(), a, b);
        vstd::seq_lib::to_multiset_contains(a, first.last());
        vstd::seq_lib::to_multiset_contains(b, first.last());
    }
}

/// Keeps the combinations whose key shares exactly `matching` letters with
/// `word` (letters of the key counted with repetition).
pub fn filter_matches(word: &str, matching: i32, combos: &mut LetterCombos)
    requires
        forall|e: int|
            0 <= e < old(combos).entries@.len() ==> (#[trigger] old(combos).entries@[e]).key@.len()
                <= i32::MAX,
    ensures
        final(combos).entries@ == old(combos).entries@.filter(keeps(word@, matching)),
{
    let chars = sorted_chars(word);
    let ghost all = combos.entries@;
    let ghost p = keeps(word@, matching);
    let mut kept: Vec<Combo> = Vec::new();
    let ghost mut k: int = 0;
    while combos.entries.len() > 0
        invariant
            all == old(combos).entries@,
            p == keeps(word@, matching),
            chars@.to_multiset() == word@.to_multiset(),
            forall|e: int| 0 <= e < all.len() ==> (#[trigger] all[e]).key@.len() <= i32::MAX,
            0 <= k <= all.len(),
            combos.entries@ == all.skip(k),
            kept@ == all.take(k).filter(p),
        decreases combos.entries@.len(),
    {
        proof {
            lemma_filter_step(all, p, k);
        }
        let e = combos.entries.remove(0);
        assert(e == all[k]);
        proof {
            lemma_match_count_letters(e.key@, chars@, word@);
        }
        if num_matches(e.key.as_slice(), chars.as_slice()) == matching {
            kept.push(e);
        }
        proof {
            assert(combos.entries@ =~= all.skip(k + 1));
            k = k + 1;
        }
    }
    assert(all.take(k) =~= all);
    combos.entries = kept;
}

/// Relies on rand's `Rng::gen_range` on `thread_rng()`: a value drawn from
/// `[0, high)`; it panics where `high` is 0.
#[verifier::external_body]
fn random_below(high: usize) -> (r: usize)
    requires
        0 < high,
    ensures
        r < high,
{
    rand::thread_rng().gen_range(0, high)
}

/// A word of some combination, chosen at random: first a combination, then
/// one of its words.
pub fn gen_guess(combos: &LetterCombos) -> (r: &String)
    requires
        combos.entries@.len() > 0,
        forall|e: int|
            0 <= e < combos.entries@.len() ==> (#[trigger] combos.entries@[e]).words@.len() > 0,
    ensures
        exists|e: int, j: int|
            0 <= e < combos.entries@.len() && 0 <= j < combos.entries@[e].words@.len() && *r
                == combos.entries@[e].words@[j],
{
    let select = random_below(combos.entries.len());
    let words = &combos.entries[select].words;
    let j = random_below(words.len());
    &words[j]
}

} // verus!
