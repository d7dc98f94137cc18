//! Small word puzzles: words that grow by one inserted letter, keyboard rows,
//! and dictionary lookups of letter sequences.

use vstd::prelude::*;
use vstd::string::StrSliceExecFns;

verus! {

/// Whether the six-letter word is the five-letter word with one letter put in
/// front.
pub fn has_insert_front(five: &[u8], six: &[u8]) -> (r: bool)
    requires
        five@.len() == 5,
        six@.len() == 6,
    ensures
        r == (five@ == six@.skip(1)),
{
    let mut i: usize = 0;
    while i < 5
        invariant
            five@.len() == 5,
            six@.len() == 6,
            i <= 5,
            forall|j: int| 0 <= j < i ==> five@[j] == six@[j + 1],
        decreases 5 - i,
    {
        if five[i] != six[i + 1] {
            assert(five@[i as int] != six@.skip(1)[i as int]);
            return false;
        }
        i = i + 1;
    }
    assert(five@ =~= six@.skip(1));
    true
}

/// Whether the seven-letter word is the six-letter word with one letter put
/// in as its fifth.
pub fn has_insert_five(six: &[u8], seven: &[u8]) -> (r: bool)
    requires
        six@.len() == 6,
        seven@.len() == 7,
    ensures
        r == (six@.take(4) == seven@.take(4) && six@.skip(4) == seven@.skip(5)),
{
    let mut i: usize = 0;
    while i < 4
        invariant
            six@.len() == 6,
            seven@.len() == 7,
            i <= 4,
            forall|j: int| 0 <= j < i ==> six@[j] == seven@[j],
        decreases 4 - i,
    {
        if six[i] != seven[i] {
            assert(six@.take(4)[i as int] != seven@.take(4)[i as int]);
            return false;
        }
        i = i + 1;
    }
    assert(six@.take(4) =~= seven@.take(4));
    if six[4] != seven[5] {
        assert(six@.skip(4)[0] != seven@.skip(5)[0]);
        return false;
    }
    if six[5] != seven[6] {
        assert(six@.skip(4)[1] != seven@.skip(5)[1]);
        return false;
    }
    assert(six@.skip(4) =~= seven@.skip(5));
    true
}

/// The row of a QWERTY keyboard that holds the lowercase letter `c`, counted
/// from the top (1, 2 or 3); 0 for any other character.
pub open spec fn keyboard_row(c: char) -> int {
    if c == 'q' || c == 'w' || c == 'e' || c == 'r' || c == 't' || c == 'y' || c == 'u' || c
        == 'i' || c == 'o' || c == 'p' {
        1
    } else if c == 'a' || c == 's' || c == 'd' || c == 'f' || c == 'g' || c == 'h' || c == 'j'
        || c == 'k' || c == 'l' {
        2
    } else if c == 'z' || c == 'x' || c == 'c' || c == 'v' || c == 'b' || c == 'n' || c == 'm' {
        3
    } else {
        0
    }
}

/// The keyboard row of a one-letter string.
pub fn find_row(letter: &str) -> (r: i8)
    requires
        letter@.len() == 1,
        keyboard_row(letter@[0]) != 0,
    ensures
        r == keyboard_row(letter@[0]),
{
    let c = letter.get_char(0);
    if c == 'q' || c == 'w' || c == 'e' || c == 'r' || c == 't' || c == 'y' || c == 'u' || c
        == 'i' || c == 'o' || c == 'p' {
        1
    } else if c == 'a' || c == 's' || c == 'd' || c == 'f' || c == 'g' || c == 'h' || c == 'j'
        || c == 'k' || c == 'l' {
        2
    } else {
        3
    }
}

/// Whether `s` spells exactly `letters`.
pub fn spells(s: &str, letters: &[char]) -> (r: bool)
    ensures
        r == (s@ == letters@),
{
    let n = s.unicode_len();
    if n != letters.len() {
        return false;
    }
    let mut i: usize = 0;
    while i < n
        invariant
            n == s@.len(),
            n == letters@.len(),
            i <= n,
            forall|j: int| 0 <= j < i ==> s@[j] == letters@[j],
        decreases n - i,
    {
        if s.get_char(i) != letters[i] {
            return false;
        }
        i = i + 1;
    }
    assert(s@ =~= letters@);
    true
}

/// Whether some word of `words` spells `letters`.
pub fn is_word(letters: &[char], words: &[String]) -> (r: bool)
    ensures
        r == exists|i: int| 0 <= i < words@.len() && (#[trigger] words@[i])@ == letters@,
{
    let mut i: usize = 0;
    while i < words.len()
        invariant
            i <= words@.len(),
            forall|j: int| 0 <= j < i ==> (#[trigger] words@[j])@ != letters@,
        decreases words@.len() - i,
    {
        if spells(words[i].as_str(), letters) {
            return true;
        }
        i = i + 1;
    }
    false
}

/// The words that share one ending: `suffix` is what follows the first
/// letter, `prefixes` the first letters (as one-letter strings) of those
/// words, in input order.
pub struct SuffixGroup {
    pub suffix: String,
    pub prefixes: Vec<String>,
}

/// The characters of each string.
pub open spec fn texts(ws: Seq<String>) -> Seq<Seq<char>> {
    ws.map_values(|w: String| w@)
}

/// Whether a word's letters after the first are `suffix`.
pub open spec fn ends_with(suffix: Seq<char>) -> spec_fn(Seq<char>) -> bool {
    |w: Seq<char>| w.skip(1) == suffix
}

/// The first letter of a word, as a one-letter sequence.
pub open spec fn first_letter(w: Seq<char>) -> Seq<char> {
    w.take(1)
}

/// Whether some group of `gs` has `suffix`.
pub open spec fn has_suffix_group(gs: Seq<SuffixGroup>, suffix: Seq<char>) -> bool {
    exists|g: int| 0 <= g < gs.len() && gs[g].suffix@ == suffix
}

/// `gs` groups `words` by what follows their first letter: one group for
/// each such ending, holding the first letters of all the words with it, in
/// input order.
pub open spec fn suffix_groups_of(words: Seq<String>, gs: Seq<SuffixGroup>) -> bool {
    &&& forall|g: int|
        0 <= g < gs.len() ==> {
            &&& (#[trigger] gs[g]).prefixes@.len() > 0
            &&& texts(gs[g].prefixes@) == texts(words).filter(ends_with(gs[g].suffix@)).map_values(
                |w: Seq<char>| first_letter(w),
            )
        }
    &&& forall|g1: int, g2: int|
        0 <= g1 < g2 < gs.len() ==> (#[trigger] gs[g1]).suffix@ != (#[trigger] gs[g2]).suffix@
    &&& forall|i: int| 0 <= i < words.len() ==> has_suffix_group(gs, (#[trigger] words[i])@.skip(1))
}

/// Whether `a` and `b` hold the same characters.
pub fn same_text(a: &str, b: &str) -> (r: bool)
    ensures
        r == (a@ == b@),
{
    let n = a.unicode_len();
    if n != b.unicode_len() {
        return false;
    }
    let mut i: usize = 0;
    while i < n
        invariant
            n == a@.len(),
            n == b@.len(),
            i <= n,
            forall|j: int| 0 <= j < i ==> a@[j] == b@[j],
        decreases n - i,
    {
        if a.get_char(i) != b.get_char(i) {
            return false;
        }
        i = i + 1;
    }
    assert(a@ =~= b@);
    true
}

proof fn lemma_suffix_step(ws: Seq<String>, k: int, suffix: Seq<char>)
    requires
        0 <= k < ws.len(),
    ensures
        texts(ws.take(k + 1)).filter(ends_with(suffix)) == if ends_with(suffix)(ws[k]@) {
            texts(ws.take(k)).filter(ends_with(suffix)).push(ws[k]@)
        } else {
            texts(ws.take(k)).filter(ends_with(suffix))
        },
{
    reveal(Seq::filter);
    assert(texts(ws.take(k + 1)).drop_last() =~= texts(ws.take(k)));
    assert(texts(ws.take(k + 1)).last() == ws[k]@);
}

/// Groups non-empty words by what follows their first letter.
pub fn collect_matching_words(words: Vec<String>) -> (r: Vec<SuffixGroup>)
    requires
        forall|i: int| 0 <= i < words@.len() ==> (#[trigger] words@[i])@.len() > 0,
    ensures
        suffix_groups_of(words@, r@),
{
    let mut groups: Vec<SuffixGroup> = Vec::new();
    let ghost mut firsts: Seq<int> = Seq::empty();
    let mut i: usize = 0;
    while i < words.len()
        invariant
            i <= words@.len(),
            forall|i2: int| 0 <= i2 < words@.len() ==> (#[trigger] words@[i2])@.len() > 0,
            firsts.len() == groups@.len(),
            forall|g: int|
                0 <= g < groups@.len() ==> {
                    &&& 0 <= #[trigger] firsts[g] < i
                    &&& groups@[g].prefixes@.len() > 0
                    &&& groups@[g].suffix@ == words@[firsts[g]]@.skip(1)
                    &&& texts(groups@[g].prefixes@) == texts(words@).filter(
                        ends_with(groups@[g].suffix@),
                    ).map_values(|w: Seq<char>| first_letter(w))
                    &&& forall|j: int|
                        0 <= j < firsts[g] ==> (#[trigger] words@[j])@.skip(1) != words@[firsts[g]]@.skip(
                            1,
                        )
                },
            forall|g1: int, g2: int|
                0 <= g1 < g2 < groups@.len() ==> #[trigger] firsts[g1] < #[trigger] firsts[g2],
            forall|i2: int| 0 <= i2 < i ==> has_suffix_group(groups@, (#[trigger] words@[i2])@.skip(1)),
        decreases words@.len() - i,
    {
        let ghost groups0 = groups@;
        let w = words[i].as_str();
        let n = w.unicode_len();
        let suffix = w.substring_char(1, n);
        let mut seen = false;
        let mut j: usize = 0;
        while j < i
            invariant
                i < words@.len(),
                j <= i,
                suffix@ == words@[i as int]@.skip(1),
                forall|i2: int| 0 <= i2 < words@.len() ==> (#[trigger] words@[i2])@.len() > 0,
                !seen ==> forall|j2: int| 0 <= j2 < j ==> (#[trigger] words@[j2])@.skip(1) != suffix@,
                seen ==> exists|j2: int| 0 <= j2 < i && (#[trigger] words@[j2])@.skip(1) == suffix@,
            decreases i - j,
        {
            let other = words[j].as_str();
            let m = other.unicode_len();
            if same_text(other.substring_char(1, m), suffix) {
                seen = true;
            }
            j = j + 1;
        }
        if !seen {
            let mut prefixes: Vec<String> = Vec::new();
            let ghost mut matched: Seq<Seq<char>> = Seq::empty();
            let mut k: usize = 0;
            while k < words.len()
                invariant
                    k <= words@.len(),
                    i < words@.len(),
                    suffix@ == words@[i as int]@.skip(1),
                    forall|i2: int| 0 <= i2 < words@.len() ==> (#[trigger] words@[i2])@.len() > 0,
                    matched == texts(words@.take(k as int)).filter(ends_with(suffix@)),
                    texts(prefixes@) == matched.map_values(|w: Seq<char>| first_letter(w)),
                    prefixes@.len() > 0 || k <= i,
                decreases words@.len() - k,
            {
                proof {
                    lemma_suffix_step(words@, k as int, suffix@);
                }
                let other = words[k].as_str();
                let m = other.unicode_len();
                if same_text(other.substring_char(1, m), suffix) {
                    let ghost earlier = prefixes@;
                    let ghost matched0 = matched;
                    prefixes.push(other.substring_char(0, 1).to_owned());
                    proof {
                        matched = matched.push(words@[k as int]@);
                        assert(texts(prefixes@) =~= texts(earlier).push(first_letter(words@[k as int]@)));
                        assert(matched.map_values(|w: Seq<char>| first_letter(w)) =~= matched0.map_values(
                            |w: Seq<char>| first_letter(w),
                        ).push(first_letter(words@[k as int]@)));
                    }
                }
                k = k + 1;
            }
            assert(words@.take(k as int) =~= words@);
            proof {
                firsts = firsts.push(i as int);
            }
            groups.push(SuffixGroup { suffix: suffix.to_owned(), prefixes });
        }
        proof {
            assert forall|i2: int| 0 <= i2 <= i implies has_suffix_group(
                groups@,
                (#[trigger] words@[i2])@.skip(1),
            ) by {
                if i2 < i {
                    assert(has_suffix_group(groups0, words@[i2]@.skip(1)));
                    let g = choose|g: int| 0 <= g < groups0.len() && groups0[g].suffix@ == words@[i2]@.skip(1);
                    assert(groups@[g] == groups0[g]);
                } else if seen {
                    let j2 = choose|j2: int| 0 <= j2 < i && (#[trigger] words@[j2])@.skip(1) == suffix@;
                    assert(has_suffix_group(groups0, words@[j2]@.skip(1)));
                    let g = choose|g: int| 0 <= g < groups0.len() && groups0[g].suffix@ == words@[j2]@.skip(1);
                    assert(groups@[g] == groups0[g]);
                } else {
                    let g = groups@.len() - 1;
                    assert(groups@[g].suffix@ == suffix@);
                }
            }
        }
        i = i + 1;
    }
    proof {
        assert forall|g1: int, g2: int|
            0 <= g1 < g2 < groups@.len() implies (#[trigger] groups@[g1]).suffix@ != (
            #[trigger] groups@[g2]).suffix@ by {
            assert(firsts[g1] < firsts[g2]);
        }
        assert forall|g: int| 0 <= g < groups@.len() implies (#[trigger] groups@[g]).prefixes@.len() > 0
            && texts(groups@[g].prefixes@) == texts(words@).filter(ends_with(groups@[g].suffix@)).map_values(
            |w: Seq<char>| first_letter(w),
        ) by {
            assert(0 <= firsts[g]);
        }
    }
    groups
}

} // verus!
