//! The whole search, from dictionary words to finished grids, and what holds
//! of what it returns.

use vstd::prelude::*;
use vstd::multiset::Multiset;
use vstd::string::StrSliceExecFns;
use crate::budget::{Word, LetterMap, construct_letter_map, letter_map_less_than, get_char};
use crate::grid::{
    has_word, contains_letters, Quad, middle_group, has_middle, groups_of, quads_of, roles_of,
    is_quad_listing, lists_quads, lists_roles, lex_lt, is_quad_index, quad_at, group_positions, is_role_index, assigned, missing_spec, bottom_ok,
    rest_ok, grid_of, shared_middle_letters, four_word_candidates, top_row_candidates,
    filter_by_bottom, filter_by_rest,
};

verus! {

/// The letters of a word, in order.
pub open spec fn letters_of(w: Word) -> Seq<char> {
    seq![w[0], w[1], w[2]]
}

/// Whether some entry of `dictionary` spells `w`.
pub open spec fn in_dictionary(dictionary: Seq<String>, w: Word) -> bool {
    exists|i: int| 0 <= i < dictionary.len() && dictionary[i]@ == letters_of(w)
}

/// `s` as a word of three letters, where it has three letters and the seed's
/// letters can spell it.
pub fn word_within(s: &str, seed: &LetterMap) -> (r: Option<Word>)
    ensures
        r is Some <==> (s@.len() == 3 && s@.to_multiset().subset_of(seed@)),
        r is Some ==> letters_of(r->0) == s@,
{
    if s.unicode_len() != 3 {
        return None;
    }
    let letters = construct_letter_map(s);
    if !letter_map_less_than(&letters, seed) {
        return None;
    }
    let w: Word = [get_char(s, 0), get_char(s, 1), get_char(s, 2)];
    assert(letters_of(w) =~= s@);
    Some(w)
}

/// The dictionary words of three letters that the seed's letters can spell
/// (with repetition), each once, in the order of their first occurrence.
pub fn candidate_words(dictionary: &[String], seed: &LetterMap) -> (r: Vec<Word>)
    ensures
        forall|k: int|
            0 <= k < r@.len() ==> letters_of(#[trigger] r@[k]).to_multiset().subset_of(
                seed@,
            ),
        forall|k: int| 0 <= k < r@.len() ==> in_dictionary(dictionary@, #[trigger] r@[k]),
        forall|i: int|
            0 <= i < dictionary@.len() && (#[trigger] dictionary@[i])@.len() == 3
                && dictionary@[i]@.to_multiset().subset_of(seed@) ==> exists|k: int|
                0 <= k < r@.len() && letters_of(r@[k]) == dictionary@[i]@,
        r@.no_duplicates(),
{
    let mut out: Vec<Word> = Vec::new();
    let ghost mut src: Seq<int> = Seq::empty();
    let mut i: usize = 0;
    while i < dictionary.len()
        invariant
            i <= dictionary@.len(),
            forall|k: int|
                0 <= k < out@.len() ==> letters_of(#[trigger] out@[k]).to_multiset().subset_of(seed@),
            src.len() == out@.len(),
            forall|k: int|
                0 <= k < out@.len() ==> 0 <= #[trigger] src[k] < i && dictionary@[src[k]]@
                    == letters_of(out@[k]),
            forall|i2: int|
                0 <= i2 < i && (#[trigger] dictionary@[i2])@.len() == 3
                    && dictionary@[i2]@.to_multiset().subset_of(seed@) ==> exists|k: int|
                    0 <= k < out@.len() && letters_of(out@[k]) == dictionary@[i2]@,
            out@.no_duplicates(),
        decreases dictionary@.len() - i,
    {
        let ghost out0 = out@;
        let ghost d = dictionary@[i as int]@;
        match word_within(dictionary[i].as_str(), seed) {
            Some(w) => {
                if !contains_letters(out.as_slice(), w[0], w[1], w[2]) {
                    out.push(w);
                    proof {
                        src = src.push(i as int);
                        assert(out@[out@.len() - 1] == w);
                    }
                } else {
                    proof {
                        let j = choose|j: int|
                            0 <= j < out@.len() && out@[j][0] == w[0] && out@[j][1] == w[1]
                                && out@[j][2] == w[2];
                        assert(letters_of(out@[j]) =~= d);
                    }
                }
            },
            None => {},
        }
        proof {
            assert forall|i2: int|
                0 <= i2 <= i && (#[trigger] dictionary@[i2])@.len() == 3
                    && dictionary@[i2]@.to_multiset().subset_of(seed@) implies exists|k: int|
                    0 <= k < out@.len() && letters_of(out@[k]) == dictionary@[i2]@ by {
                if i2 < i {
                    let k = choose|k: int| 0 <= k < out0.len() && letters_of(out0[k]) == dictionary@[i2]@;
                    assert(out@[k] == out0[k]);
                }
            }
        }
        i = i + 1;
    }
    assert forall|k: int| 0 <= k < out@.len() implies in_dictionary(dictionary@, #[trigger] out@[k]) by {
        let i2 = src[k];
        assert(0 <= i2 < dictionary@.len() && dictionary@[i2]@ == letters_of(out@[k]));
    }
    out
}

/// A finished grid, given by its role assignment: all four words are words
/// of `set` and share their middle letter, and the top row, the bottom row
/// (last letters of the left diagonal, the middle column and the right
/// diagonal) and both edge columns spell words of `set`.
pub open spec fn is_solution(set: Seq<Word>, c: Quad) -> bool {
    &&& forall|x: int| 0 <= x < 4 ==> set.contains(#[trigger] c[x])
    &&& forall|x: int| 0 <= x < 4 ==> #[trigger] c[x][1] == c[0][1]
    &&& has_word(set, c[0][0], c[1][0], c[2][0])
    &&& bottom_ok(set)(c)
    &&& rest_ok(set)(c)
}

/// Four words of `set` that share their middle letter.
pub open spec fn quad_ok(set: Seq<Word>, q: Quad) -> bool {
    &&& forall|x: int| 0 <= x < 4 ==> set.contains(#[trigger] q[x])
    &&& forall|x: int| 0 <= x < 4 ==> #[trigger] q[x][1] == q[0][1]
}

proof fn lemma_filter_member<A>(s: Seq<A>, p: spec_fn(A) -> bool, i: int)
    requires
        0 <= i < s.filter(p).len(),
    ensures
        s.contains(s.filter(p)[i]),
        p(s.filter(p)[i]),
    decreases s.len(),
{
    reveal(Seq::filter);
    s.lemma_filter_pred(p, i);
    if s.len() > 0 {
        let t = s.drop_last();
        if i < t.filter(p).len() {
            lemma_filter_member(t, p, i);
            let j = choose|j: int| 0 <= j < t.len() && t[j] == t.filter(p)[i];
            assert(s[j] == t[j]);
        } else {
            assert(s[s.len() - 1] == s.filter(p)[i]);
        }
    }
}

proof fn lemma_flatten_member<A>(parts: Seq<Seq<A>>, k: int)
    requires
        0 <= k < parts.flatten().len(),
    ensures
        exists|g: int, i: int|
            0 <= g < parts.len() && 0 <= i < parts[g].len() && parts.flatten()[k] == parts[g][i],
    decreases parts.len(),
{
    if parts.len() > 0 {
        let f = parts.first();
        if k < f.len() {
            assert(parts.flatten()[k] == parts[0][k]);
        } else {
            let rest = parts.drop_first();
            lemma_flatten_member(rest, k - f.len());
            let (g, i) = choose|g: int, i: int|
                0 <= g < rest.len() && 0 <= i < rest[g].len() && rest.flatten()[k - f.len()]
                    == rest[g][i];
            assert(parts[g + 1] == rest[g]);
        }
    }
}

proof fn lemma_group_member(ws: Seq<Word>, gs: Seq<Vec<Word>>, g: int, i: int)
    requires
        groups_of(ws, gs),
        0 <= g < gs.len(),
        0 <= i < gs[g]@.len(),
    ensures
        ws.contains(gs[g]@[i]),
        gs[g]@[i][1] == gs[g]@[0][1],
{
    let m = gs[g]@[0][1];
    assert(gs[g]@ == middle_group(ws, m));
    lemma_filter_member(ws, has_middle(m), i);
}

proof fn lemma_quads_ok(ws: Seq<Word>, gs: Seq<Vec<Word>>, b: Multiset<char>, qs: Seq<Quad>, k: int)
    requires
        groups_of(ws, gs),
        quads_of(gs, b, qs),
        0 <= k < qs.len(),
    ensures
        quad_ok(ws, qs[k]),
{
    let parts = choose|parts: Seq<Seq<Quad>>|
        {
            &&& parts.len() == gs.len()
            &&& forall|g: int| 0 <= g < parts.len() ==> is_quad_listing(#[trigger] gs[g]@, b, parts[g])
            &&& qs == parts.flatten()
        };
    lemma_flatten_member(parts, k);
    let (g, i) = choose|g: int, i: int|
        0 <= g < parts.len() && 0 <= i < parts[g].len() && parts.flatten()[k] == parts[g][i];
    assert(is_quad_listing(gs[g]@, b, parts[g]));
    let idx = choose|idx: Seq<(int, int, int, int)>| lists_quads(gs[g]@, b, parts[g], idx);
    let t = idx[i];
    assert(0 <= t.0 < t.1 < t.2 < t.3 < gs[g]@.len());
    lemma_group_member(ws, gs, g, t.0);
    lemma_group_member(ws, gs, g, t.1);
    lemma_group_member(ws, gs, g, t.2);
    lemma_group_member(ws, gs, g, t.3);
    let q = qs[k];
    assert(q[0] == gs[g]@[t.0] && q[1] == gs[g]@[t.1] && q[2] == gs[g]@[t.2] && q[3] == gs[g]@[t.3]);
    assert forall|x: int| 0 <= x < 4 implies ws.contains(#[trigger] q[x]) && q[x][1] == q[0][1] by {
        if x == 0 {
        } else if x == 1 {
        } else if x == 2 {
        } else {
        }
    }
}

proof fn lemma_roles_ok(ws: Seq<Word>, qs: Seq<Quad>, set: Seq<Word>, ts: Seq<Quad>, k: int)
    requires
        forall|j: int| 0 <= j < qs.len() ==> quad_ok(ws, #[trigger] qs[j]),
        roles_of(qs, set, ts),
        0 <= k < ts.len(),
    ensures
        quad_ok(ws, ts[k]),
        has_word(set, ts[k][0][0], ts[k][1][0], ts[k][2][0]),
{
    let idx = choose|idx: Seq<(int, int, int, int)>| lists_roles(qs, set, ts, idx);
    let t = idx[k];
    assert(is_role_index(qs, set, t));
    let q = qs[t.0];
    assert(quad_ok(ws, q));
    let a = ts[k];
    assert(assigned(a, q, t));
    let l = missing_spec(t.1, t.2, t.3);
    assert(0 <= l < 4);
    assert(ws.contains(q[t.1]) && ws.contains(q[t.2]) && ws.contains(q[t.3]) && ws.contains(q[l]));
    assert(q[t.1][1] == q[0][1] && q[t.2][1] == q[0][1] && q[t.3][1] == q[0][1] && q[l][1] == q[0][1]);
    assert forall|x: int| 0 <= x < 4 implies ws.contains(#[trigger] a[x]) && a[x][1] == a[0][1] by {
        if x == 0 {
        } else if x == 1 {
        } else if x == 2 {
        } else {
        }
    }
}

/// `r` is what the stages of the search make of `words` under `budget`:
/// groups by middle letter, their affordable combinations of four, the role
/// assignments whose top row is a word, and of those the ones whose bottom
/// row and edge columns are words.
pub open spec fn solve_result(words: Seq<Word>, budget: Multiset<char>, r: Seq<Quad>) -> bool {
    exists|gs: Seq<Vec<Word>>, qs: Seq<Quad>, ts: Seq<Quad>|
        {
            &&& groups_of(words, gs)
            &&& quads_of(gs, budget, qs)
            &&& roles_of(qs, words, ts)
            &&& r == ts.filter(bottom_ok(words)).filter(rest_ok(words))
        }
}

/// The whole search on the candidate words `words` (which serve as the
/// dictionary for every line) under the seed's letters `seed`: group by
/// middle letter, take the affordable combinations of four, assign roles
/// whose top row is a word, and keep those whose bottom row and edge columns
/// are words.
pub fn solve(words: &[Word], seed: &LetterMap) -> (r: Vec<Quad>)
    ensures
        solve_result(words@, seed@, r@),
        forall|k: int| 0 <= k < r@.len() ==> is_solution(words@, #[trigger] r@[k]),
        (forall|i: int| 0 <= i < words@.len() ==> middle_group(words@, #[trigger] words@[i][1]).len() < 4)
            ==> r@.len() == 0,
{
    let groups = shared_middle_letters(words);
    let quads = four_word_candidates(groups.as_slice(), seed);
    let tops = top_row_candidates(&quads, words);
    let bottoms = filter_by_bottom(tops, words);
    let ghost ts = tops@;
    let last = filter_by_rest(bottoms, words);
    proof {
        let set = words@;
        assert(solve_result(set, seed@, last@));
        assert forall|j: int| 0 <= j < quads@.len() implies quad_ok(set, #[trigger] quads@[j]) by {
            lemma_quads_ok(set, groups@, seed@, quads@, j);
        }
        assert forall|k: int| 0 <= k < last@.len() implies is_solution(set, #[trigger] last@[k]) by {
            let bs = ts.filter(bottom_ok(set));
            lemma_filter_member(bs, rest_ok(set), k);
            let j = choose|j: int| 0 <= j < bs.len() && bs[j] == last@[k];
            lemma_filter_member(ts, bottom_ok(set), j);
            let i = choose|i: int| 0 <= i < ts.len() && ts[i] == bs[j];
            lemma_roles_ok(set, quads@, set, ts, i);
        }
        if forall|i: int| 0 <= i < set.len() ==> middle_group(set, #[trigger] set[i][1]).len() < 4 {
            if groups@.len() > 0 {
                lemma_group_member(set, groups@, 0, 0);
                let w = groups@[0]@[0];
                let i = choose|i: int| 0 <= i < set.len() && set[i] == w;
                assert(middle_group(set, set[i][1]).len() < 4);
                assert(groups@[0]@ == middle_group(set, w[1]));
            }
            let parts = choose|parts: Seq<Seq<Quad>>|
                {
                    &&& parts.len() == groups@.len()
                    &&& forall|g: int|
                        0 <= g < parts.len() ==> is_quad_listing(#[trigger] groups@[g]@, seed@, parts[g])
                    &&& quads@ == parts.flatten()
                };
            assert(quads@.len() == 0);
            let idx = choose|idx: Seq<(int, int, int, int)>| lists_roles(quads@, set, ts, idx);
            if ts.len() > 0 {
                assert(is_role_index(quads@, set, idx[0]));
            }
            reveal(Seq::filter);
            assert(ts.filter(bottom_ok(set)).len() == 0);
        }
    }
    last
}

/// Every line of a finished grid spells a word: the three rows (the bottom
/// one read from right to left, as the bottom-row check reads it), the three
/// columns and the two diagonals.
pub proof fn solution_grid_lines(set: Seq<Word>, c: Quad)
    requires
        is_solution(set, c),
    ensures
        ({
            let gr = grid_of(c);
            &&& has_word(set, gr[0][0], gr[0][1], gr[0][2])
            &&& has_word(set, gr[1][0], gr[1][1], gr[1][2])
            &&& has_word(set, gr[2][2], gr[2][1], gr[2][0])
            &&& has_word(set, gr[0][0], gr[1][0], gr[2][0])
            &&& has_word(set, gr[0][1], gr[1][1], gr[2][1])
            &&& has_word(set, gr[0][2], gr[1][2], gr[2][2])
            &&& has_word(set, gr[0][0], gr[1][1], gr[2][2])
            &&& has_word(set, gr[0][2], gr[1][1], gr[2][0])
        }),
{
    assert forall|x: int| 0 <= x < 4 implies has_word(set, c[x][0], c[x][1], c[x][2]) by {
        assert(set.contains(c[x]));
        let j = choose|j: int| 0 <= j < set.len() && set[j] == c[x];
        assert(set[j][0] == c[x][0] && set[j][1] == c[x][1] && set[j][2] == c[x][2]);
    }
    assert(c[1][1] == c[0][1] && c[2][1] == c[0][1] && c[3][1] == c[0][1]);
    assert(has_word(set, c[0][0], c[0][1], c[0][2]));
    assert(has_word(set, c[1][0], c[1][1], c[1][2]));
    assert(has_word(set, c[2][0], c[2][1], c[2][2]));
    assert(has_word(set, c[3][0], c[3][1], c[3][2]));
}

proof fn lemma_listing_prefix(
    s1: Seq<(int, int, int, int)>,
    s2: Seq<(int, int, int, int)>,
    valid: spec_fn((int, int, int, int)) -> bool,
    k: int,
)
    requires
        forall|a: int, b: int| 0 <= a < b < s1.len() ==> lex_lt(#[trigger] s1[a], #[trigger] s1[b]),
        forall|a: int, b: int| 0 <= a < b < s2.len() ==> lex_lt(#[trigger] s2[a], #[trigger] s2[b]),
        forall|a: int| 0 <= a < s1.len() ==> valid(#[trigger] s1[a]),
        forall|a: int| 0 <= a < s2.len() ==> valid(#[trigger] s2[a]),
        forall|t: (int, int, int, int)| valid(t) ==> s1.contains(t),
        forall|t: (int, int, int, int)| valid(t) ==> s2.contains(t),
        0 <= k < s1.len(),
        k < s2.len(),
    ensures
        forall|j: int| 0 <= j <= k ==> s1[j] == s2[j],
    decreases k,
{
    if k > 0 {
        lemma_listing_prefix(s1, s2, valid, k - 1);
    }
    assert(valid(s1[k]) && valid(s2[k]));
    assert(s2.contains(s1[k]));
    let m = choose|m: int| 0 <= m < s2.len() && s2[m] == s1[k];
    assert(s1.contains(s2[k]));
    let m2 = choose|m: int| 0 <= m < s1.len() && s1[m] == s2[k];
    if m < k {
        assert(s1[m] == s2[m]);
        assert(lex_lt(s1[m], s1[k]));
    }
    if m2 < k {
        assert(s1[m2] == s2[m2]);
        assert(lex_lt(s2[m2], s2[k]));
    }
    if m > k && m2 > k {
        assert(lex_lt(s2[k], s2[m]));
        assert(lex_lt(s1[k], s1[m2]));
    }
}

proof fn lemma_listing_unique(
    s1: Seq<(int, int, int, int)>,
    s2: Seq<(int, int, int, int)>,
    valid: spec_fn((int, int, int, int)) -> bool,
)
    requires
        forall|a: int, b: int| 0 <= a < b < s1.len() ==> lex_lt(#[trigger] s1[a], #[trigger] s1[b]),
        forall|a: int, b: int| 0 <= a < b < s2.len() ==> lex_lt(#[trigger] s2[a], #[trigger] s2[b]),
        forall|a: int| 0 <= a < s1.len() ==> valid(#[trigger] s1[a]),
        forall|a: int| 0 <= a < s2.len() ==> valid(#[trigger] s2[a]),
        forall|t: (int, int, int, int)| valid(t) ==> s1.contains(t),
        forall|t: (int, int, int, int)| valid(t) ==> s2.contains(t),
    ensures
        s1 == s2,
{
    if s1.len() > s2.len() {
        let n = s2.len() as int;
        if n > 0 {
            lemma_listing_prefix(s1, s2, valid, n - 1);
        }
        assert(valid(s1[n]));
        assert(s2.contains(s1[n]));
        let m = choose|m: int| 0 <= m < s2.len() && s2[m] == s1[n];
        assert(s1[m] == s2[m]);
        assert(lex_lt(s1[m], s1[n]));
    } else if s2.len() > s1.len() {
        let n = s1.len() as int;
        if n > 0 {
            lemma_listing_prefix(s1, s2, valid, n - 1);
        }
        assert(valid(s2[n]));
        assert(s1.contains(s2[n]));
        let m = choose|m: int| 0 <= m < s1.len() && s1[m] == s2[n];
        assert(s1[m] == s2[m]);
        assert(lex_lt(s2[m], s2[n]));
    } else if s1.len() > 0 {
        lemma_listing_prefix(s1, s2, valid, s1.len() - 1);
    }
    assert(s1 =~= s2);
}

proof fn lemma_quad_listing_unique(ws: Seq<Word>, b: Multiset<char>, o1: Seq<Quad>, o2: Seq<Quad>)
    requires
        is_quad_listing(ws, b, o1),
        is_quad_listing(ws, b, o2),
    ensures
        o1 == o2,
{
    let i1 = choose|idx: Seq<(int, int, int, int)>| lists_quads(ws, b, o1, idx);
    let i2 = choose|idx: Seq<(int, int, int, int)>| lists_quads(ws, b, o2, idx);
    let valid = |t: (int, int, int, int)| is_quad_index(ws, b, t);
    lemma_listing_unique(i1, i2, valid);
    assert forall|k: int| 0 <= k < o1.len() implies o1[k] == o2[k] by {
        assert(quad_at(o1[k], ws, i1[k]) && quad_at(o2[k], ws, i2[k]));
        assert(o1[k] =~= o2[k]);
    }
    assert(o1 =~= o2);
}

proof fn lemma_roles_unique(qs: Seq<Quad>, set: Seq<Word>, o1: Seq<Quad>, o2: Seq<Quad>)
    requires
        roles_of(qs, set, o1),
        roles_of(qs, set, o2),
    ensures
        o1 == o2,
{
    let i1 = choose|idx: Seq<(int, int, int, int)>| lists_roles(qs, set, o1, idx);
    let i2 = choose|idx: Seq<(int, int, int, int)>| lists_roles(qs, set, o2, idx);
    let valid = |t: (int, int, int, int)| is_role_index(qs, set, t);
    lemma_listing_unique(i1, i2, valid);
    assert forall|k: int| 0 <= k < o1.len() implies o1[k] == o2[k] by {
        assert(assigned(o1[k], qs[i1[k].0], i1[k]) && assigned(o2[k], qs[i2[k].0], i2[k]));
        assert(o1[k] =~= o2[k]);
    }
    assert(o1 =~= o2);
}

/// Whether `f` is where the middle letter of `ws[f]` first occurs, and that
/// letter is the middle of four or more words of `ws`.
pub open spec fn is_group_start(ws: Seq<Word>, f: int) -> bool {
    &&& 0 <= f < ws.len()
    &&& forall|j: int| 0 <= j < f ==> #[trigger] ws[j][1] != ws[f][1]
    &&& middle_group(ws, ws[f][1]).len() >= 4
}

proof fn lemma_group_starts(ws: Seq<Word>, gs: Seq<Vec<Word>>, firsts: Seq<int>)
    requires
        groups_of(ws, gs),
        group_positions(ws, gs, firsts),
    ensures
        ({
            let t = firsts.map_values(|f: int| (f, 0int, 0int, 0int));
            &&& forall|a: int, b: int| 0 <= a < b < t.len() ==> lex_lt(#[trigger] t[a], #[trigger] t[b])
            &&& forall|a: int| 0 <= a < t.len() ==> is_group_start(ws, (#[trigger] t[a]).0) && t[a].1 == 0
                && t[a].2 == 0 && t[a].3 == 0
            &&& forall|u: (int, int, int, int)|
                is_group_start(ws, u.0) && u.1 == 0 && u.2 == 0 && u.3 == 0 ==> t.contains(u)
        }),
{
    let t = firsts.map_values(|f: int| (f, 0int, 0int, 0int));
    assert forall|a: int, b: int| 0 <= a < b < t.len() implies lex_lt(#[trigger] t[a], #[trigger] t[b]) by {
        assert(firsts[a] < firsts[b]);
    }
    assert forall|a: int| 0 <= a < t.len() implies is_group_start(ws, (#[trigger] t[a]).0) && t[a].1 == 0
        && t[a].2 == 0 && t[a].3 == 0 by {
        let f = firsts[a];
        assert(0 <= f < ws.len());
        assert(gs[a]@ == middle_group(ws, gs[a]@[0][1]));
    }
    assert forall|u: (int, int, int, int)|
        is_group_start(ws, u.0) && u.1 == 0 && u.2 == 0 && u.3 == 0 implies t.contains(u) by {
        let f = u.0;
        assert(middle_group(ws, ws[f][1]).len() >= 4);
        let g = choose|g: int| 0 <= g < gs.len() && gs[g]@[0][1] == ws[f][1];
        let f2 = firsts[g];
        assert(ws[f2][1] == ws[f][1]);
        if f2 < f {
            assert(ws[f2][1] != ws[f][1]);
        }
        if f < f2 {
            assert(ws[f][1] != ws[f2][1]);
        }
        assert(t[g] == u);
    }
}

proof fn lemma_groups_unique(ws: Seq<Word>, gs1: Seq<Vec<Word>>, gs2: Seq<Vec<Word>>)
    requires
        groups_of(ws, gs1),
        groups_of(ws, gs2),
    ensures
        gs1.len() == gs2.len(),
        forall|g: int| 0 <= g < gs1.len() ==> (#[trigger] gs1[g])@ == gs2[g]@,
{
    let f1 = choose|firsts: Seq<int>| group_positions(ws, gs1, firsts);
    let f2 = choose|firsts: Seq<int>| group_positions(ws, gs2, firsts);
    lemma_group_starts(ws, gs1, f1);
    lemma_group_starts(ws, gs2, f2);
    let t1 = f1.map_values(|f: int| (f, 0int, 0int, 0int));
    let t2 = f2.map_values(|f: int| (f, 0int, 0int, 0int));
    let valid = |u: (int, int, int, int)| is_group_start(ws, u.0) && u.1 == 0 && u.2 == 0 && u.3 == 0;
    lemma_listing_unique(t1, t2, valid);
    assert(t1.len() == gs1.len() && t2.len() == gs2.len());
    assert forall|g: int| 0 <= g < gs1.len() implies (#[trigger] gs1[g])@ == gs2[g]@ by {
        assert(t1[g] == t2[g]);
        assert(f1[g] == f2[g]);
        assert(gs1[g]@ == middle_group(ws, gs1[g]@[0][1]));
        assert(gs2[g]@ == middle_group(ws, gs2[g]@[0][1]));
    }
}

proof fn lemma_quads_unique(gs1: Seq<Vec<Word>>, gs2: Seq<Vec<Word>>, b: Multiset<char>, q1: Seq<Quad>, q2: Seq<Quad>)
    requires
        gs1.len() == gs2.len(),
        forall|g: int| 0 <= g < gs1.len() ==> (#[trigger] gs1[g])@ == gs2[g]@,
        quads_of(gs1, b, q1),
        quads_of(gs2, b, q2),
    ensures
        q1 == q2,
{
    let parts1 = choose|parts: Seq<Seq<Quad>>|
        {
            &&& parts.len() == gs1.len()
            &&& forall|g: int| 0 <= g < parts.len() ==> is_quad_listing(#[trigger] gs1[g]@, b, parts[g])
            &&& q1 == parts.flatten()
        };
    let parts2 = choose|parts: Seq<Seq<Quad>>|
        {
            &&& parts.len() == gs2.len()
            &&& forall|g: int| 0 <= g < parts.len() ==> is_quad_listing(#[trigger] gs2[g]@, b, parts[g])
            &&& q2 == parts.flatten()
        };
    assert forall|g: int| 0 <= g < parts1.len() implies parts1[g] == parts2[g] by {
        assert(is_quad_listing(gs1[g]@, b, parts1[g]));
        assert(is_quad_listing(gs2[g]@, b, parts2[g]));
        lemma_quad_listing_unique(gs1[g]@, b, parts1[g], parts2[g]);
    }
    assert(parts1 =~= parts2);
}

/// Running the search twice on the same words and seed gives the same grids
/// in the same order: what `solve` promises determines its result.
pub proof fn solve_is_deterministic(words: Seq<Word>, seed: Multiset<char>, r1: Seq<Quad>, r2: Seq<Quad>)
    requires
        solve_result(words, seed, r1),
        solve_result(words, seed, r2),
    ensures
        r1 == r2,
{
    let (gs1, qs1, ts1) = choose|gs: Seq<Vec<Word>>, qs: Seq<Quad>, ts: Seq<Quad>|
        {
            &&& groups_of(words, gs)
            &&& quads_of(gs, seed, qs)
            &&& roles_of(qs, words, ts)
            &&& r1 == ts.filter(bottom_ok(words)).filter(rest_ok(words))
        };
    let (gs2, qs2, ts2) = choose|gs: Seq<Vec<Word>>, qs: Seq<Quad>, ts: Seq<Quad>|
        {
            &&& groups_of(words, gs)
            &&& quads_of(gs, seed, qs)
            &&& roles_of(qs, words, ts)
            &&& r2 == ts.filter(bottom_ok(words)).filter(rest_ok(words))
        };
    lemma_groups_unique(words, gs1, gs2);
    lemma_quads_unique(gs1, gs2, seed, qs1, qs2);
    lemma_roles_unique(qs1, words, ts1, ts2);
}

} // verus!
