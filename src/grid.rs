//! The grid search: candidate words, grouping by middle letter, affordable
//! combinations of four words, role assignment and line checks.

use vstd::prelude::*;
use vstd::multiset::Multiset;
use crate::budget::{Word, LetterMap, edges, clear_two_letters};

verus! {

/// The words of `ws` whose middle letter is `m`, in their order in `ws`.
pub open spec fn middle_group(ws: Seq<Word>, m: char) -> Seq<Word> {
    ws.filter(has_middle(m))
}

/// Whether a word has `m` as its middle letter.
pub open spec fn has_middle(m: char) -> spec_fn(Word) -> bool {
    |w: Word| w[1] == m
}

proof fn lemma_middle_group_step(ws: Seq<Word>, k: int, m: char)
    requires
        0 <= k < ws.len(),
    ensures
        middle_group(ws.take(k + 1), m) == if ws[k][1] == m {
            middle_group(ws.take(k), m).push(ws[k])
        } else {
            middle_group(ws.take(k), m)
        },
{
    reveal(Seq::filter);
    assert(ws.take(k + 1).drop_last() =~= ws.take(k));
}

proof fn lemma_middle_group_letter(ws: Seq<Word>, m: char, i: int)
    requires
        0 <= i < middle_group(ws, m).len(),
    ensures
        middle_group(ws, m)[i][1] == m,
{
    ws.lemma_filter_pred(has_middle(m), i);
}

/// `gs` holds, for each middle letter shared by four or more words of `ws`,
/// exactly one group: all the words of `ws` with that middle letter, in
/// their order in `ws`.
pub open spec fn groups_of(ws: Seq<Word>, gs: Seq<Vec<Word>>) -> bool {
    &&& forall|g: int|
        0 <= g < gs.len() ==> {
            &&& gs[g]@.len() >= 4
            &&& #[trigger] gs[g]@ == middle_group(ws, gs[g]@[0][1])
        }
    &&& forall|g1: int, g2: int|
        0 <= g1 < g2 < gs.len() ==> #[trigger] gs[g1]@[0][1] != #[trigger] gs[g2]@[0][1]
    &&& forall|i: int|
        0 <= i < ws.len() && middle_group(ws, #[trigger] ws[i][1]).len() >= 4
            ==> exists|g: int| 0 <= g < gs.len() && gs[g]@[0][1] == ws[i][1]
    &&& exists|firsts: Seq<int>| group_positions(ws, gs, firsts)
}

/// `firsts[g]` is where the middle letter of group `g` first occurs in `ws`,
/// and these positions increase from group to group.
pub open spec fn group_positions(ws: Seq<Word>, gs: Seq<Vec<Word>>, firsts: Seq<int>) -> bool {
    &&& firsts.len() == gs.len()
    &&& forall|g: int|
        0 <= g < gs.len() ==> {
            &&& 0 <= #[trigger] firsts[g] < ws.len()
            &&& ws[firsts[g]][1] == gs[g]@[0][1]
            &&& forall|j: int| 0 <= j < firsts[g] ==> #[trigger] ws[j][1] != ws[firsts[g]][1]
        }
    &&& forall|g1: int, g2: int| 0 <= g1 < g2 < gs.len() ==> #[trigger] firsts[g1] < #[trigger] firsts[g2]
}

/// Splits `words` by middle letter and keeps the groups of four or more
/// words. Each group holds, in input order, all the words with its middle
/// letter; no two groups share a middle letter.
pub fn shared_middle_letters(words: &[Word]) -> (r: Vec<Vec<Word>>)
    ensures
        groups_of(words@, r@),
{
    let mut out: Vec<Vec<Word>> = Vec::new();
    let ghost mut firsts: Seq<int> = Seq::empty();
    let mut i: usize = 0;
    while i < words.len()
        invariant
            i <= words@.len(),
            firsts.len() == out@.len(),
            forall|g: int|
                0 <= g < out@.len() ==> {
                    &&& 0 <= #[trigger] firsts[g] < i
                    &&& out@[g]@.len() >= 4
                    &&& out@[g]@ == middle_group(words@, words@[firsts[g]][1])
                    &&& out@[g]@[0][1] == words@[firsts[g]][1]
                    &&& forall|j: int| 0 <= j < firsts[g] ==> #[trigger] words@[j][1] != words@[firsts[g]][1]
                },
            forall|g1: int, g2: int|
                0 <= g1 < g2 < out@.len() ==> #[trigger] firsts[g1] < #[trigger] firsts[g2],
            forall|i2: int|
                0 <= i2 < i && middle_group(words@, #[trigger] words@[i2][1]).len() >= 4
                    ==> exists|g: int| 0 <= g < out@.len() && out@[g]@[0][1] == words@[i2][1],
        decreases words@.len() - i,
    {
        let ghost out0 = out@;
        let m = words[i][1];
        let mut seen = false;
        let mut j: usize = 0;
        while j < i
            invariant
                i < words@.len(),
                j <= i,
                m == words@[i as int][1],
                !seen ==> forall|j2: int| 0 <= j2 < j ==> words@[j2][1] != m,
                seen ==> exists|j2: int| 0 <= j2 < i && words@[j2][1] == m,
            decreases i - j,
        {
            if words[j][1] == m {
                seen = true;
            }
            j = j + 1;
        }
        if !seen {
            let mut group: Vec<Word> = Vec::new();
            let mut k: usize = 0;
            while k < words.len()
                invariant
                    k <= words@.len(),
                    group@ == middle_group(words@.take(k as int), m),
                decreases words@.len() - k,
            {
                proof {
                    lemma_middle_group_step(words@, k as int, m);
                }
                if words[k][1] == m {
                    group.push(words[k]);
                }
                k = k + 1;
            }
            assert(words@.take(k as int) =~= words@);
            if group.len() >= 4 {
                proof {
                    lemma_middle_group_letter(words@, m, 0);
                    firsts = firsts.push(i as int);
                }
                out.push(group);
            }
        }
        proof {
            assert forall|i2: int|
                0 <= i2 <= i && middle_group(words@, #[trigger] words@[i2][1]).len() >= 4
                    implies exists|g: int| 0 <= g < out@.len() && out@[g]@[0][1] == words@[i2][1] by {
                if i2 < i {
                    let g = choose|g: int| 0 <= g < out0.len() && out0[g]@[0][1] == words@[i2][1];
                    assert(out@[g] == out0[g]);
                } else if seen {
                    let j2 = choose|j2: int| 0 <= j2 < i && words@[j2][1] == m;
                    assert(middle_group(words@, words@[j2][1]).len() >= 4);
                    let g = choose|g: int| 0 <= g < out0.len() && out0[g]@[0][1] == words@[j2][1];
                    assert(out@[g] == out0[g]);
                } else {
                    assert(out@[out@.len() - 1]@[0][1] == m);
                }
            }
        }
        i = i + 1;
    }
    proof {
        assert forall|g: int| 0 <= g < out@.len() implies out@[g]@.len() >= 4
            && #[trigger] out@[g]@ == middle_group(words@, out@[g]@[0][1]) by {
            assert(0 <= firsts[g]);
        }
        assert forall|g1: int, g2: int|
            0 <= g1 < g2 < out@.len() implies #[trigger] out@[g1]@[0][1] != #[trigger] out@[g2]@[0][1] by {
            assert(firsts[g1] < firsts[g2]);
        }
        assert(group_positions(words@, out@, firsts));
    }
    out
}

pub(crate) proof fn lemma_filter_step<A>(s: Seq<A>, p: spec_fn(A) -> bool, k: int)
    requires
        0 <= k < s.len(),
    ensures
        s.take(k + 1).filter(p) == if p(s[k]) {
            s.take(k).filter(p).push(s[k])
        } else {
            s.take(k).filter(p)
        },
{
    reveal(Seq::filter);
    assert(s.take(k + 1).drop_last() =~= s.take(k));
}

/// Whether some word of `set` spells `a`, `b`, `c`.
pub open spec fn has_word(set: Seq<Word>, a: char, b: char, c: char) -> bool {
    exists|i: int| 0 <= i < set.len() && set[i][0] == a && set[i][1] == b && set[i][2] == c
}

/// Whether some word of `set` spells `a`, `b`, `c`.
pub fn contains_letters(set: &[Word], a: char, b: char, c: char) -> (r: bool)
    ensures
        r == has_word(set@, a, b, c),
{
    let mut i: usize = 0;
    while i < set.len()
        invariant
            i <= set@.len(),
            forall|j: int|
                0 <= j < i ==> !(#[trigger] set@[j][0] == a && set@[j][1] == b && set@[j][2] == c),
        decreases set@.len() - i,
    {
        if set[i][0] == a && set[i][1] == b && set[i][2] == c {
            return true;
        }
        i = i + 1;
    }
    false
}

/// Four words that share a middle letter.
pub type Quad = [Word; 4];

/// Letters that four lines through the centre take from the budget: the
/// shared middle letter once, and the outer letters of each word.
pub open spec fn quad_cost(m: char, a: Word, b: Word, c: Word, d: Word) -> Multiset<char> {
    Multiset::singleton(m).add(edges(a)).add(edges(b)).add(edges(c)).add(edges(d))
}

/// Positions `t` of four words of `ws`, in increasing order, whose joint cost
/// (with the middle letter of the group's first word) fits in `budget`.
pub open spec fn is_quad_index(ws: Seq<Word>, budget: Multiset<char>, t: (int, int, int, int)) -> bool {
    &&& 0 <= t.0 < t.1 < t.2 < t.3 < ws.len()
    &&& quad_cost(ws[0][1], ws[t.0], ws[t.1], ws[t.2], ws[t.3]).subset_of(budget)
}

/// Lexicographic order on positions.
pub open spec fn lex_lt(a: (int, int, int, int), b: (int, int, int, int)) -> bool {
    a.0 < b.0 || (a.0 == b.0 && (a.1 < b.1 || (a.1 == b.1 && (a.2 < b.2 || (a.2 == b.2 && a.3
        < b.3)))))
}

/// Whether `q` holds the words of `ws` at positions `t`.
pub open spec fn quad_at(q: Quad, ws: Seq<Word>, t: (int, int, int, int)) -> bool {
    q[0] == ws[t.0] && q[1] == ws[t.1] && q[2] == ws[t.2] && q[3] == ws[t.3]
}

/// `out` lists, at the positions `idx`, every affordable combination of four
/// words of `ws` exactly once, in increasing order of positions.
pub open spec fn lists_quads(
    ws: Seq<Word>,
    budget: Multiset<char>,
    out: Seq<Quad>,
    idx: Seq<(int, int, int, int)>,
) -> bool {
    &&& idx.len() == out.len()
    &&& forall|k: int|
        0 <= k < idx.len() ==> is_quad_index(ws, budget, #[trigger] idx[k]) && quad_at(
            out[k],
            ws,
            idx[k],
        )
    &&& forall|k1: int, k2: int|
        0 <= k1 < k2 < idx.len() ==> lex_lt(#[trigger] idx[k1], #[trigger] idx[k2])
    &&& forall|t: (int, int, int, int)| is_quad_index(ws, budget, t) ==> idx.contains(t)
}

proof fn lemma_charge(b: Multiset<char>, p: Multiset<char>, e: Multiset<char>)
    requires
        p.subset_of(b),
    ensures
        e.subset_of(b.sub(p)) == p.add(e).subset_of(b),
        e.subset_of(b.sub(p)) ==> b.sub(p).sub(e) =~= b.sub(p.add(e)),
{
    if !e.subset_of(b.sub(p)) {
        let x = choose|x: char| e.count(x) > b.sub(p).count(x);
        assert(p.add(e).count(x) > b.count(x));
    }
    if !p.add(e).subset_of(b) {
        let x = choose|x: char| p.add(e).count(x) > b.count(x);
        assert(e.count(x) > b.sub(p).count(x));
    }
}

proof fn lemma_cost_grows(b: Multiset<char>, p: Multiset<char>, e: Multiset<char>)
    requires
        p.add(e).subset_of(b),
    ensures
        p.subset_of(b),
{
    assert forall|x: char| p.count(x) <= b.count(x) by {
        assert(p.add(e).count(x) <= b.count(x));
    }
}

/// All combinations of four distinct words of `words` (positions in
/// increasing order) whose joint cost fits in `base_map`, the middle letter of
/// the first word being charged once for all four. They come in increasing
/// order of positions.
pub fn four_word_product(words: &[Word], base_map: &LetterMap) -> (r: Vec<Quad>)
    ensures
        is_quad_listing(words@, base_map@, r@),
        forall|k: int|
            0 <= k < r@.len() ==> quad_cost(
                words@[0][1],
                #[trigger] r@[k][0],
                r@[k][1],
                r@[k][2],
                r@[k][3],
            ).subset_of(base_map@),
{
    let mut out: Vec<Quad> = Vec::new();
    let ghost ws = words@;
    let ghost b = base_map@;
    let ghost mut idx: Seq<(int, int, int, int)> = Seq::empty();
    let n = words.len();
    if n == 0 {
        assert(lists_quads(ws, b, out@, idx));
        return out;
    }
    let m = words[0][1];
    let mut mid_map = base_map.copy();
    if mid_map.count_of(m) == 0 {
        assert forall|t: (int, int, int, int)| is_quad_index(ws, b, t) implies idx.contains(t) by {
            assert(quad_cost(m, ws[t.0], ws[t.1], ws[t.2], ws[t.3]).count(m) > 0);
        }
        assert(lists_quads(ws, b, out@, idx));
        return out;
    }
    mid_map.remove_one(m);
    let ghost spent0 = Multiset::singleton(m);
    assert(mid_map@ =~= b.sub(spent0));
    let mut ii: usize = 0;
    while ii < n
        invariant
            n == ws.len(),
            ws == words@,
            b == base_map@,
            n > 0,
            m == ws[0][1],
            spent0 == Multiset::singleton(m),
            spent0.subset_of(b),
            mid_map@ == b.sub(spent0),
            ii <= n,
            idx.len() == out@.len(),
            forall|k: int|
                0 <= k < idx.len() ==> is_quad_index(ws, b, #[trigger] idx[k]) && quad_at(
                    out@[k],
                    ws,
                    idx[k],
                ),
            forall|k1: int, k2: int|
                0 <= k1 < k2 < idx.len() ==> lex_lt(#[trigger] idx[k1], #[trigger] idx[k2]),
            forall|k: int| 0 <= k < idx.len() ==> #[trigger] idx[k].0 < ii,
            forall|t: (int, int, int, int)|
                is_quad_index(ws, b, t) && t.0 < ii ==> idx.contains(t),
        decreases n - ii,
    {
        let mut map1 = mid_map.copy();
        let ghost spent1 = spent0.add(edges(ws[ii as int]));
        proof {
            lemma_charge(b, spent0, edges(ws[ii as int]));
        }
        if clear_two_letters(&words[ii], &mut map1) {
            let mut jj: usize = ii + 1;
            while jj < n
                invariant
                    n == ws.len(),
                    ws == words@,
                    m == ws[0][1],
                    spent1 == spent0.add(edges(ws[ii as int])),
                    spent0 == Multiset::singleton(m),
                    spent1.subset_of(b),
                    map1@ == b.sub(spent1),
                    ii < jj <= n,
                    idx.len() == out@.len(),
                    forall|k: int|
                        0 <= k < idx.len() ==> is_quad_index(ws, b, #[trigger] idx[k]) && quad_at(
                            out@[k],
                            ws,
                            idx[k],
                        ),
                    forall|k1: int, k2: int|
                        0 <= k1 < k2 < idx.len() ==> lex_lt(#[trigger] idx[k1], #[trigger] idx[k2]),
                    forall|k: int|
                        0 <= k < idx.len() ==> lex_lt(#[trigger] idx[k], (ii as int, jj as int, 0, 0)),
                    forall|t: (int, int, int, int)|
                        is_quad_index(ws, b, t) && lex_lt(t, (ii as int, jj as int, 0, 0))
                            ==> idx.contains(t),
                decreases n - jj,
            {
                let mut map2 = map1.copy();
                let ghost spent2 = spent1.add(edges(ws[jj as int]));
                proof {
                    lemma_charge(b, spent1, edges(ws[jj as int]));
                }
                if clear_two_letters(&words[jj], &mut map2) {
                    let mut kk: usize = jj + 1;
                    while kk < n
                        invariant
                            n == ws.len(),
                            ws == words@,
                            m == ws[0][1],
                            spent2 == spent1.add(edges(ws[jj as int])),
                            spent1 == spent0.add(edges(ws[ii as int])),
                            spent0 == Multiset::singleton(m),
                            spent2.subset_of(b),
                            map2@ == b.sub(spent2),
                            ii < jj < kk <= n,
                            idx.len() == out@.len(),
                            forall|k: int|
                                0 <= k < idx.len() ==> is_quad_index(ws, b, #[trigger] idx[k])
                                    && quad_at(out@[k], ws, idx[k]),
                            forall|k1: int, k2: int|
                                0 <= k1 < k2 < idx.len() ==> lex_lt(
                                    #[trigger] idx[k1],
                                    #[trigger] idx[k2],
                                ),
                            forall|k: int|
                                0 <= k < idx.len() ==> lex_lt(
                                    #[trigger] idx[k],
                                    (ii as int, jj as int, kk as int, 0),
                                ),
                            forall|t: (int, int, int, int)|
                                is_quad_index(ws, b, t) && lex_lt(
                                    t,
                                    (ii as int, jj as int, kk as int, 0),
                                ) ==> idx.contains(t),
                        decreases n - kk,
                    {
                        let mut map3 = map2.copy();
                        let ghost spent3 = spent2.add(edges(ws[kk as int]));
                        proof {
                            lemma_charge(b, spent2, edges(ws[kk as int]));
                        }
                        if clear_two_letters(&words[kk], &mut map3) {
                            let mut ll: usize = kk + 1;
                            while ll < n
                                invariant
                                    n == ws.len(),
                                    ws == words@,
                                    m == ws[0][1],
                                    spent3 == spent2.add(edges(ws[kk as int])),
                                    spent2 == spent1.add(edges(ws[jj as int])),
                                    spent1 == spent0.add(edges(ws[ii as int])),
                                    spent0 == Multiset::singleton(m),
                                    spent3.subset_of(b),
                                    map3@ == b.sub(spent3),
                                    ii < jj < kk < ll <= n,
                                    idx.len() == out@.len(),
                                    forall|k: int|
                                        0 <= k < idx.len() ==> is_quad_index(
                                            ws,
                                            b,
                                            #[trigger] idx[k],
                                        ) && quad_at(out@[k], ws, idx[k]),
                                    forall|k1: int, k2: int|
                                        0 <= k1 < k2 < idx.len() ==> lex_lt(
                                            #[trigger] idx[k1],
                                            #[trigger] idx[k2],
                                        ),
                                    forall|k: int|
                                        0 <= k < idx.len() ==> lex_lt(
                                            #[trigger] idx[k],
                                            (ii as int, jj as int, kk as int, ll as int),
                                        ),
                                    forall|t: (int, int, int, int)|
                                        is_quad_index(ws, b, t) && lex_lt(
                                            t,
                                            (ii as int, jj as int, kk as int, ll as int),
                                        ) ==> idx.contains(t),
                                decreases n - ll,
                            {
                                let mut map4 = map3.copy();
                                proof {
                                    lemma_charge(b, spent3, edges(ws[ll as int]));
                                }
                                let ghost cur = (ii as int, jj as int, kk as int, ll as int);
                                let ghost idx0 = idx;
                                assert(quad_cost(m, ws[cur.0], ws[cur.1], ws[cur.2], ws[cur.3])
                                    == spent3.add(edges(ws[ll as int])));
                                if clear_two_letters(&words[ll], &mut map4) {
                                    let q: Quad = [words[ii], words[jj], words[kk], words[ll]];
                                    assert(quad_at(q, ws, cur));
                                    out.push(q);
                                    proof {
                                        idx = idx.push(cur);
                                        assert(idx[idx.len() - 1] == cur);
                                        assert forall|t: (int, int, int, int)|
                                            is_quad_index(ws, b, t) && lex_lt(t, (cur.0, cur.1, cur.2, cur.3 + 1))
                                                implies idx.contains(t) by {
                                            if t != cur {
                                                assert(lex_lt(t, cur));
                                                assert(idx0.contains(t));
                                                let k = choose|k: int| 0 <= k < idx0.len() && idx0[k] == t;
                                                assert(idx[k] == t);
                                            }
                                        }
                                    }
                                } else {
                                    assert(!is_quad_index(ws, b, cur));
                                }
                                ll = ll + 1;
                            }
                        } else {
                            assert forall|t: (int, int, int, int)|
                                is_quad_index(ws, b, t) && t.0 == ii && t.1 == jj implies t.2 != kk by {
                                if t.2 == kk {
                                    lemma_cost_grows(b, spent3, edges(ws[t.3]));
                                }
                            }
                        }
                        kk = kk + 1;
                    }
                } else {
                    assert forall|t: (int, int, int, int)|
                        is_quad_index(ws, b, t) && t.0 == ii implies t.1 != jj by {
                        if t.1 == jj {
                            let spent3 = spent2.add(edges(ws[t.2]));
                            lemma_cost_grows(b, spent3, edges(ws[t.3]));
                            lemma_cost_grows(b, spent2, edges(ws[t.2]));
                        }
                    }
                }
                jj = jj + 1;
            }
        } else {
            assert forall|t: (int, int, int, int)| is_quad_index(ws, b, t) implies t.0 != ii by {
                if t.0 == ii {
                    let spent2 = spent1.add(edges(ws[t.1]));
                    let spent3 = spent2.add(edges(ws[t.2]));
                    lemma_cost_grows(b, spent3, edges(ws[t.3]));
                    lemma_cost_grows(b, spent2, edges(ws[t.2]));
                    lemma_cost_grows(b, spent1, edges(ws[t.1]));
                }
            }
        }
        ii = ii + 1;
    }
    assert(lists_quads(ws, b, out@, idx));
    assert forall|k: int| 0 <= k < out@.len() implies quad_cost(
        ws[0][1],
        #[trigger] out@[k][0],
        out@[k][1],
        out@[k][2],
        out@[k][3],
    ).subset_of(b) by {
        assert(is_quad_index(ws, b, idx[k]));
    }
    out
}

/// Whether `out` lists, at positions `idx`, every affordable combination of
/// four words of `ws` exactly once, in increasing order of positions.
pub open spec fn is_quad_listing(ws: Seq<Word>, budget: Multiset<char>, out: Seq<Quad>) -> bool {
    exists|idx: Seq<(int, int, int, int)>| lists_quads(ws, budget, out, idx)
}

/// `out` is, group after group, the listing of the affordable combinations of
/// four words of each group of `gs`.
pub open spec fn quads_of(gs: Seq<Vec<Word>>, budget: Multiset<char>, out: Seq<Quad>) -> bool {
    exists|parts: Seq<Seq<Quad>>|
        {
            &&& parts.len() == gs.len()
            &&& forall|g: int|
                0 <= g < parts.len() ==> is_quad_listing(#[trigger] gs[g]@, budget, parts[g])
            &&& out == parts.flatten()
        }
}

/// The affordable combinations of four words of each group in turn, as
/// `four_word_product` gives them.
pub fn four_word_candidates(shared_middle: &[Vec<Word>], base_map: &LetterMap) -> (r: Vec<Quad>)
    ensures
        quads_of(shared_middle@, base_map@, r@),
{
    let mut out: Vec<Quad> = Vec::new();
    let ghost mut parts: Seq<Seq<Quad>> = Seq::empty();
    let mut g: usize = 0;
    while g < shared_middle.len()
        invariant
            g <= shared_middle@.len(),
            parts.len() == g,
            forall|h: int|
                0 <= h < g ==> is_quad_listing(#[trigger] shared_middle@[h]@, base_map@, parts[h]),
            out@ == parts.flatten_alt(),
        decreases shared_middle@.len() - g,
    {
        let mut more = four_word_product(shared_middle[g].as_slice(), base_map);
        proof {
            let parts0 = parts;
            parts = parts.push(more@);
            assert(parts.drop_last() =~= parts0);
        }
        out.append(&mut more);
        g = g + 1;
    }
    proof {
        parts.lemma_flatten_and_flatten_alt_are_equivalent();
        assert(parts.len() == shared_middle@.len());
    }
    out
}

/// The smallest of 0, 1, 2 and 3 that is none of `i`, `j`, `k`.
pub open spec fn missing_spec(i: int, j: int, k: int) -> int {
    if i != 0 && j != 0 && k != 0 {
        0
    } else if i != 1 && j != 1 && k != 1 {
        1
    } else if i != 2 && j != 2 && k != 2 {
        2
    } else {
        3
    }
}

/// The smallest position among four that is none of `ii`, `jj`, `kk`.
pub fn missing_index(ii: usize, jj: usize, kk: usize) -> (r: usize)
    requires
        ii < 4,
        jj < 4,
        kk < 4,
    ensures
        r == missing_spec(ii as int, jj as int, kk as int),
        r < 4,
        r != ii && r != jj && r != kk,
{
    if ii != 0 && jj != 0 && kk != 0 {
        0
    } else if ii != 1 && jj != 1 && kk != 1 {
        1
    } else if ii != 2 && jj != 2 && kk != 2 {
        2
    } else {
        3
    }
}

/// A role assignment `t` of the quad at position `t.0` of `quads`: three
/// distinct members `t.1`, `t.2`, `t.3` whose first letters spell a word of
/// `set`.
pub open spec fn is_role_index(quads: Seq<Quad>, set: Seq<Word>, t: (int, int, int, int)) -> bool {
    &&& 0 <= t.0 < quads.len()
    &&& 0 <= t.1 < 4 && 0 <= t.2 < 4 && 0 <= t.3 < 4
    &&& t.1 != t.2 && t.1 != t.3 && t.2 != t.3
    &&& has_word(set, quads[t.0][t.1][0], quads[t.0][t.2][0], quads[t.0][t.3][0])
}

/// `a` holds the members of `q` in the roles that `t` gives them: left
/// diagonal, middle column, right diagonal, then the member left over as the
/// middle row.
pub open spec fn assigned(a: Quad, q: Quad, t: (int, int, int, int)) -> bool {
    a[0] == q[t.1] && a[1] == q[t.2] && a[2] == q[t.3] && a[3] == q[missing_spec(t.1, t.2, t.3)]
}

/// `out` lists, at the assignments `idx`, every role assignment of `quads`
/// whose top row is a word, exactly once, in increasing order.
pub open spec fn lists_roles(
    quads: Seq<Quad>,
    set: Seq<Word>,
    out: Seq<Quad>,
    idx: Seq<(int, int, int, int)>,
) -> bool {
    &&& idx.len() == out.len()
    &&& forall|k: int|
        0 <= k < idx.len() ==> is_role_index(quads, set, #[trigger] idx[k]) && assigned(
            out[k],
            quads[idx[k].0],
            idx[k],
        )
    &&& forall|k1: int, k2: int|
        0 <= k1 < k2 < idx.len() ==> lex_lt(#[trigger] idx[k1], #[trigger] idx[k2])
    &&& forall|t: (int, int, int, int)| is_role_index(quads, set, t) ==> idx.contains(t)
}

/// `out` lists every role assignment of `quads` whose top row is a word of
/// `set`, exactly once, in increasing order.
pub open spec fn roles_of(quads: Seq<Quad>, set: Seq<Word>, out: Seq<Quad>) -> bool {
    exists|idx: Seq<(int, int, int, int)>| lists_roles(quads, set, out, idx)
}

/// Every way to give three distinct members of each quad the roles left
/// diagonal, middle column and right diagonal such that their first letters
/// spell a word of `possible_words` (the top row); the fourth member becomes
/// the middle row. Quads in turn, and for each the roles in increasing order
/// of positions.
pub fn top_row_candidates(four_cands: &Vec<Quad>, possible_words: &[Word]) -> (r: Vec<Quad>)
    ensures
        roles_of(four_cands@, possible_words@, r@),
        forall|k: int|
            0 <= k < r@.len() ==> has_word(
                possible_words@,
                #[trigger] r@[k][0][0],
                r@[k][1][0],
                r@[k][2][0],
            ),
{
    let ghost qs = four_cands@;
    let ghost set = possible_words@;
    let ghost mut idx: Seq<(int, int, int, int)> = Seq::empty();
    let mut out: Vec<Quad> = Vec::new();
    let mut c: usize = 0;
    while c < four_cands.len()
        invariant
            qs == four_cands@,
            set == possible_words@,
            c <= qs.len(),
            idx.len() == out@.len(),
            forall|k: int|
                0 <= k < idx.len() ==> is_role_index(qs, set, #[trigger] idx[k]) && assigned(
                    out@[k],
                    qs[idx[k].0],
                    idx[k],
                ),
            forall|k1: int, k2: int|
                0 <= k1 < k2 < idx.len() ==> lex_lt(#[trigger] idx[k1], #[trigger] idx[k2]),
            forall|k: int| 0 <= k < idx.len() ==> lex_lt(#[trigger] idx[k], (c as int, 0, 0, 0)),
            forall|t: (int, int, int, int)|
                is_role_index(qs, set, t) && lex_lt(t, (c as int, 0, 0, 0)) ==> idx.contains(t),
        decreases qs.len() - c,
    {
        let cand = four_cands[c];
        let mut ii: usize = 0;
        while ii < 4
            invariant
                qs == four_cands@,
                set == possible_words@,
                c < qs.len(),
                cand == qs[c as int],
                ii <= 4,
                idx.len() == out@.len(),
                forall|k: int|
                    0 <= k < idx.len() ==> is_role_index(qs, set, #[trigger] idx[k]) && assigned(
                        out@[k],
                        qs[idx[k].0],
                        idx[k],
                    ),
                forall|k1: int, k2: int|
                    0 <= k1 < k2 < idx.len() ==> lex_lt(#[trigger] idx[k1], #[trigger] idx[k2]),
                forall|k: int|
                    0 <= k < idx.len() ==> lex_lt(#[trigger] idx[k], (c as int, ii as int, 0, 0)),
                forall|t: (int, int, int, int)|
                    is_role_index(qs, set, t) && lex_lt(t, (c as int, ii as int, 0, 0))
                        ==> idx.contains(t),
            decreases 4 - ii,
        {
            let first = cand[ii];
            let mut jj: usize = 0;
            while jj < 4
                invariant
                    qs == four_cands@,
                    set == possible_words@,
                    c < qs.len(),
                    cand == qs[c as int],
                    ii < 4,
                    first == cand[ii as int],
                    jj <= 4,
                    idx.len() == out@.len(),
                    forall|k: int|
                        0 <= k < idx.len() ==> is_role_index(qs, set, #[trigger] idx[k])
                            && assigned(out@[k], qs[idx[k].0], idx[k]),
                    forall|k1: int, k2: int|
                        0 <= k1 < k2 < idx.len() ==> lex_lt(#[trigger] idx[k1], #[trigger] idx[k2]),
                    forall|k: int|
                        0 <= k < idx.len() ==> lex_lt(
                            #[trigger] idx[k],
                            (c as int, ii as int, jj as int, 0),
                        ),
                    forall|t: (int, int, int, int)|
                        is_role_index(qs, set, t) && lex_lt(t, (c as int, ii as int, jj as int, 0))
                            ==> idx.contains(t),
                decreases 4 - jj,
            {
                if jj != ii {
                    let second = cand[jj];
                    let mut kk: usize = 0;
                    while kk < 4
                        invariant
                            qs == four_cands@,
                            set == possible_words@,
                            c < qs.len(),
                            cand == qs[c as int],
                            ii < 4,
                            jj < 4,
                            ii != jj,
                            first == cand[ii as int],
                            second == cand[jj as int],
                            kk <= 4,
                            idx.len() == out@.len(),
                            forall|k: int|
                                0 <= k < idx.len() ==> is_role_index(qs, set, #[trigger] idx[k])
                                    && assigned(out@[k], qs[idx[k].0], idx[k]),
                            forall|k1: int, k2: int|
                                0 <= k1 < k2 < idx.len() ==> lex_lt(
                                    #[trigger] idx[k1],
                                    #[trigger] idx[k2],
                                ),
                            forall|k: int|
                                0 <= k < idx.len() ==> lex_lt(
                                    #[trigger] idx[k],
                                    (c as int, ii as int, jj as int, kk as int),
                                ),
                            forall|t: (int, int, int, int)|
                                is_role_index(qs, set, t) && lex_lt(
                                    t,
                                    (c as int, ii as int, jj as int, kk as int),
                                ) ==> idx.contains(t),
                        decreases 4 - kk,
                    {
                        let ghost cur = (c as int, ii as int, jj as int, kk as int);
                        let ghost idx0 = idx;
                        if kk != jj && kk != ii {
                            let third = cand[kk];
                            if contains_letters(possible_words, first[0], second[0], third[0]) {
                                let rest = missing_index(ii, jj, kk);
                                let top_cand: Quad = [first, second, third, cand[rest]];
                                assert(assigned(top_cand, qs[c as int], cur));
                                out.push(top_cand);
                                proof {
                                    idx = idx.push(cur);
                                    assert(idx[idx.len() - 1] == cur);
                                    assert forall|t: (int, int, int, int)|
                                        is_role_index(qs, set, t) && lex_lt(
                                            t,
                                            (cur.0, cur.1, cur.2, cur.3 + 1),
                                        ) implies idx.contains(t) by {
                                        if t != cur {
                                            assert(lex_lt(t, cur));
                                            assert(idx0.contains(t));
                                            let k = choose|k: int|
                                                0 <= k < idx0.len() && idx0[k] == t;
                                            assert(idx[k] == t);
                                        }
                                    }
                                }
                            }
                        }
                        kk = kk + 1;
                    }
                }
                jj = jj + 1;
            }
            ii = ii + 1;
        }
        c = c + 1;
    }
    assert(lists_roles(qs, set, out@, idx));
    assert forall|k: int| 0 <= k < out@.len() implies has_word(
        set,
        #[trigger] out@[k][0][0],
        out@[k][1][0],
        out@[k][2][0],
    ) by {
        assert(is_role_index(qs, set, idx[k]));
    }
    out
}

/// Whether the last letters of the three top-row members of `c` (left
/// diagonal, middle column, right diagonal) spell a word of `set`.
pub open spec fn bottom_ok(set: Seq<Word>) -> spec_fn(Quad) -> bool {
    |c: Quad| has_word(set, c[0][2], c[1][2], c[2][2])
}

/// Whether both edge columns of `c` spell words of `set`: the left one from
/// the first letters of the left diagonal and the middle row and the last
/// letter of the right diagonal; the right one from the first letter of the
/// right diagonal and the last letters of the middle row and the left
/// diagonal.
pub open spec fn rest_ok(set: Seq<Word>) -> spec_fn(Quad) -> bool {
    |c: Quad|
        has_word(set, c[0][0], c[3][0], c[2][2]) && has_word(set, c[2][0], c[3][2], c[0][2])
}

/// Keeps the role assignments whose bottom row spells a word.
pub fn filter_by_bottom(top_cands: Vec<Quad>, possible_words: &[Word]) -> (r: Vec<Quad>)
    ensures
        r@ == top_cands@.filter(bottom_ok(possible_words@)),
{
    let ghost p = bottom_ok(possible_words@);
    let mut out: Vec<Quad> = Vec::new();
    let mut i: usize = 0;
    while i < top_cands.len()
        invariant
            p == bottom_ok(possible_words@),
            i <= top_cands@.len(),
            out@ == top_cands@.take(i as int).filter(p),
        decreases top_cands@.len() - i,
    {
        let cand = top_cands[i];
        proof {
            lemma_filter_step(top_cands@, p, i as int);
        }
        if contains_letters(possible_words, cand[0][2], cand[1][2], cand[2][2]) {
            out.push(cand);
        }
        i = i + 1;
    }
    assert(top_cands@.take(i as int) =~= top_cands@);
    out
}

/// Keeps the role assignments whose two edge columns spell words.
pub fn filter_by_rest(cands: Vec<Quad>, possible_words: &[Word]) -> (r: Vec<Quad>)
    ensures
        r@ == cands@.filter(rest_ok(possible_words@)),
{
    let ghost p = rest_ok(possible_words@);
    let mut out: Vec<Quad> = Vec::new();
    let mut i: usize = 0;
    while i < cands.len()
        invariant
            p == rest_ok(possible_words@),
            i <= cands@.len(),
            out@ == cands@.take(i as int).filter(p),
        decreases cands@.len() - i,
    {
        let cand = cands[i];
        proof {
            lemma_filter_step(cands@, p, i as int);
        }
        if contains_letters(possible_words, cand[0][0], cand[3][0], cand[2][2]) && contains_letters(
            possible_words,
            cand[2][0],
            cand[3][2],
            cand[0][2],
        ) {
            out.push(cand);
        }
        i = i + 1;
    }
    assert(cands@.take(i as int) =~= cands@);
    out
}

/// The grid of a role assignment, row by row: the diagonals and the middle
/// column run through the cells that their names say (the centre from the
/// left diagonal), and the middle row's outer cells come from the fourth
/// word.
pub open spec fn grid_of(c: Quad) -> Seq<Seq<char>> {
    seq![
        seq![c[0][0], c[1][0], c[2][0]],
        seq![c[3][0], c[0][1], c[3][2]],
        seq![c[2][2], c[1][2], c[0][2]],
    ]
}

/// The three-by-three grid of a role assignment, in row-major order.
pub fn presentation_format(cand: &Quad) -> (r: Vec<Vec<char>>)
    ensures
        r@.len() == 3,
        forall|i: int| 0 <= i < 3 ==> #[trigger] r@[i]@ == grid_of(*cand)[i],
{
    let diag = cand[0];
    let vert = cand[1];
    let anti = cand[2];
    let horiz = cand[3];
    let top = vec![diag[0], vert[0], anti[0]];
    let middle = vec![horiz[0], diag[1], horiz[2]];
    let bottom = vec![anti[2], vert[2], diag[2]];
    let out = vec![top, middle, bottom];
    assert(out@[0]@ =~= grid_of(*cand)[0]);
    assert(out@[1]@ =~= grid_of(*cand)[1]);
    assert(out@[2]@ =~= grid_of(*cand)[2]);
    out
}

} // verus!
