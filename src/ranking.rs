use vstd::prelude::*;

use crate::text::views;

verus! {

/// A token with its postings: (internal id, weight) pairs.
pub type TokenEntry = (String, Vec<(u32, u8)>);

pub open spec fn table_view(t: Seq<TokenEntry>) -> Seq<(Seq<char>, Seq<(u32, u8)>)> {
    t.map_values(|e: TokenEntry| (e.0@, e.1@))
}

/// The postings of the first entry for token `t`, or none.
pub open spec fn postings_of(tab: Seq<(Seq<char>, Seq<(u32, u8)>)>, t: Seq<char>) -> Seq<(u32, u8)>
    decreases tab.len(),
{
    if tab.len() == 0 {
        Seq::empty()
    } else if tab[0].0 == t {
        tab[0].1
    } else {
        postings_of(tab.drop_first(), t)
    }
}

/// The sum of the weights that `ps` gives to `id`.
pub open spec fn weight_in(ps: Seq<(u32, u8)>, id: u32) -> int
    decreases ps.len(),
{
    if ps.len() == 0 {
        0
    } else {
        weight_in(ps.drop_last(), id) + if ps.last().0 == id {
            ps.last().1 as int
        } else {
            0
        }
    }
}

/// The token-overlap score of `id` for the query tokens `q`: every posting of
/// every query token counts, a token as often as it occurs in `q`.
pub open spec fn score(tab: Seq<(Seq<char>, Seq<(u32, u8)>)>, q: Seq<Seq<char>>, id: u32) -> int
    decreases q.len(),
{
    if q.len() == 0 {
        0
    } else {
        score(tab, q.drop_last(), id) + weight_in(postings_of(tab, q.last()), id)
    }
}

/// A score held in 64 bits: it stops at the largest value.
pub open spec fn cap(x: int) -> int {
    if x > u64::MAX {
        u64::MAX as int
    } else {
        x
    }
}

pub open spec fn ids_unique<S>(s: Seq<(u32, S)>) -> bool {
    forall|i: int, j: int| 0 <= i < j < s.len() ==> s[i].0 != s[j].0
}

/// `r` holds each id of a positive score once, with its capped score, in some order.
pub open spec fn is_candidate_list(
    tab: Seq<(Seq<char>, Seq<(u32, u8)>)>,
    q: Seq<Seq<char>>,
    r: Seq<(u32, u64)>,
) -> bool {
    &&& ids_unique(r)
    &&& forall|i: int|
        0 <= i < r.len() ==> score(tab, q, (#[trigger] r[i]).0) > 0 && r[i].1 == cap(
            score(tab, q, r[i].0),
        )
    &&& forall|id: u32| score(tab, q, id) > 0 ==> exists|i: int| 0 <= i < r.len() && r[i].0 == id
}

/// The position of the first entry for token `t`.
pub fn find_token(tab: &Vec<TokenEntry>, t: &String) -> (r: Option<usize>)
    ensures
        match r {
            Some(i) => i < tab@.len() && tab@[i as int].0@ == t@ && postings_of(table_view(tab@), t@)
                == tab@[i as int].1@ && forall|j: int| 0 <= j < i ==> (#[trigger] tab@[j]).0@ != t@,
            None => postings_of(table_view(tab@), t@) == Seq::<(u32, u8)>::empty() && forall|
                i: int,
            |
                0 <= i < tab@.len() ==> (#[trigger] tab@[i]).0@ != t@,
        },
{
    let ghost tv = table_view(tab@);
    let mut i: usize = 0;
    assert(tv.subrange(0, tv.len() as int) =~= tv);
    while i < tab.len()
        invariant
            i <= tab@.len(),
            tv == table_view(tab@),
            postings_of(tv, t@) == postings_of(tv.subrange(i as int, tv.len() as int), t@),
            forall|j: int| 0 <= j < i ==> (#[trigger] tab@[j]).0@ != t@,
        decreases tab.len() - i,
    {
        let ghost rest = tv.subrange(i as int, tv.len() as int);
        assert(rest[0] == tv[i as int]);
        assert(rest.drop_first() =~= tv.subrange(i + 1, tv.len() as int));
        if tab[i].0 == *t {
            return Some(i);
        }
        i = i + 1;
    }
    None
}

/// The position of `id` among the candidates.
fn find_candidate(r: &Vec<(u32, u64)>, id: u32) -> (k: Option<usize>)
    ensures
        match k {
            Some(i) => i < r@.len() && r@[i as int].0 == id,
            None => forall|i: int| 0 <= i < r@.len() ==> (#[trigger] r@[i]).0 != id,
        },
{
    let mut i: usize = 0;
    while i < r.len()
        invariant
            i <= r@.len(),
            forall|j: int| 0 <= j < i ==> (#[trigger] r@[j]).0 != id,
        decreases r.len() - i,
    {
        if r[i].0 == id {
            return Some(i);
        }
        i = i + 1;
    }
    None
}

/// Accumulates, for every internal id, the weights of the postings of every
/// query token. Ids with no positive weight are left out.
pub fn candidate_scores(tab: &Vec<TokenEntry>, q: &Vec<String>) -> (r: Vec<(u32, u64)>)
    ensures
        is_candidate_list(table_view(tab@), views(q@), r@),
{
    let ghost tv = table_view(tab@);
    let ghost qv = views(q@);
    let mut r: Vec<(u32, u64)> = Vec::new();
    let mut i: usize = 0;
    while i < q.len()
        invariant
            i <= q@.len(),
            tv == table_view(tab@),
            qv == views(q@),
            is_candidate_list(tv, qv.subrange(0, i as int), r@),
        decreases q.len() - i,
    {
        let ghost qi = qv.subrange(0, i + 1);
        assert(qi.drop_last() =~= qv.subrange(0, i as int));
        assert(qi.last() == q@[i as int]@);
        let ghost ps: Seq<(u32, u8)> = postings_of(tv, q@[i as int]@);
        match find_token(tab, &q[i]) {
            None => {
                assert forall|id: u32| score(tv, qi, id) == score(tv, qv.subrange(0, i as int), id) by {
                    assert(weight_in(ps, id) == 0);
                }
            },
            Some(k) => {
                let list = &tab[k].1;
                let mut j: usize = 0;
                assert(ps.subrange(0, 0) =~= Seq::<(u32, u8)>::empty());
                while j < list.len()
                    invariant
                        j <= list@.len(),
                        list@ == ps,
                        tv == table_view(tab@),
                        qv == views(q@),
                        i < q@.len(),
                        ids_unique(r@),
                        forall|x: int|
                            0 <= x < r@.len() ==> score(tv, qv.subrange(0, i as int), (#[trigger] r@[x]).0)
                                + weight_in(ps.subrange(0, j as int), r@[x].0) > 0 && r@[x].1 == cap(
                                score(tv, qv.subrange(0, i as int), r@[x].0) + weight_in(
                                    ps.subrange(0, j as int),
                                    r@[x].0,
                                ),
                            ),
                        forall|id: u32|
                            score(tv, qv.subrange(0, i as int), id) + weight_in(
                                ps.subrange(0, j as int),
                                id,
                            ) > 0 ==> exists|x: int| 0 <= x < r@.len() && r@[x].0 == id,
                    decreases list.len() - j,
                {
                    let (id, w) = list[j];
                    let ghost pj = ps.subrange(0, j + 1);
                    assert(pj.drop_last() =~= ps.subrange(0, j as int));
                    assert(pj.last() == (id, w));
                    let ghost old_r = r@;
                    let ghost mut pos: int = 0;
                    if w > 0 {
                        match find_candidate(&r, id) {
                            Some(x) => {
                                let cur = r[x].1;
                                r.set(x, (id, cur.saturating_add(w as u64)));
                                proof {
                                    pos = x as int;
                                }
                            },
                            None => {
                                assert(score(tv, qv.subrange(0, i as int), id) + weight_in(
                                    ps.subrange(0, j as int),
                                    id,
                                ) == 0) by {
                                    assert(score(tv, qv.subrange(0, i as int), id) >= 0) by {
                                        lemma_score_nonneg(tv, qv.subrange(0, i as int), id);
                                    }
                                    lemma_weight_nonneg(ps.subrange(0, j as int), id);
                                }
                                r.push((id, w as u64));
                                proof {
                                    pos = old_r.len() as int;
                                }
                            },
                        }
                    }
                    assert(r@.len() >= old_r.len());
                    assert(forall|x: int| 0 <= x < old_r.len() ==> r@[x].0 == old_r[x].0);
                    assert forall|id2: u32|
                        score(tv, qv.subrange(0, i as int), id2) + weight_in(pj, id2) > 0 implies exists|
                        x: int,
                    | 0 <= x < r@.len() && r@[x].0 == id2 by {
                        if id2 != id || w == 0 {
                            assert(weight_in(pj, id2) == weight_in(ps.subrange(0, j as int), id2));
                            let x0 = choose|x: int| 0 <= x < old_r.len() && old_r[x].0 == id2;
                            assert(r@[x0].0 == id2);
                        } else {
                            assert(r@[pos].0 == id2);
                        }
                    }
                    j = j + 1;
                }
                assert(ps.subrange(0, list@.len() as int) =~= ps);
            },
        }
        i = i + 1;
    }
    assert(qv.subrange(0, q@.len() as int) =~= qv);
    r
}

pub proof fn lemma_weight_nonneg(ps: Seq<(u32, u8)>, id: u32)
    ensures
        weight_in(ps, id) >= 0,
    decreases ps.len(),
{
    if ps.len() > 0 {
        lemma_weight_nonneg(ps.drop_last(), id);
    }
}

pub proof fn lemma_score_nonneg(tab: Seq<(Seq<char>, Seq<(u32, u8)>)>, q: Seq<Seq<char>>, id: u32)
    ensures
        score(tab, q, id) >= 0,
    decreases q.len(),
{
    if q.len() > 0 {
        lemma_score_nonneg(tab, q.drop_last(), id);
        lemma_weight_nonneg(postings_of(tab, q.last()), id);
    }
}

/// The highest score among the candidates; zero for none.
pub open spec fn max_score(s: Seq<(u32, u64)>) -> int
    decreases s.len(),
{
    if s.len() == 0 {
        0
    } else if max_score(s.drop_last()) >= s.last().1 {
        max_score(s.drop_last())
    } else {
        s.last().1 as int
    }
}

/// The candidates whose score is at least half of `highest`, in order.
pub open spec fn kept(s: Seq<(u32, u64)>, highest: int) -> Seq<(u32, u64)>
    decreases s.len(),
{
    if s.len() == 0 {
        Seq::empty()
    } else if 2 * s.last().1 >= highest {
        kept(s.drop_last(), highest).push(s.last())
    } else {
        kept(s.drop_last(), highest)
    }
}

/// Coarse pruning: drops every candidate that scores less than half of the
/// best candidate.
pub fn coarse_prune(scores: &Vec<(u32, u64)>) -> (r: Vec<(u32, u64)>)
    ensures
        r@ == kept(scores@, max_score(scores@)),
{
    let mut highest: u64 = 0;
    let mut i: usize = 0;
    while i < scores.len()
        invariant
            i <= scores@.len(),
            highest == max_score(scores@.subrange(0, i as int)),
        decreases scores.len() - i,
    {
        let ghost pre = scores@.subrange(0, i + 1);
        assert(pre.drop_last() =~= scores@.subrange(0, i as int));
        if scores[i].1 > highest {
            highest = scores[i].1;
        }
        i = i + 1;
    }
    assert(scores@.subrange(0, scores@.len() as int) =~= scores@);
    let mut r: Vec<(u32, u64)> = Vec::new();
    let mut k: usize = 0;
    assert(scores@.subrange(0, 0) =~= Seq::<(u32, u64)>::empty());
    while k < scores.len()
        invariant
            k <= scores@.len(),
            highest == max_score(scores@),
            r@ == kept(scores@.subrange(0, k as int), highest as int),
        decreases scores.len() - k,
    {
        let ghost pre = scores@.subrange(0, k + 1);
        assert(pre.drop_last() =~= scores@.subrange(0, k as int));
        let s = scores[k].1;
        if s >= highest || s >= highest - s {
            r.push(scores[k]);
        }
        k = k + 1;
    }
    r
}

/// What `sublime_fuzzy` scores for the best alignment of `query` in
/// `target`, or none where the whole query cannot be aligned.
pub uninterp spec fn fuzzy_score(query: Seq<char>, target: Seq<char>) -> Option<isize>;

/// Relies on `sublime_fuzzy::FuzzySearch::best_match` (case-insensitive,
/// default scoring) and `Match::score`: the score of the best match of the
/// whole query, a function of the two texts; none for an empty target.
#[verifier::external_body]
pub(crate) fn best_match_score(query: &str, target: &str) -> (r: Option<isize>)
    ensures
        r == fuzzy_score(query@, target@),
        target@.len() == 0 ==> r is None,
{
    sublime_fuzzy::FuzzySearch::new(query, target).case_insensitive().best_match().map(
        |m| m.score(),
    )
}

/// The candidates that the fuzzy scorer matched, each with its fuzzy score,
/// in order.
pub open spec fn matched(c: Seq<(u32, u64)>, f: Seq<Option<isize>>) -> Seq<(u32, isize)>
    decreases c.len(),
{
    if c.len() == 0 || f.len() == 0 {
        Seq::empty()
    } else {
        matched(c.drop_last(), f.drop_last()) + match f.last() {
            Some(x) => seq![(c.last().0, x)],
            None => Seq::empty(),
        }
    }
}

/// `x` placed into `s` before the first item that scores less than it.
pub open spec fn insert_desc(s: Seq<(u32, isize)>, x: (u32, isize)) -> Seq<(u32, isize)>
    decreases s.len(),
{
    if s.len() == 0 {
        seq![x]
    } else if s[0].1 < x.1 {
        seq![x] + s
    } else {
        seq![s[0]] + insert_desc(s.drop_first(), x)
    }
}

/// `s` ordered by score, highest first; equal scores keep their order.
pub open spec fn sort_desc(s: Seq<(u32, isize)>) -> Seq<(u32, isize)>
    decreases s.len(),
{
    if s.len() == 0 {
        Seq::empty()
    } else {
        insert_desc(sort_desc(s.drop_last()), s.last())
    }
}

/// The fuzzy ranking of the pruned candidates, given what the scorer found
/// for each.
pub open spec fn ranked(c: Seq<(u32, u64)>, f: Seq<Option<isize>>) -> Seq<(u32, isize)> {
    sort_desc(matched(c, f))
}

proof fn lemma_insert_at(s: Seq<(u32, isize)>, x: (u32, isize), p: int)
    requires
        0 <= p <= s.len(),
        forall|j: int| 0 <= j < p ==> s[j].1 >= x.1,
        p < s.len() ==> s[p].1 < x.1,
    ensures
        insert_desc(s, x) == s.insert(p, x),
    decreases s.len(),
{
    if s.len() == 0 {
        assert(s.insert(p, x) =~= seq![x]);
    } else if p == 0 {
        assert(s.insert(0, x) =~= seq![x] + s);
    } else {
        lemma_insert_at(s.drop_first(), x, p - 1);
        assert(s.insert(p, x) =~= seq![s[0]] + s.drop_first().insert(p - 1, x));
    }
}

/// Puts `x` before the first item of `v` that scores less than it.
fn insert_ranked(v: &mut Vec<(u32, isize)>, x: (u32, isize))
    ensures
        final(v)@ == insert_desc(old(v)@, x),
{
    let mut p: usize = 0;
    while p < v.len() && v[p].1 >= x.1
        invariant
            p <= v@.len(),
            forall|j: int| 0 <= j < p ==> v@[j].1 >= x.1,
        decreases v.len() - p,
    {
        p = p + 1;
    }
    proof {
        lemma_insert_at(v@, x, p as int);
    }
    v.insert(p, x);
}

/// Fuzzy rerank: keeps the candidates for which the scorer found a match and
/// orders them by its score, highest first.
pub fn rerank(cands: &Vec<(u32, u64)>, fuzzy: &Vec<Option<isize>>) -> (r: Vec<(u32, isize)>)
    requires
        cands@.len() == fuzzy@.len(),
    ensures
        r@ == ranked(cands@, fuzzy@),
{
    let mut r: Vec<(u32, isize)> = Vec::new();
    let mut i: usize = 0;
    assert(cands@.subrange(0, 0) =~= Seq::<(u32, u64)>::empty());
    while i < cands.len()
        invariant
            i <= cands@.len(),
            cands@.len() == fuzzy@.len(),
            r@ == sort_desc(matched(cands@.subrange(0, i as int), fuzzy@.subrange(0, i as int))),
        decreases cands.len() - i,
    {
        let ghost c1 = cands@.subrange(0, i + 1);
        let ghost f1 = fuzzy@.subrange(0, i + 1);
        assert(c1.drop_last() =~= cands@.subrange(0, i as int));
        assert(f1.drop_last() =~= fuzzy@.subrange(0, i as int));
        let ghost m0 = matched(cands@.subrange(0, i as int), fuzzy@.subrange(0, i as int));
        match fuzzy[i] {
            Some(x) => {
                let item = (cands[i].0, x);
                assert(matched(c1, f1) =~= m0.push(item));
                assert(m0.push(item).drop_last() =~= m0);
                insert_ranked(&mut r, item);
            },
            None => {
                assert(matched(c1, f1) =~= m0);
            },
        }
        i = i + 1;
    }
    assert(cands@.subrange(0, cands@.len() as int) =~= cands@);
    assert(fuzzy@.subrange(0, fuzzy@.len() as int) =~= fuzzy@);
    r
}

} // verus!
