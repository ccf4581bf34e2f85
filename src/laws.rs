use vstd::prelude::*;

use crate::document::Document;
use crate::index::{
    Index, Entry, added, index_text, strip, entry_of, iids, query_tokens, lemma_strip_within,
    lemma_postings_from_table, is_ranking, payloads_for, all_payloads,
};
use crate::ranking::{
    table_view, postings_of, weight_in, score, is_candidate_list, kept, max_score,
    lemma_weight_nonneg, lemma_score_nonneg,
};
use crate::text::{gram_tokens, word_tokens, all_space, trimmed};

verus! {

proof fn lemma_weight_ge(ps: Seq<(u32, u8)>, id: u32, j: int)
    requires
        0 <= j < ps.len(),
        ps[j].0 == id,
    ensures
        weight_in(ps, id) >= ps[j].1,
    decreases ps.len(),
{
    lemma_weight_nonneg(ps.drop_last(), id);
    if j < ps.len() - 1 {
        assert(ps.drop_last()[j] == ps[j]);
        lemma_weight_ge(ps.drop_last(), id, j);
    }
}

proof fn lemma_weight_zero(ps: Seq<(u32, u8)>, id: u32)
    requires
        forall|j: int| 0 <= j < ps.len() ==> (#[trigger] ps[j]).0 != id,
    ensures
        weight_in(ps, id) == 0,
    decreases ps.len(),
{
    if ps.len() > 0 {
        assert forall|j: int| 0 <= j < ps.drop_last().len() implies (
        #[trigger] ps.drop_last()[j]).0 != id by {
            assert(ps.drop_last()[j] == ps[j]);
        }
        lemma_weight_zero(ps.drop_last(), id);
    }
}

proof fn lemma_score_ge(tv: Seq<(Seq<char>, Seq<(u32, u8)>)>, q: Seq<Seq<char>>, id: u32, i: int)
    requires
        0 <= i < q.len(),
    ensures
        score(tv, q, id) >= weight_in(postings_of(tv, q[i]), id),
    decreases q.len(),
{
    lemma_score_nonneg(tv, q.drop_last(), id);
    lemma_weight_nonneg(postings_of(tv, q.last()), id);
    if i < q.len() - 1 {
        assert(q.drop_last()[i] == q[i]);
        lemma_score_ge(tv, q.drop_last(), id, i);
    }
}

proof fn lemma_score_zero(tv: Seq<(Seq<char>, Seq<(u32, u8)>)>, q: Seq<Seq<char>>, id: u32)
    requires
        forall|i: int| 0 <= i < q.len() ==> weight_in(postings_of(tv, #[trigger] q[i]), id) == 0,
    ensures
        score(tv, q, id) == 0,
    decreases q.len(),
{
    if q.len() > 0 {
        assert forall|i: int| 0 <= i < q.drop_last().len() implies weight_in(
            postings_of(tv, #[trigger] q.drop_last()[i]),
            id,
        ) == 0 by {
            assert(q.drop_last()[i] == q[i]);
        }
        lemma_score_zero(tv, q.drop_last(), id);
        assert(q.last() == q[q.len() - 1]);
    }
}

/// Where no posting of the table names `id`, `id` scores nothing.
proof fn lemma_absent_scores_zero(tv: Seq<(Seq<char>, Seq<(u32, u8)>)>, q: Seq<Seq<char>>, id: u32)
    requires
        forall|k: int, j: int| 0 <= k < tv.len() && 0 <= j < tv[k].1.len() ==> #[trigger] tv[k].1[j].0 != id,
    ensures
        score(tv, q, id) == 0,
{
    assert forall|i: int| 0 <= i < q.len() implies weight_in(postings_of(tv, #[trigger] q[i]), id)
        == 0 by {
        lemma_postings_from_table(tv, q[i]);
        let ps = postings_of(tv, q[i]);
        assert forall|j: int| 0 <= j < ps.len() implies (#[trigger] ps[j]).0 != id by {
            let k = choose|k: int| 0 <= k < tv.len() && ps == (#[trigger] tv[k]).1;
            assert(tv[k].1[j].0 != id);
        }
        lemma_weight_zero(ps, id);
    }
    lemma_score_zero(tv, q, id);
}

proof fn lemma_no_entry(items: Seq<Entry>, iid: u32)
    requires
        forall|j: int| 0 <= j < items.len() ==> (#[trigger] items[j]).iid != iid,
    ensures
        entry_of(items, iid) is None,
    decreases items.len(),
{
    if items.len() > 0 {
        assert forall|j: int| 0 <= j < items.drop_first().len() implies (
        #[trigger] items.drop_first()[j]).iid != iid by {
            assert(items.drop_first()[j] == items[j + 1]);
        }
        lemma_no_entry(items.drop_first(), iid);
    }
}

/// A word posting of `id` under a token that the query has as a whole word
/// gives `id` a score of at least 50.
proof fn lemma_word_match_scores(
    tv: Seq<(Seq<char>, Seq<(u32, u8)>)>,
    q: Seq<char>,
    t: Seq<char>,
    id: u32,
)
    requires
        word_tokens(q).contains(t),
        postings_of(tv, t).len() > 0,
        postings_of(tv, t).last() == (id, 50u8),
    ensures
        score(tv, query_tokens(q), id) >= 50,
{
    let i = choose|i: int| 0 <= i < word_tokens(q).len() && word_tokens(q)[i] == t;
    let qt = query_tokens(q);
    assert(qt[gram_tokens(q).len() + i] == t);
    lemma_weight_ge(postings_of(tv, t), id, postings_of(tv, t).len() - 1);
    lemma_score_ge(tv, qt, id, gram_tokens(q).len() + i);
}

/// Adding a document makes it a candidate of every query that shares a
/// whole word with its indexed text: it scores at least 50 there, and every
/// candidate list of such a query holds it.
pub proof fn law_added_document_is_candidate(
    pre: Index,
    post: Index,
    obj: Document,
    q: Seq<char>,
    t: Seq<char>,
)
    requires
        forall|x: Seq<char>|
            #[trigger] postings_of(table_view(post.token_scoring@), x) == postings_of(
                table_view(pre.token_scoring@),
                x,
            ) + added(index_text(obj, pre.fields@), pre.id_counter, x),
        word_tokens(index_text(obj, pre.fields@)).contains(t),
        word_tokens(q).contains(t),
    ensures
        score(table_view(post.token_scoring@), query_tokens(q), pre.id_counter) >= 50,
        forall|c: Seq<(u32, u64)>|
            is_candidate_list(table_view(post.token_scoring@), query_tokens(q), c) ==> exists|i: int|
                0 <= i < c.len() && (#[trigger] c[i]).0 == pre.id_counter,
{
    let tv = table_view(post.token_scoring@);
    assert(postings_of(tv, t).last() == (pre.id_counter, 50u8));
    lemma_word_match_scores(tv, q, t, pre.id_counter);
    assert forall|c: Seq<(u32, u64)>| is_candidate_list(tv, query_tokens(q), c) implies exists|
        i: int,
    | 0 <= i < c.len() && (#[trigger] c[i]).0 == pre.id_counter by {
        let i = choose|i: int| 0 <= i < c.len() && c[i].0 == pre.id_counter;
        assert(c[i].0 == pre.id_counter);
    }
}

/// After a successful removal no posting names the removed document, it
/// scores nothing for any query, no candidate list holds it, and it is no
/// longer stored.
pub proof fn law_removed_document_is_gone(pre: Index, post: Index, k: int, q: Seq<char>)
    requires
        pre.wf(),
        0 <= k < pre.items@.len(),
        post.items@ == pre.items@.remove(k),
        table_view(post.token_scoring@) == strip(table_view(pre.token_scoring@), pre.items@[k].iid),
    ensures
        forall|a: int, j: int|
            0 <= a < table_view(post.token_scoring@).len() && 0 <= j < table_view(
                post.token_scoring@,
            )[a].1.len() ==> #[trigger] table_view(post.token_scoring@)[a].1[j].0
                != pre.items@[k].iid,
        score(table_view(post.token_scoring@), query_tokens(q), pre.items@[k].iid) == 0,
        forall|c: Seq<(u32, u64)>, i: int|
            is_candidate_list(table_view(post.token_scoring@), query_tokens(q), c) && 0 <= i
                < c.len() ==> (#[trigger] c[i]).0 != pre.items@[k].iid,
        entry_of(post.items@, pre.items@[k].iid) is None,
{
    let iid = pre.items@[k].iid;
    let tv = table_view(post.token_scoring@);
    lemma_strip_within(table_view(pre.token_scoring@), iid, iids(pre.items@));
    assert forall|a: int, j: int| 0 <= a < tv.len() && 0 <= j < tv[a].1.len() implies #[trigger] tv[a].1[j].0 != iid by {
        assert(iids(pre.items@).remove(iid).contains(tv[a].1[j].0));
    }
    lemma_absent_scores_zero(tv, query_tokens(q), iid);
    assert forall|j: int| 0 <= j < post.items@.len() implies (#[trigger] post.items@[j]).iid
        != iid by {
        let oj = if j < k { j } else { j + 1 };
        assert(post.items@[j] == pre.items@[oj]);
    }
    lemma_no_entry(post.items@, iid);
}

/// After an update, the document scores nothing for a query none of whose
/// tokens is a token of its new text, and at least 50 for one that shares a
/// whole word with the new text.
pub proof fn law_update_replaces_content(
    pre: Index,
    post: Index,
    obj: Document,
    k: int,
    q: Seq<char>,
)
    requires
        pre.wf(),
        0 <= k < pre.items@.len(),
        forall|x: Seq<char>|
            #[trigger] postings_of(table_view(post.token_scoring@), x) == postings_of(
                strip(table_view(pre.token_scoring@), pre.items@[k].iid),
                x,
            ) + added(index_text(obj, pre.fields@), pre.items@[k].iid, x),
    ensures
        (forall|i: int|
            0 <= i < query_tokens(q).len() ==> !gram_tokens(index_text(obj, pre.fields@)).contains(
                #[trigger] query_tokens(q)[i],
            ) && !word_tokens(index_text(obj, pre.fields@)).contains(query_tokens(q)[i]))
            ==> score(table_view(post.token_scoring@), query_tokens(q), pre.items@[k].iid) == 0,
        (exists|t: Seq<char>|
            word_tokens(index_text(obj, pre.fields@)).contains(t) && #[trigger] word_tokens(
                q,
            ).contains(t)) ==> score(
            table_view(post.token_scoring@),
            query_tokens(q),
            pre.items@[k].iid,
        ) >= 50,
{
    let iid = pre.items@[k].iid;
    let text = index_text(obj, pre.fields@);
    let tv = table_view(post.token_scoring@);
    let sv = strip(table_view(pre.token_scoring@), iid);
    let qt = query_tokens(q);
    lemma_strip_within(table_view(pre.token_scoring@), iid, iids(pre.items@));
    if forall|i: int|
        0 <= i < qt.len() ==> !gram_tokens(text).contains(#[trigger] qt[i]) && !word_tokens(
            text,
        ).contains(qt[i]) {
        assert forall|i: int| 0 <= i < qt.len() implies weight_in(postings_of(tv, #[trigger] qt[i]), iid)
            == 0 by {
            let x = qt[i];
            assert(added(text, iid, x) =~= Seq::<(u32, u8)>::empty());
            assert(postings_of(tv, x) =~= postings_of(sv, x));
            lemma_postings_from_table(sv, x);
            let ps = postings_of(sv, x);
            assert forall|j: int| 0 <= j < ps.len() implies (#[trigger] ps[j]).0 != iid by {
                let a = choose|a: int| 0 <= a < sv.len() && ps == (#[trigger] sv[a]).1;
                assert(iids(pre.items@).remove(iid).contains(sv[a].1[j].0));
            }
            lemma_weight_zero(ps, iid);
        }
        lemma_score_zero(tv, qt, iid);
    }
    if exists|t: Seq<char>| word_tokens(text).contains(t) && #[trigger] word_tokens(q).contains(t) {
        let t = choose|t: Seq<char>| word_tokens(text).contains(t) && #[trigger] word_tokens(q).contains(t);
        assert(postings_of(tv, t).last() == (iid, 50u8));
        lemma_word_match_scores(tv, q, t, iid);
    }
}

/// Two additions in a row give the second document the next internal id.
pub proof fn law_ids_increase(a: Index, b: Index, c: Index)
    requires
        b.id_counter == a.id_counter + 1,
        b.items@.len() > 0,
        b.items@.last().iid == a.id_counter,
        c.items@.len() > 0,
        c.items@.last().iid == b.id_counter,
    ensures
        c.items@.last().iid == b.items@.last().iid + 1,
        c.items@.last().iid > b.items@.last().iid,
{
}

/// Coarse pruning keeps a candidate exactly where twice its score reaches
/// the best score.
pub proof fn law_prune_threshold(s: Seq<(u32, u64)>, i: int)
    requires
        0 <= i < s.len(),
    ensures
        kept(s, max_score(s)).contains(s[i]) <==> 2 * s[i].1 >= max_score(s),
{
    lemma_kept_members(s, max_score(s));
    if 2 * s[i].1 >= max_score(s) {
        lemma_kept_has(s, max_score(s), i);
    }
}

proof fn lemma_kept_members(s: Seq<(u32, u64)>, h: int)
    ensures
        forall|j: int| 0 <= j < kept(s, h).len() ==> 2 * (#[trigger] kept(s, h)[j]).1 >= h,
    decreases s.len(),
{
    if s.len() > 0 {
        lemma_kept_members(s.drop_last(), h);
        let k0 = kept(s.drop_last(), h);
        assert forall|j: int| 0 <= j < kept(s, h).len() implies 2 * (#[trigger] kept(s, h)[j]).1 >= h by {
            if j < k0.len() {
                assert(kept(s, h)[j] == k0[j]);
            }
        }
    }
}

proof fn lemma_kept_has(s: Seq<(u32, u64)>, h: int, i: int)
    requires
        0 <= i < s.len(),
        2 * s[i].1 >= h,
    ensures
        kept(s, h).contains(s[i]),
    decreases s.len(),
{
    let k0 = kept(s.drop_last(), h);
    if i == s.len() - 1 {
        assert(kept(s, h)[k0.len() as int] == s[i]);
    } else {
        assert(s.drop_last()[i] == s[i]);
        lemma_kept_has(s.drop_last(), h, i);
        let j = choose|j: int| 0 <= j < k0.len() && k0[j] == s[i];
        assert(kept(s, h)[j] == s[i]);
    }
}

proof fn lemma_score_monotone(tv: Seq<(Seq<char>, Seq<(u32, u8)>)>, q: Seq<Seq<char>>, a: u32, b: u32)
    requires
        forall|i: int|
            0 <= i < q.len() ==> weight_in(postings_of(tv, #[trigger] q[i]), a) >= weight_in(
                postings_of(tv, q[i]),
                b,
            ),
    ensures
        score(tv, q, a) >= score(tv, q, b),
    decreases q.len(),
{
    if q.len() > 0 {
        assert forall|i: int| 0 <= i < q.drop_last().len() implies weight_in(
            postings_of(tv, #[trigger] q.drop_last()[i]),
            a,
        ) >= weight_in(postings_of(tv, q.drop_last()[i]), b) by {
            assert(q.drop_last()[i] == q[i]);
        }
        lemma_score_monotone(tv, q.drop_last(), a, b);
        assert(q.last() == q[q.len() - 1]);
    }
}

/// All else equal, a whole-word match outranks n-gram overlap: where `a`
/// weighs at least as much as `b` on every query token, and on one token at
/// least 50 more (a whole-word posting), `a` scores at least 50 more.
pub proof fn law_word_match_outranks(
    tv: Seq<(Seq<char>, Seq<(u32, u8)>)>,
    q: Seq<Seq<char>>,
    a: u32,
    b: u32,
    i: int,
)
    requires
        forall|j: int|
            0 <= j < q.len() ==> weight_in(postings_of(tv, #[trigger] q[j]), a) >= weight_in(
                postings_of(tv, q[j]),
                b,
            ),
        0 <= i < q.len(),
        weight_in(postings_of(tv, q[i]), a) >= weight_in(postings_of(tv, q[i]), b) + 50,
    ensures
        score(tv, q, a) >= score(tv, q, b) + 50,
    decreases q.len(),
{
    let q0 = q.drop_last();
    assert forall|j: int| 0 <= j < q0.len() implies weight_in(postings_of(tv, #[trigger] q0[j]), a)
        >= weight_in(postings_of(tv, q0[j]), b) by {
        assert(q0[j] == q[j]);
    }
    assert(q.last() == q[q.len() - 1]);
    if i == q.len() - 1 {
        lemma_score_monotone(tv, q0, a, b);
    } else {
        assert(q0[i] == q[i]);
        law_word_match_outranks(tv, q0, a, b, i);
    }
}

proof fn lemma_entry_is_stored(items: Seq<Entry>, iid: u32)
    requires
        entry_of(items, iid) is Some,
    ensures
        exists|j: int| 0 <= j < items.len() && items[j] == entry_of(items, iid)->0,
    decreases items.len(),
{
    if items[0].iid != iid {
        lemma_entry_is_stored(items.drop_first(), iid);
        let j = choose|j: int|
            0 <= j < items.drop_first().len() && items.drop_first()[j] == entry_of(
                items.drop_first(),
                iid,
            )->0;
        assert(items[j + 1] == items.drop_first()[j]);
    } else {
        assert(items[0] == entry_of(items, iid)->0);
    }
}

proof fn lemma_payloads_are_stored(items: Seq<Entry>, rk: Seq<(u32, isize)>)
    ensures
        forall|i: int|
            0 <= i < payloads_for(items, rk).len() ==> exists|j: int|
                0 <= j < items.len() && (#[trigger] payloads_for(items, rk)[i]) == items[j].doc.payload@,
    decreases rk.len(),
{
    if rk.len() > 0 {
        lemma_payloads_are_stored(items, rk.drop_last());
        let p0 = payloads_for(items, rk.drop_last());
        let p = payloads_for(items, rk);
        assert forall|i: int| 0 <= i < p.len() implies exists|j: int|
            0 <= j < items.len() && (#[trigger] p[i]) == items[j].doc.payload@ by {
            if i < p0.len() {
                assert(p[i] == p0[i]);
            } else {
                lemma_entry_is_stored(items, rk.last().0);
                let j = choose|j: int|
                    0 <= j < items.len() && items[j] == entry_of(items, rk.last().0)->0;
                assert(p[i] == items[j].doc.payload@);
            }
        }
    }
}

/// After a successful removal, whatever a search returns — for any query,
/// white space alone included — is the payload of a document still stored,
/// and none of those is the removed one.
pub proof fn law_search_after_removal(
    pre: Index,
    post: Index,
    k: int,
    raw_query: Seq<char>,
    r: Seq<Seq<char>>,
)
    requires
        pre.wf(),
        0 <= k < pre.items@.len(),
        post.items@ == pre.items@.remove(k),
        all_space(raw_query) ==> r == all_payloads(post.items@),
        !all_space(raw_query) ==> exists|rk: Seq<(u32, isize)>|
            is_ranking(post, trimmed(raw_query), rk) && r == payloads_for(post.items@, rk),
    ensures
        forall|i: int|
            0 <= i < r.len() ==> exists|j: int|
                0 <= j < post.items@.len() && post.items@[j].iid != pre.items@[k].iid && (
                #[trigger] r[i]) == post.items@[j].doc.payload@,
{
    assert forall|j: int| 0 <= j < post.items@.len() implies (#[trigger] post.items@[j]).iid
        != pre.items@[k].iid by {
        let oj = if j < k { j } else { j + 1 };
        assert(post.items@[j] == pre.items@[oj]);
    }
    assert forall|i: int| 0 <= i < r.len() implies exists|j: int|
        0 <= j < post.items@.len() && post.items@[j].iid != pre.items@[k].iid && (#[trigger] r[i])
            == post.items@[j].doc.payload@ by {
        if all_space(raw_query) {
            assert(post.items@[i].iid != pre.items@[k].iid);
        } else {
            let rk = choose|rk: Seq<(u32, isize)>|
                is_ranking(post, trimmed(raw_query), rk) && r == payloads_for(post.items@, rk);
            lemma_payloads_are_stored(post.items@, rk);
            let j = choose|j: int|
                0 <= j < post.items@.len() && (#[trigger] payloads_for(post.items@, rk)[i])
                    == post.items@[j].doc.payload@;
            assert(post.items@[j].iid != pre.items@[k].iid);
        }
    }
}

} // verus!
