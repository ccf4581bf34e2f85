use vstd::prelude::*;

use crate::document::{Document, extract_fields, document_id, extracted, id_of};
use crate::ranking::{
    TokenEntry, table_view, postings_of, find_token, is_candidate_list, kept, max_score, ranked,
    fuzzy_score, candidate_scores, coarse_prune, best_match_score, rerank,
};
use crate::text::{
    views, trim, trimmed, gramify, clean_words, dedup, gram_tokens, word_tokens, all_space,
};

verus! {

/// A stored document under its internal and external identifiers.
pub struct Entry {
    pub iid: u32,
    pub id: String,
    pub doc: Document,
}

/// An in-memory full-text index.
pub struct Index {
    /// The internal id that the next new document gets.
    pub id_counter: u32,
    /// The stored documents, in order of first ingestion.
    pub items: Vec<Entry>,
    /// The inverted index: each token with its postings.
    pub token_scoring: Vec<TokenEntry>,
    /// The fields whose text is indexed, in order.
    pub fields: Vec<String>,
}

#[derive(Debug, PartialEq, Eq, Structural)]
pub enum IndexError {
    /// The document has no `_id` member holding a text.
    MissingIdentifier,
    /// A document with this external id is already stored.
    DuplicateIdentifier,
    /// No document with this external id is stored.
    UnknownIdentifier,
}

pub open spec fn iids(items: Seq<Entry>) -> Set<u32> {
    Set::new(|x: u32| exists|k: int| 0 <= k < items.len() && items[k].iid == x)
}

pub open spec fn ext_ids(items: Seq<Entry>) -> Set<Seq<char>> {
    Set::new(|x: Seq<char>| exists|k: int| 0 <= k < items.len() && items[k].id@ == x)
}

/// Every posting of the table names an id of `s`.
pub open spec fn posting_ids_within(tv: Seq<(Seq<char>, Seq<(u32, u8)>)>, s: Set<u32>) -> bool {
    forall|k: int, j: int|
        0 <= k < tv.len() && 0 <= j < tv[k].1.len() ==> s.contains(#[trigger] tv[k].1[j].0)
}

/// Each token has one entry, and no entry is left without postings.
pub open spec fn table_ok(tv: Seq<(Seq<char>, Seq<(u32, u8)>)>) -> bool {
    &&& forall|i: int, j: int| 0 <= i < j < tv.len() ==> tv[i].0 != tv[j].0
    &&& forall|i: int| 0 <= i < tv.len() ==> (#[trigger] tv[i]).1.len() > 0
}

/// The postings of a token are those of some entry of the table, or none.
pub proof fn lemma_postings_from_table(tv: Seq<(Seq<char>, Seq<(u32, u8)>)>, x: Seq<char>)
    ensures
        postings_of(tv, x).len() == 0 || exists|k: int|
            0 <= k < tv.len() && postings_of(tv, x) == (#[trigger] tv[k]).1,
    decreases tv.len(),
{
    if tv.len() > 0 && tv[0].0 != x {
        lemma_postings_from_table(tv.drop_first(), x);
        if postings_of(tv, x).len() > 0 {
            let k = choose|k: int|
                0 <= k < tv.drop_first().len() && postings_of(tv.drop_first(), x) == (
                #[trigger] tv.drop_first()[k]).1;
            assert(tv[k + 1] == tv.drop_first()[k]);
        }
    }
}

/// No postings list holds the same posting twice.
pub open spec fn no_repeat(tv: Seq<(Seq<char>, Seq<(u32, u8)>)>) -> bool {
    forall|k: int| 0 <= k < tv.len() ==> (#[trigger] tv[k]).1.no_duplicates()
}

/// With one entry per token, the postings of an entry's token are that
/// entry's whole list: `postings_of` then describes the full table.
pub proof fn lemma_entry_postings(tv: Seq<(Seq<char>, Seq<(u32, u8)>)>, k: int)
    requires
        table_ok(tv),
        0 <= k < tv.len(),
    ensures
        postings_of(tv, tv[k].0) == tv[k].1,
    decreases k,
{
    if k > 0 {
        assert(tv[0].0 != tv[k].0);
        let t0 = tv.drop_first();
        assert forall|i: int, j: int| 0 <= i < j < t0.len() implies t0[i].0 != t0[j].0 by {
            assert(t0[i] == tv[i + 1] && t0[j] == tv[j + 1]);
        }
        assert forall|i: int| 0 <= i < t0.len() implies (#[trigger] t0[i]).1.len() > 0 by {
            assert(t0[i] == tv[i + 1]);
        }
        assert(t0[k - 1] == tv[k]);
        lemma_entry_postings(t0, k - 1);
    }
}

/// No posting of the table names `iid`.
pub open spec fn unposted(tv: Seq<(Seq<char>, Seq<(u32, u8)>)>, iid: u32) -> bool {
    forall|k: int, j: int| 0 <= k < tv.len() && 0 <= j < tv[k].1.len() ==> #[trigger] tv[k].1[j].0 != iid
}

impl Index {
    /// The index's invariant: internal ids are unique and below the counter,
    /// external ids are unique, every posting names a stored document, each
    /// token has one entry, no entry is left without postings, and no list
    /// holds the same posting twice.
    pub open spec fn wf(&self) -> bool {
        &&& forall|i: int, j: int|
            0 <= i < j < self.items@.len() ==> self.items@[i].iid != self.items@[j].iid
                && self.items@[i].id@ != self.items@[j].id@
        &&& forall|i: int| 0 <= i < self.items@.len() ==> (#[trigger] self.items@[i]).iid < self.id_counter
        &&& posting_ids_within(table_view(self.token_scoring@), iids(self.items@))
        &&& table_ok(table_view(self.token_scoring@))
        &&& no_repeat(table_view(self.token_scoring@))
    }
}

/// A fresh index over `fields`: no documents, no postings, counter at zero.
pub fn create(fields: Vec<String>) -> (r: Index)
    ensures
        r.wf(),
        r.id_counter == 0,
        r.items@.len() == 0,
        r.token_scoring@.len() == 0,
        r.fields@ == fields@,
{
    Index { id_counter: 0, items: Vec::new(), token_scoring: Vec::new(), fields }
}

/// Empties the index and resets its counter; the fields stay.
pub fn clear(index: &mut Index)
    ensures
        final(index).wf(),
        final(index).id_counter == 0,
        final(index).items@.len() == 0,
        final(index).token_scoring@.len() == 0,
        final(index).fields@ == old(index).fields@,
{
    index.id_counter = 0;
    index.items = Vec::new();
    index.token_scoring = Vec::new();
}

proof fn lemma_update_lookup(
    tab: Seq<(Seq<char>, Seq<(u32, u8)>)>,
    k: int,
    list: Seq<(u32, u8)>,
    t: Seq<char>,
)
    requires
        0 <= k < tab.len(),
        forall|j: int| 0 <= j < k ==> tab[j].0 != tab[k].0,
    ensures
        postings_of(tab.update(k, (tab[k].0, list)), t) == if t == tab[k].0 {
            list
        } else {
            postings_of(tab, t)
        },
    decreases k,
{
    let u = tab.update(k, (tab[k].0, list));
    if k == 0 {
        assert(u.drop_first() =~= tab.drop_first());
    } else {
        assert(u.drop_first() =~= tab.drop_first().update(k - 1, (tab[k].0, list)));
        assert(tab.drop_first()[k - 1] == tab[k]);
        lemma_update_lookup(tab.drop_first(), k - 1, list, t);
    }
}

proof fn lemma_push_lookup(
    tab: Seq<(Seq<char>, Seq<(u32, u8)>)>,
    e: (Seq<char>, Seq<(u32, u8)>),
    t: Seq<char>,
)
    requires
        forall|j: int| 0 <= j < tab.len() ==> tab[j].0 != e.0,
    ensures
        postings_of(tab.push(e), t) == if t == e.0 {
            e.1
        } else {
            postings_of(tab, t)
        },
    decreases tab.len(),
{
    if tab.len() == 0 {
        assert(tab.push(e).drop_first() =~= tab);
    } else {
        assert(tab.push(e).drop_first() =~= tab.drop_first().push(e));
        lemma_push_lookup(tab.drop_first(), e, t);
    }
}

/// Appends the posting `p` to the postings of token `t`.
fn add_posting(tab: &mut Vec<TokenEntry>, t: String, p: (u32, u8), Ghost(s): Ghost<Set<u32>>)
    requires
        posting_ids_within(table_view(old(tab)@), s),
        table_ok(table_view(old(tab)@)),
        no_repeat(table_view(old(tab)@)),
        !postings_of(table_view(old(tab)@), t@).contains(p),
        s.contains(p.0),
    ensures
        posting_ids_within(table_view(final(tab)@), s),
        table_ok(table_view(final(tab)@)),
        no_repeat(table_view(final(tab)@)),
        forall|x: Seq<char>|
            #[trigger] postings_of(table_view(final(tab)@), x) == if x == t@ {
                postings_of(table_view(old(tab)@), x).push(p)
            } else {
                postings_of(table_view(old(tab)@), x)
            },
{
    let ghost tv = table_view(tab@);
    match find_token(tab, &t) {
        Some(k) => {
            let mut e = tab.remove(k);
            let ghost ol = e.1@;
            e.1.push(p);
            let ghost ev = (e.0@, e.1@);
            tab.insert(k, e);
            assert(table_view(tab@) =~= tv.update(k as int, (tv[k as int].0, ol.push(p))));
            assert(ol.push(p).no_duplicates()) by {
                assert forall|a: int, b: int| 0 <= a < b < ol.push(p).len() implies ol.push(p)[a]
                    != ol.push(p)[b] by {
                    if b == ol.len() {
                        assert(ol[a] == ol.push(p)[a]);
                    } else {
                        assert(tv[k as int].1 == ol);
                    }
                }
            }
            assert forall|x: Seq<char>|
                #[trigger] postings_of(table_view(tab@), x) == if x == t@ {
                    postings_of(tv, x).push(p)
                } else {
                    postings_of(tv, x)
                } by {
                lemma_update_lookup(tv, k as int, ol.push(p), x);
            }
            assert(posting_ids_within(table_view(tab@), s)) by {
                assert forall|a: int, b: int|
                    0 <= a < table_view(tab@).len() && 0 <= b < table_view(tab@)[a].1.len()
                        implies s.contains(#[trigger] table_view(tab@)[a].1[b].0) by {
                    if a == k && b < ol.len() {
                        assert(table_view(tab@)[a].1[b] == tv[a].1[b]);
                    }
                }
            }
        },
        None => {
            let mut v: Vec<(u32, u8)> = Vec::new();
            v.push(p);
            let ghost e = (t@, v@);
            tab.push((t, v));
            assert(table_view(tab@) =~= tv.push(e));
            assert(forall|i: int| 0 <= i < tv.len() ==> tv[i].0 == tab@[i].0@);
            assert(e.1.no_duplicates());
            assert forall|x: Seq<char>|
                #[trigger] postings_of(table_view(tab@), x) == if x == e.0 {
                    postings_of(tv, x).push(p)
                } else {
                    postings_of(tv, x)
                } by {
                lemma_push_lookup(tv, e, x);
                assert(postings_of(tv, e.0).push(p) =~= e.1);
            }
        },
    }
}

/// What indexing a text adds to the postings of token `t`: the n-gram
/// posting, then the whole-word posting, each where `t` is such a token.
pub open spec fn added(text: Seq<char>, iid: u32, t: Seq<char>) -> Seq<(u32, u8)> {
    (if gram_tokens(text).contains(t) {
        seq![(iid, 1u8)]
    } else {
        Seq::empty()
    }) + (if word_tokens(text).contains(t) {
        seq![(iid, 50u8)]
    } else {
        Seq::empty()
    })
}

/// Adds, once for each distinct token of `toks`, the posting `(iid, w)`.
fn post_all(
    tab: &mut Vec<TokenEntry>,
    toks: Vec<String>,
    iid: u32,
    w: u8,
    Ghost(s): Ghost<Set<u32>>,
)
    requires
        posting_ids_within(table_view(old(tab)@), s),
        table_ok(table_view(old(tab)@)),
        no_repeat(table_view(old(tab)@)),
        forall|x: Seq<char>| !(#[trigger] postings_of(table_view(old(tab)@), x)).contains((iid, w)),
        s.contains(iid),
        views(toks@).no_duplicates(),
    ensures
        posting_ids_within(table_view(final(tab)@), s),
        table_ok(table_view(final(tab)@)),
        no_repeat(table_view(final(tab)@)),
        forall|x: Seq<char>|
            #[trigger] postings_of(table_view(final(tab)@), x) == postings_of(
                table_view(old(tab)@),
                x,
            ) + if views(toks@).contains(x) {
                seq![(iid, w)]
            } else {
                Seq::empty()
            },
{
    let ghost tv0 = table_view(tab@);
    let ghost tk = views(toks@);
    let mut i: usize = 0;
    while i < toks.len()
        invariant
            i <= toks@.len(),
            tk == views(toks@),
            tk.no_duplicates(),
            s.contains(iid),
            posting_ids_within(table_view(tab@), s),
            table_ok(table_view(tab@)),
            no_repeat(table_view(tab@)),
            forall|x: Seq<char>| !(#[trigger] postings_of(tv0, x)).contains((iid, w)),
            forall|x: Seq<char>|
                #[trigger] postings_of(table_view(tab@), x) == postings_of(tv0, x) + if tk.subrange(
                    0,
                    i as int,
                ).contains(x) {
                    seq![(iid, w)]
                } else {
                    Seq::empty()
                },
        decreases toks.len() - i,
    {
        let t = toks[i].clone();
        let ghost tv1 = table_view(tab@);
        let ghost pre0 = tk.subrange(0, i as int);
        let ghost pre1 = tk.subrange(0, i + 1);
        assert(pre1 =~= pre0.push(tk[i as int]));
        assert(!pre0.contains(tk[i as int])) by {
            if pre0.contains(tk[i as int]) {
                let j = choose|j: int| 0 <= j < pre0.len() && pre0[j] == tk[i as int];
                assert(tk[j] == tk[i as int]);
            }
        }
        assert(postings_of(tv1, tk[i as int]) =~= postings_of(tv0, tk[i as int]));
        add_posting(tab, t, (iid, w), Ghost(s));
        assert forall|x: Seq<char>|
            #[trigger] postings_of(table_view(tab@), x) == postings_of(tv0, x) + if pre1.contains(
                x,
            ) {
                seq![(iid, w)]
            } else {
                Seq::empty()
            } by {
            if x == tk[i as int] {
                assert(!pre0.contains(x)) by {
                    if pre0.contains(x) {
                        let j = choose|j: int| 0 <= j < pre0.len() && pre0[j] == x;
                        assert(tk[j] == tk[i as int]);
                    }
                }
                assert(pre1[i as int] == x);
                assert(postings_of(tv1, x).push((iid, w)) =~= postings_of(tv0, x) + seq![(iid, w)]);
            } else {
                assert(pre1.contains(x) == pre0.contains(x)) by {
                    if pre1.contains(x) {
                        let j = choose|j: int| 0 <= j < pre1.len() && pre1[j] == x;
                        assert(pre0[j] == x);
                    }
                    if pre0.contains(x) {
                        let j = choose|j: int| 0 <= j < pre0.len() && pre0[j] == x;
                        assert(pre1[j] == x);
                    }
                }
            }
        }
        i = i + 1;
    }
    assert(tk.subrange(0, toks@.len() as int) =~= tk);
}

/// Indexes `text` under `iid`, which holds no posting yet: one posting of
/// weight 1 for each distinct n-gram token, then one of weight 50 for each
/// distinct whole-word token.
#[verifier::spinoff_prover]
#[verifier::rlimit(50)]
fn index_item(tab: &mut Vec<TokenEntry>, iid: u32, text: &String, Ghost(s): Ghost<Set<u32>>)
    requires
        posting_ids_within(table_view(old(tab)@), s),
        table_ok(table_view(old(tab)@)),
        unposted(table_view(old(tab)@), iid),
        no_repeat(table_view(old(tab)@)),
        s.contains(iid),
    ensures
        posting_ids_within(table_view(final(tab)@), s),
        table_ok(table_view(final(tab)@)),
        no_repeat(table_view(final(tab)@)),
        forall|x: Seq<char>|
            #[trigger] postings_of(table_view(final(tab)@), x) == postings_of(
                table_view(old(tab)@),
                x,
            ) + added(text@, iid, x),
{
    let ghost tv0 = table_view(tab@);
    let grams = dedup(gramify(text.as_str()));
    let words = dedup(clean_words(text.as_str()));
    let ghost gv = views(grams@);
    let ghost wv = views(words@);
    assert forall|x: Seq<char>| !(#[trigger] postings_of(tv0, x)).contains((iid, 1u8)) && !postings_of(tv0, x).contains((iid, 50u8)) by {
        lemma_postings_from_table(tv0, x);
        if postings_of(tv0, x).contains((iid, 1u8)) || postings_of(tv0, x).contains((iid, 50u8)) {
            let k = choose|k: int| 0 <= k < tv0.len() && postings_of(tv0, x) == (#[trigger] tv0[k]).1;
            let j = choose|j: int| 0 <= j < tv0[k].1.len() && (tv0[k].1[j] == (iid, 1u8) || tv0[k].1[j] == (iid, 50u8));
            assert(tv0[k].1[j].0 != iid);
        }
    }
    post_all(tab, grams, iid, 1, Ghost(s));
    let ghost tv1 = table_view(tab@);
    assert forall|x: Seq<char>| !(#[trigger] postings_of(tv1, x)).contains((iid, 50u8)) by {
        let ps = postings_of(tv1, x);
        if ps.contains((iid, 50u8)) {
            let j = choose|j: int| 0 <= j < ps.len() && ps[j] == (iid, 50u8);
            if j < postings_of(tv0, x).len() {
                assert(postings_of(tv0, x)[j] == ps[j]);
            }
        }
    }
    post_all(tab, words, iid, 50, Ghost(s));
    assert forall|x: Seq<char>|
        #[trigger] postings_of(table_view(tab@), x) == postings_of(tv0, x) + added(text@, iid, x) by {
        assert(gv.contains(x) == gv.to_set().contains(x));
        assert(wv.contains(x) == wv.to_set().contains(x));
        assert(gram_tokens(text@).contains(x) == gram_tokens(text@).to_set().contains(x));
        assert(word_tokens(text@).contains(x) == word_tokens(text@).to_set().contains(x));
        assert(postings_of(table_view(tab@), x) =~= postings_of(tv0, x) + added(text@, iid, x));
    }
}

/// `ps` without the postings of `iid`.
pub open spec fn without(ps: Seq<(u32, u8)>, iid: u32) -> Seq<(u32, u8)>
    decreases ps.len(),
{
    if ps.len() == 0 {
        Seq::empty()
    } else if ps.last().0 == iid {
        without(ps.drop_last(), iid)
    } else {
        without(ps.drop_last(), iid).push(ps.last())
    }
}

/// The table with every posting of `iid` removed, and the tokens left with
/// no postings dropped.
pub open spec fn strip(tv: Seq<(Seq<char>, Seq<(u32, u8)>)>, iid: u32) -> Seq<
    (Seq<char>, Seq<(u32, u8)>),
>
    decreases tv.len(),
{
    if tv.len() == 0 {
        Seq::empty()
    } else if without(tv.last().1, iid).len() > 0 {
        strip(tv.drop_last(), iid).push((tv.last().0, without(tv.last().1, iid)))
    } else {
        strip(tv.drop_last(), iid)
    }
}

proof fn lemma_without_within(ps: Seq<(u32, u8)>, iid: u32, s: Set<u32>)
    requires
        forall|j: int| 0 <= j < ps.len() ==> s.contains(#[trigger] ps[j].0),
    ensures
        forall|j: int|
            0 <= j < without(ps, iid).len() ==> s.remove(iid).contains(
                #[trigger] without(ps, iid)[j].0,
            ),
    decreases ps.len(),
{
    if ps.len() > 0 {
        lemma_without_within(ps.drop_last(), iid, s);
        let w0 = without(ps.drop_last(), iid);
        assert forall|j: int|
            0 <= j < without(ps, iid).len() implies s.remove(iid).contains(
                #[trigger] without(ps, iid)[j].0,
            ) by {
            if ps.last().0 != iid && j == w0.len() {
                assert(without(ps, iid)[j] == ps[ps.len() - 1]);
            } else {
                assert(without(ps, iid)[j] == w0[j]);
            }
        }
    }
}

/// Once `iid` is stripped, no posting names it, and every other posting is
/// still within `s`.
pub proof fn lemma_strip_within(tv: Seq<(Seq<char>, Seq<(u32, u8)>)>, iid: u32, s: Set<u32>)
    requires
        posting_ids_within(tv, s),
    ensures
        posting_ids_within(strip(tv, iid), s.remove(iid)),
    decreases tv.len(),
{
    if tv.len() > 0 {
        lemma_strip_within(tv.drop_last(), iid, s);
        let last = tv.last();
        assert forall|j: int| 0 <= j < last.1.len() implies s.contains(#[trigger] last.1[j].0) by {
            assert(tv[tv.len() - 1].1[j] == last.1[j]);
        }
        lemma_without_within(last.1, iid, s);
        let st0 = strip(tv.drop_last(), iid);
        assert forall|k: int, j: int|
            0 <= k < strip(tv, iid).len() && 0 <= j < strip(tv, iid)[k].1.len() implies s.remove(
            iid,
        ).contains(#[trigger] strip(tv, iid)[k].1[j].0) by {
            if k < st0.len() {
                assert(strip(tv, iid)[k] == st0[k]);
            }
        }
    }
}

/// Stripping keeps one entry per token and drops the entries left empty.
pub proof fn lemma_strip_ok(tv: Seq<(Seq<char>, Seq<(u32, u8)>)>, iid: u32)
    requires
        forall|i: int, j: int| 0 <= i < j < tv.len() ==> tv[i].0 != tv[j].0,
    ensures
        table_ok(strip(tv, iid)),
        forall|k: int|
            0 <= k < strip(tv, iid).len() ==> exists|j: int|
                0 <= j < tv.len() && tv[j].0 == (#[trigger] strip(tv, iid)[k]).0,
    decreases tv.len(),
{
    if tv.len() > 0 {
        let t0 = tv.drop_last();
        assert forall|i: int, j: int| 0 <= i < j < t0.len() implies t0[i].0 != t0[j].0 by {
            assert(t0[i] == tv[i] && t0[j] == tv[j]);
        }
        lemma_strip_ok(t0, iid);
        let s0 = strip(t0, iid);
        let st = strip(tv, iid);
        assert forall|k: int| 0 <= k < st.len() implies exists|j: int|
            0 <= j < tv.len() && tv[j].0 == (#[trigger] st[k]).0 by {
            if k < s0.len() {
                assert(st[k] == s0[k]);
                let j = choose|j: int| 0 <= j < t0.len() && t0[j].0 == (#[trigger] s0[k]).0;
                assert(tv[j] == t0[j]);
            } else {
                assert(tv[tv.len() - 1].0 == st[k].0);
            }
        }
        assert forall|a: int, b: int| 0 <= a < b < st.len() implies st[a].0 != st[b].0 by {
            if b < s0.len() {
                assert(st[a] == s0[a] && st[b] == s0[b]);
            } else {
                assert(st[a] == s0[a]);
                let j = choose|j: int| 0 <= j < t0.len() && t0[j].0 == (#[trigger] s0[a]).0;
                assert(tv[j] == t0[j]);
                assert(tv[j].0 != tv[tv.len() - 1].0);
            }
        }
        assert forall|a: int| 0 <= a < st.len() implies (#[trigger] st[a]).1.len() > 0 by {
            if a < s0.len() {
                assert(st[a] == s0[a]);
            }
        }
    }
}

proof fn lemma_without_distinct(ps: Seq<(u32, u8)>, iid: u32)
    requires
        ps.no_duplicates(),
    ensures
        without(ps, iid).no_duplicates(),
        forall|j: int| 0 <= j < without(ps, iid).len() ==> ps.contains(#[trigger] without(ps, iid)[j]),
    decreases ps.len(),
{
    if ps.len() > 0 {
        let p0 = ps.drop_last();
        assert forall|a: int, b: int| 0 <= a < b < p0.len() implies p0[a] != p0[b] by {
            assert(p0[a] == ps[a] && p0[b] == ps[b]);
        }
        lemma_without_distinct(p0, iid);
        let w0 = without(p0, iid);
        let w = without(ps, iid);
        assert forall|j: int| 0 <= j < w.len() implies ps.contains(#[trigger] w[j]) by {
            if j < w0.len() {
                assert(w[j] == w0[j]);
                let a = choose|a: int| 0 <= a < p0.len() && p0[a] == w0[j];
                assert(ps[a] == p0[a]);
            } else {
                assert(w[j] == ps[ps.len() - 1]);
            }
        }
        assert forall|a: int, b: int| 0 <= a < b < w.len() implies w[a] != w[b] by {
            if b < w0.len() {
                assert(w[a] == w0[a] && w[b] == w0[b]);
            } else {
                assert(w[a] == w0[a]);
                let c = choose|c: int| 0 <= c < p0.len() && p0[c] == w0[a];
                assert(ps[c] == p0[c]);
                assert(w[b] == ps[ps.len() - 1]);
            }
        }
    }
}

/// Stripping keeps every list free of repeats.
pub proof fn lemma_strip_no_repeat(tv: Seq<(Seq<char>, Seq<(u32, u8)>)>, iid: u32)
    requires
        no_repeat(tv),
    ensures
        no_repeat(strip(tv, iid)),
    decreases tv.len(),
{
    if tv.len() > 0 {
        let t0 = tv.drop_last();
        assert forall|k: int| 0 <= k < t0.len() implies (#[trigger] t0[k]).1.no_duplicates() by {
            assert(t0[k] == tv[k]);
        }
        lemma_strip_no_repeat(t0, iid);
        assert(tv[tv.len() - 1].1.no_duplicates());
        lemma_without_distinct(tv.last().1, iid);
        let s0 = strip(t0, iid);
        let st = strip(tv, iid);
        assert forall|k: int| 0 <= k < st.len() implies (#[trigger] st[k]).1.no_duplicates() by {
            if k < s0.len() {
                assert(st[k] == s0[k]);
            }
        }
    }
}

proof fn lemma_within_grow(tv: Seq<(Seq<char>, Seq<(u32, u8)>)>, s: Set<u32>, t: Set<u32>)
    requires
        posting_ids_within(tv, s),
        s.subset_of(t),
    ensures
        posting_ids_within(tv, t),
{
    assert forall|k: int, j: int| 0 <= k < tv.len() && 0 <= j < tv[k].1.len() implies t.contains(
        #[trigger] tv[k].1[j].0,
    ) by {
        assert(s.contains(tv[k].1[j].0));
    }
}

/// Removes every posting of `iid`, and every token left without postings.
fn strip_postings(tab: &mut Vec<TokenEntry>, iid: u32)
    ensures
        table_view(final(tab)@) == strip(table_view(old(tab)@), iid),
{
    let mut src: Vec<TokenEntry> = Vec::new();
    std::mem::swap(tab, &mut src);
    let ghost tv = table_view(src@);
    let mut i: usize = 0;
    assert(tv.subrange(0, 0) =~= Seq::<(Seq<char>, Seq<(u32, u8)>)>::empty());
    assert(table_view(tab@) =~= Seq::<(Seq<char>, Seq<(u32, u8)>)>::empty());
    while i < src.len()
        invariant
            i <= src@.len(),
            tv == table_view(src@),
            table_view(tab@) == strip(tv.subrange(0, i as int), iid),
        decreases src.len() - i,
    {
        let ps = &src[i].1;
        let ghost pv = ps@;
        let mut kept: Vec<(u32, u8)> = Vec::new();
        let mut j: usize = 0;
        assert(pv.subrange(0, 0) =~= Seq::<(u32, u8)>::empty());
        while j < ps.len()
            invariant
                j <= pv.len(),
                pv == ps@,
                kept@ == without(pv.subrange(0, j as int), iid),
            decreases ps.len() - j,
        {
            let ghost pj = pv.subrange(0, j + 1);
            assert(pj.drop_last() =~= pv.subrange(0, j as int));
            if ps[j].0 != iid {
                kept.push(ps[j]);
            }
            j = j + 1;
        }
        assert(pv.subrange(0, pv.len() as int) =~= pv);
        let ghost ti = tv.subrange(0, i + 1);
        assert(ti.drop_last() =~= tv.subrange(0, i as int));
        assert(ti.last() == tv[i as int]);
        if kept.len() > 0 {
            let key = src[i].0.clone();
            let ghost before = table_view(tab@);
            tab.push((key, kept));
            assert(table_view(tab@) =~= before.push((tv[i as int].0, without(pv, iid))));
        }
        i = i + 1;
    }
    assert(tv.subrange(0, src@.len() as int) =~= tv);
}

/// The position of the document with external id `id`.
fn find_by_id(items: &Vec<Entry>, id: &String) -> (r: Option<usize>)
    ensures
        match r {
            Some(k) => k < items@.len() && items@[k as int].id@ == id@,
            None => !ext_ids(items@).contains(id@),
        },
{
    let mut k: usize = 0;
    while k < items.len()
        invariant
            k <= items@.len(),
            forall|j: int| 0 <= j < k ==> (#[trigger] items@[j]).id@ != id@,
        decreases items.len() - k,
    {
        if items[k].id == *id {
            return Some(k);
        }
        k = k + 1;
    }
    None
}

/// Stores a new document under the next internal id and indexes `to_tokenize`.
fn add(index: &mut Index, id: String, obj: Document, to_tokenize: String)
    requires
        old(index).wf(),
        !ext_ids(old(index).items@).contains(id@),
        old(index).id_counter < u32::MAX,
    ensures
        final(index).wf(),
        final(index).id_counter == old(index).id_counter + 1,
        final(index).fields == old(index).fields,
        final(index).items@.len() == old(index).items@.len() + 1,
        final(index).items@.subrange(0, old(index).items@.len() as int) == old(index).items@,
        final(index).items@.last().iid == old(index).id_counter,
        final(index).items@.last().id@ == id@,
        final(index).items@.last().doc == obj,
        forall|x: Seq<char>|
            #[trigger] postings_of(table_view(final(index).token_scoring@), x) == postings_of(
                table_view(old(index).token_scoring@),
                x,
            ) + added(to_tokenize@, old(index).id_counter, x),
{
    let iid = index.id_counter;
    let ghost old_items = index.items@;
    let ghost idv = id@;
    index.id_counter = index.id_counter + 1;
    index.items.push(Entry { iid, id, doc: obj });
    let ghost s = iids(index.items@);
    assert(index.items@.subrange(0, old_items.len() as int) =~= old_items);
    assert(s.contains(iid)) by {
        assert(index.items@[old_items.len() as int].iid == iid);
    }
    assert(iids(old_items).subset_of(s)) by {
        assert forall|x: u32| iids(old_items).contains(x) implies s.contains(x) by {
            let k = choose|k: int| 0 <= k < old_items.len() && old_items[k].iid == x;
            assert(index.items@[k] == old_items[k]);
        }
    }
    proof {
        lemma_within_grow(table_view(index.token_scoring@), iids(old_items), s);
    }
    index_item(&mut index.token_scoring, iid, &to_tokenize, Ghost(s));
    assert forall|i: int, j: int| 0 <= i < j < index.items@.len() implies index.items@[i].iid
        != index.items@[j].iid && index.items@[i].id@ != index.items@[j].id@ by {
        if j == old_items.len() {
            assert(old_items[i].iid < iid);
            assert(ext_ids(old_items).contains(old_items[i].id@));
        } else {
            assert(index.items@[i] == old_items[i]);
            assert(index.items@[j] == old_items[j]);
        }
    }
    assert forall|i: int| 0 <= i < index.items@.len() implies (#[trigger] index.items@[i]).iid
        < index.id_counter by {
        if i < old_items.len() {
            assert(index.items@[i] == old_items[i]);
        }
    }
}

/// The text of a document that gets indexed: its extracted fields, trimmed.
pub open spec fn index_text(obj: Document, fields: Seq<String>) -> Seq<char> {
    trimmed(extracted(obj.members@, views(fields)))
}

/// Adds a document under its `_id`, which must be a text not yet stored. It
/// gets the next internal id and its configured fields are indexed.
pub fn add_object(index: &mut Index, obj: Document) -> (r: Result<(), IndexError>)
    requires
        old(index).wf(),
        old(index).id_counter < u32::MAX,
    ensures
        final(index).wf(),
        (r == Err::<(), IndexError>(IndexError::MissingIdentifier)) <==> id_of(obj.members@) is None,
        (r == Err::<(), IndexError>(IndexError::DuplicateIdentifier)) <==> (id_of(obj.members@) is Some
            && ext_ids(old(index).items@).contains(id_of(obj.members@)->0)),
        (id_of(obj.members@) is Some && !ext_ids(old(index).items@).contains(id_of(obj.members@)->0))
            ==> r is Ok,
        r is Err ==> *final(index) == *old(index),
        r is Ok ==> {
            &&& final(index).id_counter == old(index).id_counter + 1
            &&& final(index).fields == old(index).fields
            &&& final(index).items@.len() == old(index).items@.len() + 1
            &&& final(index).items@.subrange(0, old(index).items@.len() as int) == old(index).items@
            &&& final(index).items@.last().iid == old(index).id_counter
            &&& Some(final(index).items@.last().id@) == id_of(obj.members@)
            &&& final(index).items@.last().doc == obj
            &&& forall|x: Seq<char>|
                #[trigger] postings_of(table_view(final(index).token_scoring@), x) == postings_of(
                    table_view(old(index).token_scoring@),
                    x,
                ) + added(index_text(obj, old(index).fields@), old(index).id_counter, x)
        },
{
    let id = match document_id(&obj) {
        Some(id) => id,
        None => {
            return Err(IndexError::MissingIdentifier);
        },
    };
    if find_by_id(&index.items, &id).is_some() {
        return Err(IndexError::DuplicateIdentifier);
    }
    let token_str = extract_fields(&obj, &index.fields);
    let text = trim(token_str.as_str());
    crate::index::add(index, id, obj, text);
    Ok(())
}

/// Replaces a stored document, found by its `_id`: its internal id stays,
/// its old postings go, and its new fields are indexed.
pub fn update(index: &mut Index, obj: Document) -> (r: Result<(), IndexError>)
    requires
        old(index).wf(),
    ensures
        final(index).wf(),
        (r == Err::<(), IndexError>(IndexError::MissingIdentifier)) <==> id_of(obj.members@) is None,
        (r == Err::<(), IndexError>(IndexError::UnknownIdentifier)) <==> (id_of(obj.members@) is Some
            && !ext_ids(old(index).items@).contains(id_of(obj.members@)->0)),
        (id_of(obj.members@) is Some && ext_ids(old(index).items@).contains(id_of(obj.members@)->0))
            ==> r is Ok,
        r is Err ==> *final(index) == *old(index),
        r is Ok ==> exists|k: int|
            {
                &&& 0 <= k < old(index).items@.len()
                &&& Some(old(index).items@[k].id@) == id_of(obj.members@)
                &&& final(index).id_counter == old(index).id_counter
                &&& final(index).fields == old(index).fields
                &&& final(index).items@.len() == old(index).items@.len()
                &&& forall|j: int|
                    0 <= j < old(index).items@.len() && j != k ==> final(index).items@[j] == old(
                        index,
                    ).items@[j]
                &&& final(index).items@[k].iid == old(index).items@[k].iid
                &&& final(index).items@[k].id@ == old(index).items@[k].id@
                &&& final(index).items@[k].doc == obj
                &&& forall|x: Seq<char>|
                    #[trigger] postings_of(table_view(final(index).token_scoring@), x) == postings_of(
                        strip(table_view(old(index).token_scoring@), old(index).items@[k].iid),
                        x,
                    ) + added(index_text(obj, old(index).fields@), old(index).items@[k].iid, x)
            },
{
    let id = match document_id(&obj) {
        Some(id) => id,
        None => {
            return Err(IndexError::MissingIdentifier);
        },
    };
    let k = match find_by_id(&index.items, &id) {
        Some(k) => k,
        None => {
            return Err(IndexError::UnknownIdentifier);
        },
    };
    let ghost old_items = index.items@;
    let ghost tv0 = table_view(index.token_scoring@);
    let token_str = extract_fields(&obj, &index.fields);
    let text = trim(token_str.as_str());
    let iid = index.items[k].iid;
    strip_postings(&mut index.token_scoring, iid);
    let e = index.items.remove(k);
    index.items.insert(k, Entry { iid: e.iid, id: e.id, doc: obj });
    let ghost s = iids(index.items@);
    assert(iids(old_items).remove(iid).subset_of(s)) by {
        assert forall|x: u32| iids(old_items).remove(iid).contains(x) implies s.contains(x) by {
            let j = choose|j: int| 0 <= j < old_items.len() && old_items[j].iid == x;
            assert(index.items@[j].iid == x);
        }
    }
    assert(s.contains(iid)) by {
        assert(index.items@[k as int].iid == iid);
    }
    proof {
        lemma_strip_within(tv0, iid, iids(old_items));
        lemma_within_grow(table_view(index.token_scoring@), iids(old_items).remove(iid), s);
        lemma_strip_ok(tv0, iid);
        lemma_strip_no_repeat(tv0, iid);
        let sv = table_view(index.token_scoring@);
        assert forall|a: int, b: int| 0 <= a < sv.len() && 0 <= b < sv[a].1.len() implies #[trigger] sv[a].1[b].0 != iid by {
            assert(iids(old_items).remove(iid).contains(sv[a].1[b].0));
        }
    }
    index_item(&mut index.token_scoring, iid, &text, Ghost(s));
    assert forall|j: int| 0 <= j < old_items.len() && j != k implies index.items@[j]
        == old_items[j] by {}
    assert(index.wf()) by {
        assert forall|i: int, j: int| 0 <= i < j < index.items@.len() implies index.items@[i].iid
            != index.items@[j].iid && index.items@[i].id@ != index.items@[j].id@ by {
            assert(old_items[i].iid != old_items[j].iid);
        }
        assert forall|i: int| 0 <= i < index.items@.len() implies (#[trigger] index.items@[i]).iid
            < index.id_counter by {
            assert(old_items[i].iid < index.id_counter);
        }
    }
    Ok(())
}

/// Removes the document with external id `id`, with all its postings and
/// every token left without postings. False, and no change, where no such
/// document is stored.
pub fn remove(index: &mut Index, id: String) -> (r: bool)
    requires
        old(index).wf(),
    ensures
        final(index).wf(),
        r == ext_ids(old(index).items@).contains(id@),
        !r ==> *final(index) == *old(index),
        r ==> exists|k: int|
            {
                &&& 0 <= k < old(index).items@.len()
                &&& old(index).items@[k].id@ == id@
                &&& final(index).items@ == old(index).items@.remove(k)
                &&& table_view(final(index).token_scoring@) == strip(
                    table_view(old(index).token_scoring@),
                    old(index).items@[k].iid,
                )
                &&& final(index).id_counter == old(index).id_counter
                &&& final(index).fields == old(index).fields
            },
{
    let k = match find_by_id(&index.items, &id) {
        Some(k) => k,
        None => {
            return false;
        },
    };
    let ghost old_items = index.items@;
    let ghost tv0 = table_view(index.token_scoring@);
    let iid = index.items[k].iid;
    index.items.remove(k);
    strip_postings(&mut index.token_scoring, iid);
    proof {
        lemma_strip_within(tv0, iid, iids(old_items));
        lemma_strip_ok(tv0, iid);
        lemma_strip_no_repeat(tv0, iid);
        assert(ext_ids(old_items).contains(id@)) by {
            assert(old_items[k as int].id@ == id@);
        }
        assert(iids(old_items).remove(iid).subset_of(iids(index.items@))) by {
            assert forall|x: u32| iids(old_items).remove(iid).contains(x) implies iids(
                index.items@,
            ).contains(x) by {
                let j = choose|j: int| 0 <= j < old_items.len() && old_items[j].iid == x;
                assert(j != k);
                if j < k {
                    assert(index.items@[j] == old_items[j]);
                } else {
                    assert(index.items@[j - 1] == old_items[j]);
                }
            }
        }
        lemma_within_grow(
            table_view(index.token_scoring@),
            iids(old_items).remove(iid),
            iids(index.items@),
        );
        assert forall|i: int, j: int| 0 <= i < j < index.items@.len() implies index.items@[i].iid
            != index.items@[j].iid && index.items@[i].id@ != index.items@[j].id@ by {
            let oi = if i < k { i } else { i + 1 };
            let oj = if j < k { j } else { j + 1 };
            assert(index.items@[i] == old_items[oi]);
            assert(index.items@[j] == old_items[oj]);
        }
        assert forall|i: int| 0 <= i < index.items@.len() implies (#[trigger] index.items@[i]).iid
            < index.id_counter by {
            let oi = if i < k { i } else { i + 1 };
            assert(index.items@[i] == old_items[oi]);
        }
    }
    true
}

/// The first stored entry with internal id `iid`.
pub open spec fn entry_of(items: Seq<Entry>, iid: u32) -> Option<Entry>
    decreases items.len(),
{
    if items.len() == 0 {
        None
    } else if items[0].iid == iid {
        Some(items[0])
    } else {
        entry_of(items.drop_first(), iid)
    }
}

/// The position of the document with internal id `iid`.
fn find_by_iid(items: &Vec<Entry>, iid: u32) -> (r: Option<usize>)
    ensures
        match r {
            Some(k) => k < items@.len() && entry_of(items@, iid) == Some(items@[k as int]),
            None => entry_of(items@, iid) is None,
        },
{
    let mut k: usize = 0;
    assert(items@.subrange(0, items@.len() as int) =~= items@);
    while k < items.len()
        invariant
            k <= items@.len(),
            entry_of(items@, iid) == entry_of(items@.subrange(k as int, items@.len() as int), iid),
        decreases items.len() - k,
    {
        let ghost rest = items@.subrange(k as int, items@.len() as int);
        assert(rest[0] == items@[k as int]);
        assert(rest.drop_first() =~= items@.subrange(k + 1, items@.len() as int));
        if items[k].iid == iid {
            return Some(k);
        }
        k = k + 1;
    }
    None
}

/// The tokens of a query: its n-grams, then its whole words, repeats kept.
pub open spec fn query_tokens(q: Seq<char>) -> Seq<Seq<char>> {
    gram_tokens(q) + word_tokens(q)
}

/// What the fuzzy scorer finds for the query in the extracted text of each
/// candidate; none for an id that is not stored.
pub open spec fn fuzzy_for(items: Seq<Entry>, fields: Seq<String>, q: Seq<char>, cs: Seq<(u32, u64)>) -> Seq<Option<isize>> {
    Seq::new(
        cs.len(),
        |k: int|
            match entry_of(items, cs[k].0) {
                Some(e) => fuzzy_score(q, extracted(e.doc.members@, views(fields))),
                None => None,
            },
    )
}

/// The ranked result for the candidate list `c`: pruned, then reranked.
pub open spec fn ranking_of(index: Index, q: Seq<char>, c: Seq<(u32, u64)>) -> Seq<(u32, isize)> {
    let p = kept(c, max_score(c));
    ranked(p, fuzzy_for(index.items@, index.fields@, q, p))
}

/// `r` is the ranked result of query `q`, for one order of the candidates.
pub open spec fn is_ranking(index: Index, q: Seq<char>, r: Seq<(u32, isize)>) -> bool {
    exists|c: Seq<(u32, u64)>|
        is_candidate_list(table_view(index.token_scoring@), query_tokens(q), c) && r
            == ranking_of(index, q, c)
}

/// Scores the query against the inverted index, keeps the candidates within
/// half of the best score, and reranks them by fuzzy match against their
/// extracted text, best first.
pub fn get_key_score_list(index: &Index, query: &String) -> (r: Vec<(u32, isize)>)
    ensures
        is_ranking(*index, query@, r@),
{
    let mut toks = gramify(query.as_str());
    let mut words = clean_words(query.as_str());
    let ghost gv = toks@;
    let ghost wv = words@;
    toks.append(&mut words);
    assert(views(toks@) =~= views(gv) + views(wv));
    let scores = candidate_scores(&index.token_scoring, &toks);
    let pruned = coarse_prune(&scores);
    let ghost want = fuzzy_for(index.items@, index.fields@, query@, pruned@);
    let mut fuzzy: Vec<Option<isize>> = Vec::new();
    let mut k: usize = 0;
    while k < pruned.len()
        invariant
            k <= pruned@.len(),
            want == fuzzy_for(index.items@, index.fields@, query@, pruned@),
            fuzzy@ == want.subrange(0, k as int),
        decreases pruned.len() - k,
    {
        let f = match find_by_iid(&index.items, pruned[k].0) {
            Some(p) => {
                let text = extract_fields(&index.items[p].doc, &index.fields);
                best_match_score(query.as_str(), text.as_str())
            },
            None => None,
        };
        fuzzy.push(f);
        assert(fuzzy@ =~= want.subrange(0, k + 1));
        k = k + 1;
    }
    assert(want.subrange(0, pruned@.len() as int) =~= want);
    let r = rerank(&pruned, &fuzzy);
    assert(r@ == ranking_of(*index, query@, scores@));
    r
}

/// The stored payloads of the ranked ids, in rank order.
pub open spec fn payloads_for(items: Seq<Entry>, rk: Seq<(u32, isize)>) -> Seq<Seq<char>>
    decreases rk.len(),
{
    if rk.len() == 0 {
        Seq::empty()
    } else {
        payloads_for(items, rk.drop_last()) + match entry_of(items, rk.last().0) {
            Some(e) => seq![e.doc.payload@],
            None => Seq::empty(),
        }
    }
}

/// Every stored payload, in store order.
pub open spec fn all_payloads(items: Seq<Entry>) -> Seq<Seq<char>> {
    items.map_values(|e: Entry| e.doc.payload@)
}

/// Searches the index. A query of white space alone gives every stored
/// document, unranked; any other query, trimmed, gives the documents of its
/// ranking, best first.
pub fn search(index: &Index, raw_query: String) -> (r: Vec<String>)
    ensures
        all_space(raw_query@) ==> views(r@) == all_payloads(index.items@),
        !all_space(raw_query@) ==> exists|rk: Seq<(u32, isize)>|
            is_ranking(*index, trimmed(raw_query@), rk) && views(r@) == payloads_for(
                index.items@,
                rk,
            ),
{
    let query = trim(raw_query.as_str());
    if query.unicode_len() == 0 {
        let mut all: Vec<String> = Vec::new();
        let mut i: usize = 0;
        while i < index.items.len()
            invariant
                i <= index.items@.len(),
                views(all@) == all_payloads(index.items@.subrange(0, i as int)),
            decreases index.items.len() - i,
        {
            let ghost before = all@;
            all.push(index.items[i].doc.payload.clone());
            assert(views(all@) =~= all_payloads(index.items@.subrange(0, i + 1))) by {
                assert(views(all@) =~= views(before).push(index.items@[i as int].doc.payload@));
            }
            i = i + 1;
        }
        assert(index.items@.subrange(0, index.items@.len() as int) =~= index.items@);
        return all;
    }
    let rk = get_key_score_list(index, &query);
    let mut out: Vec<String> = Vec::new();
    let mut j: usize = 0;
    assert(rk@.subrange(0, 0) =~= Seq::<(u32, isize)>::empty());
    while j < rk.len()
        invariant
            j <= rk@.len(),
            views(out@) == payloads_for(index.items@, rk@.subrange(0, j as int)),
        decreases rk.len() - j,
    {
        let ghost pre = rk@.subrange(0, j + 1);
        assert(pre.drop_last() =~= rk@.subrange(0, j as int));
        let ghost before = out@;
        match find_by_iid(&index.items, rk[j].0) {
            Some(p) => {
                out.push(index.items[p].doc.payload.clone());
                assert(views(out@) =~= views(before).push(index.items@[p as int].doc.payload@));
            },
            None => {},
        }
        j = j + 1;
    }
    assert(rk@.subrange(0, rk@.len() as int) =~= rk@);
    out
}

} // verus!
