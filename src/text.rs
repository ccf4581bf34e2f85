use vstd::prelude::*;

verus! {

/// The code points that carry Unicode's White_Space property.
pub open spec fn is_space_spec(c: char) -> bool {
    let n = c as u32;
    (0x9 <= n && n <= 0xd) || n == 0x20 || n == 0x85 || n == 0xa0 || n == 0x1680 || (0x2000 <= n
        && n <= 0x200a) || n == 0x2028 || n == 0x2029 || n == 0x202f || n == 0x205f || n == 0x3000
}

pub fn is_space(c: char) -> (r: bool)
    ensures
        r == is_space_spec(c),
{
    let n = c as u32;
    (0x9 <= n && n <= 0xd) || n == 0x20 || n == 0x85 || n == 0xa0 || n == 0x1680 || (0x2000 <= n
        && n <= 0x200a) || n == 0x2028 || n == 0x2029 || n == 0x202f || n == 0x205f || n == 0x3000
}

pub open spec fn all_space(s: Seq<char>) -> bool {
    forall|i: int| 0 <= i < s.len() ==> is_space_spec(#[trigger] s[i])
}

/// `s` without its leading white space.
pub open spec fn trim_start(s: Seq<char>) -> Seq<char>
    decreases s.len(),
{
    if s.len() > 0 && is_space_spec(s[0]) {
        trim_start(s.drop_first())
    } else {
        s
    }
}

/// `s` without its trailing white space.
pub open spec fn trim_end(s: Seq<char>) -> Seq<char>
    decreases s.len(),
{
    if s.len() > 0 && is_space_spec(s.last()) {
        trim_end(s.drop_last())
    } else {
        s
    }
}

/// `s` without its leading and trailing white space.
pub open spec fn trimmed(s: Seq<char>) -> Seq<char> {
    trim_end(trim_start(s))
}

/// Removes leading and trailing white space.
pub fn trim(s: &str) -> (r: String)
    ensures
        r@ == trimmed(s@),
        r@.len() == 0 <==> all_space(s@),
{
    let n = s.unicode_len();
    let mut a: usize = 0;
    assert(s@.subrange(0, n as int) =~= s@);
    while a < n && is_space(s.get_char(a))
        invariant
            n == s@.len(),
            a <= n,
            all_space(s@.subrange(0, a as int)),
            trim_start(s@) == trim_start(s@.subrange(a as int, n as int)),
        decreases n - a,
    {
        assert(all_space(s@.subrange(0, a + 1))) by {
            assert forall|i: int| 0 <= i < a + 1 implies is_space_spec(
                #[trigger] s@.subrange(0, a + 1)[i],
            ) by {
                if i < a {
                    assert(s@.subrange(0, a + 1)[i] == s@.subrange(0, a as int)[i]);
                }
            }
        }
        let ghost u = s@.subrange(a as int, n as int);
        assert(u[0] == s@[a as int]);
        assert(u.drop_first() =~= s@.subrange(a + 1, n as int));
        a = a + 1;
    }
    if a == n {
        assert(s@.subrange(0, n as int) =~= s@);
        assert(s@.subrange(n as int, n as int) =~= Seq::<char>::empty());
        assert(trim_end(Seq::<char>::empty()) == Seq::<char>::empty());
        return String::new();
    }
    assert(!is_space_spec(s@[a as int]));
    let ghost u = s@.subrange(a as int, n as int);
    assert(u[0] == s@[a as int]);
    assert(trim_start(s@) == u);
    let mut b: usize = n;
    assert(u =~= s@.subrange(a as int, n as int));
    while b > a + 1 && is_space(s.get_char(b - 1))
        invariant
            n == s@.len(),
            a < b <= n,
            !is_space_spec(s@[a as int]),
            trim_end(u) == trim_end(s@.subrange(a as int, b as int)),
        decreases b,
    {
        let ghost v = s@.subrange(a as int, b as int);
        assert(v.last() == s@[b - 1]);
        assert(v.drop_last() =~= s@.subrange(a as int, b - 1));
        b = b - 1;
    }
    let r = String::from_str(s.substring_char(a, b));
    let ghost v = s@.subrange(a as int, b as int);
    assert(v.last() == s@[b - 1]);
    assert(!is_space_spec(s@[b - 1])) by {
        if b == a + 1 {
            assert(b - 1 == a);
        }
    }
    assert(trim_end(v) == v);
    assert(!all_space(s@)) by {
        assert(!is_space_spec(s@[a as int]));
    }
    r
}

/// What `str::to_lowercase` gives for a text.
pub uninterp spec fn lower_of(s: Seq<char>) -> Seq<char>;

/// Relies on `str::to_lowercase`: Unicode lower case, a function of the text alone.
#[verifier::external_body]
pub(crate) fn lowercase(s: &str) -> (r: String)
    ensures
        r@ == lower_of(s@),
{
    s.to_lowercase()
}

pub open spec fn views(v: Seq<String>) -> Seq<Seq<char>> {
    v.map_values(|w: String| w@)
}

pub open spec fn flush(cur: Seq<char>) -> Seq<Seq<char>> {
    if cur.len() == 0 {
        Seq::empty()
    } else {
        seq![cur]
    }
}

/// The maximal runs of non-white-space characters of `s`, the first of them
/// continuing the partial word `cur`.
pub open spec fn words_from(s: Seq<char>, cur: Seq<char>) -> Seq<Seq<char>>
    decreases s.len(),
{
    if s.len() == 0 {
        flush(cur)
    } else if is_space_spec(s[0]) {
        flush(cur) + words_from(s.drop_first(), Seq::empty())
    } else {
        words_from(s.drop_first(), cur.push(s[0]))
    }
}

pub open spec fn words_of(s: Seq<char>) -> Seq<Seq<char>> {
    words_from(s, Seq::empty())
}

/// The three-character windows of a word, left to right.
pub open spec fn windows(w: Seq<char>) -> Seq<Seq<char>> {
    Seq::new(
        if w.len() >= 3 {
            (w.len() - 2) as nat
        } else {
            0
        },
        |k: int| w.subrange(k, k + 3),
    )
}

pub open spec fn grams_all(ws: Seq<Seq<char>>) -> Seq<Seq<char>>
    decreases ws.len(),
{
    if ws.len() == 0 {
        Seq::empty()
    } else {
        grams_all(ws.drop_last()) + windows(ws.last())
    }
}

/// The whole-word tokens of a text: its lower-cased words.
pub open spec fn word_tokens(s: Seq<char>) -> Seq<Seq<char>> {
    words_of(lower_of(s))
}

/// The n-gram tokens of a text: the windows of its lower-cased words.
pub open spec fn gram_tokens(s: Seq<char>) -> Seq<Seq<char>> {
    grams_all(words_of(lower_of(s)))
}

/// Splits `s` into its maximal runs of non-white-space characters.
pub fn split_words(s: &str) -> (r: Vec<String>)
    ensures
        views(r@) == words_of(s@),
{
    let n = s.unicode_len();
    let mut out: Vec<String> = Vec::new();
    let mut st: usize = 0;
    let mut i: usize = 0;
    assert(s@.subrange(0, n as int) =~= s@);
    assert(s@.subrange(0, 0) =~= Seq::<char>::empty());
    assert(views(out@) + words_of(s@) =~= words_of(s@));
    while i < n
        invariant
            n == s@.len(),
            st <= i <= n,
            views(out@) + words_from(s@.subrange(i as int, n as int), s@.subrange(st as int, i as int))
                == words_of(s@),
        decreases n - i,
    {
        let c = s.get_char(i);
        let ghost rest = s@.subrange(i as int, n as int);
        let ghost cur = s@.subrange(st as int, i as int);
        assert(rest[0] == c);
        assert(rest.drop_first() =~= s@.subrange(i + 1, n as int));
        if is_space(c) {
            assert(words_from(rest, cur) == flush(cur) + words_from(rest.drop_first(), Seq::empty()));
            if st < i {
                let w = String::from_str(s.substring_char(st, i));
                let ghost before = out@;
                out.push(w);
                assert(views(out@) =~= views(before).push(cur));
                assert(flush(cur) == seq![cur]);
                assert(views(out@) + words_from(rest.drop_first(), Seq::empty()) =~= views(
                    before,
                ) + (flush(cur) + words_from(rest.drop_first(), Seq::empty())));
            } else {
                assert(flush(cur) =~= Seq::<Seq<char>>::empty());
                assert(flush(cur) + words_from(rest.drop_first(), Seq::empty()) =~= words_from(
                    rest.drop_first(),
                    Seq::empty(),
                ));
            }
            assert(s@.subrange(i + 1, i + 1) =~= Seq::<char>::empty());
            st = i + 1;
        } else {
            assert(cur.push(c) =~= s@.subrange(st as int, i + 1));
        }
        i = i + 1;
    }
    assert(s@.subrange(n as int, n as int) =~= Seq::<char>::empty());
    let ghost cur = s@.subrange(st as int, n as int);
    if st < n {
        let w = String::from_str(s.substring_char(st, n));
        let ghost before = out@;
        out.push(w);
        assert(views(out@) =~= views(before).push(cur));
        assert(views(out@) =~= views(before) + flush(cur));
    } else {
        assert(views(out@) =~= views(out@) + flush(cur));
    }
    out
}

/// The three-character windows of each word, word by word.
pub fn windows_of_words(ws: &Vec<String>) -> (r: Vec<String>)
    ensures
        views(r@) == grams_all(views(ws@)),
{
    let mut out: Vec<String> = Vec::new();
    let mut i: usize = 0;
    while i < ws.len()
        invariant
            i <= ws.len(),
            views(out@) == grams_all(views(ws@.subrange(0, i as int))),
        decreases ws.len() - i,
    {
        let w = &ws[i];
        let n = w.as_str().unicode_len();
        let ghost base = views(out@);
        let mut k: usize = 0;
        if n >= 3 {
            while k < n - 2
                invariant
                    n == w@.len(),
                    n >= 3,
                    k <= n - 2,
                    views(out@) == base + windows(w@).subrange(0, k as int),
                decreases n - 2 - k,
            {
                let g = String::from_str(w.as_str().substring_char(k, k + 3));
                let ghost before = out@;
                out.push(g);
                assert(views(out@) =~= views(before).push(g@));
                assert(windows(w@).subrange(0, k + 1) =~= windows(w@).subrange(0, k as int).push(
                    g@,
                ));
                k = k + 1;
            }
            assert(windows(w@).subrange(0, k as int) =~= windows(w@));
        } else {
            assert(windows(w@) =~= Seq::<Seq<char>>::empty());
        }
        let ghost pre = views(ws@.subrange(0, i + 1));
        assert(pre.drop_last() =~= views(ws@.subrange(0, i as int)));
        assert(pre.last() == w@);
        assert(views(out@) =~= base + windows(w@));
        i = i + 1;
    }
    assert(ws@.subrange(0, ws.len() as int) =~= ws@);
    out
}

/// The whole-word tokens of a text.
pub fn clean_words(text: &str) -> (r: Vec<String>)
    ensures
        views(r@) == word_tokens(text@),
{
    let low = lowercase(text);
    split_words(low.as_str())
}

/// The n-gram tokens of a text.
pub fn gramify(text: &str) -> (r: Vec<String>)
    ensures
        views(r@) == gram_tokens(text@),
{
    let low = lowercase(text);
    let ws = split_words(low.as_str());
    windows_of_words(&ws)
}

/// Whether `s` holds `t`.
pub fn contains_text(s: &Vec<String>, t: &String) -> (r: bool)
    ensures
        r == views(s@).contains(t@),
{
    let mut i: usize = 0;
    while i < s.len()
        invariant
            i <= s.len(),
            forall|j: int| 0 <= j < i ==> s@[j]@ != t@,
        decreases s.len() - i,
    {
        if s[i] == *t {
            assert(views(s@)[i as int] == t@);
            return true;
        }
        i = i + 1;
    }
    assert(!views(s@).contains(t@)) by {
        if views(s@).contains(t@) {
            let j = choose|j: int| 0 <= j < views(s@).len() && views(s@)[j] == t@;
            assert(s@[j]@ == t@);
        }
    }
    false
}

/// The tokens of `s`, each once, in order of first appearance.
pub fn dedup(s: Vec<String>) -> (r: Vec<String>)
    ensures
        views(r@).no_duplicates(),
        views(r@).to_set() == views(s@).to_set(),
{
    let mut out: Vec<String> = Vec::new();
    let mut i: usize = 0;
    while i < s.len()
        invariant
            i <= s.len(),
            views(out@).no_duplicates(),
            views(out@).to_set() == views(s@.subrange(0, i as int)).to_set(),
        decreases s.len() - i,
    {
        let t = s[i].clone();
        let ghost pre = views(s@.subrange(0, i + 1));
        assert(pre =~= views(s@.subrange(0, i as int)).push(t@));
        if !contains_text(&out, &t) {
            let ghost before = views(out@);
            out.push(t);
            assert(views(out@) =~= before.push(t@));
            assert(views(out@).to_set() =~= before.to_set().insert(t@)) by {
                before.lemma_push_to_set_commute(t@);
            }
            assert(pre.to_set() =~= views(s@.subrange(0, i as int)).to_set().insert(t@)) by {
                views(s@.subrange(0, i as int)).lemma_push_to_set_commute(t@);
            }
        } else {
            assert(pre.to_set() =~= views(s@.subrange(0, i as int)).to_set().insert(t@)) by {
                views(s@.subrange(0, i as int)).lemma_push_to_set_commute(t@);
            }
            assert(views(out@).to_set().contains(t@));
        }
        i = i + 1;
    }
    assert(s@.subrange(0, s.len() as int) =~= s@);
    out
}

} // verus!
