//! Splitting text into words, trimming, and joining words back into text.

use vstd::prelude::*;
use crate::chars::{
    alphanumeric, chars_of, is_alphanumeric, is_whitespace, lowercase, push_char, to_lowercase,
    whitespace,
};

verus! {

/// A class of characters used as separators or trimmed away.
#[derive(Clone, Copy, PartialEq, Eq, Structural)]
pub enum CharClass {
    /// Anything that is not alphanumeric.
    NotAlphanumeric,
    /// Unicode whitespace.
    Whitespace,
    /// One given character.
    Exactly(char),
    /// The quote characters `"`, `'` and `` ` ``.
    Quote,
    /// Line feed or carriage return.
    LineEnd,
}

pub open spec fn in_class(k: CharClass, c: char) -> bool {
    match k {
        CharClass::NotAlphanumeric => !alphanumeric(c),
        CharClass::Whitespace => whitespace(c),
        CharClass::Exactly(x) => c == x,
        CharClass::Quote => c == '"' || c == '\'' || c == '`',
        CharClass::LineEnd => c == '\n' || c == '\r',
    }
}

/// Whether `c` belongs to class `k`.
pub fn class_has(k: CharClass, c: char) -> (r: bool)
    ensures
        r == in_class(k, c),
{
    match k {
        CharClass::NotAlphanumeric => !is_alphanumeric(c),
        CharClass::Whitespace => is_whitespace(c),
        CharClass::Exactly(x) => c == x,
        CharClass::Quote => c == '"' || c == '\'' || c == '`',
        CharClass::LineEnd => c == '\n' || c == '\r',
    }
}

/// The pieces of `s` between characters of class `k`, as `str::split`
/// yields them: empty pieces included, always at least one piece.
pub open spec fn pieces(s: Seq<char>, k: CharClass) -> Seq<Seq<char>>
    decreases s.len(),
{
    if s.len() == 0 {
        seq![Seq::<char>::empty()]
    } else {
        let p = pieces(s.drop_last(), k);
        if in_class(k, s.last()) {
            p.push(Seq::<char>::empty())
        } else {
            p.update(p.len() - 1, p.last().push(s.last()))
        }
    }
}

/// The non-empty entries of `ps`, in order.
pub open spec fn nonempty_pieces(ps: Seq<Seq<char>>) -> Seq<Seq<char>>
    decreases ps.len(),
{
    if ps.len() == 0 {
        Seq::<Seq<char>>::empty()
    } else {
        let r = nonempty_pieces(ps.drop_last());
        if ps.last().len() > 0 {
            r.push(ps.last())
        } else {
            r
        }
    }
}

/// Words of `s`: the non-empty pieces between separators of class `k`.
pub open spec fn split_words(s: Seq<char>, k: CharClass) -> Seq<Seq<char>> {
    nonempty_pieces(pieces(s, k))
}

/// `ws` joined with `sep` between consecutive entries.
pub open spec fn join(ws: Seq<Seq<char>>, sep: Seq<char>) -> Seq<char>
    decreases ws.len(),
{
    if ws.len() == 0 {
        Seq::<char>::empty()
    } else if ws.len() == 1 {
        ws[0]
    } else {
        join(ws.drop_last(), sep) + sep + ws.last()
    }
}

/// Words of a line as used for echo matching: lowercase, split on every
/// non-alphanumeric character, empty pieces dropped.
pub open spec fn tokens(s: Seq<char>) -> Seq<Seq<char>> {
    split_words(lowercase(s), CharClass::NotAlphanumeric)
}

/// `s` without its leading characters of class `k`.
pub open spec fn trim_start_class(s: Seq<char>, k: CharClass) -> Seq<char>
    decreases s.len(),
{
    if s.len() > 0 && in_class(k, s[0]) {
        trim_start_class(s.drop_first(), k)
    } else {
        s
    }
}

/// `s` without its trailing characters of class `k`.
pub open spec fn trim_end_class(s: Seq<char>, k: CharClass) -> Seq<char>
    decreases s.len(),
{
    if s.len() > 0 && in_class(k, s.last()) {
        trim_end_class(s.drop_last(), k)
    } else {
        s
    }
}

/// `s` without leading and trailing characters of class `k`
/// (`str::trim_matches`).
pub open spec fn trim_class(s: Seq<char>, k: CharClass) -> Seq<char> {
    trim_end_class(trim_start_class(s, k), k)
}

/// `str::trim`: leading and trailing whitespace removed.
pub open spec fn trim(s: Seq<char>) -> Seq<char> {
    trim_class(s, CharClass::Whitespace)
}

pub proof fn lemma_pieces_nonempty(s: Seq<char>, k: CharClass)
    ensures
        pieces(s, k).len() >= 1,
    decreases s.len(),
{
    if s.len() > 0 {
        lemma_pieces_nonempty(s.drop_last(), k);
    }
}

/// Text without a character of class `k` is a single piece.
pub proof fn lemma_pieces_of_unbroken(w: Seq<char>, k: CharClass)
    requires
        forall|i: int| 0 <= i < w.len() ==> !in_class(k, #[trigger] w[i]),
    ensures
        pieces(w, k) == seq![w],
    decreases w.len(),
{
    if w.len() > 0 {
        assert forall|i: int| 0 <= i < w.drop_last().len() implies !in_class(k, #[trigger] w.drop_last()[i]) by {
            assert(w.drop_last()[i] == w[i]);
        }
        assert(!in_class(k, w[w.len() - 1]));
        lemma_pieces_of_unbroken(w.drop_last(), k);
        assert(w.drop_last().push(w.last()) =~= w);
        assert(seq![w.drop_last()].update(0, w.drop_last().push(w.last())) =~= seq![w]);
        assert(pieces(w, k) == pieces(w.drop_last(), k).update(0, w.drop_last().push(w.last())));
    } else {
        assert(w =~= Seq::<char>::empty());
    }
}

/// A separator followed by an unbroken run adds exactly that run as a piece.
pub proof fn lemma_pieces_after_separator(s: Seq<char>, c: char, w: Seq<char>, k: CharClass)
    requires
        in_class(k, c),
        forall|i: int| 0 <= i < w.len() ==> !in_class(k, #[trigger] w[i]),
    ensures
        pieces(s.push(c) + w, k) == pieces(s, k).push(w),
    decreases w.len(),
{
    if w.len() == 0 {
        assert(s.push(c) + w =~= s.push(c));
        assert(s.push(c).drop_last() =~= s);
        assert(w =~= Seq::<char>::empty());
        assert(pieces(s.push(c), k) == pieces(s, k).push(Seq::<char>::empty()));
    } else {
        let w0 = w.drop_last();
        assert forall|i: int| 0 <= i < w0.len() implies !in_class(k, #[trigger] w0[i]) by {
            assert(w0[i] == w[i]);
        }
        assert(!in_class(k, w[w.len() - 1]));
        assert(w0.push(w.last()) =~= w);
        lemma_pieces_after_separator(s, c, w0, k);
        assert((s.push(c) + w).drop_last() =~= s.push(c) + w0);
        assert((s.push(c) + w).last() == w.last());
        assert(pieces(s, k).push(w0).update(pieces(s, k).len() as int, w0.push(w.last()))
            =~= pieces(s, k).push(w));
        let t = s.push(c) + w;
        let p0 = pieces(t.drop_last(), k);
        assert(!in_class(k, t.last()));
        assert(pieces(t, k) == p0.update(p0.len() - 1, p0.last().push(t.last())));
    }
}

/// Splitting a join at the joining character gives back the joined entries,
/// provided none of them contains that character.
pub proof fn lemma_split_join(ws: Seq<Seq<char>>, c: char)
    requires
        ws.len() >= 1,
        forall|i: int, j: int| 0 <= i < ws.len() && 0 <= j < ws[i].len() ==> #[trigger] ws[i][j] != c,
    ensures
        pieces(join(ws, seq![c]), CharClass::Exactly(c)) == ws,
    decreases ws.len(),
{
    let k = CharClass::Exactly(c);
    if ws.len() == 1 {
        assert forall|i: int| 0 <= i < ws[0].len() implies !in_class(k, #[trigger] ws[0][i]) by {
            assert(ws[0][i] != c);
        }
        lemma_pieces_of_unbroken(ws[0], k);
        assert(seq![ws[0]] =~= ws);
    } else {
        let front = ws.drop_last();
        assert forall|i: int, j: int| 0 <= i < front.len() && 0 <= j < front[i].len() implies #[trigger] front[i][j] != c by {
            assert(front[i] == ws[i]);
        }
        lemma_split_join(front, c);
        let last = ws.last();
        assert forall|i: int| 0 <= i < last.len() implies !in_class(k, #[trigger] last[i]) by {
            assert(ws[ws.len() - 1][i] != c);
        }
        lemma_pieces_after_separator(join(front, seq![c]), c, last, k);
        assert(join(front, seq![c]) + seq![c] + last =~= join(front, seq![c]).push(c) + last);
        assert(front.push(last) =~= ws);
    }
}

/// The string holding exactly the characters of `v`.
pub fn string_of(v: &Vec<char>) -> (s: String)
    ensures
        s@ == v@,
{
    let mut s = String::new();
    for k in 0..v.len()
        invariant
            s@ == v@.take(k as int),
    {
        push_char(&mut s, v[k]);
        proof {
            assert(v@.take(k + 1) =~= v@.take(k as int).push(v[k as int]));
        }
    }
    proof {
        assert(v@.take(v.len() as int) =~= v@);
    }
    s
}

/// The string holding `v[lo..hi]`.
pub fn string_of_range(v: &Vec<char>, lo: usize, hi: usize) -> (s: String)
    requires
        lo <= hi <= v.len(),
    ensures
        s@ == v@.subrange(lo as int, hi as int),
{
    let mut s = String::new();
    let mut k = lo;
    while k < hi
        invariant
            lo <= k <= hi,
            hi <= v.len(),
            s@ == v@.subrange(lo as int, k as int),
        decreases hi - k,
    {
        push_char(&mut s, v[k]);
        proof {
            assert(v@.subrange(lo as int, k + 1) =~= v@.subrange(lo as int, k as int).push(v[k as int]));
        }
        k = k + 1;
    }
    s
}

/// The words of `v` split at characters of class `k`, empty pieces dropped.
pub fn split_class(v: &Vec<char>, k: CharClass) -> (ws: Vec<String>)
    ensures
        ws.deep_view() == split_words(v@, k),
{
    let mut done: Vec<String> = Vec::new();
    let mut cur = String::new();
    let mut i: usize = 0;
    proof {
        assert(v@.take(0) =~= Seq::<char>::empty());
    }
    while i < v.len()
        invariant
            i <= v.len(),
            pieces(v@.take(i as int), k).len() >= 1,
            done.deep_view() == nonempty_pieces(pieces(v@.take(i as int), k).drop_last()),
            cur@ == pieces(v@.take(i as int), k).last(),
        decreases v.len() - i,
    {
        let c = v[i];
        let ghost t = v@.take(i as int);
        let ghost p = pieces(t, k);
        proof {
            assert(v@.take(i + 1).drop_last() =~= t);
            assert(v@.take(i + 1).last() == c);
        }
        if class_has(k, c) {
            if !cur.as_str().is_empty() {
                let ghost old_done = done.deep_view();
                done.push(cur);
                proof {
                    assert(done.deep_view() =~= old_done.push(p.last()));
                }
            }
            cur = String::new();
            proof {
                let q = p.push(Seq::<char>::empty());
                assert(q.drop_last() =~= p);
                assert(p =~= p.drop_last().push(p.last()));
            }
        } else {
            push_char(&mut cur, c);
            proof {
                let q = p.update(p.len() - 1, p.last().push(c));
                assert(q.drop_last() =~= p.drop_last());
            }
        }
        i = i + 1;
    }
    proof {
        let p = pieces(v@, k);
        assert(v@.take(v.len() as int) =~= v@);
        assert(p =~= p.drop_last().push(p.last()));
    }
    if !cur.as_str().is_empty() {
        let ghost old_done = done.deep_view();
        done.push(cur);
        proof {
            assert(done.deep_view() =~= old_done.push(pieces(v@, k).last()));
        }
    }
    done
}

/// Bounds `(lo, hi)` such that `v[lo..hi]` is `v` with leading and trailing
/// characters of class `k` removed.
pub fn trim_bounds(v: &Vec<char>, k: CharClass) -> (r: (usize, usize))
    ensures
        r.0 <= r.1 <= v.len(),
        v@.subrange(r.0 as int, r.1 as int) == trim_class(v@, k),
{
    let n = v.len();
    let mut lo: usize = 0;
    proof {
        assert(v@.skip(0) =~= v@);
    }
    while lo < n && class_has(k, v[lo])
        invariant
            n == v.len(),
            lo <= n,
            trim_start_class(v@.skip(lo as int), k) == trim_start_class(v@, k),
        decreases n - lo,
    {
        proof {
            assert(v@.skip(lo as int).drop_first() =~= v@.skip(lo + 1));
        }
        lo = lo + 1;
    }
    proof {
        assert(trim_start_class(v@.skip(lo as int), k) == v@.skip(lo as int));
        assert(v@.subrange(lo as int, n as int) =~= v@.skip(lo as int));
    }
    let mut hi: usize = n;
    while hi > lo && class_has(k, v[hi - 1])
        invariant
            n == v.len(),
            lo <= hi <= n,
            trim_end_class(v@.subrange(lo as int, hi as int), k) == trim_class(v@, k),
        decreases hi,
    {
        proof {
            assert(v@.subrange(lo as int, hi as int).drop_last() =~= v@.subrange(lo as int, hi - 1));
        }
        hi = hi - 1;
    }
    (lo, hi)
}

/// `s` with leading and trailing whitespace removed.
pub fn trim_str(s: &str) -> (r: String)
    ensures
        r@ == trim(s@),
{
    let v = chars_of(s);
    let (lo, hi) = trim_bounds(&v, CharClass::Whitespace);
    string_of_range(&v, lo, hi)
}

/// Lowercase, then split on every non-alphanumeric character.
pub fn tokenize(s: &str) -> (ws: Vec<String>)
    ensures
        ws.deep_view() == tokens(s@),
{
    let lower = to_lowercase(s);
    let v = chars_of(lower.as_str());
    split_class(&v, CharClass::NotAlphanumeric)
}

/// The whitespace-separated words of `s` (`str::split_whitespace`).
pub fn split_whitespace(s: &str) -> (ws: Vec<String>)
    ensures
        ws.deep_view() == split_words(s@, CharClass::Whitespace),
{
    let v = chars_of(s);
    split_class(&v, CharClass::Whitespace)
}

/// `ws` joined with `sep` between consecutive entries.
pub fn join_words(ws: &Vec<String>, sep: &str) -> (r: String)
    ensures
        r@ == join(ws.deep_view(), sep@),
{
    let ghost wv = ws.deep_view();
    let mut r = String::new();
    let mut k: usize = 0;
    proof {
        assert(wv.take(0) =~= Seq::<Seq<char>>::empty());
    }
    while k < ws.len()
        invariant
            wv == ws.deep_view(),
            k <= ws.len(),
            r@ == join(wv.take(k as int), sep@),
        decreases ws.len() - k,
    {
        if k > 0 {
            r.append(sep);
        }
        r.append(ws[k].as_str());
        proof {
            let t = wv.take(k + 1);
            assert(t.drop_last() =~= wv.take(k as int));
            assert(t.last() == ws[k as int]@);
            if k == 0 {
                assert(t.len() == 1);
            }
        }
        k = k + 1;
    }
    proof {
        assert(wv.take(ws.len() as int) =~= wv);
    }
    r
}

} // verus!
