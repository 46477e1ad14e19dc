//! Text post-processing for recognizer output: full-width punctuation to
//! ASCII, whitespace tidying, and sentence / `I` casing.

use vstd::prelude::*;
use crate::chars::{
    alphabetic, char_to_uppercase, chars_of, is_alphabetic, lowercase, push_char, to_lowercase, uppercase,
    whitespace,
};
use crate::words::{
    join, join_words, nonempty_pieces, pieces, split_class, split_words, string_of, string_of_range,
    trim, trim_end_class, trim_start_class, trim_str, CharClass,
};

verus! {

/// ASCII rendering of the punctuation model's full-width marks (each
/// followed by a space); other characters stay as they are.
pub open spec fn ascii_punct(c: char) -> Seq<char> {
    if c == '，' || c == '、' {
        seq![',', ' ']
    } else if c == '。' {
        seq!['.', ' ']
    } else if c == '？' {
        seq!['?', ' ']
    } else if c == '！' {
        seq!['!', ' ']
    } else if c == '：' {
        seq![':', ' ']
    } else if c == '；' {
        seq![';', ' ']
    } else {
        seq![c]
    }
}

/// `s` with every full-width mark replaced by its ASCII rendering.
pub open spec fn widened(s: Seq<char>) -> Seq<char>
    decreases s.len(),
{
    if s.len() == 0 {
        Seq::<char>::empty()
    } else {
        widened(s.drop_last()) + ascii_punct(s.last())
    }
}

/// Runs of whitespace collapsed to single spaces, ends trimmed.
pub open spec fn collapsed(s: Seq<char>) -> Seq<char> {
    join(split_words(s, CharClass::Whitespace), seq![' '])
}

/// Every `" p"` replaced by `"p"`, scanning left to right.
pub open spec fn attached(s: Seq<char>, p: char) -> Seq<char>
    decreases s.len(),
{
    if s.len() < 2 {
        s
    } else if s[0] == ' ' && s[1] == p {
        seq![p] + attached(s.skip(2), p)
    } else {
        seq![s[0]] + attached(s.drop_first(), p)
    }
}

/// The punctuation-normalized line: ASCII marks, single spaces, no space
/// before `, . ? ! : ;`, trimmed.
pub open spec fn normalized(s: Seq<char>) -> Seq<char> {
    let t = collapsed(widened(s));
    trim(
        attached(
            attached(attached(attached(attached(attached(t, ','), '.'), '?'), '!'), ':'),
            ';',
        ),
    )
}

/// Output of the capitalization pass over (already lowercased) `s`, and
/// whether the next alphabetic character starts a sentence: the first
/// alphabetic character of the text and after each `.`, `!` or `?` is
/// uppercased.
pub open spec fn capitalized(s: Seq<char>) -> (Seq<char>, bool)
    decreases s.len(),
{
    if s.len() == 0 {
        (Seq::<char>::empty(), true)
    } else {
        let prev = capitalized(s.drop_last());
        let c = s.last();
        let up = prev.1 && alphabetic(c);
        let out = if up { prev.0 + uppercase(c) } else { prev.0.push(c) };
        let start = if c == '.' || c == '!' || c == '?' { true } else if up { false } else { prev.1 };
        (out, start)
    }
}

/// The standalone pronoun `i` (also in `i'm`, `i'll`, …) written `I`.
pub open spec fn pronoun_fixed(w: Seq<char>) -> Seq<char> {
    if w == seq!['i'] || (w.len() >= 2 && w[0] == 'i' && w[1] == '\'') {
        seq!['I'] + w.drop_first()
    } else {
        w
    }
}

/// The truecased line: lowercased, sentence starts capitalized, and each
/// space-separated standalone `i` made `I`.
pub open spec fn truecased(s: Seq<char>) -> Seq<char> {
    let c = capitalized(lowercase(s)).0;
    join(pieces(c, CharClass::Exactly(' ')).map_values(|w: Seq<char>| pronoun_fixed(w)), seq![' '])
}

/// `s` with full-width marks made ASCII.
fn widen(v: &Vec<char>) -> (r: Vec<char>)
    ensures
        r@ == widened(v@),
{
    let mut r: Vec<char> = Vec::new();
    for k in 0..v.len()
        invariant
            r@ == widened(v@.take(k as int)),
    {
        let c = v[k];
        let ghost before = r@;
        if c == '，' || c == '、' {
            r.push(',');
            r.push(' ');
        } else if c == '。' {
            r.push('.');
            r.push(' ');
        } else if c == '？' {
            r.push('?');
            r.push(' ');
        } else if c == '！' {
            r.push('!');
            r.push(' ');
        } else if c == '：' {
            r.push(':');
            r.push(' ');
        } else if c == '；' {
            r.push(';');
            r.push(' ');
        } else {
            r.push(c);
        }
        proof {
            assert(r@ =~= before + ascii_punct(c));
            assert(v@.take(k + 1).drop_last() =~= v@.take(k as int));
        }
    }
    proof {
        assert(v@.take(v.len() as int) =~= v@);
    }
    r
}

/// Every `" p"` replaced by `"p"`.
fn attach(v: &Vec<char>, p: char) -> (r: Vec<char>)
    ensures
        r@ == attached(v@, p),
{
    let mut r: Vec<char> = Vec::new();
    let mut i: usize = 0;
    proof {
        assert(v@.skip(0) =~= v@);
    }
    while i < v.len()
        invariant
            i <= v.len(),
            attached(v@, p) == r@ + attached(v@.skip(i as int), p),
        decreases v.len() - i,
    {
        let ghost rest = v@.skip(i as int);
        if i + 1 < v.len() && v[i] == ' ' && v[i + 1] == p {
            r.push(p);
            proof {
                assert(rest.skip(2) =~= v@.skip(i + 2));
                assert(attached(rest, p) == seq![p] + attached(rest.skip(2), p));
            }
            i = i + 2;
        } else {
            r.push(v[i]);
            proof {
                assert(rest.drop_first() =~= v@.skip(i + 1));
                if rest.len() < 2 {
                    assert(v@.skip(i + 1).len() == 0);
                    assert(attached(v@.skip(i + 1), p) =~= Seq::<char>::empty());
                    assert(rest =~= seq![v[i as int]]);
                } else {
                    assert(attached(rest, p) == seq![rest[0]] + attached(rest.drop_first(), p));
                }
            }
            i = i + 1;
        }
        proof {
            assert(r@ + attached(v@.skip(i as int), p) =~= attached(v@, p));
        }
    }
    proof {
        assert(v@.skip(v.len() as int) =~= Seq::<char>::empty());
        assert(r@ + Seq::<char>::empty() =~= r@);
    }
    r
}

/// Map the zh-en punctuation model's full-width marks to ASCII and tidy
/// spacing.
pub fn normalize_punct(s: &str) -> (r: String)
    ensures
        r@ == normalized(s@),
{
    let v = chars_of(s);
    let w = widen(&v);
    let words = split_class(&w, CharClass::Whitespace);
    let space = " ";
    proof {
        reveal_strlit(" ");
        assert(space@ =~= seq![' ']);
    }
    let joined = join_words(&words, space);
    proof {
        assert(joined@ == collapsed(widened(s@)));
    }
    let mut t = chars_of(joined.as_str());
    t = attach(&t, ',');
    t = attach(&t, '.');
    t = attach(&t, '?');
    t = attach(&t, '!');
    t = attach(&t, ':');
    t = attach(&t, ';');
    let out = string_of(&t);
    trim_str(out.as_str())
}

/// The pieces of `v` between characters of class `k`, empty ones included.
fn split_keep(v: &Vec<char>, k: CharClass) -> (ps: Vec<String>)
    ensures
        ps.deep_view() == pieces(v@, k),
{
    let mut done: Vec<String> = Vec::new();
    let mut cur = String::new();
    let mut i: usize = 0;
    proof {
        assert(v@.take(0) =~= Seq::<char>::empty());
        assert(done.deep_view() =~= Seq::<Seq<char>>::empty());
    }
    while i < v.len()
        invariant
            i <= v.len(),
            pieces(v@.take(i as int), k).len() >= 1,
            done.deep_view() == pieces(v@.take(i as int), k).drop_last(),
            cur@ == pieces(v@.take(i as int), k).last(),
        decreases v.len() - i,
    {
        let c = v[i];
        let ghost t = v@.take(i as int);
        let ghost p = pieces(t, k);
        proof {
            assert(v@.take(i + 1).drop_last() =~= t);
            assert(v@.take(i + 1).last() == c);
        }
        if crate::words::class_has(k, c) {
            let ghost old_done = done.deep_view();
            done.push(cur);
            cur = String::new();
            proof {
                assert(done.deep_view() =~= old_done.push(p.last()));
                assert(p =~= p.drop_last().push(p.last()));
                assert(p.push(Seq::<char>::empty()).drop_last() =~= p);
            }
        } else {
            push_char(&mut cur, c);
            proof {
                let q = p.update(p.len() - 1, p.last().push(c));
                assert(q.drop_last() =~= p.drop_last());
            }
        }
        i = i + 1;
    }
    proof {
        assert(v@.take(v.len() as int) =~= v@);
        let p = pieces(v@, k);
        assert(p =~= p.drop_last().push(p.last()));
    }
    let ghost old_done = done.deep_view();
    done.push(cur);
    proof {
        assert(done.deep_view() =~= old_done.push(pieces(v@, k).last()));
    }
    done
}

/// `w` with a standalone pronoun `i` made `I`.
fn fix_pronoun(w: &String) -> (r: String)
    ensures
        r@ == pronoun_fixed(w@),
{
    let v = chars_of(w.as_str());
    let standalone = (v.len() == 1 && v[0] == 'i') || (v.len() >= 2 && v[0] == 'i' && v[1] == '\'');
    proof {
        if v.len() == 1 && v[0] == 'i' {
            assert(v@ =~= seq!['i']);
        }
        if v@ == seq!['i'] {
            assert(v.len() == 1 && v[0] == 'i');
        }
    }
    if standalone {
        let mut r = String::new();
        push_char(&mut r, 'I');
        let rest = string_of_range(&v, 1, v.len());
        r.append(rest.as_str());
        proof {
            assert(r@ =~= seq!['I'] + w@.drop_first());
        }
        r
    } else {
        w.clone()
    }
}

/// Capitalize sentence starts and the standalone pronoun "I".
pub fn truecase(s: &str) -> (r: String)
    ensures
        r@ == truecased(s@),
{
    let lower = to_lowercase(s);
    let v = chars_of(lower.as_str());
    let ghost lv = lowercase(s@);
    let mut out = String::new();
    let mut sentence_start = true;
    for k in 0..v.len()
        invariant
            v@ == lv,
            (out@, sentence_start) == capitalized(lv.take(k as int)),
    {
        let c = v[k];
        let ghost prev = capitalized(lv.take(k as int));
        proof {
            assert(lv.take(k + 1).drop_last() =~= lv.take(k as int));
            assert(lv.take(k + 1).last() == c);
        }
        if sentence_start && is_alphabetic(c) {
            let up = char_to_uppercase(c);
            out.append(up.as_str());
            sentence_start = false;
        } else {
            push_char(&mut out, c);
        }
        if c == '.' || c == '!' || c == '?' {
            sentence_start = true;
        }
        proof {
            assert(prev.0 == capitalized(lv.take(k as int)).0);
        }
    }
    proof {
        assert(lv.take(v.len() as int) =~= lv);
    }
    let oc = chars_of(out.as_str());
    let ps = split_keep(&oc, CharClass::Exactly(' '));
    let ghost pv = ps.deep_view();
    let mut fixed: Vec<String> = Vec::new();
    for k in 0..ps.len()
        invariant
            pv == ps.deep_view(),
            fixed.deep_view() == pv.map_values(|w: Seq<char>| pronoun_fixed(w)).take(k as int),
    {
        let ghost before = fixed.deep_view();
        fixed.push(fix_pronoun(&ps[k]));
        proof {
            assert(fixed.deep_view() =~= before.push(pronoun_fixed(pv[k as int])));
            assert(pv.map_values(|w: Seq<char>| pronoun_fixed(w)).take(k + 1) =~= pv.map_values(
                |w: Seq<char>| pronoun_fixed(w),
            ).take(k as int).push(pronoun_fixed(pv[k as int])));
        }
    }
    proof {
        assert(pv.map_values(|w: Seq<char>| pronoun_fixed(w)).take(ps.len() as int) =~= pv.map_values(
            |w: Seq<char>| pronoun_fixed(w),
        ));
    }
    let space = " ";
    proof {
        reveal_strlit(" ");
        assert(space@ =~= seq![' ']);
    }
    join_words(&fixed, space)
}

/// Lightweight casing for live partials (no punctuation model in the hot
/// path).
pub fn truecase_partial(s: &str) -> (r: String)
    ensures
        r@ == truecased(s@),
{
    truecase(s)
}

/// The text handed to the punctuation model: the recognizer's upper-case
/// text, lowercased as the model expects.
pub fn punctuation_input(caps_text: &str) -> (r: String)
    ensures
        r@ == lowercase(caps_text@),
{
    to_lowercase(caps_text)
}

/// Turn raw upper-case recognizer text into a polished line: the punctuated
/// text when the punctuation model produced one (from
/// [`punctuation_input`]), else the raw text; then full-width marks made
/// ASCII, spacing tidied, and truecased.
pub fn finalize(caps_text: &str, punctuated: Option<&str>) -> (r: String)
    ensures
        r@ == truecased(normalized(match punctuated {
            Some(p) => p@,
            None => caps_text@,
        })),
{
    let with_punct = match punctuated {
        Some(p) => p,
        None => caps_text,
    };
    let n = normalize_punct(with_punct);
    truecase(n.as_str())
}

/// Recognized segments joined as the sidecar emits them: each trimmed and
/// followed by a space, then collapsed to single spaces on one line.
pub open spec fn segments_collapsed(segs: Seq<Seq<char>>) -> Seq<char> {
    collapsed(crate::render::concat(segs.map_values(|s: Seq<char>| trim(s) + seq![' '])))
}

/// Recognized segments joined for display: each trimmed and followed by a
/// space, the whole trimmed.
pub open spec fn segments_trimmed(segs: Seq<Seq<char>>) -> Seq<char> {
    trim(crate::render::concat(segs.map_values(|s: Seq<char>| trim(s) + seq![' '])))
}

/// Each segment trimmed and followed by a space, concatenated.
fn spaced_segments(segs: &Vec<String>) -> (r: String)
    ensures
        r@ == crate::render::concat(segs.deep_view().map_values(|s: Seq<char>| trim(s) + seq![' '])),
{
    let ghost sv = segs.deep_view();
    let ghost f = |s: Seq<char>| trim(s) + seq![' '];
    let mut r = String::new();
    proof {
        assert(sv.map_values(f).take(0) =~= Seq::<Seq<char>>::empty());
    }
    for k in 0..segs.len()
        invariant
            sv == segs.deep_view(),
            f == |s: Seq<char>| trim(s) + seq![' '],
            r@ == crate::render::concat(sv.map_values(f).take(k as int)),
    {
        let t = trim_str(segs[k].as_str());
        r.append(t.as_str());
        push_char(&mut r, ' ');
        proof {
            let m = sv.map_values(f);
            assert(m.take(k + 1).drop_last() =~= m.take(k as int));
            assert(m.take(k + 1).last() == trim(sv[k as int]) + seq![' ']);
            assert(r@ =~= crate::render::concat(m.take(k + 1)));
        }
    }
    proof {
        assert(sv.map_values(f).take(segs.len() as int) =~= sv.map_values(f));
    }
    r
}

/// Collapse recognized segments to a single clean line (the sidecar protocol
/// is line-delimited).
pub fn collapse_segments(segs: &Vec<String>) -> (r: String)
    ensures
        r@ == segments_collapsed(segs.deep_view()),
{
    let text = spaced_segments(segs);
    let v = chars_of(text.as_str());
    let words = split_class(&v, CharClass::Whitespace);
    let space = " ";
    proof {
        reveal_strlit(" ");
        assert(space@ =~= seq![' ']);
    }
    join_words(&words, space)
}

/// The recognized text of an utterance, or `None` when it is blank.
pub fn segments_text(segs: &Vec<String>) -> (r: Option<String>)
    ensures
        segments_trimmed(segs.deep_view()).len() == 0 ==> r is None,
        segments_trimmed(segs.deep_view()).len() > 0 ==> (r matches Some(t) && t@ == segments_trimmed(segs.deep_view())),
{
    let text = spaced_segments(segs);
    let t = trim_str(text.as_str());
    if t.as_str().is_empty() {
        None
    } else {
        Some(t)
    }
}

/// At most this many characters of an interim line are shown.
pub const PARTIAL_MAX_CHARS: usize = 100;

/// What is shown of an interim line: its last 100 characters behind `...`
/// when it is longer, else the whole line.
pub open spec fn partial_shown(s: Seq<char>) -> Seq<char> {
    if s.len() > PARTIAL_MAX_CHARS {
        seq!['.', '.', '.'] + s.skip(s.len() - PARTIAL_MAX_CHARS)
    } else {
        s
    }
}

/// The displayed tail of an interim line (the most recent words, one line).
pub fn partial_tail(text: &str) -> (r: String)
    ensures
        r@ == partial_shown(text@),
{
    let v = chars_of(text);
    if v.len() > PARTIAL_MAX_CHARS {
        let mut r = String::new();
        push_char(&mut r, '.');
        push_char(&mut r, '.');
        push_char(&mut r, '.');
        let tail = string_of_range(&v, v.len() - PARTIAL_MAX_CHARS, v.len());
        r.append(tail.as_str());
        proof {
            assert(r@ =~= seq!['.', '.', '.'] + text@.skip(text@.len() - PARTIAL_MAX_CHARS));
        }
        r
    } else {
        string_of(&v)
    }
}

/// The full-width marks of the punctuation model.
pub open spec fn full_width_mark(c: char) -> bool {
    c == '，' || c == '、' || c == '。' || c == '？' || c == '！' || c == '：' || c == '；'
}

/// No character of `s` is a full-width mark.
pub open spec fn no_marks(s: Seq<char>) -> bool {
    forall|i: int| 0 <= i < s.len() ==> !full_width_mark(#[trigger] s[i])
}

proof fn lemma_no_marks_concat(a: Seq<char>, b: Seq<char>)
    requires
        no_marks(a),
        no_marks(b),
    ensures
        no_marks(a + b),
{
    assert forall|i: int| 0 <= i < (a + b).len() implies !full_width_mark(#[trigger] (a + b)[i]) by {
        if i < a.len() {
            assert((a + b)[i] == a[i]);
        } else {
            assert((a + b)[i] == b[i - a.len()]);
        }
    }
}

proof fn lemma_widened_no_marks(s: Seq<char>)
    ensures
        no_marks(widened(s)),
    decreases s.len(),
{
    if s.len() > 0 {
        lemma_widened_no_marks(s.drop_last());
        let a = ascii_punct(s.last());
        assert(no_marks(a));
        lemma_no_marks_concat(widened(s.drop_last()), a);
    }
}

proof fn lemma_pieces_no_marks(s: Seq<char>, k: CharClass)
    requires
        no_marks(s),
    ensures
        forall|j: int| 0 <= j < pieces(s, k).len() ==> no_marks(#[trigger] pieces(s, k)[j]),
    decreases s.len(),
{
    if s.len() > 0 {
        let d = s.drop_last();
        assert forall|i: int| 0 <= i < d.len() implies !full_width_mark(#[trigger] d[i]) by {
            assert(d[i] == s[i]);
        }
        lemma_pieces_no_marks(d, k);
        crate::words::lemma_pieces_nonempty(d, k);
        let p = pieces(d, k);
        if !crate::words::in_class(k, s.last()) {
            let l = p.last().push(s.last());
            assert(no_marks(p.last()));
            assert forall|i: int| 0 <= i < l.len() implies !full_width_mark(#[trigger] l[i]) by {
                if i < p.last().len() {
                    assert(l[i] == p.last()[i]);
                }
            }
        }
    } else {
        assert(no_marks(Seq::<char>::empty()));
    }
}

proof fn lemma_nonempty_no_marks(ps: Seq<Seq<char>>)
    requires
        forall|j: int| 0 <= j < ps.len() ==> no_marks(#[trigger] ps[j]),
    ensures
        forall|j: int| 0 <= j < nonempty_pieces(ps).len() ==> no_marks(#[trigger] nonempty_pieces(ps)[j]),
    decreases ps.len(),
{
    if ps.len() > 0 {
        let d = ps.drop_last();
        assert forall|j: int| 0 <= j < d.len() implies no_marks(#[trigger] d[j]) by {
            assert(d[j] == ps[j]);
        }
        lemma_nonempty_no_marks(d);
        assert(no_marks(ps[ps.len() - 1]));
        let r = nonempty_pieces(d);
        if ps.last().len() > 0 {
            assert forall|j: int| 0 <= j < r.push(ps.last()).len() implies no_marks(
                #[trigger] r.push(ps.last())[j],
            ) by {
                if j < r.len() {
                    assert(r.push(ps.last())[j] == r[j]);
                }
            }
        }
    }
}

proof fn lemma_join_no_marks(ws: Seq<Seq<char>>, sep: Seq<char>)
    requires
        forall|j: int| 0 <= j < ws.len() ==> no_marks(#[trigger] ws[j]),
        no_marks(sep),
    ensures
        no_marks(join(ws, sep)),
    decreases ws.len(),
{
    if ws.len() > 1 {
        let d = ws.drop_last();
        assert forall|j: int| 0 <= j < d.len() implies no_marks(#[trigger] d[j]) by {
            assert(d[j] == ws[j]);
        }
        lemma_join_no_marks(d, sep);
        lemma_no_marks_concat(join(d, sep), sep);
        assert(no_marks(ws[ws.len() - 1]));
        lemma_no_marks_concat(join(d, sep) + sep, ws.last());
    } else if ws.len() == 1 {
        assert(no_marks(ws[0]));
    } else {
        assert(no_marks(Seq::<char>::empty()));
    }
}

proof fn lemma_attached_no_marks(s: Seq<char>, p: char)
    requires
        no_marks(s),
        !full_width_mark(p),
    ensures
        no_marks(attached(s, p)),
    decreases s.len(),
{
    if s.len() >= 2 {
        if s[0] == ' ' && s[1] == p {
            let r = s.skip(2);
            assert forall|i: int| 0 <= i < r.len() implies !full_width_mark(#[trigger] r[i]) by {
                assert(r[i] == s[i + 2]);
            }
            lemma_attached_no_marks(r, p);
            lemma_no_marks_concat(seq![p], attached(r, p));
        } else {
            let r = s.drop_first();
            assert forall|i: int| 0 <= i < r.len() implies !full_width_mark(#[trigger] r[i]) by {
                assert(r[i] == s[i + 1]);
            }
            lemma_attached_no_marks(r, p);
            assert(!full_width_mark(s[0]));
            lemma_no_marks_concat(seq![s[0]], attached(r, p));
        }
    }
}

proof fn lemma_trim_no_marks(s: Seq<char>, k: CharClass)
    requires
        no_marks(s),
    ensures
        no_marks(trim_start_class(s, k)),
        no_marks(trim_end_class(s, k)),
    decreases s.len(),
{
    if s.len() > 0 {
        let f = s.drop_first();
        assert forall|i: int| 0 <= i < f.len() implies !full_width_mark(#[trigger] f[i]) by {
            assert(f[i] == s[i + 1]);
        }
        let l = s.drop_last();
        assert forall|i: int| 0 <= i < l.len() implies !full_width_mark(#[trigger] l[i]) by {
            assert(l[i] == s[i]);
        }
        lemma_trim_no_marks(f, k);
        lemma_trim_no_marks(l, k);
    }
}

/// Normalized text holds no full-width mark: each one became its ASCII
/// counterpart.
pub proof fn law_normalized_has_no_full_width_marks(s: Seq<char>)
    ensures
        no_marks(normalized(s)),
{
    let w = widened(s);
    lemma_widened_no_marks(s);
    lemma_pieces_no_marks(w, CharClass::Whitespace);
    lemma_nonempty_no_marks(pieces(w, CharClass::Whitespace));
    assert(no_marks(seq![' ']));
    lemma_join_no_marks(split_words(w, CharClass::Whitespace), seq![' ']);
    let t = collapsed(w);
    lemma_attached_no_marks(t, ',');
    let t1 = attached(t, ',');
    lemma_attached_no_marks(t1, '.');
    let t2 = attached(t1, '.');
    lemma_attached_no_marks(t2, '?');
    let t3 = attached(t2, '?');
    lemma_attached_no_marks(t3, '!');
    let t4 = attached(t3, '!');
    lemma_attached_no_marks(t4, ':');
    let t5 = attached(t4, ':');
    lemma_attached_no_marks(t5, ';');
    let t6 = attached(t5, ';');
    lemma_trim_no_marks(t6, CharClass::Whitespace);
    lemma_trim_no_marks(trim_start_class(t6, CharClass::Whitespace), CharClass::Whitespace);
}

/// The ASCII marks that take no space before them.
pub open spec fn tight_mark(c: char) -> bool {
    c == ',' || c == '.' || c == '?' || c == '!' || c == ':' || c == ';'
}

/// `s` never has `x` directly followed by `y`.
pub open spec fn no_pair(s: Seq<char>, x: char, y: char) -> bool
    decreases s.len(),
{
    if s.len() < 2 {
        true
    } else {
        !(s[0] == x && s[1] == y) && no_pair(s.drop_first(), x, y)
    }
}

/// The only whitespace character in `s` is the plain space.
pub open spec fn plain_spaces(s: Seq<char>) -> bool {
    forall|i: int| 0 <= i < s.len() && whitespace(#[trigger] s[i]) ==> s[i] == ' '
}

/// Tidy spacing: plain single spaces only, none before `, . ? ! : ;`, and no
/// whitespace at either end.
pub open spec fn tidy(s: Seq<char>) -> bool {
    &&& plain_spaces(s)
    &&& no_pair(s, ' ', ' ')
    &&& no_pair(s, ' ', ',')
    &&& no_pair(s, ' ', '.')
    &&& no_pair(s, ' ', '?')
    &&& no_pair(s, ' ', '!')
    &&& no_pair(s, ' ', ':')
    &&& no_pair(s, ' ', ';')
    &&& s.len() > 0 ==> !whitespace(s[0]) && !whitespace(s.last())
}

proof fn lemma_no_pair_concat(a: Seq<char>, b: Seq<char>, x: char, y: char)
    requires
        no_pair(a, x, y),
        no_pair(b, x, y),
        !(a.len() > 0 && b.len() > 0 && a.last() == x && b[0] == y),
    ensures
        no_pair(a + b, x, y),
    decreases a.len(),
{
    if a.len() == 0 {
        assert(a + b =~= b);
    } else {
        let r = a.drop_first();
        assert((a + b).drop_first() =~= r + b);
        if r.len() > 0 {
            assert(r.last() == a.last());
        }
        lemma_no_pair_concat(r, b, x, y);
        if a.len() >= 2 {
            assert((a + b)[1] == a[1]);
        } else {
            assert(a.last() == a[0]);
            if b.len() > 0 {
                assert((a + b)[1] == b[0]);
            }
        }
    }
}

proof fn lemma_no_pair_without(s: Seq<char>, x: char, y: char)
    requires
        forall|i: int| 0 <= i < s.len() ==> s[i] != x,
    ensures
        no_pair(s, x, y),
    decreases s.len(),
{
    if s.len() >= 2 {
        let r = s.drop_first();
        assert forall|i: int| 0 <= i < r.len() implies r[i] != x by {
            assert(r[i] == s[i + 1]);
        }
        lemma_no_pair_without(r, x, y);
    }
}

proof fn lemma_plain_concat(a: Seq<char>, b: Seq<char>)
    requires
        plain_spaces(a),
        plain_spaces(b),
    ensures
        plain_spaces(a + b),
{
    assert forall|i: int| 0 <= i < (a + b).len() && whitespace(#[trigger] (a + b)[i]) implies (a + b)[i] == ' ' by {
        if i < a.len() {
            assert((a + b)[i] == a[i]);
        } else {
            assert((a + b)[i] == b[i - a.len()]);
        }
    }
}

/// Words without whitespace joined by single spaces are tidily spaced.
proof fn lemma_join_spaced(ws: Seq<Seq<char>>)
    requires
        forall|j: int| 0 <= j < ws.len() ==> (#[trigger] ws[j]).len() > 0,
        forall|j: int, i: int| 0 <= j < ws.len() && 0 <= i < ws[j].len() ==> !whitespace(#[trigger] ws[j][i]),
    ensures
        no_pair(join(ws, seq![' ']), ' ', ' '),
        plain_spaces(join(ws, seq![' '])),
        join(ws, seq![' ']).len() == 0 <==> ws.len() == 0,
        join(ws, seq![' ']).len() > 0 ==> !whitespace(join(ws, seq![' '])[0]) && !whitespace(
            join(ws, seq![' ']).last(),
        ),
    decreases ws.len(),
{
    let sp = seq![' '];
    if ws.len() == 0 {
    } else {
        let last = ws.last();
        assert(last.len() > 0);
        assert forall|i: int| 0 <= i < last.len() implies last[i] != ' ' by {
            assert(!whitespace(ws[ws.len() - 1][i]));
        }
        lemma_no_pair_without(last, ' ', ' ');
        assert(plain_spaces(last)) by {
            assert forall|i: int| 0 <= i < last.len() && whitespace(#[trigger] last[i]) implies last[i] == ' ' by {
                assert(!whitespace(ws[ws.len() - 1][i]));
            }
        }
        assert(!whitespace(last[0])) by {
            assert(!whitespace(ws[ws.len() - 1][0]));
        }
        assert(!whitespace(last.last())) by {
            assert(!whitespace(ws[ws.len() - 1][last.len() - 1]));
        }
        if ws.len() == 1 {
            assert(join(ws, sp) == ws[0]);
        } else {
            let front = ws.drop_last();
            assert forall|j: int| 0 <= j < front.len() implies (#[trigger] front[j]).len() > 0 by {
                assert(front[j] == ws[j]);
            }
            assert forall|j: int, i: int| 0 <= j < front.len() && 0 <= i < front[j].len() implies !whitespace(
                #[trigger] front[j][i],
            ) by {
                assert(front[j] == ws[j]);
            }
            lemma_join_spaced(front);
            let jf = join(front, sp);
            assert(jf.len() > 0);
            assert(no_pair(sp, ' ', ' '));
            lemma_no_pair_concat(jf, sp, ' ', ' ');
            lemma_no_pair_concat(jf + sp, last, ' ', ' ');
            assert(plain_spaces(sp));
            lemma_plain_concat(jf, sp);
            lemma_plain_concat(jf + sp, last);
            assert(join(ws, sp) == jf + sp + last);
            assert((jf + sp + last)[0] == jf[0]);
            assert((jf + sp + last).last() == last.last());
        }
    }
}

/// What `attached` does to spacing, and that it keeps the first and last
/// characters of text without a leading space.
proof fn lemma_attached_shape(s: Seq<char>, p: char)
    requires
        tight_mark(p),
        no_pair(s, ' ', ' '),
    ensures
        no_pair(attached(s, p), ' ', ' '),
        no_pair(attached(s, p), ' ', p),
        attached(s, p).len() == 0 <==> s.len() == 0,
        attached(s, p).len() > 0 ==> (attached(s, p)[0] == s[0] || (s[0] == ' ' && attached(s, p)[0] == p)),
        s.len() > 0 ==> attached(s, p).last() == s.last(),
        plain_spaces(s) ==> plain_spaces(attached(s, p)),
    decreases s.len(),
{
    if s.len() < 2 {
    } else if s[0] == ' ' && s[1] == p {
        let r = s.skip(2);
        assert(r =~= s.drop_first().drop_first());
        assert(no_pair(s.drop_first(), ' ', ' '));
        assert(no_pair(r, ' ', ' '));
        lemma_attached_shape(r, p);
        let a = attached(r, p);
        assert(attached(s, p) == seq![p] + a);
        assert(no_pair(seq![p], ' ', ' '));
        lemma_no_pair_concat(seq![p], a, ' ', ' ');
        lemma_no_pair_concat(seq![p], a, ' ', p);
        assert((seq![p] + a)[0] == p);
        if r.len() > 0 {
            assert((seq![p] + a).last() == a.last());
            assert(r.last() == s.last());
        } else {
            assert(seq![p] + a =~= seq![p]);
        }
        if plain_spaces(s) {
            assert forall|i: int| 0 <= i < r.len() && whitespace(#[trigger] r[i]) implies r[i] == ' ' by {
                assert(r[i] == s[i + 2]);
            }
            assert(plain_spaces(seq![p]));
            lemma_plain_concat(seq![p], a);
        }
    } else {
        let r = s.drop_first();
        lemma_attached_shape(r, p);
        let a = attached(r, p);
        assert(attached(s, p) == seq![s[0]] + a);
        assert(no_pair(seq![s[0]], ' ', ' '));
        if s[0] == ' ' {
            assert(s[1] != ' ');
            assert(r[0] == s[1]);
        }
        lemma_no_pair_concat(seq![s[0]], a, ' ', ' ');
        lemma_no_pair_concat(seq![s[0]], a, ' ', p);
        assert((seq![s[0]] + a)[0] == s[0]);
        assert((seq![s[0]] + a).last() == a.last());
        assert(r.last() == s.last());
        if plain_spaces(s) {
            assert forall|i: int| 0 <= i < r.len() && whitespace(#[trigger] r[i]) implies r[i] == ' ' by {
                assert(r[i] == s[i + 1]);
            }
            assert(plain_spaces(seq![s[0]])) by {
                assert(seq![s[0]][0] == s[0]);
            }
            lemma_plain_concat(seq![s[0]], a);
        }
    }
}

/// `attached` for one mark creates no space before another.
proof fn lemma_attached_keeps(s: Seq<char>, p: char, q: char)
    requires
        tight_mark(p),
        q != p,
        q != ' ',
        no_pair(s, ' ', ' '),
        no_pair(s, ' ', q),
    ensures
        no_pair(attached(s, p), ' ', q),
    decreases s.len(),
{
    if s.len() < 2 {
    } else if s[0] == ' ' && s[1] == p {
        let r = s.skip(2);
        assert(r =~= s.drop_first().drop_first());
        assert(no_pair(s.drop_first(), ' ', ' '));
        assert(no_pair(r, ' ', ' '));
        assert(no_pair(s.drop_first(), ' ', q));
        assert(no_pair(r, ' ', q));
        lemma_attached_keeps(r, p, q);
        lemma_no_pair_concat(seq![p], attached(r, p), ' ', q);
    } else {
        let r = s.drop_first();
        lemma_attached_keeps(r, p, q);
        lemma_attached_shape(r, p);
        if s[0] == ' ' {
            assert(r[0] == s[1]);
        }
        lemma_no_pair_concat(seq![s[0]], attached(r, p), ' ', q);
        assert(attached(s, p) == seq![s[0]] + attached(r, p));
    }
}

/// The result of `normalize_punct` is tidily spaced: plain single spaces,
/// none before `, . ? ! : ;`, and no whitespace at either end.
pub proof fn law_normalized_is_tidy(s: Seq<char>)
    ensures
        tidy(normalized(s)),
{
    let w = widened(s);
    let ws = split_words(w, CharClass::Whitespace);
    let ps = pieces(w, CharClass::Whitespace);
    crate::render::lemma_pieces_free(w, CharClass::Whitespace);
    crate::render::lemma_nonempty_pieces_from(ps);
    lemma_nonempty_entries(ps);
    assert forall|j: int, i: int| 0 <= j < ws.len() && 0 <= i < ws[j].len() implies !whitespace(
        #[trigger] ws[j][i],
    ) by {
        assert(ps.contains(ws[j]));
        let m = choose|m: int| 0 <= m < ps.len() && ps[m] == ws[j];
        assert(!crate::words::in_class(CharClass::Whitespace, ps[m][i]));
    }
    lemma_join_spaced(ws);
    let t = collapsed(w);
    lemma_attached_shape(t, ',');
    let t1 = attached(t, ',');
    lemma_attached_shape(t1, '.');
    lemma_attached_keeps(t1, '.', ',');
    let t2 = attached(t1, '.');
    lemma_attached_shape(t2, '?');
    lemma_attached_keeps(t2, '?', ',');
    lemma_attached_keeps(t2, '?', '.');
    let t3 = attached(t2, '?');
    lemma_attached_shape(t3, '!');
    lemma_attached_keeps(t3, '!', ',');
    lemma_attached_keeps(t3, '!', '.');
    lemma_attached_keeps(t3, '!', '?');
    let t4 = attached(t3, '!');
    lemma_attached_shape(t4, ':');
    lemma_attached_keeps(t4, ':', ',');
    lemma_attached_keeps(t4, ':', '.');
    lemma_attached_keeps(t4, ':', '?');
    lemma_attached_keeps(t4, ':', '!');
    let t5 = attached(t4, ':');
    lemma_attached_shape(t5, ';');
    lemma_attached_keeps(t5, ';', ',');
    lemma_attached_keeps(t5, ';', '.');
    lemma_attached_keeps(t5, ';', '?');
    lemma_attached_keeps(t5, ';', '!');
    lemma_attached_keeps(t5, ';', ':');
    let t6 = attached(t5, ';');
    if t6.len() > 0 {
        assert(!whitespace(t6[0]));
        assert(!whitespace(t6.last()));
        assert(trim_start_class(t6, CharClass::Whitespace) == t6);
        assert(trim_end_class(t6, CharClass::Whitespace) == t6);
    } else {
        assert(trim_start_class(t6, CharClass::Whitespace) == t6);
        assert(trim_end_class(t6, CharClass::Whitespace) == t6);
    }
    assert(normalized(s) == t6);
}

/// Entries kept by `nonempty_pieces` are non-empty.
proof fn lemma_nonempty_entries(ps: Seq<Seq<char>>)
    ensures
        forall|j: int| 0 <= j < nonempty_pieces(ps).len() ==> (#[trigger] nonempty_pieces(ps)[j]).len() > 0,
    decreases ps.len(),
{
    if ps.len() > 0 {
        lemma_nonempty_entries(ps.drop_last());
        let r = nonempty_pieces(ps.drop_last());
        if ps.last().len() > 0 {
            assert forall|j: int| 0 <= j < r.push(ps.last()).len() implies (#[trigger] r.push(ps.last())[j]).len() > 0 by {
                if j < r.len() {
                    assert(r.push(ps.last())[j] == r[j]);
                }
            }
        }
    }
}

/// No space-separated word of truecased text is a lowercase standalone `i`
/// (alone or before an apostrophe): each became `I`.
pub proof fn law_truecased_pronoun_is_capital(s: Seq<char>)
    ensures
        forall|j: int|
            0 <= j < pieces(truecased(s), CharClass::Exactly(' ')).len() ==> {
                let w = #[trigger] pieces(truecased(s), CharClass::Exactly(' '))[j];
                w != seq!['i'] && !(w.len() >= 2 && w[0] == 'i' && w[1] == '\'')
            },
{
    let k = CharClass::Exactly(' ');
    let c = capitalized(lowercase(s)).0;
    let ps = pieces(c, k);
    let ws = ps.map_values(|w: Seq<char>| pronoun_fixed(w));
    crate::words::lemma_pieces_nonempty(c, k);
    crate::render::lemma_pieces_free(c, k);
    assert forall|i: int, j: int| 0 <= i < ws.len() && 0 <= j < ws[i].len() implies #[trigger] ws[i][j] != ' ' by {
        let w = ps[i];
        assert(ws[i] == pronoun_fixed(w));
        if w == seq!['i'] || (w.len() >= 2 && w[0] == 'i' && w[1] == '\'') {
            if j > 0 {
                assert(ws[i][j] == w[j]);
                assert(!crate::words::in_class(k, ps[i][j]));
            }
        } else {
            assert(!crate::words::in_class(k, ps[i][j]));
        }
    }
    crate::words::lemma_split_join(ws, ' ');
    assert(truecased(s) == join(ws, seq![' ']));
    assert forall|j: int| 0 <= j < ws.len() implies {
        let w = #[trigger] ws[j];
        w != seq!['i'] && !(w.len() >= 2 && w[0] == 'i' && w[1] == '\'')
    } by {
        let w = ps[j];
        if w == seq!['i'] || (w.len() >= 2 && w[0] == 'i' && w[1] == '\'') {
            assert(ws[j][0] == 'I');
        }
    }
}

/// A character that ends a sentence.
pub open spec fn sentence_end(c: char) -> bool {
    c == '.' || c == '!' || c == '?'
}

/// Character `j` of `l` starts a sentence: it is alphabetic, and every
/// alphabetic character before it is itself a sentence end or followed,
/// still before `j`, by one.
pub open spec fn sentence_start_at(l: Seq<char>, j: int) -> bool {
    &&& alphabetic(l[j])
    &&& forall|m: int|
        0 <= m < j && alphabetic(#[trigger] l[m]) ==> exists|i: int| m <= i < j && sentence_end(#[trigger] l[i])
}

/// How the capitalization pass writes character `k` of `l`: its uppercase
/// mapping when it starts a sentence, itself otherwise.
pub open spec fn cased_char(l: Seq<char>, k: int) -> Seq<char> {
    if sentence_start_at(l, k) {
        uppercase(l[k])
    } else {
        seq![l[k]]
    }
}

/// Every alphabetic character of `l` is a sentence end or followed, within
/// `l`, by one (so the next alphabetic character would start a sentence).
pub open spec fn sentence_pending(l: Seq<char>) -> bool {
    forall|m: int| 0 <= m < l.len() && alphabetic(#[trigger] l[m]) ==> exists|i: int| m <= i < l.len() && sentence_end(#[trigger] l[i])
}

proof fn lemma_cased_prefix(l: Seq<char>, n: int, k: int)
    requires
        0 <= k < n <= l.len(),
    ensures
        cased_char(l.take(n), k) == cased_char(l, k),
{
    let t = l.take(n);
    assert(t[k] == l[k]);
    if sentence_start_at(l, k) {
        assert forall|m: int| 0 <= m < k && alphabetic(#[trigger] t[m]) implies exists|i: int| m <= i < k && sentence_end(#[trigger] t[i]) by {
            assert(t[m] == l[m]);
            let i = choose|i: int| m <= i < k && sentence_end(#[trigger] l[i]);
            assert(t[i] == l[i]);
        }
    }
    if sentence_start_at(t, k) {
        assert forall|m: int| 0 <= m < k && alphabetic(#[trigger] l[m]) implies exists|i: int| m <= i < k && sentence_end(#[trigger] l[i]) by {
            assert(t[m] == l[m]);
            let i = choose|i: int| m <= i < k && sentence_end(#[trigger] t[i]);
            assert(t[i] == l[i]);
        }
    }
}

proof fn lemma_start_last(l: Seq<char>)
    requires
        l.len() > 0,
    ensures
        sentence_start_at(l, l.len() - 1) == (alphabetic(l.last()) && sentence_pending(l.drop_last())),
{
    let d = l.drop_last();
    let n = d.len();
    if alphabetic(l.last()) {
        if sentence_pending(d) {
            assert forall|m: int| 0 <= m < n && alphabetic(#[trigger] l[m]) implies exists|i: int| m <= i < n && sentence_end(#[trigger] l[i]) by {
                assert(d[m] == l[m]);
                let i = choose|i: int| m <= i < n && sentence_end(#[trigger] d[i]);
                assert(d[i] == l[i]);
            }
        } else {
            let m = choose|m: int| 0 <= m < n && alphabetic(#[trigger] d[m]) && !exists|i: int| m <= i < n && sentence_end(#[trigger] d[i]);
            assert(l[m] == d[m]);
            if sentence_start_at(l, n as int) {
                let i = choose|i: int| m <= i < n && sentence_end(#[trigger] l[i]);
                assert(d[i] == l[i]);
            }
        }
    }
}

proof fn lemma_pending_step(l: Seq<char>)
    requires
        l.len() > 0,
    ensures
        sentence_pending(l) == (sentence_end(l.last()) || (!alphabetic(l.last()) && sentence_pending(l.drop_last()))),
{
    let d = l.drop_last();
    let n = d.len();
    let c = l.last();
    assert(l[n as int] == c);
    if sentence_end(c) {
        assert forall|m: int| 0 <= m < l.len() && alphabetic(#[trigger] l[m]) implies exists|i: int| m <= i < l.len() && sentence_end(#[trigger] l[i]) by {
            assert(sentence_end(l[n as int]));
        }
    } else if alphabetic(c) {
        assert(alphabetic(l[n as int]));
        if sentence_pending(l) {
            let i = choose|i: int| n <= i < l.len() && sentence_end(#[trigger] l[i]);
        }
    } else if sentence_pending(d) {
        assert forall|m: int| 0 <= m < l.len() && alphabetic(#[trigger] l[m]) implies exists|i: int| m <= i < l.len() && sentence_end(#[trigger] l[i]) by {
            assert(m < n);
            assert(d[m] == l[m]);
            let i = choose|i: int| m <= i < n && sentence_end(#[trigger] d[i]);
            assert(d[i] == l[i]);
        }
    } else {
        let m = choose|m: int| 0 <= m < n && alphabetic(#[trigger] d[m]) && !exists|i: int| m <= i < n && sentence_end(#[trigger] d[i]);
        assert(l[m] == d[m]);
        if sentence_pending(l) {
            let i = choose|i: int| m <= i < l.len() && sentence_end(#[trigger] l[i]);
            if i < n {
                assert(d[i] == l[i]);
            }
        }
    }
}

/// The capitalization pass writes each character on its own: the first
/// alphabetic character of the text and the first one after every `.`, `!`
/// or `?` become their uppercase mapping, everything else is kept.
pub proof fn law_capitalization_is_per_character(l: Seq<char>)
    ensures
        capitalized(l).0 == crate::render::concat(Seq::new(l.len(), |k: int| cased_char(l, k))),
        capitalized(l).1 == sentence_pending(l),
    decreases l.len(),
{
    if l.len() == 0 {
        assert(crate::render::concat(Seq::new(0, |k: int| cased_char(l, k))) =~= Seq::<char>::empty());
    } else {
        let d = l.drop_last();
        let n = d.len();
        law_capitalization_is_per_character(d);
        let rd = Seq::new(n, |k: int| cased_char(d, k));
        let rl = Seq::new(l.len(), |k: int| cased_char(l, k));
        assert(d =~= l.take(n as int));
        assert forall|k: int| 0 <= k < n implies rl.drop_last()[k] == rd[k] by {
            lemma_cased_prefix(l, n as int, k);
        }
        assert(rl.drop_last() =~= rd);
        lemma_start_last(l);
        lemma_pending_step(l);
        assert(rl.last() == cased_char(l, n as int));
    }
}

/// `b` is `a` with some `i`s written `I`.
pub open spec fn pronouns_raised(a: Seq<char>, b: Seq<char>) -> bool {
    &&& a.len() == b.len()
    &&& forall|i: int| 0 <= i < a.len() ==> #[trigger] b[i] == a[i] || (a[i] == 'i' && b[i] == 'I')
}

proof fn lemma_raised_concat(a: Seq<char>, b: Seq<char>, c: Seq<char>, d: Seq<char>)
    requires
        pronouns_raised(a, b),
        pronouns_raised(c, d),
    ensures
        pronouns_raised(a + c, b + d),
{
    assert forall|i: int| 0 <= i < (a + c).len() implies #[trigger] (b + d)[i] == (a + c)[i] || ((a + c)[i] == 'i'
        && (b + d)[i] == 'I') by {
        if i < a.len() {
            assert((b + d)[i] == b[i] && (a + c)[i] == a[i]);
        } else {
            assert((b + d)[i] == d[i - a.len()] && (a + c)[i] == c[i - a.len()]);
        }
    }
}

proof fn lemma_join_raised(ws: Seq<Seq<char>>, vs: Seq<Seq<char>>, sep: Seq<char>)
    requires
        ws.len() == vs.len(),
        forall|j: int| 0 <= j < ws.len() ==> pronouns_raised(#[trigger] ws[j], vs[j]),
    ensures
        pronouns_raised(join(ws, sep), join(vs, sep)),
    decreases ws.len(),
{
    if ws.len() == 1 {
        assert(pronouns_raised(ws[0], vs[0]));
    } else if ws.len() > 1 {
        assert forall|j: int| 0 <= j < ws.drop_last().len() implies pronouns_raised(#[trigger] ws.drop_last()[j], vs.drop_last()[j]) by {
            assert(pronouns_raised(ws[j], vs[j]));
        }
        lemma_join_raised(ws.drop_last(), vs.drop_last(), sep);
        lemma_raised_concat(join(ws.drop_last(), sep), join(vs.drop_last(), sep), sep, sep);
        assert(pronouns_raised(ws[ws.len() - 1], vs[vs.len() - 1]));
        lemma_raised_concat(join(ws.drop_last(), sep) + sep, join(vs.drop_last(), sep) + sep, ws.last(), vs.last());
    }
}

proof fn lemma_join_extend_last(ws: Seq<Seq<char>>, sep: Seq<char>, ch: char)
    requires
        ws.len() >= 1,
    ensures
        join(ws.update(ws.len() - 1, ws.last().push(ch)), sep) == join(ws, sep).push(ch),
{
    let u = ws.update(ws.len() - 1, ws.last().push(ch));
    if ws.len() == 1 {
    } else {
        assert(u.drop_last() =~= ws.drop_last());
        assert(join(u, sep) == join(u.drop_last(), sep) + sep + u.last());
    }
}

/// Joining the pieces of `c` split at `x` with `x` gives `c` back.
proof fn lemma_join_pieces(c: Seq<char>, x: char)
    ensures
        join(pieces(c, CharClass::Exactly(x)), seq![x]) == c,
    decreases c.len(),
{
    let k = CharClass::Exactly(x);
    if c.len() == 0 {
        assert(join(pieces(c, k), seq![x]) =~= c);
    } else {
        let d = c.drop_last();
        lemma_join_pieces(d, x);
        crate::words::lemma_pieces_nonempty(d, k);
        let p = pieces(d, k);
        if c.last() == x {
            let q = p.push(Seq::<char>::empty());
            assert(q.drop_last() =~= p);
            assert(join(q, seq![x]) == join(p, seq![x]) + seq![x] + q.last());
            assert(join(q, seq![x]) =~= c);
        } else {
            lemma_join_extend_last(p, seq![x], c.last());
            assert(d.push(c.last()) =~= c);
        }
    }
}

/// Truecasing writes the text lowercased and capitalized character by
/// character (sentence starts become their uppercase mapping), except that
/// some `i`s are raised to `I`; nothing is added, dropped or moved.
pub proof fn law_truecased_casing(s: Seq<char>)
    ensures
        pronouns_raised(
            crate::render::concat(Seq::new(lowercase(s).len(), |k: int| cased_char(lowercase(s), k))),
            truecased(s),
        ),
{
    let l = lowercase(s);
    law_capitalization_is_per_character(l);
    let c = capitalized(l).0;
    let k = CharClass::Exactly(' ');
    let ps = pieces(c, k);
    let vs = ps.map_values(|w: Seq<char>| pronoun_fixed(w));
    assert forall|j: int| 0 <= j < ps.len() implies pronouns_raised(#[trigger] ps[j], vs[j]) by {
        let w = ps[j];
        assert(vs[j] == pronoun_fixed(w));
        if w == seq!['i'] || (w.len() >= 2 && w[0] == 'i' && w[1] == '\'') {
            assert forall|i: int| 0 <= i < w.len() implies #[trigger] vs[j][i] == w[i] || (w[i] == 'i' && vs[j][i] == 'I') by {
                if i > 0 {
                    assert(vs[j][i] == w[i]);
                }
            }
        }
    }
    lemma_join_raised(ps, vs, seq![' ']);
    lemma_join_pieces(c, ' ');
}

/// The first alphabetic character after a `.`, `!` or `?` starts a
/// sentence, so truecasing writes it as its uppercase mapping.
pub proof fn law_letter_after_sentence_end_starts_sentence(l: Seq<char>, i: int, j: int)
    requires
        0 <= i < j < l.len(),
        sentence_end(l[i]),
        alphabetic(l[j]),
        forall|m: int| i < m < j ==> !alphabetic(#[trigger] l[m]),
    ensures
        sentence_start_at(l, j),
        cased_char(l, j) == uppercase(l[j]),
{
    assert forall|m: int| 0 <= m < j && alphabetic(#[trigger] l[m]) implies exists|x: int| m <= x < j && sentence_end(#[trigger] l[x]) by {
        assert(m <= i);
        assert(sentence_end(l[i]));
    }
}

} // verus!
