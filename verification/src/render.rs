//! Console caption rendering: a scrolling transcript of finalized lines,
//! word-wrapped to the terminal width, with an in-place live partial pinned
//! below it and redrawn with relative cursor moves.

use vstd::prelude::*;
use crate::chars::{chars_of, push_char, whitespace};
use crate::decimal::{decimal, push_decimal};
use crate::words::{
    in_class, join, join_words, pieces, split_whitespace, split_words, string_of, string_of_range,
    CharClass,
};

verus! {

/// Wrapping state: the lines completed so far and the line being filled.
pub type WrapState = (Seq<Seq<char>>, Seq<char>);

/// Hard-splits an over-long current line into `width`-character lines.
pub open spec fn split_long(st: WrapState, width: nat) -> WrapState
    decreases st.1.len(),
{
    if width > 0 && st.1.len() > width {
        split_long((st.0.push(st.1.take(width as int)), st.1.skip(width as int)), width)
    } else {
        st
    }
}

/// Places one word: on the current line when it fits after a space,
/// otherwise on a fresh line; then hard-splits anything wider than `width`.
pub open spec fn place_word(st: WrapState, word: Seq<char>, width: nat) -> WrapState {
    let next = if st.1.len() == 0 {
        (st.0, word)
    } else if st.1.len() + 1 + word.len() <= width {
        (st.0, st.1 + seq![' '] + word)
    } else {
        (st.0.push(st.1), word)
    };
    split_long(next, width)
}

/// Greedy placement of `ws`, in order.
pub open spec fn place_words(ws: Seq<Seq<char>>, width: nat) -> WrapState
    decreases ws.len(),
{
    if ws.len() == 0 {
        (Seq::<Seq<char>>::empty(), Seq::<char>::empty())
    } else {
        place_word(place_words(ws.drop_last(), width), ws.last(), width)
    }
}

/// Greedy word-wrap of `text` to `width` columns, hard-splitting any word
/// longer than `width`; a text without words gives one empty line.
pub open spec fn wrapped(text: Seq<char>, width: nat) -> Seq<Seq<char>> {
    let st = place_words(split_words(text, CharClass::Whitespace), width);
    let lines = if st.1.len() > 0 { st.0.push(st.1) } else { st.0 };
    if lines.len() == 0 {
        seq![Seq::<char>::empty()]
    } else {
        lines
    }
}

/// Erase from the cursor to the end of the screen.
pub open spec fn erase_below() -> Seq<char> {
    seq!['\u{1b}', '[', '0', 'J']
}

/// Move the cursor `n` rows up.
pub open spec fn cursor_up(n: nat) -> Seq<char> {
    seq!['\u{1b}', '['] + decimal(n) + seq!['A']
}

/// Terminal output that redraws the partial: erase the old one, print the
/// wrapped lines, and return the cursor to the partial's first row.
pub open spec fn partial_output(lines: Seq<Seq<char>>) -> Seq<char> {
    erase_below() + join(lines, seq!['\r', '\n']) + (if lines.len() > 1 {
        cursor_up((lines.len() - 1) as nat)
    } else {
        Seq::<char>::empty()
    }) + seq!['\r']
}

/// All of `ls`, concatenated.
pub open spec fn concat(ls: Seq<Seq<char>>) -> Seq<char>
    decreases ls.len(),
{
    if ls.len() == 0 {
        Seq::<char>::empty()
    } else {
        concat(ls.drop_last()) + ls.last()
    }
}

/// Terminal output that commits a finalized line: erase the partial and
/// print each wrapped line followed by a line break.
pub open spec fn commit_output(lines: Seq<Seq<char>>) -> Seq<char> {
    erase_below() + concat(lines.map_values(|l: Seq<char>| l + seq!['\r', '\n']))
}

/// The line being filled: `v` without its first `n` characters.
fn tail_of(v: &Vec<char>, n: usize) -> (r: Vec<char>)
    requires
        n <= v.len(),
    ensures
        r@ == v@.skip(n as int),
{
    let mut r: Vec<char> = Vec::new();
    let mut k = n;
    while k < v.len()
        invariant
            n <= k <= v.len(),
            r@ == v@.subrange(n as int, k as int),
        decreases v.len() - k,
    {
        r.push(v[k]);
        proof {
            assert(v@.subrange(n as int, k + 1) =~= v@.subrange(n as int, k as int).push(v[k as int]));
        }
        k = k + 1;
    }
    proof {
        assert(v@.subrange(n as int, v.len() as int) =~= v@.skip(n as int));
    }
    r
}

/// Greedy word-wrap to `width` columns; hard-splits any word longer than
/// `width`.
pub fn wrap(text: &str, width: usize) -> (lines: Vec<String>)
    requires
        width > 0,
    ensures
        lines.deep_view() == wrapped(text@, width as nat),
{
    let words = split_whitespace(text);
    let ghost ws = words.deep_view();
    let mut lines: Vec<String> = Vec::new();
    let mut cur: Vec<char> = Vec::new();
    proof {
        assert(ws.take(0) =~= Seq::<Seq<char>>::empty());
        assert(lines.deep_view() =~= Seq::<Seq<char>>::empty());
    }
    for k in 0..words.len()
        invariant
            width > 0,
            ws == words.deep_view(),
            (lines.deep_view(), cur@) == place_words(ws.take(k as int), width as nat),
    {
        let ghost before: WrapState = (lines.deep_view(), cur@);
        let w = chars_of(words[k].as_str());
        proof {
            assert(ws.take(k + 1).drop_last() =~= ws.take(k as int));
            assert(ws.take(k + 1).last() == w@);
        }
        if cur.len() == 0 {
            cur = w;
        } else if (cur.len() as u128) + 1 + (w.len() as u128) <= width as u128 {
            cur.push(' ');
            let mut j: usize = 0;
            let ghost base = cur@;
            while j < w.len()
                invariant
                    j <= w.len(),
                    cur@ == base + w@.take(j as int),
                decreases w.len() - j,
            {
                cur.push(w[j]);
                proof {
                    assert(w@.take(j + 1) =~= w@.take(j as int).push(w[j as int]));
                }
                j = j + 1;
            }
            proof {
                assert(w@.take(w.len() as int) =~= w@);
            }
        } else {
            let ghost old_lines = lines.deep_view();
            lines.push(string_of(&cur));
            proof {
                assert(lines.deep_view() =~= old_lines.push(before.1));
            }
            cur = w;
        }
        let ghost target = place_word(before, w@, width as nat);
        while cur.len() > width
            invariant
                width > 0,
                split_long((lines.deep_view(), cur@), width as nat) == target,
            decreases cur.len(),
        {
            let ghost old_lines = lines.deep_view();
            let ghost old_cur = cur@;
            lines.push(string_of_range(&cur, 0, width));
            proof {
                assert(lines.deep_view() =~= old_lines.push(old_cur.take(width as int)));
            }
            cur = tail_of(&cur, width);
        }
    }
    proof {
        assert(ws.take(words.len() as int) =~= ws);
    }
    if cur.len() > 0 {
        let ghost old_lines = lines.deep_view();
        lines.push(string_of(&cur));
        proof {
            assert(lines.deep_view() =~= old_lines.push(cur@));
        }
    }
    if lines.len() == 0 {
        lines.push(String::new());
        proof {
            assert(lines.deep_view() =~= seq![Seq::<char>::empty()]);
        }
    }
    lines
}

/// The live caption area: terminal width and how many rows the current
/// partial occupies (the cursor rests at its start).
pub struct Live {
    width: usize,
    partial_rows: usize,
}

impl Live {
    /// The caption width in columns.
    pub closed spec fn width_spec(&self) -> nat {
        self.width as nat
    }

    /// Rows occupied by the live partial.
    pub closed spec fn rows_spec(&self) -> nat {
        self.partial_rows as nat
    }

    /// A caption area for a console of `detected` columns (100 when unknown),
    /// kept within 20..=400 columns.
    pub fn new(detected: Option<usize>) -> (l: Self)
        ensures
            l.width_spec() == (match detected {
                Some(w) => if w < 20 { 20 } else if w > 400 { 400 } else { w as int },
                None => 100,
            }),
            l.rows_spec() == 0,
    {
        let w = match detected {
            Some(w) => w,
            None => 100,
        };
        let width = if w < 20 {
            20
        } else if w > 400 {
            400
        } else {
            w
        };
        Live { width, partial_rows: 0 }
    }

    /// The caption width in columns.
    pub fn width(&self) -> (w: usize)
        ensures
            w == self.width_spec(),
    {
        self.width
    }

    /// Rows occupied by the live partial.
    pub fn partial_rows(&self) -> (n: usize)
        ensures
            n == self.rows_spec(),
    {
        self.partial_rows
    }

    /// Output that redraws the live (not-yet-final) partial in place.
    pub fn set_partial(&mut self, text: &str) -> (out: String)
        requires
            old(self).width_spec() >= 20,
        ensures
            out@ == partial_output(wrapped(text@, old(self).width_spec())),
            final(self).rows_spec() == wrapped(text@, old(self).width_spec()).len(),
            final(self).width_spec() == old(self).width_spec(),
    {
        let lines = wrap(text, self.width);
        let ghost lv = lines.deep_view();
        let mut out = String::new();
        push_char(&mut out, '\u{1b}');
        push_char(&mut out, '[');
        push_char(&mut out, '0');
        push_char(&mut out, 'J');
        let mut sep = String::new();
        push_char(&mut sep, '\r');
        push_char(&mut sep, '\n');
        proof {
            assert(out@ =~= erase_below());
            assert(sep@ =~= seq!['\r', '\n']);
        }
        let body = join_words(&lines, sep.as_str());
        out.append(body.as_str());
        let ghost mid = out@;
        proof {
            assert(mid =~= erase_below() + join(lv, seq!['\r', '\n']));
        }
        if lines.len() > 1 {
            push_char(&mut out, '\u{1b}');
            push_char(&mut out, '[');
            push_decimal(&mut out, (lines.len() - 1) as u64);
            push_char(&mut out, 'A');
            proof {
                assert(out@ =~= mid + cursor_up((lv.len() - 1) as nat));
            }
        } else {
            proof {
                assert(out@ =~= mid + Seq::<char>::empty());
            }
        }
        push_char(&mut out, '\r');
        proof {
            assert(out@ =~= partial_output(lv));
        }
        self.partial_rows = lines.len();
        out
    }

    /// Output that commits a finalized line: erase the partial, print the
    /// line permanently (wrapped, scrolls), and leave the cursor at the new
    /// partial start.
    pub fn commit(&mut self, text: &str) -> (out: String)
        requires
            old(self).width_spec() >= 20,
        ensures
            out@ == commit_output(wrapped(text@, old(self).width_spec())),
            final(self).rows_spec() == 0,
            final(self).width_spec() == old(self).width_spec(),
    {
        let lines = wrap(text, self.width);
        let ghost lv = lines.deep_view();
        let ghost f = |l: Seq<char>| l + seq!['\r', '\n'];
        let mut out = String::new();
        push_char(&mut out, '\u{1b}');
        push_char(&mut out, '[');
        push_char(&mut out, '0');
        push_char(&mut out, 'J');
        let ghost head = out@;
        proof {
            assert(lv.map_values(f).take(0) =~= Seq::<Seq<char>>::empty());
            assert(out@ =~= head + concat(lv.map_values(f).take(0)));
        }
        for k in 0..lines.len()
            invariant
                lv == lines.deep_view(),
                f == |l: Seq<char>| l + seq!['\r', '\n'],
                out@ == head + concat(lv.map_values(f).take(k as int)),
        {
            out.append(lines[k].as_str());
            push_char(&mut out, '\r');
            push_char(&mut out, '\n');
            proof {
                let m = lv.map_values(f);
                assert(m.take(k + 1).drop_last() =~= m.take(k as int));
                assert(m.take(k + 1).last() == lv[k as int] + seq!['\r', '\n']);
                assert(out@ =~= head + concat(m.take(k + 1)));
            }
        }
        proof {
            assert(lv.map_values(f).take(lines.len() as int) =~= lv.map_values(f));
        }
        self.partial_rows = 0;
        out
    }
}


/// `s` without its space characters.
pub open spec fn unspaced(s: Seq<char>) -> Seq<char>
    decreases s.len(),
{
    if s.len() == 0 {
        Seq::<char>::empty()
    } else if s.last() == ' ' {
        unspaced(s.drop_last())
    } else {
        unspaced(s.drop_last()).push(s.last())
    }
}

pub proof fn lemma_unspaced_add(a: Seq<char>, b: Seq<char>)
    ensures
        unspaced(a + b) == unspaced(a) + unspaced(b),
    decreases b.len(),
{
    if b.len() == 0 {
        assert(a + b =~= a);
        assert(unspaced(a) + unspaced(b) =~= unspaced(a));
    } else {
        lemma_unspaced_add(a, b.drop_last());
        assert((a + b).drop_last() =~= a + b.drop_last());
        assert((a + b).last() == b.last());
        if b.last() == ' ' {
        } else {
            assert(unspaced(a) + unspaced(b.drop_last()).push(b.last()) =~= (unspaced(a) + unspaced(
                b.drop_last(),
            )).push(b.last()));
        }
    }
}

pub proof fn lemma_unspaced_of_spaceless(s: Seq<char>)
    requires
        forall|i: int| 0 <= i < s.len() ==> s[i] != ' ',
    ensures
        unspaced(s) == s,
    decreases s.len(),
{
    if s.len() > 0 {
        assert forall|i: int| 0 <= i < s.drop_last().len() implies s.drop_last()[i] != ' ' by {
            assert(s.drop_last()[i] == s[i]);
        }
        lemma_unspaced_of_spaceless(s.drop_last());
        assert(s[s.len() - 1] != ' ');
        assert(s.drop_last().push(s.last()) =~= s);
    }
}

/// Every piece between separators is free of separators.
pub proof fn lemma_pieces_free(s: Seq<char>, k: CharClass)
    ensures
        forall|i: int, j: int|
            0 <= i < pieces(s, k).len() && 0 <= j < pieces(s, k)[i].len() ==> !in_class(
                k,
                #[trigger] pieces(s, k)[i][j],
            ),
    decreases s.len(),
{
    if s.len() > 0 {
        lemma_pieces_free(s.drop_last(), k);
        crate::words::lemma_pieces_nonempty(s.drop_last(), k);
    }
}

/// Dropping empty pieces keeps only entries of the original.
pub proof fn lemma_nonempty_pieces_from(ps: Seq<Seq<char>>)
    ensures
        forall|i: int| 0 <= i < crate::words::nonempty_pieces(ps).len() ==> ps.contains(
            #[trigger] crate::words::nonempty_pieces(ps)[i],
        ),
    decreases ps.len(),
{
    if ps.len() > 0 {
        lemma_nonempty_pieces_from(ps.drop_last());
        let r = crate::words::nonempty_pieces(ps.drop_last());
        assert forall|i: int| 0 <= i < crate::words::nonempty_pieces(ps).len() implies ps.contains(
            #[trigger] crate::words::nonempty_pieces(ps)[i],
        ) by {
            if i < r.len() {
                let j = choose|j: int| 0 <= j < ps.drop_last().len() && ps.drop_last()[j] == r[i];
                assert(ps[j] == r[i]);
            } else {
                assert(ps[ps.len() - 1] == ps.last());
            }
        }
    }
}

/// Whitespace-separated words contain no space.
pub proof fn lemma_words_spaceless(text: Seq<char>)
    ensures
        forall|i: int, j: int|
            0 <= i < split_words(text, CharClass::Whitespace).len() && 0 <= j < split_words(
                text,
                CharClass::Whitespace,
            )[i].len() ==> #[trigger] split_words(text, CharClass::Whitespace)[i][j] != ' ',
{
    let ps = pieces(text, CharClass::Whitespace);
    lemma_pieces_free(text, CharClass::Whitespace);
    lemma_nonempty_pieces_from(ps);
    let ws = split_words(text, CharClass::Whitespace);
    assert forall|i: int, j: int| 0 <= i < ws.len() && 0 <= j < ws[i].len() implies #[trigger] ws[i][j] != ' ' by {
        assert(ps.contains(ws[i]));
        let m = choose|m: int| 0 <= m < ps.len() && ps[m] == ws[i];
        assert(!in_class(CharClass::Whitespace, ps[m][j]));
        assert(whitespace(' '));
    }
}

/// All lines held by `st` fit in `width`.
pub open spec fn fits(st: WrapState, width: nat) -> bool {
    (forall|i: int| 0 <= i < st.0.len() ==> (#[trigger] st.0[i]).len() <= width) && st.1.len() <= width
}

pub proof fn lemma_split_long(st: WrapState, width: nat)
    requires
        width > 0,
        forall|i: int| 0 <= i < st.0.len() ==> (#[trigger] st.0[i]).len() <= width,
    ensures
        fits(split_long(st, width), width),
        concat(split_long(st, width).0) + split_long(st, width).1 == concat(st.0) + st.1,
    decreases st.1.len(),
{
    if st.1.len() > width {
        let next = (st.0.push(st.1.take(width as int)), st.1.skip(width as int));
        assert forall|i: int| 0 <= i < next.0.len() implies (#[trigger] next.0[i]).len() <= width by {
            if i < st.0.len() {
                assert(next.0[i] == st.0[i]);
            }
        }
        lemma_split_long(next, width);
        assert(next.0.drop_last() =~= st.0);
        assert(st.1.take(width as int) + st.1.skip(width as int) =~= st.1);
        assert(concat(next.0) + next.1 =~= concat(st.0) + st.1);
    }
}

pub proof fn lemma_place_words(ws: Seq<Seq<char>>, width: nat)
    requires
        width > 0,
        forall|i: int, j: int| 0 <= i < ws.len() && 0 <= j < ws[i].len() ==> #[trigger] ws[i][j] != ' ',
    ensures
        fits(place_words(ws, width), width),
        unspaced(concat(place_words(ws, width).0) + place_words(ws, width).1) == concat(ws),
    decreases ws.len(),
{
    if ws.len() > 0 {
        let front = ws.drop_last();
        assert forall|i: int, j: int| 0 <= i < front.len() && 0 <= j < front[i].len() implies #[trigger] front[i][j] != ' ' by {
            assert(front[i] == ws[i]);
        }
        lemma_place_words(front, width);
        let st = place_words(front, width);
        let w = ws.last();
        assert forall|j: int| 0 <= j < w.len() implies w[j] != ' ' by {
            assert(ws[ws.len() - 1][j] != ' ');
        }
        lemma_unspaced_of_spaceless(w);
        let next = if st.1.len() == 0 {
            (st.0, w)
        } else if st.1.len() + 1 + w.len() <= width {
            (st.0, st.1 + seq![' '] + w)
        } else {
            (st.0.push(st.1), w)
        };
        assert forall|i: int| 0 <= i < next.0.len() implies (#[trigger] next.0[i]).len() <= width by {
            if i < st.0.len() {
                assert(next.0[i] == st.0[i]);
            }
        }
        lemma_split_long(next, width);
        let c = concat(st.0);
        lemma_unspaced_add(c, st.1);
        if st.1.len() == 0 {
            assert(c + st.1 =~= c);
            lemma_unspaced_add(c, w);
        } else if st.1.len() + 1 + w.len() <= width {
            assert(c + (st.1 + seq![' '] + w) =~= (c + st.1) + seq![' '] + w);
            lemma_unspaced_add((c + st.1) + seq![' '], w);
            lemma_unspaced_add(c + st.1, seq![' ']);
            assert(unspaced(seq![' ']) =~= Seq::<char>::empty()) by {
                assert(seq![' '].drop_last() =~= Seq::<char>::empty());
                assert(seq![' '].last() == ' ');
                assert(unspaced(Seq::<char>::empty()) == Seq::<char>::empty());
                assert(unspaced(seq![' ']) == unspaced(seq![' '].drop_last()));
            }
        } else {
            assert(next.0.drop_last() =~= st.0);
            lemma_unspaced_add(c + st.1, w);
        }
        assert(ws.drop_last() + seq![w] =~= ws);
        assert(concat(ws) == concat(front) + w);
    }
}

/// Every wrapped line fits the width.
pub proof fn law_wrapped_lines_fit(text: Seq<char>, width: nat)
    requires
        width > 0,
    ensures
        forall|i: int| 0 <= i < wrapped(text, width).len() ==> (#[trigger] wrapped(text, width)[i]).len() <= width,
{
    let ws = split_words(text, CharClass::Whitespace);
    lemma_words_spaceless(text);
    lemma_place_words(ws, width);
    let st = place_words(ws, width);
    let lines = if st.1.len() > 0 { st.0.push(st.1) } else { st.0 };
    assert forall|i: int| 0 <= i < wrapped(text, width).len() implies (#[trigger] wrapped(text, width)[i]).len() <= width by {
        if lines.len() > 0 && i < st.0.len() {
            assert(lines[i] == st.0[i]);
        }
    }
}

/// Wrapping loses and invents nothing: apart from the spaces it places
/// between words, the wrapped lines hold exactly the characters of the
/// text's words, in order.
pub proof fn law_wrapped_keeps_words(text: Seq<char>, width: nat)
    requires
        width > 0,
    ensures
        unspaced(concat(wrapped(text, width))) == concat(split_words(text, CharClass::Whitespace)),
{
    let ws = split_words(text, CharClass::Whitespace);
    lemma_words_spaceless(text);
    lemma_place_words(ws, width);
    let st = place_words(ws, width);
    if st.1.len() > 0 {
        assert(st.0.push(st.1).drop_last() =~= st.0);
    } else {
        assert(concat(st.0) + st.1 =~= concat(st.0));
        if st.0.len() == 0 {
            let one = seq![Seq::<char>::empty()];
            assert(one.drop_last() =~= Seq::<Seq<char>>::empty());
            assert(concat(Seq::<Seq<char>>::empty()) == Seq::<char>::empty());
            assert(concat(one) == concat(one.drop_last()) + one.last());
            assert(concat(one) =~= Seq::<char>::empty());
        }
    }
}

/// Wrapping always yields at least one line.
pub proof fn law_wrapped_nonempty(text: Seq<char>, width: nat)
    ensures
        wrapped(text, width).len() >= 1,
{
}

} // verus!
