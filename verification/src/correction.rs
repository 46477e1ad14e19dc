//! Guarded LLM correction of finalized lines.
//!
//! Each finalized line may be polished by a local language model that sees a
//! few recent lines as context. Because a model can "correct" words that were
//! right and silently change meaning, every proposed correction must pass
//! [`accept_correction`], which rejects rewrites that diverge too far from the
//! original. Requests travel over a line-based wire format shared with the
//! model sidecar: `ctx1 RS ctx2 RS … FS target \n`, with `RS` = U+001E and
//! `FS` = U+001F.

use vstd::prelude::*;
use crate::chars::{char_count, chars_of, control, is_control, push_char};
use crate::edit::{edit_distance, levenshtein, prefix_distance};
use crate::words::{
    in_class, join, join_words, lemma_split_join, nonempty_pieces, pieces, split_class, split_words,
    string_of, string_of_range, trim, trim_bounds, trim_class, trim_end_class, trim_start_class,
    trim_str, CharClass,
};

verus! {

/// Separates the context blob from the target line.
pub const FIELD_SEP: char = '\u{1f}';
/// Separates individual context lines.
pub const REC_SEP: char = '\u{1e}';
/// How many recent (accepted) lines are sent as context.
pub const CONTEXT_LINES: usize = 4;

/// Control characters replaced by spaces, so a line cannot break the
/// line-based wire protocol.
pub open spec fn sanitized(s: Seq<char>) -> Seq<char> {
    s.map_values(|c: char| if control(c) { ' ' } else { c })
}

/// Whether a proposed correction is a plausible *fix* rather than a rewrite:
/// both lines non-blank, the correction at most 1.6 × the original length
/// plus 8 characters, and its edit distance at most 0.4 × the original length
/// (lengths counted in characters, after trimming).
pub open spec fn acceptable(original: Seq<char>, corrected: Seq<char>) -> bool {
    let c = trim(corrected);
    let o = trim(original);
    &&& c.len() > 0
    &&& o.len() > 0
    &&& 5 * c.len() <= 8 * o.len() + 40
    &&& 5 * edit_distance(o, c) <= 2 * o.len()
}

/// The request line for `text` with the given context, or `None` when the
/// sanitized text is blank (nothing to correct).
pub open spec fn request_for(context: Seq<Seq<char>>, text: Seq<char>) -> Option<Seq<char>> {
    let target = sanitized(text);
    if trim(target).len() == 0 {
        None
    } else {
        Some(
            join(context.map_values(|l: Seq<char>| sanitized(l)), seq![REC_SEP]) + seq![FIELD_SEP]
                + target + seq!['\n'],
        )
    }
}

/// Index of the first `c` in `s`; `s.len()` when there is none.
pub open spec fn find_char(s: Seq<char>, c: char) -> int
    decreases s.len(),
{
    if s.len() == 0 {
        0
    } else if s[0] == c {
        0
    } else {
        1 + find_char(s.drop_first(), c)
    }
}

/// A request line split into its context lines (empty ones dropped) and its
/// target; without a field separator the whole line is the target.
pub open spec fn parsed_request(req: Seq<char>) -> (Seq<Seq<char>>, Seq<char>) {
    let k = find_char(req, FIELD_SEP);
    if k < req.len() {
        (split_words(req.take(k), CharClass::Exactly(REC_SEP)), req.skip(k + 1))
    } else {
        (Seq::<Seq<char>>::empty(), req)
    }
}

/// A request line as read by the sidecar, without its line ending.
pub open spec fn request_body(line: Seq<char>) -> Seq<char> {
    trim_end_class(line, CharClass::LineEnd)
}

/// The label some models put in front of their answer.
pub open spec fn corrected_label() -> Seq<char> {
    seq!['C', 'o', 'r', 'r', 'e', 'c', 't', 'e', 'd', ':']
}

/// A model reply collapsed to one clean line: trimmed, a leading
/// `Corrected:` label dropped, only the first line kept, surrounding quotes
/// and backticks removed.
pub open spec fn single_line_of(s: Seq<char>) -> Seq<char> {
    let t0 = trim(s);
    let t1 = if t0.len() >= 10 && t0.take(10) == corrected_label() { trim(t0.skip(10)) } else { t0 };
    let t2 = trim(t1.take(find_char(t1, '\n')));
    trim(crate::words::trim_class(t2, CharClass::Quote))
}

pub proof fn lemma_find_char_bound(s: Seq<char>, c: char)
    ensures
        0 <= find_char(s, c) <= s.len(),
        find_char(s, c) < s.len() ==> s[find_char(s, c)] == c,
        forall|i: int| 0 <= i < find_char(s, c) ==> s[i] != c,
    decreases s.len(),
{
    if s.len() > 0 && s[0] != c {
        lemma_find_char_bound(s.drop_first(), c);
        assert forall|i: int| 0 <= i < find_char(s, c) implies s[i] != c by {
            if i > 0 {
                assert(s[i] == s.drop_first()[i - 1]);
            }
        }
    }
}

/// Index of the first `c` in `v` (`v.len()` when absent).
fn find_in(v: &Vec<char>, c: char) -> (k: usize)
    ensures
        k == find_char(v@, c),
{
    let mut i: usize = 0;
    proof {
        assert(v@.skip(0) =~= v@);
    }
    while i < v.len()
        invariant
            i <= v.len(),
            find_char(v@, c) == i + find_char(v@.skip(i as int), c),
        decreases v.len() - i,
    {
        if v[i] == c {
            return i;
        }
        proof {
            assert(v@.skip(i as int).drop_first() =~= v@.skip(i + 1));
        }
        i = i + 1;
    }
    i
}

/// Strip control chars that would corrupt the line-based wire protocol.
pub fn sanitize(s: &str) -> (r: String)
    ensures
        r@ == sanitized(s@),
{
    let v = chars_of(s);
    let mut r = String::new();
    for k in 0..v.len()
        invariant
            v@ == s@,
            r@ == sanitized(s@).take(k as int),
    {
        let c = v[k];
        let d = if is_control(c) { ' ' } else { c };
        push_char(&mut r, d);
        proof {
            assert(sanitized(s@).take(k + 1) =~= sanitized(s@).take(k as int).push(d));
        }
    }
    proof {
        assert(sanitized(s@).take(v.len() as int) =~= sanitized(s@));
    }
    r
}

/// Whether a proposed correction is a plausible *fix* rather than a rewrite:
/// non-empty, not wildly longer, and within a bounded edit distance of the
/// original. Conservative on purpose: a missed fix is better than a confident
/// hallucination.
pub fn accept_correction(original: &str, corrected: &str) -> (r: bool)
    ensures
        r == acceptable(original@, corrected@),
{
    let c = trim_str(corrected);
    if c.as_str().is_empty() {
        return false;
    }
    let o = trim_str(original);
    if o.as_str().is_empty() {
        return false;
    }
    let olen = char_count(o.as_str());
    let clen = char_count(c.as_str());
    if (clen as u128) * 5 > (olen as u128) * 8 + 40 {
        return false;
    }
    let dist = levenshtein(o.as_str(), c.as_str());
    (dist as u128) * 5 <= (olen as u128) * 2
}

/// Whether a sidecar's first line announces that its model is loaded.
pub fn is_ready_line(line: &str) -> (r: bool)
    ensures
        r == (trim(line@) == seq!['R', 'E', 'A', 'D', 'Y']),
{
    let t = chars_of(trim_str(line).as_str());
    let ready = vec!['R', 'E', 'A', 'D', 'Y'];
    proof {
        assert(seq!['R', 'E', 'A', 'D', 'Y'].len() == 5);
    }
    if t.len() != 5 {
        return false;
    }
    let mut k: usize = 0;
    while k < 5
        invariant
            t.len() == 5,
            t@ == trim(line@),
            ready@ == seq!['R', 'E', 'A', 'D', 'Y'],
            k <= 5,
            forall|i: int| 0 <= i < k ==> t@[i] == ready@[i],
        decreases 5 - k,
    {
        if t[k] != ready[k] {
            proof {
                assert(t@[k as int] != seq!['R', 'E', 'A', 'D', 'Y'][k as int]);
            }
            return false;
        }
        k = k + 1;
    }
    proof {
        assert(t@ =~= seq!['R', 'E', 'A', 'D', 'Y']);
    }
    true
}

/// Build the request line for `text` given the context lines; `None` when
/// the sanitized text is blank.
pub fn build_request(context: &Vec<String>, text: &str) -> (r: Option<String>)
    ensures
        r.is_some() == request_for(context.deep_view(), text@).is_some(),
        r matches Some(x) ==> x@ == request_for(context.deep_view(), text@).unwrap(),
{
    let target = sanitize(text);
    if trim_str(target.as_str()).as_str().is_empty() {
        return None;
    }
    let ghost cv = context.deep_view();
    let mut ctx: Vec<String> = Vec::new();
    for k in 0..context.len()
        invariant
            cv == context.deep_view(),
            ctx.deep_view() == cv.map_values(|l: Seq<char>| sanitized(l)).take(k as int),
    {
        let ghost before = ctx.deep_view();
        ctx.push(sanitize(context[k].as_str()));
        proof {
            assert(ctx.deep_view() =~= before.push(sanitized(cv[k as int])));
            assert(cv.map_values(|l: Seq<char>| sanitized(l)).take(k + 1) =~= cv.map_values(
                |l: Seq<char>| sanitized(l),
            ).take(k as int).push(sanitized(cv[k as int])));
        }
    }
    proof {
        assert(cv.map_values(|l: Seq<char>| sanitized(l)).take(context.len() as int) =~= cv.map_values(
            |l: Seq<char>| sanitized(l),
        ));
    }
    let mut sep = String::new();
    push_char(&mut sep, REC_SEP);
    let mut req = join_words(&ctx, sep.as_str());
    push_char(&mut req, FIELD_SEP);
    req.append(target.as_str());
    push_char(&mut req, '\n');
    proof {
        assert(req@ =~= join(cv.map_values(|l: Seq<char>| sanitized(l)), seq![REC_SEP]) + seq![
            FIELD_SEP,
        ] + sanitized(text@) + seq!['\n']);
    }
    Some(req)
}

/// A request line without its trailing line feeds and carriage returns.
pub fn strip_line_end(line: &str) -> (r: String)
    ensures
        r@ == request_body(line@),
{
    let v = chars_of(line);
    let mut hi = v.len();
    proof {
        assert(v@.take(hi as int) =~= v@);
    }
    while hi > 0 && (v[hi - 1] == '\n' || v[hi - 1] == '\r')
        invariant
            hi <= v.len(),
            trim_end_class(v@.take(hi as int), CharClass::LineEnd) == request_body(line@),
        decreases hi,
    {
        proof {
            assert(v@.take(hi as int).drop_last() =~= v@.take(hi - 1));
        }
        hi = hi - 1;
    }
    proof {
        if hi == v.len() {
            assert(v@.take(hi as int) =~= v@);
        }
    }
    string_of_range(&v, 0, hi)
}

/// Split a request line into (context lines, target line).
pub fn parse_request(req: &str) -> (r: (Vec<String>, String))
    ensures
        (r.0.deep_view(), r.1@) == parsed_request(req@),
{
    let v = chars_of(req);
    let k = find_in(&v, FIELD_SEP);
    if k < v.len() {
        let blob = string_of_range(&v, 0, k);
        let bv = chars_of(blob.as_str());
        let context = split_class(&bv, CharClass::Exactly(REC_SEP));
        let target = string_of_range(&v, k + 1, v.len());
        proof {
            assert(v@.subrange(0, k as int) =~= v@.take(k as int));
            assert(v@.subrange(k + 1, v.len() as int) =~= v@.skip(k + 1));
        }
        (context, target)
    } else {
        let target = string_of(&v);
        let context: Vec<String> = Vec::new();
        proof {
            assert(context.deep_view() =~= Seq::<Seq<char>>::empty());
        }
        (context, target)
    }
}

/// Collapse a model reply to a single clean line: drop everything after the
/// first newline, strip wrapping quotes and a stray "Corrected:" label.
pub fn single_line(s: &str) -> (r: String)
    ensures
        r@ == single_line_of(s@),
{
    let t0 = chars_of(trim_str(s).as_str());
    let label = vec!['C', 'o', 'r', 'r', 'e', 'c', 't', 'e', 'd', ':'];
    let mut labelled = t0.len() >= 10;
    let mut k: usize = 0;
    let ghost mut bad: int = 0;
    while labelled && k < 10
        invariant
            label@ == corrected_label(),
            k <= 10,
            labelled ==> t0.len() >= 10 && forall|i: int| 0 <= i < k ==> t0@[i] == label@[i],
            !labelled && t0.len() >= 10 ==> 0 <= bad < 10 && t0@[bad] != label@[bad],
        decreases 10 - k,
    {
        if t0[k] != label[k] {
            labelled = false;
            proof {
                bad = k as int;
            }
        }
        k = k + 1;
    }
    proof {
        if labelled {
            assert(t0@.take(10) =~= corrected_label());
        } else if t0.len() >= 10 {
            assert(t0@.take(10)[bad] != corrected_label()[bad]);
        }
    }
    let t1 = if labelled {
        let rest = string_of_range(&t0, 10, t0.len());
        proof {
            assert(rest@ =~= t0@.skip(10));
        }
        chars_of(trim_str(rest.as_str()).as_str())
    } else {
        t0
    };
    let nl = find_in(&t1, '\n');
    proof {
        lemma_find_char_bound(t1@, '\n');
    }
    let first = string_of_range(&t1, 0, nl);
    proof {
        assert(first@ =~= t1@.take(nl as int));
    }
    let t2 = chars_of(trim_str(first.as_str()).as_str());
    let (lo, hi) = trim_bounds(&t2, CharClass::Quote);
    let unquoted = string_of_range(&t2, lo, hi);
    trim_str(unquoted.as_str())
}

/// Tokens budgeted for one correction: about the target's length plus 24
/// (64 + 24 when the target could not be tokenized), never more than 200.
pub fn correction_budget(target_tokens: Option<usize>) -> (n: usize)
    ensures
        n == (match target_tokens {
            Some(t) => if t + 24 <= 200 { (t + 24) as int } else { 200 },
            None => 88,
        }),
{
    let t = match target_tokens {
        Some(t) => t,
        None => 64,
    };
    if t <= 176 {
        t + 24
    } else {
        200
    }
}

/// The rolling context of the correction client: the most recent accepted
/// lines (oldest first) and whether the sidecar has died.
pub struct CorrectionContext {
    lines: Vec<String>,
    dead: bool,
}

/// `line` appended to the window, keeping only the newest `CONTEXT_LINES`.
pub open spec fn window_after(lines: Seq<Seq<char>>, line: Seq<char>) -> Seq<Seq<char>> {
    let w = lines.push(line);
    if w.len() > CONTEXT_LINES {
        w.skip(w.len() - CONTEXT_LINES)
    } else {
        w
    }
}

/// The line kept for `text` given the model's raw reply: the trimmed reply
/// when it passes the guard, otherwise `text` unchanged.
pub open spec fn accepted_line(text: Seq<char>, reply: Option<Seq<char>>) -> Seq<char> {
    match reply {
        Some(r) => if acceptable(text, trim(r)) { trim(r) } else { text },
        None => text,
    }
}

impl CorrectionContext {
    /// The recent accepted lines, oldest first.
    pub closed spec fn lines(&self) -> Seq<Seq<char>> {
        self.lines.deep_view()
    }

    /// Whether the sidecar has died; every later line then passes through.
    pub closed spec fn is_dead(&self) -> bool {
        self.dead
    }

    /// A fresh, live context with no lines.
    pub fn new() -> (c: Self)
        ensures
            c.lines() == Seq::<Seq<char>>::empty(),
            !c.is_dead(),
    {
        let c = CorrectionContext { lines: Vec::new(), dead: false };
        proof {
            assert(c.lines() =~= Seq::<Seq<char>>::empty());
        }
        c
    }

    /// Whether the sidecar has died.
    pub fn dead(&self) -> (r: bool)
        ensures
            r == self.is_dead(),
    {
        self.dead
    }

    /// Latch the context dead after an I/O failure or timeout.
    pub fn mark_dead(&mut self)
        ensures
            final(self).is_dead(),
            final(self).lines() == old(self).lines(),
    {
        self.dead = true;
    }

    /// The request to send for `text`: `None` when the sidecar is dead or the
    /// sanitized text is blank.
    pub fn request(&self, text: &str) -> (r: Option<String>)
        ensures
            self.is_dead() ==> r.is_none(),
            !self.is_dead() ==> r.is_some() == request_for(self.lines(), text@).is_some(),
            r matches Some(x) ==> x@ == request_for(self.lines(), text@).unwrap(),
    {
        if self.dead {
            return None;
        }
        build_request(&self.lines, text)
    }

    /// Settle `text` given the model's raw reply (`None` when no reply came):
    /// returns the accepted line (the trimmed reply if it passes the guard,
    /// otherwise `text`) and pushes it onto the context window. A dead
    /// context returns `text` and keeps its window.
    pub fn settle(&mut self, text: &str, reply: Option<String>) -> (r: String)
        ensures
            old(self).is_dead() ==> r@ == text@ && final(self).lines() == old(self).lines(),
            !old(self).is_dead() ==> r@ == accepted_line(text@, match reply {
                Some(x) => Some(x@),
                None => None,
            }) && final(self).lines() == window_after(old(self).lines(), r@),
            final(self).is_dead() == old(self).is_dead(),
            old(self).lines().len() <= CONTEXT_LINES ==> final(self).lines().len() <= CONTEXT_LINES,
    {
        if self.dead {
            return String::from_str(text);
        }
        let accepted = match reply {
            Some(line) => {
                let corrected = trim_str(line.as_str());
                if accept_correction(text, corrected.as_str()) {
                    corrected
                } else {
                    String::from_str(text)
                }
            },
            None => String::from_str(text),
        };
        let ghost before = self.lines.deep_view();
        self.lines.push(accepted.clone());
        proof {
            assert(self.lines.deep_view() =~= before.push(accepted@));
        }
        while self.lines.len() > CONTEXT_LINES
            invariant
                !self.dead,
                window_after(before, accepted@) == if self.lines@.len() > CONTEXT_LINES {
                    self.lines.deep_view().skip(self.lines@.len() - CONTEXT_LINES)
                } else {
                    self.lines.deep_view()
                },
            decreases self.lines.len(),
        {
            let ghost cur = self.lines.deep_view();
            self.lines.remove(0);
            proof {
                assert(self.lines.deep_view() =~= cur.drop_first());
                assert(cur.skip(cur.len() - CONTEXT_LINES) =~= cur.drop_first().skip(
                    cur.drop_first().len() - CONTEXT_LINES,
                )) by {
                    if cur.drop_first().len() <= CONTEXT_LINES {
                        assert(cur.drop_first().len() == CONTEXT_LINES);
                    }
                };
            }
        }
        accepted
    }
}


/// No character of `s` is `c`.
pub open spec fn free_of(s: Seq<char>, c: char) -> bool {
    forall|i: int| 0 <= i < s.len() ==> s[i] != c
}

/// Sanitized text holds no control character.
pub proof fn lemma_sanitized_free_of(s: Seq<char>, c: char)
    requires
        control(c),
    ensures
        free_of(sanitized(s), c),
{
    assert forall|i: int| 0 <= i < sanitized(s).len() implies sanitized(s)[i] != c by {
        assert(sanitized(s)[i] == if control(s[i]) { ' ' } else { s[i] });
    }
}

pub proof fn lemma_join_free_of(ws: Seq<Seq<char>>, sep: Seq<char>, c: char)
    requires
        forall|i: int| 0 <= i < ws.len() ==> free_of(#[trigger] ws[i], c),
        free_of(sep, c),
    ensures
        free_of(join(ws, sep), c),
    decreases ws.len(),
{
    if ws.len() > 1 {
        let front = ws.drop_last();
        assert forall|i: int| 0 <= i < front.len() implies free_of(#[trigger] front[i], c) by {
            assert(front[i] == ws[i]);
        }
        lemma_join_free_of(front, sep, c);
        let j = join(front, sep);
        assert(free_of(ws[ws.len() - 1], c));
        assert forall|i: int| 0 <= i < join(ws, sep).len() implies join(ws, sep)[i] != c by {
            if i < j.len() {
                assert(join(ws, sep)[i] == j[i]);
            } else if i < j.len() + sep.len() {
                assert(join(ws, sep)[i] == sep[i - j.len()]);
            } else {
                assert(join(ws, sep)[i] == ws.last()[i - j.len() - sep.len()]);
            }
        }
    } else if ws.len() == 1 {
        assert(free_of(ws[0], c));
    }
}

pub proof fn lemma_find_after_free(a: Seq<char>, b: Seq<char>, c: char)
    requires
        free_of(a, c),
    ensures
        find_char(a + seq![c] + b, c) == a.len(),
    decreases a.len(),
{
    let t = a + seq![c] + b;
    if a.len() == 0 {
        assert(t[0] == c);
    } else {
        assert(t[0] == a[0]);
        assert(t.drop_first() =~= a.drop_first() + seq![c] + b);
        lemma_find_after_free(a.drop_first(), b, c);
    }
}

/// The characters of `s`, trimmed, are empty when `s` is.
pub proof fn lemma_trim_empty(s: Seq<char>)
    requires
        s.len() == 0,
    ensures
        trim(s).len() == 0,
{
}

/// The wire format round-trips: the sidecar parses a client request back
/// into exactly the client's (sanitized, non-empty) context lines and its
/// sanitized target, so request/reply framing cannot desynchronize.
pub proof fn law_request_round_trip(context: Seq<Seq<char>>, text: Seq<char>)
    requires
        request_for(context, text).is_some(),
    ensures
        parsed_request(request_body(request_for(context, text).unwrap())) == (
            nonempty_pieces(context.map_values(|l: Seq<char>| sanitized(l))),
            sanitized(text),
        ),
{
    let ctx = context.map_values(|l: Seq<char>| sanitized(l));
    let blob = join(ctx, seq![REC_SEP]);
    let target = sanitized(text);
    let body = blob + seq![FIELD_SEP] + target;
    let req = body + seq!['\n'];
    assert(request_for(context, text).unwrap() == req);
    // the line ending is the only thing stripped
    if target.len() == 0 {
        lemma_trim_empty(target);
    }
    assert(target.len() > 0);
    assert(target.last() == if control(text.last()) { ' ' } else { text.last() });
    assert(req.drop_last() =~= body);
    assert(body.last() == target.last());
    assert(control('\n') && control('\r'));
    assert(!crate::words::in_class(CharClass::LineEnd, body.last()));
    assert(req.last() == '\n');
    assert(trim_end_class(req, CharClass::LineEnd) == trim_end_class(req.drop_last(), CharClass::LineEnd));
    assert(trim_end_class(body, CharClass::LineEnd) == body);
    assert(request_body(req) == body);
    // the first field separator is the one after the context blob
    assert forall|i: int| 0 <= i < ctx.len() implies free_of(#[trigger] ctx[i], FIELD_SEP) by {
        lemma_sanitized_free_of(context[i], FIELD_SEP);
    }
    assert(free_of(seq![REC_SEP], FIELD_SEP));
    lemma_join_free_of(ctx, seq![REC_SEP], FIELD_SEP);
    lemma_find_after_free(blob, target, FIELD_SEP);
    assert(body.take(blob.len() as int) =~= blob);
    assert(body.skip(blob.len() as int + 1) =~= target);
    assert(parsed_request(body) == (split_words(blob, CharClass::Exactly(REC_SEP)), target));
    // the context blob splits back into the context lines
    if ctx.len() > 0 {
        assert forall|i: int, j: int| 0 <= i < ctx.len() && 0 <= j < ctx[i].len() implies #[trigger] ctx[i][j] != REC_SEP by {
            lemma_sanitized_free_of(context[i], REC_SEP);
        }
        lemma_split_join(ctx, REC_SEP);
        assert(split_words(blob, CharClass::Exactly(REC_SEP)) == nonempty_pieces(ctx));
    } else {
        assert(blob =~= Seq::<char>::empty());
        assert(pieces(blob, CharClass::Exactly(REC_SEP)) == seq![Seq::<char>::empty()]);
        let one = seq![Seq::<char>::empty()];
        assert(one.drop_last() =~= Seq::<Seq<char>>::empty());
        assert(one.last().len() == 0);
        assert(nonempty_pieces(one) == nonempty_pieces(one.drop_last()));
        assert(nonempty_pieces(Seq::<Seq<char>>::empty()) == Seq::<Seq<char>>::empty());
        assert(nonempty_pieces(ctx) =~= Seq::<Seq<char>>::empty());
        assert(split_words(blob, CharClass::Exactly(REC_SEP)) =~= nonempty_pieces(ctx));
    }
}

/// A line is at distance zero from itself.
pub proof fn lemma_distance_to_self(a: Seq<char>, i: nat)
    requires
        i <= a.len(),
    ensures
        prefix_distance(a, a, i, i) == 0,
    decreases i,
{
    if i > 0 {
        lemma_distance_to_self(a, (i - 1) as nat);
    }
}

/// A non-blank line handed back unchanged by the model is always accepted.
pub proof fn law_unchanged_line_is_accepted(text: Seq<char>)
    requires
        trim(text).len() > 0,
    ensures
        acceptable(text, text),
{
    lemma_distance_to_self(trim(text), trim(text).len());
}

/// Sanitizing is what makes a line safe for the wire: the result holds no
/// separator and no line break.
pub proof fn law_sanitized_line_is_wire_safe(s: Seq<char>)
    ensures
        free_of(sanitized(s), FIELD_SEP),
        free_of(sanitized(s), REC_SEP),
        free_of(sanitized(s), '\n'),
        free_of(sanitized(s), '\r'),
{
    lemma_sanitized_free_of(s, FIELD_SEP);
    lemma_sanitized_free_of(s, REC_SEP);
    lemma_sanitized_free_of(s, '\n');
    lemma_sanitized_free_of(s, '\r');
}

/// An accepted correction stays within the edit budget: its Levenshtein
/// distance from the original (both trimmed) is at most 0.4 × the original's
/// length, it is at most 1.6 × that length plus 8 characters, and neither
/// line is blank.
pub proof fn law_accepted_correction_within_budget(original: Seq<char>, corrected: Seq<char>)
    requires
        acceptable(original, corrected),
    ensures
        5 * edit_distance(trim(original), trim(corrected)) <= 2 * trim(original).len(),
        5 * trim(corrected).len() <= 8 * trim(original).len() + 40,
        trim(original).len() > 0,
        trim(corrected).len() > 0,
{
}

/// The settled line is the caller's text or a trimmed reply within the edit
/// budget of that text.
pub proof fn law_settled_line_is_text_or_small_fix(text: Seq<char>, reply: Option<Seq<char>>)
    ensures
        accepted_line(text, reply) == text || (reply matches Some(r) && accepted_line(text, reply)
            == trim(r) && 5 * edit_distance(trim(text), trim(trim(r))) <= 2 * trim(text).len()),
{
    if let Some(r) = reply {
        if acceptable(text, trim(r)) {
            law_accepted_correction_within_budget(text, trim(r));
        }
    }
}

/// A trimmed non-empty text starts and ends with a character outside the
/// trimmed class.
pub proof fn lemma_trim_class_ends(s: Seq<char>, k: CharClass)
    ensures
        trim_class(s, k).len() > 0 ==> !in_class(k, trim_class(s, k)[0]) && !in_class(
            k,
            trim_class(s, k).last(),
        ),
        trim_class(s, k).len() <= s.len(),
{
    lemma_trim_start_first(s, k);
    let u = trim_start_class(s, k);
    lemma_trim_end_prefix(u, k);
}

proof fn lemma_trim_start_first(s: Seq<char>, k: CharClass)
    ensures
        trim_start_class(s, k).len() > 0 ==> !in_class(k, trim_start_class(s, k)[0]),
        trim_start_class(s, k).len() <= s.len(),
    decreases s.len(),
{
    if s.len() > 0 && in_class(k, s[0]) {
        lemma_trim_start_first(s.drop_first(), k);
    }
}

proof fn lemma_trim_end_prefix(u: Seq<char>, k: CharClass)
    ensures
        trim_end_class(u, k).len() <= u.len(),
        forall|i: int| 0 <= i < trim_end_class(u, k).len() ==> trim_end_class(u, k)[i] == u[i],
        trim_end_class(u, k).len() > 0 ==> !in_class(k, trim_end_class(u, k).last()),
    decreases u.len(),
{
    if u.len() > 0 && in_class(k, u.last()) {
        lemma_trim_end_prefix(u.drop_last(), k);
        assert forall|i: int| 0 <= i < trim_end_class(u, k).len() implies trim_end_class(u, k)[i] == u[i] by {
            assert(u.drop_last()[i] == u[i]);
        }
    }
}

/// Text whose ends are outside the class is left alone by trimming.
pub proof fn lemma_trim_class_fixed(s: Seq<char>, k: CharClass)
    requires
        s.len() > 0 ==> !in_class(k, s[0]) && !in_class(k, s.last()),
    ensures
        trim_class(s, k) == s,
{
}

/// A model reply that is one line, has no `Corrected:` label, and is not
/// wrapped in quotes comes back as its trimmed text, every inner character
/// (apostrophes and quotes included) kept.
pub proof fn law_single_line_keeps_inner_characters(s: Seq<char>)
    requires
        trim(s).len() > 0,
        forall|i: int| 0 <= i < trim(s).len() ==> trim(s)[i] != '\n',
        !(trim(s).len() >= 10 && trim(s).take(10) == corrected_label()),
        !in_class(CharClass::Quote, trim(s)[0]),
        !in_class(CharClass::Quote, trim(s).last()),
    ensures
        single_line_of(s) == trim(s),
{
    let t = trim(s);
    lemma_find_char_bound(t, '\n');
    assert(t.take(find_char(t, '\n')) =~= t);
    lemma_trim_class_ends(s, CharClass::Whitespace);
    lemma_trim_class_fixed(t, CharClass::Whitespace);
    lemma_trim_class_fixed(t, CharClass::Quote);
}

} // verus!
