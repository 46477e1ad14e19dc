//! Software echo suppression between the two capture tracks.
//!
//! When the attendees' audio plays out the speakers it is re-captured by the
//! microphone and would be transcribed twice. The system (loopback) track is
//! the source of truth, so a mic line whose words are mostly covered by recent
//! system speech is dropped as echo. Matching survives three failure modes of
//! naive line-by-line comparison:
//!   - **ordering race**: the mic's echoed line can finalize before the system
//!     line does, so the system track's live partial also counts;
//!   - **segmentation mismatch**: an echo can straddle two system lines, so long
//!     mic lines are matched against the union of all recent system words;
//!   - **recognition drift**: the degraded re-capture yields slightly different
//!     words, so long enough words may match across a single edit.
//!
//! Timestamps are monotonic nanoseconds supplied by the caller.

use vstd::prelude::*;
use vstd::utf8::encode_utf8;
use crate::edit::{edit_distance, law_one_edit_iff_distance_at_most_one, one_edit_apart, within_one_edit};
use crate::words::{tokenize, tokens};

verus! {

/// How long system speech stays eligible to explain a mic echo (6 s).
pub const WINDOW_NS: u64 = 6_000_000_000;
/// Words of at least this many UTF-8 bytes may match across one edit; shorter
/// words must match exactly.
pub const FUZZY_MIN_LEN: usize = 4;
/// Mic lines with fewer words than this must be explained by a single system
/// line: pooled common words from different lines would otherwise suppress
/// the user's brief genuine replies.
pub const UNION_MIN_WORDS: usize = 5;

/// A recorded system line: when it was heard, and its words.
pub type SpecLine = (u64, Seq<Seq<char>>);

/// The abstract state of an [`EchoFilter`].
pub struct EchoView {
    /// Finalized system lines, oldest first.
    pub finals: Seq<SpecLine>,
    /// The system track's in-flight partial, if any.
    pub partial: Option<SpecLine>,
}

/// System speech recorded at `t` can no longer explain an echo at `now`.
/// (An elapsed time is zero when `t` is later than `now`.)
pub open spec fn stale(now: u64, t: u64) -> bool {
    now > t && now - t > WINDOW_NS
}

/// Drops the leading finals that have fallen out of the window.
pub open spec fn prune_finals(fs: Seq<SpecLine>, now: u64) -> Seq<SpecLine>
    decreases fs.len(),
{
    if fs.len() > 0 && stale(now, fs[0].0) {
        prune_finals(fs.drop_first(), now)
    } else {
        fs
    }
}

pub open spec fn prune_partial(p: Option<SpecLine>, now: u64) -> Option<SpecLine> {
    match p {
        Some(l) => if stale(now, l.0) { None } else { p },
        None => None,
    }
}

pub open spec fn pruned(v: EchoView, now: u64) -> EchoView {
    EchoView { finals: prune_finals(v.finals, now), partial: prune_partial(v.partial, now) }
}

/// Pruning leaves nothing further to prune.
pub proof fn lemma_prune_idempotent(fs: Seq<SpecLine>, now: u64)
    ensures
        prune_finals(prune_finals(fs, now), now) == prune_finals(fs, now),
    decreases fs.len(),
{
    if fs.len() > 0 && stale(now, fs[0].0) {
        lemma_prune_idempotent(fs.drop_first(), now);
    }
}

/// State after a finalized system line: window pruned, line appended, the
/// partial superseded.
pub open spec fn after_final(v: EchoView, now: u64, text: Seq<char>) -> EchoView {
    EchoView { finals: prune_finals(v.finals, now).push((now, tokens(text))), partial: None }
}

/// State after a system partial: it replaces the previous partial unless it
/// has no words.
pub open spec fn after_partial(v: EchoView, now: u64, text: Seq<char>) -> EchoView {
    if tokens(text).len() > 0 {
        EchoView { finals: v.finals, partial: Some((now, tokens(text))) }
    } else {
        v
    }
}

/// The word lists that may explain an echo: every final, then the partial.
pub open spec fn window_lines(v: EchoView) -> Seq<Seq<Seq<char>>> {
    v.finals.map_values(|l: SpecLine| l.1) + match v.partial {
        Some(l) => seq![l.1],
        None => Seq::<Seq<Seq<char>>>::empty(),
    }
}

/// All words of `ls`, line after line.
pub open spec fn concat_lines(ls: Seq<Seq<Seq<char>>>) -> Seq<Seq<char>>
    decreases ls.len(),
{
    if ls.len() == 0 {
        Seq::<Seq<char>>::empty()
    } else {
        concat_lines(ls.drop_last()) + ls.last()
    }
}

/// Length of a word in UTF-8 bytes, as `str::len` reports it.
pub open spec fn utf8_len(w: Seq<char>) -> int {
    encode_utf8(w).len() as usize as int
}

/// Two words count as the same if equal, or (when both are long enough)
/// within a single edit.
pub open spec fn fuzzy_match(a: Seq<char>, b: Seq<char>) -> bool {
    a == b || (utf8_len(a) >= FUZZY_MIN_LEN && utf8_len(b) >= FUZZY_MIN_LEN && one_edit_apart(a, b))
}

/// Index of the first entry of `pool` at or after `i` that equals `w`
/// (when `exact`) or fuzzily matches `w`; `pool.len()` when there is none.
pub open spec fn first_match_from(pool: Seq<Seq<char>>, w: Seq<char>, exact: bool, i: int) -> int
    decreases pool.len() - i,
{
    if i < 0 || i >= pool.len() {
        pool.len() as int
    } else if (if exact { pool[i] == w } else { fuzzy_match(w, pool[i]) }) {
        i
    } else {
        first_match_from(pool, w, exact, i + 1)
    }
}

pub open spec fn first_match(pool: Seq<Seq<char>>, w: Seq<char>, exact: bool) -> int {
    first_match_from(pool, w, exact, 0)
}

/// Number of `mic` words explained by the system words `pool`, each match
/// consuming one pool word. A mic word takes an exact match when one is left,
/// otherwise a fuzzy one.
pub open spec fn covered_words(mic: Seq<Seq<char>>, pool: Seq<Seq<char>>) -> nat
    decreases mic.len(),
{
    if mic.len() == 0 {
        0
    } else {
        let w = mic[0];
        let e = first_match(pool, w, true);
        let f = first_match(pool, w, false);
        if e < pool.len() {
            1 + covered_words(mic.drop_first(), pool.remove(e))
        } else if f < pool.len() {
            1 + covered_words(mic.drop_first(), pool.remove(f))
        } else {
            covered_words(mic.drop_first(), pool)
        }
    }
}

/// At least 55% of `total` words are covered.
pub open spec fn enough_covered(hits: nat, total: nat) -> bool {
    20 * hits >= 11 * total
}

/// Whether mic words `mic` are an echo of the system lines `lines`: short
/// lines need one system line covering them, longer ones are matched against
/// the union of all lines.
pub open spec fn echo_of(mic: Seq<Seq<char>>, lines: Seq<Seq<Seq<char>>>) -> bool {
    if mic.len() == 0 || lines.len() == 0 {
        false
    } else if mic.len() < UNION_MIN_WORDS {
        exists|i: int| 0 <= i < lines.len() && enough_covered(#[trigger] covered_words(mic, lines[i]), mic.len())
    } else {
        enough_covered(covered_words(mic, concat_lines(lines)), mic.len())
    }
}

/// Whether the mic line `text`, heard at `now`, is an echo given state `v`.
pub open spec fn echo_at(v: EchoView, now: u64, text: Seq<char>) -> bool {
    echo_of(tokens(text), window_lines(pruned(v, now)))
}

/// Text-level echo filter: recent system lines and the system partial.
pub struct EchoFilter {
    finals: Vec<(u64, Vec<String>)>,
    partial: Option<(u64, Vec<String>)>,
}

impl View for EchoFilter {
    type V = EchoView;

    closed spec fn view(&self) -> EchoView {
        EchoView {
            finals: self.finals.deep_view(),
            partial: match self.partial {
                Some(p) => Some((p.0, p.1.deep_view())),
                None => None,
            },
        }
    }
}

fn is_stale(now: u64, t: u64) -> (r: bool)
    ensures
        r == stale(now, t),
{
    now > t && now - t > WINDOW_NS
}

/// A copy of a word list.
fn copy_words(ws: &Vec<String>) -> (r: Vec<String>)
    ensures
        r.deep_view() == ws.deep_view(),
{
    let mut r: Vec<String> = Vec::new();
    for k in 0..ws.len()
        invariant
            r.deep_view() == ws.deep_view().take(k as int),
    {
        let ghost before = r.deep_view();
        r.push(ws[k].clone());
        proof {
            assert(r.deep_view() =~= before.push(ws[k as int]@));
            assert(ws.deep_view().take(k + 1) =~= ws.deep_view().take(k as int).push(ws[k as int]@));
        }
    }
    proof {
        assert(ws.deep_view().take(ws.len() as int) =~= ws.deep_view());
    }
    r
}

fn fuzzy_eq(a: &String, b: &String) -> (r: bool)
    ensures
        r == fuzzy_match(a@, b@),
{
    if *a == *b {
        return true;
    }
    if a.as_str().len() < FUZZY_MIN_LEN || b.as_str().len() < FUZZY_MIN_LEN {
        return false;
    }
    within_one_edit(a.as_str(), b.as_str())
}

/// Index of the first pool word equal to (when `exact`) or fuzzily matching
/// `w`; `pool.len()` when there is none.
fn find_match(pool: &Vec<String>, w: &String, exact: bool) -> (k: usize)
    ensures
        k == first_match(pool.deep_view(), w@, exact),
{
    let ghost pv = pool.deep_view();
    let mut i: usize = 0;
    while i < pool.len()
        invariant
            pv == pool.deep_view(),
            i <= pool.len(),
            first_match_from(pv, w@, exact, i as int) == first_match(pv, w@, exact),
        decreases pool.len() - i,
    {
        let hit = if exact { pool[i] == *w } else { fuzzy_eq(w, &pool[i]) };
        if hit {
            return i;
        }
        i = i + 1;
    }
    i
}

/// Number of `mic` words explained by the system words `pool`, consuming a
/// match per word (exact preferred, then fuzzy).
fn covered(mic: &Vec<String>, pool: Vec<String>) -> (n: usize)
    ensures
        n == covered_words(mic.deep_view(), pool.deep_view()),
        n <= mic.len(),
{
    let ghost mv = mic.deep_view();
    let ghost p0 = pool.deep_view();
    let mut pool = pool;
    let mut hit: usize = 0;
    let mut i: usize = 0;
    proof {
        assert(mv.skip(0) =~= mv);
    }
    while i < mic.len()
        invariant
            mv == mic.deep_view(),
            i <= mic.len(),
            hit <= i,
            hit + covered_words(mv.skip(i as int), pool.deep_view()) == covered_words(mv, p0),
        decreases mic.len() - i,
    {
        let ghost rest = mv.skip(i as int);
        let ghost pv = pool.deep_view();
        proof {
            assert(rest[0] == mic[i as int]@);
            assert(rest.drop_first() =~= mv.skip(i + 1));
        }
        let e = find_match(&pool, &mic[i], true);
        if e < pool.len() {
            pool.remove(e);
            proof {
                assert(pool.deep_view() =~= pv.remove(e as int));
            }
            hit = hit + 1;
        } else {
            let f = find_match(&pool, &mic[i], false);
            if f < pool.len() {
                pool.remove(f);
                proof {
                    assert(pool.deep_view() =~= pv.remove(f as int));
                }
                hit = hit + 1;
            }
        }
        i = i + 1;
    }
    proof {
        assert(mv.skip(mic.len() as int) =~= Seq::<Seq<char>>::empty());
    }
    hit
}

fn enough(hits: usize, total: usize) -> (r: bool)
    ensures
        r == enough_covered(hits as nat, total as nat),
{
    (hits as u128) * 20 >= (total as u128) * 11
}

/// All words of `lines`, line after line.
fn concat_copies(lines: &Vec<Vec<String>>) -> (pool: Vec<String>)
    ensures
        pool.deep_view() == concat_lines(lines.deep_view()),
{
    let ghost lv = lines.deep_view();
    let mut pool: Vec<String> = Vec::new();
    let mut k: usize = 0;
    proof {
        assert(lv.take(0) =~= Seq::<Seq<Seq<char>>>::empty());
    }
    while k < lines.len()
        invariant
            lv == lines.deep_view(),
            k <= lines.len(),
            pool.deep_view() == concat_lines(lv.take(k as int)),
        decreases lines.len() - k,
    {
        let ghost base = pool.deep_view();
        let line = &lines[k];
        let mut j: usize = 0;
        while j < line.len()
            invariant
                lv == lines.deep_view(),
                k < lines.len(),
                line == lines[k as int],
                j <= line.len(),
                pool.deep_view() == base + line.deep_view().take(j as int),
            decreases line.len() - j,
        {
            let ghost before = pool.deep_view();
            pool.push(line[j].clone());
            proof {
                assert(pool.deep_view() =~= before.push(line[j as int]@));
                assert(line.deep_view().take(j + 1) =~= line.deep_view().take(j as int).push(
                    line[j as int]@,
                ));
            }
            j = j + 1;
        }
        proof {
            assert(line.deep_view().take(line.len() as int) =~= line.deep_view());
            assert(lv.take(k + 1).drop_last() =~= lv.take(k as int));
            assert(lv.take(k + 1).last() == lv[k as int]);
        }
        k = k + 1;
    }
    proof {
        assert(lv.take(lines.len() as int) =~= lv);
    }
    pool
}

/// Whether the mic words are an echo of the given system lines.
fn echo_decision(mic: &Vec<String>, lines: &Vec<Vec<String>>) -> (r: bool)
    ensures
        r == echo_of(mic.deep_view(), lines.deep_view()),
{
    let ghost mv = mic.deep_view();
    let ghost lv = lines.deep_view();
    if mic.len() == 0 || lines.len() == 0 {
        return false;
    }
    if mic.len() < UNION_MIN_WORDS {
        let mut k: usize = 0;
        while k < lines.len()
            invariant
                mv == mic.deep_view(),
                lv == lines.deep_view(),
                k <= lines.len(),
                0 < mic.len() < UNION_MIN_WORDS,
                forall|j: int| 0 <= j < k ==> !enough_covered(#[trigger] covered_words(mv, lv[j]), mv.len()),
            decreases lines.len() - k,
        {
            let c = covered(mic, copy_words(&lines[k]));
            proof {
                assert(lv[k as int] == lines[k as int].deep_view());
            }
            if enough(c, mic.len()) {
                proof {
                    assert(enough_covered(covered_words(mv, lv[k as int]), mv.len()));

                }
                return true;
            }
            k = k + 1;
        }
        return false;
    }
    let pool = concat_copies(lines);
    let c = covered(mic, pool);
    enough(c, mic.len())
}

impl EchoFilter {
    /// An empty filter: nothing recorded.
    pub fn new() -> (f: Self)
        ensures
            f@.finals == Seq::<SpecLine>::empty(),
            f@.partial == None::<SpecLine>,
    {
        let f = EchoFilter { finals: Vec::new(), partial: None };
        proof {
            assert(f@.finals =~= Seq::<SpecLine>::empty());
        }
        f
    }

    /// Drops system speech that has fallen out of the window.
    fn prune(&mut self, now: u64)
        ensures
            final(self)@ == pruned(old(self)@, now),
    {
        let ghost orig = self@.finals;
        while self.finals.len() > 0 && is_stale(now, self.finals[0].0)
            invariant
                prune_finals(self@.finals, now) == prune_finals(orig, now),
                self@.partial == old(self)@.partial,
            decreases self.finals.len(),
        {
            let ghost before = self@.finals;
            self.finals.remove(0);
            proof {
                assert(self@.finals =~= before.drop_first());
            }
        }
        let mut drop_partial = false;
        if let Some(p) = &self.partial {
            if is_stale(now, p.0) {
                drop_partial = true;
            }
        }
        if drop_partial {
            self.partial = None;
        }
    }

    /// Record a finalized *system* line. Supersedes the live partial (the
    /// final is its authoritative form) and prunes anything past the window.
    pub fn record_final(&mut self, now: u64, text: &str)
        ensures
            final(self)@ == after_final(old(self)@, now, text@),
    {
        self.prune(now);
        let toks = tokenize(text);
        let ghost before = self@.finals;
        self.finals.push((now, toks));
        self.partial = None;
        proof {
            assert(self@.finals =~= before.push((now, tokens(text@))));
        }
    }

    /// Record the system track's current partial so it can explain a mic echo
    /// that finalizes before the matching system line does. Replaces any prior
    /// partial (a partial only grows within one utterance).
    pub fn record_partial(&mut self, now: u64, text: &str)
        ensures
            final(self)@ == after_partial(old(self)@, now, text@),
    {
        let toks = tokenize(text);
        if toks.len() > 0 {
            self.partial = Some((now, toks));
        }
    }

    /// The word lists of all in-window system lines: finals plus the live
    /// partial.
    fn window(&self, now: u64) -> (lines: Vec<Vec<String>>)
        requires
            self@ == pruned(self@, now),
        ensures
            lines.deep_view() == window_lines(self@),
    {
        let mut lines: Vec<Vec<String>> = Vec::new();
        for k in 0..self.finals.len()
            invariant
                lines.deep_view() == self@.finals.map_values(|l: SpecLine| l.1).take(k as int),
        {
            let ghost before = lines.deep_view();
            lines.push(copy_words(&self.finals[k].1));
            proof {
                assert(lines.deep_view() =~= before.push(self@.finals[k as int].1));
                assert(self@.finals.map_values(|l: SpecLine| l.1).take(k + 1) =~= self@.finals.map_values(
                    |l: SpecLine| l.1,
                ).take(k as int).push(self@.finals[k as int].1));
            }
        }
        proof {
            assert(self@.finals.map_values(|l: SpecLine| l.1).take(self.finals.len() as int)
                =~= self@.finals.map_values(|l: SpecLine| l.1));
        }
        let ghost fin = lines.deep_view();
        if let Some(p) = &self.partial {
            if !is_stale(now, p.0) {
                lines.push(copy_words(&p.1));
                proof {
                    assert(lines.deep_view() =~= fin.push(p.1.deep_view()));
                }
            }
        }
        proof {
            assert(lines.deep_view() =~= window_lines(self@));
        }
        lines
    }

    /// True if `text` (a mic line) is mostly covered by recent system speech.
    /// A line with no words is never echo and leaves the filter untouched;
    /// otherwise the window is pruned first.
    pub fn is_echo(&mut self, now: u64, text: &str) -> (r: bool)
        ensures
            r == echo_at(old(self)@, now, text@),
            final(self)@ == if tokens(text@).len() == 0 {
                old(self)@
            } else {
                pruned(old(self)@, now)
            },
    {
        let mic = tokenize(text);
        if mic.len() == 0 {
            return false;
        }
        self.prune(now);
        proof {
            lemma_prune_idempotent(old(self)@.finals, now);
        }
        let lines = self.window(now);
        echo_decision(&mic, &lines)
    }
}


/// `first_match_from` finds the first matching index at or after `i`.
pub proof fn lemma_first_match_from(pool: Seq<Seq<char>>, w: Seq<char>, exact: bool, i: int)
    requires
        0 <= i <= pool.len(),
    ensures
        i <= first_match_from(pool, w, exact, i) <= pool.len(),
        first_match_from(pool, w, exact, i) < pool.len() ==> (if exact {
            pool[first_match_from(pool, w, exact, i)] == w
        } else {
            fuzzy_match(w, pool[first_match_from(pool, w, exact, i)])
        }),
        (exists|k: int| i <= k < pool.len() && (if exact { #[trigger] pool[k] == w } else {
            fuzzy_match(w, pool[k])
        })) ==> first_match_from(pool, w, exact, i) < pool.len(),
    decreases pool.len() - i,
{
    if i < pool.len() {
        lemma_first_match_from(pool, w, exact, i + 1);
    }
}

/// A mic line never has more covered words than words.
pub proof fn lemma_covered_at_most_mic(mic: Seq<Seq<char>>, pool: Seq<Seq<char>>)
    ensures
        covered_words(mic, pool) <= mic.len(),
    decreases mic.len(),
{
    if mic.len() > 0 {
        let w = mic[0];
        let e = first_match(pool, w, true);
        let f = first_match(pool, w, false);
        lemma_first_match_from(pool, w, true, 0);
        lemma_first_match_from(pool, w, false, 0);
        if e < pool.len() {
            lemma_covered_at_most_mic(mic.drop_first(), pool.remove(e));
        } else if f < pool.len() {
            lemma_covered_at_most_mic(mic.drop_first(), pool.remove(f));
        } else {
            lemma_covered_at_most_mic(mic.drop_first(), pool);
        }
    }
}

/// When the system words contain every mic word (with multiplicity), every
/// mic word is covered.
pub proof fn lemma_covered_when_contained(mic: Seq<Seq<char>>, pool: Seq<Seq<char>>)
    requires
        mic.to_multiset().subset_of(pool.to_multiset()),
    ensures
        covered_words(mic, pool) == mic.len(),
    decreases mic.len(),
{
    broadcast use vstd::multiset::group_multiset_axioms;
    broadcast use vstd::seq_lib::to_multiset_contains;
    broadcast use vstd::seq_lib::to_multiset_remove;

    if mic.len() > 0 {
        let w = mic[0];
        assert(mic.contains(w));
        assert(mic.to_multiset().count(w) > 0);
        assert(pool.to_multiset().count(w) > 0);
        assert(pool.contains(w));
        let k = choose|k: int| 0 <= k < pool.len() && pool[k] == w;
        lemma_first_match_from(pool, w, true, 0);
        let e = first_match(pool, w, true);
        assert(pool[e] == w);
        let rest = mic.drop_first();
        let left = pool.remove(e);
        assert(mic.remove(0) =~= rest);
        assert(rest.to_multiset() == mic.to_multiset().remove(w));
        assert(left.to_multiset() == pool.to_multiset().remove(w));
        assert forall|x: Seq<char>| rest.to_multiset().count(x) <= left.to_multiset().count(x) by {
            assert(mic.to_multiset().count(x) <= pool.to_multiset().count(x));
        }
        lemma_covered_when_contained(rest, left);
    }
}

/// Every line's words are among the words of all lines.
pub proof fn lemma_line_within_concat(ls: Seq<Seq<Seq<char>>>, i: int)
    requires
        0 <= i < ls.len(),
    ensures
        ls[i].to_multiset().subset_of(concat_lines(ls).to_multiset()),
    decreases ls.len(),
{
    broadcast use vstd::multiset::group_multiset_axioms;

    let front = concat_lines(ls.drop_last());
    vstd::seq_lib::lemma_multiset_commutative(front, ls.last());
    if i < ls.len() - 1 {
        lemma_line_within_concat(ls.drop_last(), i);
        assert(ls.drop_last()[i] == ls[i]);
    }
}

/// Appending a line that is not stale commutes with pruning.
pub proof fn lemma_prune_push(fs: Seq<SpecLine>, x: SpecLine, now: u64)
    requires
        !stale(now, x.0),
    ensures
        prune_finals(fs.push(x), now) == prune_finals(fs, now).push(x),
    decreases fs.len(),
{
    if fs.len() > 0 && stale(now, fs[0].0) {
        assert(fs.push(x).drop_first() =~= fs.drop_first().push(x));
        lemma_prune_push(fs.drop_first(), x, now);
    } else if fs.len() == 0 {
        assert(fs.push(x)[0] == x);
    } else {
        assert(fs.push(x)[0] == fs[0]);
    }
}

/// When every recorded final is stale, pruning removes them all.
pub proof fn lemma_prune_all_stale(fs: Seq<SpecLine>, now: u64)
    requires
        forall|i: int| 0 <= i < fs.len() ==> stale(now, #[trigger] fs[i].0),
    ensures
        prune_finals(fs, now).len() == 0,
    decreases fs.len(),
{
    if fs.len() > 0 {
        assert(stale(now, fs[0].0));
        assert forall|i: int| 0 <= i < fs.drop_first().len() implies stale(now, #[trigger] fs.drop_first()[i].0) by {
            assert(fs.drop_first()[i] == fs[i + 1]);
        }
        lemma_prune_all_stale(fs.drop_first(), now);
    }
}

/// A mic line that repeats, word for word, any system line still in the
/// window (a final or the live partial) is an echo.
pub proof fn law_repeat_of_window_line_is_echo(v: EchoView, now: u64, text: Seq<char>)
    requires
        tokens(text).len() > 0,
        window_lines(pruned(v, now)).contains(tokens(text)),
    ensures
        echo_at(v, now, text),
{
    let mic = tokens(text);
    let lines = window_lines(pruned(v, now));
    let i = choose|i: int| 0 <= i < lines.len() && lines[i] == mic;
    if mic.len() < UNION_MIN_WORDS {
        lemma_covered_when_contained(mic, lines[i]);
        assert(enough_covered(covered_words(mic, lines[i]), mic.len()));
    } else {
        lemma_line_within_concat(lines, i);
        lemma_covered_when_contained(mic, concat_lines(lines));
    }
}

/// Just after a system line is finalized, the same words heard on the mic are
/// an echo.
pub proof fn law_echo_of_recorded_final(v: EchoView, now: u64, text: Seq<char>)
    requires
        tokens(text).len() > 0,
    ensures
        echo_at(after_final(v, now, text), now, text),
{
    let w = after_final(v, now, text);
    let x: SpecLine = (now, tokens(text));
    lemma_prune_push(prune_finals(v.finals, now), x, now);
    let fs = pruned(w, now).finals;
    assert(fs.last() == x);
    let lines = window_lines(pruned(w, now));
    assert(lines[fs.len() - 1] == tokens(text));
    law_repeat_of_window_line_is_echo(w, now, text);
}

/// Just after the system partial is recorded, the same words heard on the
/// mic are an echo, even before the system line finalizes.
pub proof fn law_echo_of_recorded_partial(v: EchoView, now: u64, text: Seq<char>)
    requires
        tokens(text).len() > 0,
    ensures
        echo_at(after_partial(v, now, text), now, text),
{
    let w = after_partial(v, now, text);
    let lines = window_lines(pruned(w, now));
    let n = pruned(w, now).finals.len();
    assert(lines[n as int] == tokens(text));
    law_repeat_of_window_line_is_echo(w, now, text);
}

/// Speech older than the window explains nothing: when every recorded final
/// and the partial are stale, no mic line is an echo.
pub proof fn law_stale_speech_explains_nothing(v: EchoView, now: u64, text: Seq<char>)
    requires
        forall|i: int| 0 <= i < v.finals.len() ==> stale(now, #[trigger] v.finals[i].0),
        match v.partial {
            Some(l) => stale(now, l.0),
            None => true,
        },
    ensures
        !echo_at(v, now, text),
{
    lemma_prune_all_stale(v.finals, now);
    assert(window_lines(pruned(v, now)).len() == 0);
}

/// A mic line without words is never an echo.
pub proof fn law_wordless_line_is_never_echo(v: EchoView, now: u64, text: Seq<char>)
    requires
        tokens(text).len() == 0,
    ensures
        !echo_at(v, now, text),
{
}

/// Short mic lines are judged against single system lines only: pooling words
/// from different lines never makes a short line an echo.
pub proof fn law_short_line_needs_one_covering_line(v: EchoView, now: u64, text: Seq<char>)
    requires
        tokens(text).len() < UNION_MIN_WORDS,
        echo_at(v, now, text),
    ensures
        exists|i: int|
            0 <= i < window_lines(pruned(v, now)).len() && enough_covered(
                #[trigger] covered_words(tokens(text), window_lines(pruned(v, now))[i]),
                tokens(text).len(),
            ),
{
}

/// Two words may stand for each other: equal, or both at least
/// `FUZZY_MIN_LEN` bytes long and at Levenshtein distance at most one.
pub open spec fn words_may_pair(a: Seq<char>, b: Seq<char>) -> bool {
    a == b || (utf8_len(a) >= FUZZY_MIN_LEN && utf8_len(b) >= FUZZY_MIN_LEN && edit_distance(a, b) <= 1)
}

/// Number of paired entries (`>= 0`) of a pairing.
pub open spec fn paired_count(js: Seq<int>) -> nat
    decreases js.len(),
{
    if js.len() == 0 {
        0
    } else {
        (if js[0] >= 0 { 1nat } else { 0nat }) + paired_count(js.drop_first())
    }
}

/// `js` pairs mic word `i` with pool word `js[i]` (or with none, when
/// negative): paired words may stand for each other and no pool word is used
/// twice.
pub open spec fn is_pairing(mic: Seq<Seq<char>>, pool: Seq<Seq<char>>, js: Seq<int>) -> bool {
    &&& js.len() == mic.len()
    &&& forall|i: int| 0 <= i < js.len() && js[i] >= 0 ==> js[i] < pool.len() && words_may_pair(
        mic[i],
        pool[#[trigger] js[i]],
    )
    &&& forall|i: int, k: int| 0 <= i < k < js.len() && js[i] >= 0 ==> #[trigger] js[i] != #[trigger] js[k]
}

/// A fuzzy match between two different words needs both to be at least
/// `FUZZY_MIN_LEN` bytes long and one edit apart.
pub proof fn law_fuzzy_match_needs_long_words(a: Seq<char>, b: Seq<char>)
    ensures
        fuzzy_match(a, b) ==> words_may_pair(a, b),
{
    law_one_edit_iff_distance_at_most_one(a, b);
}

proof fn lemma_paired_count_same_signs(a: Seq<int>, b: Seq<int>)
    requires
        a.len() == b.len(),
        forall|i: int| 0 <= i < a.len() ==> (a[i] >= 0 <==> b[i] >= 0),
    ensures
        paired_count(a) == paired_count(b),
    decreases a.len(),
{
    if a.len() > 0 {
        lemma_paired_count_same_signs(a.drop_first(), b.drop_first());
    }
}

proof fn lemma_paired_count_positive(js: Seq<int>)
    requires
        paired_count(js) > 0,
    ensures
        exists|i: int| 0 <= i < js.len() && js[i] >= 0,
    decreases js.len(),
{
    if js[0] < 0 {
        lemma_paired_count_positive(js.drop_first());
        let i = choose|i: int| 0 <= i < js.drop_first().len() && js.drop_first()[i] >= 0;
        assert(js[i + 1] >= 0);
    }
}

/// Extends a pairing of the rest of the mic words into the pool with `e`
/// removed by pairing the first mic word with `e` (or with none, when `e` is
/// negative).
proof fn lemma_pairing_extend(
    mic: Seq<Seq<char>>,
    pool: Seq<Seq<char>>,
    e: int,
    sub: Seq<int>,
) -> (js: Seq<int>)
    requires
        mic.len() > 0,
        e < pool.len(),
        e >= 0 ==> words_may_pair(mic[0], pool[e]),
        e >= 0 ==> is_pairing(mic.drop_first(), pool.remove(e), sub),
        e < 0 ==> is_pairing(mic.drop_first(), pool, sub),
    ensures
        is_pairing(mic, pool, js),
        paired_count(js) == (if e >= 0 { 1nat } else { 0nat }) + paired_count(sub),
{
    let m = if e >= 0 {
        Seq::new(sub.len(), |i: int| if sub[i] < 0 { -1 } else if sub[i] < e { sub[i] } else { sub[i] + 1 })
    } else {
        sub
    };
    let js = seq![e] + m;
    assert(js.drop_first() =~= m);
    lemma_paired_count_same_signs(m, sub);
    assert forall|i: int| 0 <= i < js.len() && js[i] >= 0 implies js[i] < pool.len() && words_may_pair(
        mic[i],
        pool[#[trigger] js[i]],
    ) by {
        if i > 0 {
            assert(js[i] == m[i - 1]);
            assert(mic.drop_first()[i - 1] == mic[i]);
            if e >= 0 {
                assert(pool.remove(e)[sub[i - 1]] == pool[js[i]]);
            }
        }
    }
    assert forall|i: int, k: int| 0 <= i < k < js.len() && js[i] >= 0 implies #[trigger] js[i] != #[trigger] js[k] by {
        assert(js[k] == m[k - 1]);
        if i > 0 {
            assert(js[i] == m[i - 1]);
        }
    }
    js
}

/// Greedy covering is a genuine pairing: the covered count is the size of
/// a pairing of the mic words with distinct pool words.
pub proof fn lemma_covered_pairing(mic: Seq<Seq<char>>, pool: Seq<Seq<char>>) -> (js: Seq<int>)
    ensures
        is_pairing(mic, pool, js),
        paired_count(js) == covered_words(mic, pool),
    decreases mic.len(),
{
    if mic.len() == 0 {
        Seq::<int>::empty()
    } else {
        let w = mic[0];
        let e = first_match(pool, w, true);
        let f = first_match(pool, w, false);
        lemma_first_match_from(pool, w, true, 0);
        lemma_first_match_from(pool, w, false, 0);
        if e < pool.len() {
            let sub = lemma_covered_pairing(mic.drop_first(), pool.remove(e));
            lemma_pairing_extend(mic, pool, e, sub)
        } else if f < pool.len() {
            law_fuzzy_match_needs_long_words(w, pool[f]);
            let sub = lemma_covered_pairing(mic.drop_first(), pool.remove(f));
            lemma_pairing_extend(mic, pool, f, sub)
        } else {
            let sub = lemma_covered_pairing(mic.drop_first(), pool);
            lemma_pairing_extend(mic, pool, -1, sub)
        }
    }
}

/// A long mic line (at least `UNION_MIN_WORDS` words) is an echo only when at
/// least 55% of its words can each be paired with a distinct word of the
/// in-window system lines (equal, or one edit apart when both are long).
pub proof fn law_long_echo_pairs_most_words(v: EchoView, now: u64, text: Seq<char>)
    requires
        tokens(text).len() >= UNION_MIN_WORDS,
        echo_at(v, now, text),
    ensures
        exists|js: Seq<int>|
            is_pairing(tokens(text), concat_lines(window_lines(pruned(v, now))), js) && 20 * paired_count(js)
                >= 11 * tokens(text).len(),
{
    let js = lemma_covered_pairing(tokens(text), concat_lines(window_lines(pruned(v, now))));
    assert(is_pairing(tokens(text), concat_lines(window_lines(pruned(v, now))), js));
}

/// A short mic line is an echo only when at least 55% of its words can each
/// be paired with a distinct word of one in-window system line.
pub proof fn law_short_echo_pairs_most_words(v: EchoView, now: u64, text: Seq<char>)
    requires
        tokens(text).len() < UNION_MIN_WORDS,
        echo_at(v, now, text),
    ensures
        exists|l: int, js: Seq<int>|
            0 <= l < window_lines(pruned(v, now)).len() && #[trigger] is_pairing(
                tokens(text),
                window_lines(pruned(v, now))[l],
                js,
            ) && 20 * paired_count(js) >= 11 * tokens(text).len(),
{
    let lines = window_lines(pruned(v, now));
    let mic = tokens(text);
    let l = choose|l: int| 0 <= l < lines.len() && enough_covered(#[trigger] covered_words(mic, lines[l]), mic.len());
    let js = lemma_covered_pairing(mic, lines[l]);
    assert(is_pairing(mic, lines[l], js) && 20 * paired_count(js) >= 11 * mic.len());
}

/// Each word of the joined lines is a word of one of the lines.
proof fn lemma_concat_lines_member(ls: Seq<Seq<Seq<char>>>, j: int)
    requires
        0 <= j < concat_lines(ls).len(),
    ensures
        exists|l: int, m: int| 0 <= l < ls.len() && 0 <= m < ls[l].len() && #[trigger] ls[l][m] == concat_lines(ls)[j],
    decreases ls.len(),
{
    let front = ls.drop_last();
    let c = concat_lines(front);
    if j < c.len() {
        lemma_concat_lines_member(front, j);
        let (l, m) = choose|l: int, m: int| 0 <= l < front.len() && 0 <= m < front[l].len() && #[trigger] front[l][m] == c[j];
        assert(ls[l] == front[l]);
        assert(ls[l][m] == concat_lines(ls)[j]);
    } else {
        assert(concat_lines(ls)[j] == ls.last()[j - c.len()]);
        assert(ls[ls.len() - 1][j - c.len()] == concat_lines(ls)[j]);
    }
}

proof fn lemma_short_words_pair_only_equal(mic: Seq<Seq<char>>, pool: Seq<Seq<char>>, js: Seq<int>)
    requires
        is_pairing(mic, pool, js),
        forall|i: int| 0 <= i < mic.len() ==> utf8_len(#[trigger] mic[i]) < FUZZY_MIN_LEN,
        forall|i: int, j: int| 0 <= i < mic.len() && 0 <= j < pool.len() ==> #[trigger] mic[i] != #[trigger] pool[j],
    ensures
        paired_count(js) == 0,
{
    if paired_count(js) > 0 {
        lemma_paired_count_positive(js);
        let i = choose|i: int| 0 <= i < js.len() && js[i] >= 0;
        assert(words_may_pair(mic[i], pool[js[i]]));
        assert(utf8_len(mic[i]) < FUZZY_MIN_LEN);
        assert(mic[i] != pool[js[i]]);
    }
}

/// Short words match only exactly: a mic line whose words are all shorter
/// than `FUZZY_MIN_LEN` bytes and none of which occurs in an in-window system
/// line is never an echo.
pub proof fn law_short_words_match_only_exactly(v: EchoView, now: u64, text: Seq<char>)
    requires
        forall|i: int| 0 <= i < tokens(text).len() ==> utf8_len(#[trigger] tokens(text)[i]) < FUZZY_MIN_LEN,
        forall|i: int, l: int, m: int|
            0 <= i < tokens(text).len() && 0 <= l < window_lines(pruned(v, now)).len() && 0 <= m
                < window_lines(pruned(v, now))[l].len() ==> #[trigger] tokens(text)[i]
                != #[trigger] window_lines(pruned(v, now))[l][m],
    ensures
        !echo_at(v, now, text),
{
    let mic = tokens(text);
    let lines = window_lines(pruned(v, now));
    if echo_at(v, now, text) {
        if mic.len() < UNION_MIN_WORDS {
            law_short_echo_pairs_most_words(v, now, text);
            let (l, js) = choose|l: int, js: Seq<int>| 0 <= l < lines.len() && #[trigger] is_pairing(mic, lines[l], js)
                && 20 * paired_count(js) >= 11 * mic.len();
            assert forall|i: int, j: int| 0 <= i < mic.len() && 0 <= j < lines[l].len() implies #[trigger] mic[i]
                != #[trigger] lines[l][j] by {
                assert(mic[i] != lines[l][j]);
            }
            lemma_short_words_pair_only_equal(mic, lines[l], js);
        } else {
            let pool = concat_lines(lines);
            law_long_echo_pairs_most_words(v, now, text);
            let js = choose|js: Seq<int>| is_pairing(mic, pool, js) && 20 * paired_count(js) >= 11 * mic.len();
            assert forall|i: int, j: int| 0 <= i < mic.len() && 0 <= j < pool.len() implies #[trigger] mic[i]
                != #[trigger] pool[j] by {
                lemma_concat_lines_member(lines, j);
                let (l, m) = choose|l: int, m: int| 0 <= l < lines.len() && 0 <= m < lines[l].len() && #[trigger] lines[l][m] == pool[j];
                assert(mic[i] != lines[l][m]);
            }
            lemma_short_words_pair_only_equal(mic, pool, js);
        }
    }
}

} // verus!
