//! Names and choices behind the settings: audio endpoints, transcript and
//! model locations, export file names, and the model list.

use vstd::prelude::*;
use crate::chars::{alphanumeric, chars_of, is_alphanumeric, push_char, lowercase, to_lowercase};
use crate::words::{string_of, string_of_range, trim, trim_str};

verus! {

/// One audio endpoint as listed in the settings.
pub struct AudioDevice {
    pub id: String,
    pub name: String,
}

/// The speaker-output and microphone endpoints.
pub struct AudioDevices {
    pub output: Vec<AudioDevice>,
    pub input: Vec<AudioDevice>,
}

/// The listed endpoints as `(id, name)` pairs.
pub open spec fn device_pairs(ds: Seq<AudioDevice>) -> Seq<(Seq<char>, Seq<char>)> {
    ds.map_values(|d: AudioDevice| (d.id@, d.name@))
}

fn to_devices(v: Vec<(String, String)>) -> (r: Vec<AudioDevice>)
    ensures
        device_pairs(r@) == v.deep_view(),
{
    let ghost vv = v.deep_view();
    let mut v = v;
    let mut out: Vec<AudioDevice> = Vec::new();
    let n = v.len();
    let mut k: usize = 0;
    while k < n
        invariant
            n == vv.len(),
            k <= n,
            v.len() == n - k,
            forall|i: int| 0 <= i < v.len() ==> #[trigger] v.deep_view()[i] == vv[(i + k) as int],
            device_pairs(out@) == vv.take(k as int),
        decreases n - k,
    {
        let ghost before = v.deep_view();
        let (id, name) = v.remove(0);
        proof {
            assert(v.deep_view() =~= before.drop_first());
            assert(before[0] == vv[k as int]);
            assert forall|i: int| 0 <= i < v.len() implies #[trigger] v.deep_view()[i] == vv[(i + k + 1) as int] by {
                assert(v.deep_view()[i] == before[i + 1]);
            }
        }
        let ghost prev = out@;
        out.push(AudioDevice { id, name });
        proof {
            assert(device_pairs(out@) =~= device_pairs(prev).push(vv[k as int]));
            assert(vv.take(k + 1) =~= vv.take(k as int).push(vv[k as int]));
        }
        k = k + 1;
    }
    proof {
        assert(vv.take(n as int) =~= vv);
    }
    out
}

/// The settings list from enumerated `(id, name)` render and capture
/// endpoints.
pub fn audio_devices(render: Vec<(String, String)>, capture: Vec<(String, String)>) -> (d: AudioDevices)
    ensures
        device_pairs(d.output@) == render.deep_view(),
        device_pairs(d.input@) == capture.deep_view(),
{
    AudioDevices { output: to_devices(render), input: to_devices(capture) }
}

/// The listing entry for one enumerated endpoint: skipped without an id,
/// named "(unknown device)" when its friendly name is unavailable.
pub fn device_entry(id: Option<String>, name: Option<String>) -> (r: Option<(String, String)>)
    ensures
        (match id {
            Some(i) => i@.len() == 0,
            None => true,
        }) ==> r is None,
        (id matches Some(i) && i@.len() > 0) ==> (r matches Some(e) && e.0@ == id->0@ && e.1@ == (
        match name {
            Some(n) => n@,
            None => "(unknown device)"@,
        })),
{
    match id {
        None => None,
        Some(i) => {
            if i.as_str().is_empty() {
                None
            } else {
                let n = match name {
                    Some(n) => n,
                    None => String::from_str("(unknown device)"),
                };
                Some((i, n))
            }
        },
    }
}

/// A configured value (device id, folder, model file) that is set: the
/// trimmed text, or `None` when it is blank and the default applies.
pub fn configured(value: &str) -> (r: Option<String>)
    ensures
        trim(value@).len() == 0 ==> r is None,
        trim(value@).len() > 0 ==> (r matches Some(t) && t@ == trim(value@)),
{
    let t = trim_str(value);
    if t.as_str().is_empty() {
        None
    } else {
        Some(t)
    }
}

/// The correction model shipped with the app.
pub const DEFAULT_MODEL: &'static str = "Qwen2.5-3B-Instruct-Q4_K_M.gguf";

/// The correction model file: the configured file name (trimmed), or the
/// bundled default when none is configured.
pub fn model_file_choice(model_file: &str) -> (r: String)
    ensures
        trim(model_file@).len() == 0 ==> r@ == DEFAULT_MODEL@,
        trim(model_file@).len() > 0 ==> r@ == trim(model_file@),
{
    match configured(model_file) {
        Some(t) => t,
        None => String::from_str(DEFAULT_MODEL),
    }
}

/// Characters kept in an exported file name.
pub open spec fn export_char(c: char) -> bool {
    alphanumeric(c) || c == '.' || c == '-' || c == '_'
}

/// `s` without the characters that may not appear in an export name.
pub open spec fn export_filtered(s: Seq<char>) -> Seq<char>
    decreases s.len(),
{
    if s.len() == 0 {
        Seq::<char>::empty()
    } else if export_char(s.last()) {
        export_filtered(s.drop_last()).push(s.last())
    } else {
        export_filtered(s.drop_last())
    }
}

/// A safe file name for an export: only alphanumerics and `. - _` kept,
/// "transcript-export.txt" when nothing is left.
pub fn export_file_name(filename: &str) -> (r: String)
    ensures
        export_filtered(filename@).len() > 0 ==> r@ == export_filtered(filename@),
        export_filtered(filename@).len() == 0 ==> r@ == "transcript-export.txt"@,
{
    let v = chars_of(filename);
    let mut safe = String::new();
    for k in 0..v.len()
        invariant
            v@ == filename@,
            safe@ == export_filtered(v@.take(k as int)),
    {
        let c = v[k];
        proof {
            assert(v@.take(k + 1).drop_last() =~= v@.take(k as int));
            assert(v@.take(k + 1).last() == c);
        }
        if is_alphanumeric(c) || c == '.' || c == '-' || c == '_' {
            push_char(&mut safe, c);
        }
    }
    proof {
        assert(v@.take(v.len() as int) =~= v@);
    }
    if safe.as_str().is_empty() {
        String::from_str("transcript-export.txt")
    } else {
        safe
    }
}

/// ASCII case folding of one character.
pub open spec fn ascii_lower(c: char) -> char {
    if 'A' <= c && c <= 'Z' {
        (((c as u32) + 32) as u8) as char
    } else {
        c
    }
}

/// Index of the last `.` in `s`, or -1.
pub open spec fn last_dot(s: Seq<char>) -> int
    decreases s.len(),
{
    if s.len() == 0 {
        -1
    } else if s.last() == '.' {
        s.len() - 1
    } else {
        last_dot(s.drop_last())
    }
}

/// The extension of file name `s` as `Path::extension` sees it: what
/// follows the last `.`, unless that dot starts the name (or the name is
/// `..`).
pub open spec fn extension(s: Seq<char>) -> Option<Seq<char>> {
    if s == seq!['.', '.'] || last_dot(s) <= 0 {
        None
    } else {
        Some(s.skip(last_dot(s) + 1))
    }
}

/// Whether file name `s` has the extension `gguf`, in any ASCII case.
pub open spec fn is_gguf(s: Seq<char>) -> bool {
    match extension(s) {
        Some(e) => e.len() == 4 && ascii_lower(e[0]) == 'g' && ascii_lower(e[1]) == 'g'
            && ascii_lower(e[2]) == 'u' && ascii_lower(e[3]) == 'f',
        None => false,
    }
}

fn ascii_lower_char(c: char) -> (r: char)
    ensures
        r == ascii_lower(c),
{
    if 'A' <= c && c <= 'Z' {
        (((c as u32) + 32) as u8) as char
    } else {
        c
    }
}

/// Whether file name `name` has the extension `gguf`, in any ASCII case.
pub fn has_gguf_extension(name: &str) -> (r: bool)
    ensures
        r == is_gguf(name@),
{
    let v = chars_of(name);
    let n = v.len();
    let mut k = n;
    proof {
        assert(v@.take(n as int) =~= v@);
    }
    while k > 0 && v[k - 1] != '.'
        invariant
            k <= n,
            n == v.len(),
            last_dot(v@.take(k as int)) == last_dot(v@),
        decreases k,
    {
        proof {
            assert(v@.take(k as int).drop_last() =~= v@.take(k - 1));
        }
        k = k - 1;
    }
    // `k - 1` is the last dot, when `k > 0`
    proof {
        if k > 0 {
            assert(v@.take(k as int).last() == '.');
            assert(last_dot(v@) == k - 1);
        } else {
            assert(v@.take(0) =~= Seq::<char>::empty());
            assert(last_dot(v@) == -1);
        }
    }
    if n == 2 && v[0] == '.' && v[1] == '.' {
        proof {
            assert(v@ =~= seq!['.', '.']);
        }
        return false;
    }
    proof {
        if v@ == seq!['.', '.'] {
            assert(v@[0] == '.' && v@[1] == '.');
        }
    }
    if k <= 1 {
        return false;
    }
    if n - k != 4 {
        return false;
    }
    let e0 = ascii_lower_char(v[k]);
    let e1 = ascii_lower_char(v[k + 1]);
    let e2 = ascii_lower_char(v[k + 2]);
    let e3 = ascii_lower_char(v[k + 3]);
    proof {
        let e = v@.skip(k as int);
        assert(e[0] == v@[k as int] && e[1] == v@[k + 1] && e[2] == v@[k + 2] && e[3] == v@[k + 3]);
    }
    e0 == 'g' && e1 == 'g' && e2 == 'u' && e3 == 'f'
}

/// Whether `s` contains `pat` as a contiguous run.
pub open spec fn contains_run(s: Seq<char>, pat: Seq<char>) -> bool {
    exists|i: int| 0 <= i <= s.len() - pat.len() && #[trigger] s.subrange(i, i + pat.len()) == pat
}

fn run_at(v: &Vec<char>, p: &Vec<char>, i: usize) -> (r: bool)
    requires
        i + p.len() <= v.len(),
    ensures
        r == (v@.subrange(i as int, i + p.len()) == p@),
{
    let mut j: usize = 0;
    while j < p.len()
        invariant
            i + p.len() <= v.len(),
            j <= p.len(),
            forall|m: int| 0 <= m < j ==> v@[i + m] == p@[m],
        decreases p.len() - j,
    {
        if v[i + j] != p[j] {
            proof {
                assert(v@.subrange(i as int, i + p.len())[j as int] != p@[j as int]);
            }
            return false;
        }
        j = j + 1;
    }
    proof {
        assert(v@.subrange(i as int, i + p.len()) =~= p@);
    }
    true
}

/// Whether `v` contains the run `p`.
fn has_run(v: &Vec<char>, p: &Vec<char>) -> (r: bool)
    ensures
        r == contains_run(v@, p@),
{
    if p.len() > v.len() {
        return false;
    }
    let last = v.len() - p.len();
    let mut i: usize = 0;
    loop
        invariant
            last == v.len() - p.len(),
            i <= last,
            forall|m: int| 0 <= m < i ==> #[trigger] v@.subrange(m, m + p.len()) != p@,
        decreases last - i,
    {
        if run_at(v, p, i) {
            return true;
        }
        if i == last {
            return false;
        }
        i = i + 1;
    }
}

/// Whether a model directory entry named `name` is the `kind` file
/// (encoder, decoder, joiner) of a streaming model: its lowercased name
/// contains `kind`, ends in `.onnx`, and mentions `int8` exactly when
/// `int8` is asked for.
pub open spec fn model_file_matches(name: Seq<char>, kind: Seq<char>, int8: bool) -> bool {
    let n = lowercase(name);
    &&& contains_run(n, kind)
    &&& n.len() >= 5 && n.skip(n.len() - 5) == seq!['.', 'o', 'n', 'n', 'x']
    &&& contains_run(n, seq!['i', 'n', 't', '8']) == int8
}

/// Whether directory entry `name` is the wanted model file.
pub fn is_model_file(name: &str, kind: &str, int8: bool) -> (r: bool)
    ensures
        r == model_file_matches(name@, kind@, int8),
{
    let n = chars_of(to_lowercase(name).as_str());
    let k = chars_of(kind);
    let onnx = vec!['.', 'o', 'n', 'n', 'x'];
    let i8 = vec!['i', 'n', 't', '8'];
    let has_kind = has_run(&n, &k);
    let ends = n.len() >= 5 && run_at_end(&n, &onnx);
    let has_i8 = has_run(&n, &i8);
    proof {
        assert(onnx@ == seq!['.', 'o', 'n', 'n', 'x']);
        assert(i8@ == seq!['i', 'n', 't', '8']);
    }
    has_kind && ends && has_i8 == int8
}

fn run_at_end(v: &Vec<char>, p: &Vec<char>) -> (r: bool)
    requires
        p.len() <= v.len(),
    ensures
        r == (v@.skip(v.len() - p.len()) == p@),
{
    let r = run_at(v, p, v.len() - p.len());
    proof {
        assert(v@.subrange(v.len() - p.len(), v.len() as int) =~= v@.skip(v.len() - p.len()));
    }
    r
}

/// Index of the entry to load as the `kind` file: the first plain match,
/// else the first int8 match; `None` when there is neither.
pub open spec fn pick_index(names: Seq<Seq<char>>, kind: Seq<char>) -> Option<int> {
    if exists|i: int| 0 <= i < names.len() && model_file_matches(#[trigger] names[i], kind, false) {
        Some(choose_first(names, kind, false))
    } else if exists|i: int| 0 <= i < names.len() && model_file_matches(#[trigger] names[i], kind, true) {
        Some(choose_first(names, kind, true))
    } else {
        None
    }
}

/// The first index whose entry matches.
pub open spec fn choose_first(names: Seq<Seq<char>>, kind: Seq<char>, int8: bool) -> int {
    choose|i: int| 0 <= i < names.len() && model_file_matches(names[i], kind, int8) && forall|j: int|
        0 <= j < i ==> !model_file_matches(#[trigger] names[j], kind, int8)
}

fn first_model_file(names: &Vec<String>, kind: &str, int8: bool) -> (r: Option<usize>)
    ensures
        r matches Some(i) ==> i < names.len() && model_file_matches(names[i as int]@, kind@, int8)
            && forall|j: int| 0 <= j < i ==> !model_file_matches(#[trigger] names[j]@, kind@, int8),
        r is None ==> forall|j: int| 0 <= j < names.len() ==> !model_file_matches(#[trigger] names[j]@, kind@, int8),
{
    for i in 0..names.len()
        invariant
            forall|j: int| 0 <= j < i ==> !model_file_matches(#[trigger] names[j]@, kind@, int8),
    {
        if is_model_file(names[i].as_str(), kind, int8) {
            return Some(i);
        }
    }
    None
}

/// Which directory entry holds the `kind` model file: a plain (non-int8)
/// match is preferred, in listing order.
pub fn pick_model_file(names: &Vec<String>, kind: &str) -> (r: Option<usize>)
    ensures
        r matches Some(i) ==> Some(i as int) == pick_index(names.deep_view(), kind@),
        r is None ==> pick_index(names.deep_view(), kind@) is None,
{
    let ghost nv = names.deep_view();
    proof {
        assert forall|j: int| 0 <= j < names.len() implies #[trigger] nv[j] == names[j]@ by {}
    }
    match first_model_file(names, kind, false) {
        Some(i) => {
            proof {
                assert(model_file_matches(nv[i as int], kind@, false));
                let c = choose_first(nv, kind@, false);
                assert(0 <= c < nv.len() && model_file_matches(nv[c], kind@, false) && forall|j: int|
                    0 <= j < c ==> !model_file_matches(#[trigger] nv[j], kind@, false));
                assert(c == i) by {
                    if c < i {
                        assert(!model_file_matches(names[c]@, kind@, false));
                    } else if c > i {
                        assert(!model_file_matches(nv[i as int], kind@, false));
                    }
                }
            }
            Some(i)
        },
        None => match first_model_file(names, kind, true) {
            Some(i) => {
                proof {
                    assert(!exists|j: int| 0 <= j < nv.len() && model_file_matches(#[trigger] nv[j], kind@, false));
                    assert(model_file_matches(nv[i as int], kind@, true));
                    let c = choose_first(nv, kind@, true);
                    assert(0 <= c < nv.len() && model_file_matches(nv[c], kind@, true) && forall|j: int|
                        0 <= j < c ==> !model_file_matches(#[trigger] nv[j], kind@, true));
                    assert(c == i) by {
                        if c < i {
                            assert(!model_file_matches(names[c]@, kind@, true));
                        } else if c > i {
                            assert(!model_file_matches(nv[i as int], kind@, true));
                        }
                    }
                }
                Some(i)
            },
            None => {
                proof {
                    assert(!exists|j: int| 0 <= j < nv.len() && model_file_matches(#[trigger] nv[j], kind@, false));
                    assert(!exists|j: int| 0 <= j < nv.len() && model_file_matches(#[trigger] nv[j], kind@, true));
                }
                None
            },
        },
    }
}

/// The transcript file name for a session started at `stamp`
/// (`YYYYMMDD-HHMMSS`).
pub fn transcript_file_name(stamp: &str) -> (r: String)
    ensures
        r@ == "transcript-"@ + stamp@ + ".txt"@,
{
    let mut r = String::from_str("transcript-");
    r.append(stamp);
    r.append(".txt");
    r
}

/// Code-point (equivalently, UTF-8 byte) lexicographic order: how
/// `String`s compare.
pub open spec fn lex_le(a: Seq<char>, b: Seq<char>) -> bool
    decreases a.len(),
{
    if a.len() == 0 {
        true
    } else if b.len() == 0 {
        false
    } else if a[0] == b[0] {
        lex_le(a.drop_first(), b.drop_first())
    } else {
        (a[0] as int) < (b[0] as int)
    }
}

pub proof fn lemma_lex_total(a: Seq<char>, b: Seq<char>)
    ensures
        lex_le(a, b) || lex_le(b, a),
    decreases a.len(),
{
    if a.len() > 0 && b.len() > 0 && a[0] == b[0] {
        lemma_lex_total(a.drop_first(), b.drop_first());
    } else if a.len() > 0 && b.len() > 0 {
        assert((a[0] as int) != (b[0] as int));
    }
}

pub proof fn lemma_lex_trans(a: Seq<char>, b: Seq<char>, c: Seq<char>)
    requires
        lex_le(a, b),
        lex_le(b, c),
    ensures
        lex_le(a, c),
    decreases a.len(),
{
    if a.len() > 0 && b.len() > 0 && c.len() > 0 && a[0] == b[0] && b[0] == c[0] {
        lemma_lex_trans(a.drop_first(), b.drop_first(), c.drop_first());
    }
}

/// Sorted in code-point order.
pub open spec fn sorted(s: Seq<Seq<char>>) -> bool {
    forall|i: int, j: int| 0 <= i < j < s.len() ==> lex_le(#[trigger] s[i], #[trigger] s[j])
}

/// The entries of `names` with the extension `gguf`, in order.
pub open spec fn gguf_only(names: Seq<Seq<char>>) -> Seq<Seq<char>>
    decreases names.len(),
{
    if names.len() == 0 {
        Seq::<Seq<char>>::empty()
    } else if is_gguf(names.last()) {
        gguf_only(names.drop_last()).push(names.last())
    } else {
        gguf_only(names.drop_last())
    }
}

/// `a <= b` in code-point order.
fn lex_le_exec(a: &String, b: &String) -> (r: bool)
    ensures
        r == lex_le(a@, b@),
{
    let av = chars_of(a.as_str());
    let bv = chars_of(b.as_str());
    let mut i: usize = 0;
    proof {
        assert(av@.skip(0) =~= av@);
        assert(bv@.skip(0) =~= bv@);
    }
    while i < av.len() && i < bv.len() && av[i] == bv[i]
        invariant
            i <= av.len(),
            i <= bv.len(),
            lex_le(av@.skip(i as int), bv@.skip(i as int)) == lex_le(a@, b@),
        decreases av.len() - i,
    {
        proof {
            assert(av@.skip(i as int).drop_first() =~= av@.skip(i + 1));
            assert(bv@.skip(i as int).drop_first() =~= bv@.skip(i + 1));
        }
        i = i + 1;
    }
    if i == av.len() {
        true
    } else if i == bv.len() {
        false
    } else {
        av[i] < bv[i]
    }
}

/// Inserts `x` into sorted `out` before the first entry greater than it.
fn insert_sorted(out: &mut Vec<String>, x: String)
    requires
        sorted(old(out).deep_view()),
    ensures
        sorted(final(out).deep_view()),
        final(out).deep_view().to_multiset() == old(out).deep_view().to_multiset().insert(x@),
{
    let ghost ov = out.deep_view();
    let mut j: usize = 0;
    while j < out.len() && lex_le_exec(&out[j], &x)
        invariant
            ov == out.deep_view(),
            j <= out.len(),
            forall|i: int| 0 <= i < j ==> lex_le(#[trigger] ov[i], x@),
        decreases out.len() - j,
    {
        j = j + 1;
    }
    proof {
        if j < ov.len() {
            lemma_lex_total(ov[j as int], x@);
        }
    }
    out.insert(j, x);
    proof {
        let nv = out.deep_view();
        assert(nv =~= ov.insert(j as int, x@));
        vstd::seq_lib::to_multiset_insert(ov, j as int, x@);
        assert forall|a: int, b: int| 0 <= a < b < nv.len() implies lex_le(#[trigger] nv[a], #[trigger] nv[b]) by {
            if a < j && b < j {
                assert(nv[a] == ov[a] && nv[b] == ov[b]);
            } else if a < j && b == j {
            } else if a < j && b > j {
                assert(nv[a] == ov[a] && nv[b] == ov[b - 1]);
            } else if a == j {
                assert(nv[b] == ov[b - 1]);
                lemma_lex_total(ov[j as int], x@);
                if b - 1 > j {
                    lemma_lex_trans(x@, ov[j as int], ov[b - 1]);
                }
            } else {
                assert(nv[a] == ov[a - 1] && nv[b] == ov[b - 1]);
            }
        }
    }
}

/// The `.gguf` file names among `names`, sorted.
pub fn gguf_models(names: &Vec<String>) -> (r: Vec<String>)
    ensures
        sorted(r.deep_view()),
        r.deep_view().to_multiset() == gguf_only(names.deep_view()).to_multiset(),
{
    let ghost nv = names.deep_view();
    let mut out: Vec<String> = Vec::new();
    proof {
        assert(nv.take(0) =~= Seq::<Seq<char>>::empty());
        assert(out.deep_view() =~= Seq::<Seq<char>>::empty());
    }
    for k in 0..names.len()
        invariant
            nv == names.deep_view(),
            sorted(out.deep_view()),
            out.deep_view().to_multiset() == gguf_only(nv.take(k as int)).to_multiset(),
    {
        proof {
            assert(nv.take(k + 1).drop_last() =~= nv.take(k as int));
            assert(nv.take(k + 1).last() == names[k as int]@);
        }
        if has_gguf_extension(names[k].as_str()) {
            insert_sorted(&mut out, names[k].clone());
            proof {
                vstd::seq_lib::to_multiset_build(gguf_only(nv.take(k as int)), names[k as int]@);
            }
        }
    }
    proof {
        assert(nv.take(names.len() as int) =~= nv);
    }
    out
}

} // verus!
