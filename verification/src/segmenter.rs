//! Energy-gated utterance segmentation with hysteresis and a silence
//! hangover, for the whole-utterance recognizer.
//!
//! The caller classifies each 30 ms frame by its RMS level against two
//! thresholds (loud above the start threshold, quiet below the lower stop
//! threshold, in between otherwise) and hands the frame's samples over as
//! their bit patterns.

use vstd::prelude::*;

verus! {

/// Samples per frame (30 ms at 16 kHz).
pub const FRAME: usize = 480;
/// Trailing quiet frames that close an utterance (~600 ms).
pub const HANG_FRAMES: usize = 20;
/// Utterances with fewer non-quiet frames are dropped as blips (~0.36 s).
pub const MIN_SPEECH_FRAMES: usize = 12;
/// Hard cap on an utterance's samples (15 s at 16 kHz), bounding latency.
pub const MAX_UTT_SAMPLES: usize = 240_000;

/// Samples per second of the recognizer's audio.
pub const RATE: usize = 16_000;
/// Interim lines are refreshed at most this often (milliseconds).
pub const PARTIAL_INTERVAL_MS: u64 = 300;
/// Interim lines transcribe at most this many trailing samples (10 s).
pub const PARTIAL_WINDOW: usize = 160_000;

/// Whether the open utterance's interim line is due for a refresh: at least
/// 0.6 s of audio, at least 0.3 s more than at the last refresh, and at
/// least `PARTIAL_INTERVAL_MS` since it.
pub fn partial_due(cur_len: usize, last_len: usize, elapsed_ms: u64) -> (r: bool)
    ensures
        r == (cur_len >= 9600 && cur_len - last_len >= 4800 && elapsed_ms >= PARTIAL_INTERVAL_MS),
{
    let enough = cur_len >= RATE * 6 / 10;
    let new_audio = cur_len >= last_len && cur_len - last_len >= RATE * 3 / 10;
    enough && new_audio && elapsed_ms >= PARTIAL_INTERVAL_MS
}

/// Where the interim transcription of `cur_len` samples starts: only the last
/// `PARTIAL_WINDOW` samples are used.
pub fn partial_window_start(cur_len: usize) -> (r: usize)
    ensures
        r == (if cur_len > PARTIAL_WINDOW { cur_len - PARTIAL_WINDOW } else { 0 }),
{
    if cur_len > PARTIAL_WINDOW {
        cur_len - PARTIAL_WINDOW
    } else {
        0
    }
}

/// A frame's energy relative to the two thresholds.
#[derive(Clone, Copy, PartialEq, Eq, Structural)]
pub enum Level {
    /// Above the start threshold: opens an utterance.
    Loud,
    /// Below the stop threshold: counts as silence inside an utterance.
    Quiet,
    /// In between: speech inside an utterance, but does not open one.
    Moderate,
}

/// The abstract segmenter state.
pub struct SegView {
    pub in_speech: bool,
    pub utt: Seq<u32>,
    pub silence: nat,
    pub speech_frames: nat,
}

/// The state after an utterance closes (or before the first one).
pub open spec fn idle() -> SegView {
    SegView { in_speech: false, utt: Seq::<u32>::empty(), silence: 0, speech_frames: 0 }
}

/// The state after one frame, and the utterance it completes, if any.
pub open spec fn push_spec(s: SegView, frame: Seq<u32>, level: Level) -> (SegView, Option<Seq<u32>>) {
    if !s.in_speech {
        if level == Level::Loud {
            (SegView { in_speech: true, utt: frame, silence: 0, speech_frames: 1 }, None)
        } else {
            (s, None)
        }
    } else {
        let utt = s.utt + frame;
        let (silence, speech) = if level == Level::Quiet {
            (s.silence + 1, s.speech_frames)
        } else {
            (0nat, s.speech_frames + 1)
        };
        if silence >= HANG_FRAMES || utt.len() >= MAX_UTT_SAMPLES {
            (idle(), if speech >= MIN_SPEECH_FRAMES { Some(utt) } else { None })
        } else {
            (SegView { in_speech: true, utt, silence, speech_frames: speech }, None)
        }
    }
}

/// Closing the open utterance: it is returned when it had enough speech.
pub open spec fn flush_spec(s: SegView) -> Option<Seq<u32>> {
    if s.in_speech && s.speech_frames >= MIN_SPEECH_FRAMES {
        Some(s.utt)
    } else {
        None
    }
}

/// Simple energy-based utterance segmenter.
pub struct Segmenter {
    in_speech: bool,
    utt: Vec<u32>,
    silence: usize,
    speech_frames: usize,
}

impl View for Segmenter {
    type V = SegView;

    closed spec fn view(&self) -> SegView {
        SegView {
            in_speech: self.in_speech,
            utt: self.utt@,
            silence: self.silence as nat,
            speech_frames: self.speech_frames as nat,
        }
    }
}

impl Segmenter {
    /// Every reachable state: idle, or an open utterance whose frame
    /// counters are bounded by its length (frames are never empty).
    pub open spec fn wf_view(v: SegView) -> bool {
        if v.in_speech {
            &&& v.silence < HANG_FRAMES
            &&& v.speech_frames + v.silence <= v.utt.len()
            &&& v.speech_frames >= 1
        } else {
            v == idle()
        }
    }

    pub open spec fn wf(&self) -> bool {
        Self::wf_view(self@)
    }

    /// An idle segmenter.
    pub fn new() -> (s: Self)
        ensures
            s@ == idle(),
            s.wf(),
    {
        let s = Segmenter { in_speech: false, utt: Vec::new(), silence: 0, speech_frames: 0 };
        proof {
            assert(s@.utt =~= Seq::<u32>::empty());
        }
        s
    }

    fn close(&mut self) -> (r: Option<Vec<u32>>)
        ensures
            final(self)@ == idle(),
            r matches Some(u) ==> old(self).speech_frames >= MIN_SPEECH_FRAMES && u@ == old(self)@.utt,
            r is None ==> old(self).speech_frames < MIN_SPEECH_FRAMES,
    {
        let enough = self.speech_frames >= MIN_SPEECH_FRAMES;
        let mut utt: Vec<u32> = Vec::new();
        std::mem::swap(&mut utt, &mut self.utt);
        self.in_speech = false;
        self.silence = 0;
        self.speech_frames = 0;
        proof {
            assert(self@.utt =~= Seq::<u32>::empty());
        }
        if enough {
            Some(utt)
        } else {
            None
        }
    }

    /// Feed one 30 ms frame with its level; returns a finished utterance
    /// when one closes.
    pub fn push(&mut self, frame: &[u32], level: Level) -> (r: Option<Vec<u32>>)
        requires
            old(self).wf(),
            frame@.len() > 0,
        ensures
            final(self).wf(),
            final(self)@ == push_spec(old(self)@, frame@, level).0,
            r is Some == push_spec(old(self)@, frame@, level).1 is Some,
            r matches Some(u) ==> Some(u@) == push_spec(old(self)@, frame@, level).1,
    {
        if !self.in_speech {
            if level == Level::Loud {
                self.in_speech = true;
                self.utt.clear();
                let mut k: usize = 0;
                while k < frame.len()
                    invariant
                        k <= frame@.len(),
                        self.in_speech,
                        self.utt@ == frame@.take(k as int),
                    decreases frame@.len() - k,
                {
                    self.utt.push(frame[k]);
                    proof {
                        assert(frame@.take(k + 1) =~= frame@.take(k as int).push(frame@[k as int]));
                    }
                    k = k + 1;
                }
                proof {
                    assert(frame@.take(frame@.len() as int) =~= frame@);
                }
                self.silence = 0;
                self.speech_frames = 1;
            }
            return None;
        }
        let ghost base = self.utt@;
        let mut k: usize = 0;
        while k < frame.len()
            invariant
                k <= frame@.len(),
                base == old(self)@.utt,
                self.utt@ == base + frame@.take(k as int),
                self.in_speech,
                self.silence == old(self).silence,
                self.speech_frames == old(self).speech_frames,
            decreases frame@.len() - k,
        {
            self.utt.push(frame[k]);
            proof {
                assert(frame@.take(k + 1) =~= frame@.take(k as int).push(frame@[k as int]));
            }
            k = k + 1;
        }
        proof {
            assert(frame@.take(frame@.len() as int) =~= frame@);
            assert(self.utt@.len() == base.len() + frame@.len());
            assert(self.utt@.len() == self.utt.len());
        }
        if level == Level::Quiet {
            self.silence = self.silence + 1;
        } else {
            self.silence = 0;
            self.speech_frames = self.speech_frames + 1;
        }
        if self.silence >= HANG_FRAMES || self.utt.len() >= MAX_UTT_SAMPLES {
            return self.close();
        }
        None
    }

    /// Close an utterance still open at the end of input, if it had enough
    /// speech.
    pub fn flush(&mut self) -> (r: Option<Vec<u32>>)
        requires
            old(self).wf(),
        ensures
            final(self)@ == idle(),
            final(self).wf(),
            r is Some == flush_spec(old(self)@) is Some,
            r matches Some(u) ==> Some(u@) == flush_spec(old(self)@),
    {
        if self.in_speech {
            self.close()
        } else {
            None
        }
    }

    /// True while an utterance is open (drives interim partials).
    pub fn active(&self) -> (r: bool)
        ensures
            r == self@.in_speech,
    {
        self.in_speech
    }

    /// The audio accumulated so far in the open utterance.
    pub fn current(&self) -> (r: &[u32])
        ensures
            r@ == self@.utt,
    {
        self.utt.as_slice()
    }
}

/// Segmenting keeps its state well formed, and every utterance it hands out
/// had at least `MIN_SPEECH_FRAMES` non-quiet frames (so at least that many
/// samples).
pub proof fn law_emitted_utterances_have_speech(s: SegView, frame: Seq<u32>, level: Level)
    requires
        Segmenter::wf_view(s),
        frame.len() > 0,
    ensures
        Segmenter::wf_view(push_spec(s, frame, level).0),
        push_spec(s, frame, level).1 matches Some(u) ==> MIN_SPEECH_FRAMES <= u.len(),
{
}

/// The open utterance is made of whole frames and is under the cap.
pub open spec fn capped(v: SegView) -> bool {
    v.utt.len() % (FRAME as nat) == 0 && v.utt.len() < MAX_UTT_SAMPLES
}

/// Fed whole 30 ms frames, the segmenter never hands out an utterance longer
/// than `MAX_UTT_SAMPLES` (15 s), which bounds the recognition latency.
pub proof fn law_utterances_are_capped(s: SegView, frame: Seq<u32>, level: Level)
    requires
        Segmenter::wf_view(s),
        capped(s),
        frame.len() == FRAME,
    ensures
        capped(push_spec(s, frame, level).0),
        push_spec(s, frame, level).1 matches Some(u) ==> u.len() <= MAX_UTT_SAMPLES,
{
    let l = s.utt.len();
    assert(l + FRAME <= MAX_UTT_SAMPLES) by (nonlinear_arith)
        requires
            l % 480 == 0,
            l < 240000,
    {
        let q = l / 480;
        assert(l == 480 * q);
        assert(q < 500);
    }
    assert((l + FRAME) % (FRAME as int) == 0) by (nonlinear_arith)
        requires
            l % 480 == 0,
    ;
    assert(idle().utt.len() == 0);
}

} // verus!
