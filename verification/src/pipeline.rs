//! Per-utterance decisions of the live captioning pipeline: which side of the
//! conversation a line came from, whether a partial must be redrawn, how a
//! finalized line is classified (speaker label, echo suppression) and where
//! it is saved.

use vstd::prelude::*;
use crate::echo::{echo_at, after_final, pruned, EchoFilter};
use crate::words::tokens;
use crate::text::{truecase_partial, truecased};
use crate::words::trim;

verus! {

/// Which side of the conversation an utterance came from.
#[derive(Clone, Copy, PartialEq, Eq, Structural)]
pub enum Source {
    /// The attendees, captured from the speakers' loopback.
    System,
    /// The user, captured from the microphone.
    Mic,
}

impl Source {
    /// UI/track tag: attendees vs the user.
    pub fn tag(self) -> (t: &'static str)
        ensures
            self is System ==> t@ == seq!['o', 't', 'h', 'e', 'r', 's'],
            self is Mic ==> t@ == seq!['m', 'e'],
    {
        proof {
            reveal_strlit("others");
            reveal_strlit("me");
        }
        match self {
            Source::System => "others",
            Source::Mic => "me",
        }
    }
}

/// The status line shown while listening.
pub fn listening_detail(mic: bool, whisper: bool) -> (d: &'static str)
    ensures
        mic && whisper ==> d@ == "Listening (system + mic, clean transcript)"@,
        mic && !whisper ==> d@ == "Listening (system + mic)"@,
        !mic && whisper ==> d@ == "Listening (system, clean transcript)"@,
        !mic && !whisper ==> d@ == "Listening to system audio"@,
{
    if mic && whisper {
        "Listening (system + mic, clean transcript)"
    } else if mic {
        "Listening (system + mic)"
    } else if whisper {
        "Listening (system, clean transcript)"
    } else {
        "Listening to system audio"
    }
}

/// Speaker label and suppression decision for a finalized line, and the
/// echo filter afterwards. System lines keep the given speaker label (the
/// diarizer's, or empty when diarization is off) and are recorded as echo
/// references; mic lines are labelled "You" and suppressed when echo
/// suppression is on and they echo recent system speech.
pub fn classify(
    source: Source,
    polished: &str,
    speaker: String,
    echo_suppression: bool,
    echo: &mut EchoFilter,
    now: u64,
) -> (r: (String, bool))
    ensures
        source is System ==> r.0@ == speaker@ && !r.1 && final(echo)@ == after_final(
            old(echo)@,
            now,
            polished@,
        ),
        source is Mic ==> r.0@ == seq!['Y', 'o', 'u'] && r.1 == (echo_suppression && echo_at(
            old(echo)@,
            now,
            polished@,
        )),
        source is Mic && !echo_suppression ==> final(echo)@ == old(echo)@,
        source is Mic && echo_suppression ==> final(echo)@ == (if tokens(polished@).len() == 0 {
            old(echo)@
        } else {
            pruned(old(echo)@, now)
        }),
{
    match source {
        Source::System => {
            echo.record_final(now, polished);
            (speaker, false)
        },
        Source::Mic => {
            let suppress = echo_suppression && echo.is_echo(now, polished);
            proof {
                reveal_strlit("You");
            }
            (String::from_str("You"), suppress)
        },
    }
}

/// The last partial shown for one track.
pub struct PartialState {
    last: String,
}

impl PartialState {
    pub closed spec fn last_spec(&self) -> Seq<char> {
        self.last@
    }

    pub fn new() -> (p: Self)
        ensures
            p.last_spec().len() == 0,
    {
        PartialState { last: String::new() }
    }

    /// The caption to draw for the recognizer's current partial `text`:
    /// its truecased form when it is non-empty and differs from the last one
    /// drawn, else nothing.
    pub fn update(&mut self, text: &str) -> (r: Option<String>)
        ensures
            (text@.len() > 0 && text@ != old(self).last_spec()) ==> (r matches Some(c) && c@
                == truecased(text@)) && final(self).last_spec() == text@,
            !(text@.len() > 0 && text@ != old(self).last_spec()) ==> r is None
                && final(self).last_spec() == old(self).last_spec(),
    {
        let t = String::from_str(text);
        if !text.is_empty() && t != self.last {
            self.last = t;
            Some(truecase_partial(text))
        } else {
            None
        }
    }

    /// Forget the last partial (the utterance ended).
    pub fn reset(&mut self)
        ensures
            final(self).last_spec().len() == 0,
    {
        self.last = String::new();
    }
}

/// Where a finalized, unsuppressed line goes.
#[derive(Clone, Copy, PartialEq, Eq, Structural)]
pub enum SaveRoute {
    /// Saving is off.
    Nowhere,
    /// The Whisper sidecar re-transcribes the audio and writes the clean line.
    Sidecar,
    /// The streaming text is written directly.
    File,
}

/// Routing of a finalized line.
pub fn save_route(save_transcript: bool, sidecar_running: bool) -> (r: SaveRoute)
    ensures
        !save_transcript ==> r == SaveRoute::Nowhere,
        save_transcript && sidecar_running ==> r == SaveRoute::Sidecar,
        save_transcript && !sidecar_running ==> r == SaveRoute::File,
{
    if !save_transcript {
        SaveRoute::Nowhere
    } else if sidecar_running {
        SaveRoute::Sidecar
    } else {
        SaveRoute::File
    }
}

/// The clean line to save from one sidecar reply: the trimmed reply, unless
/// saving is off or the reply is blank.
pub fn sidecar_line(save_transcript: bool, reply: &str) -> (r: Option<String>)
    ensures
        (save_transcript && trim(reply@).len() > 0) ==> (r matches Some(t) && t@ == trim(reply@)),
        !(save_transcript && trim(reply@).len() > 0) ==> r is None,
{
    let t = crate::words::trim_str(reply);
    if !save_transcript || t.as_str().is_empty() {
        None
    } else {
        Some(t)
    }
}

} // verus!
