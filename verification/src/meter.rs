//! Level meters of the dual-track capture test.

use vstd::prelude::*;
use crate::chars::push_char;

verus! {

/// Width of a level meter in characters.
pub const METER_WIDTH: usize = 16;

/// Which capture track a recording comes from.
#[derive(Clone, Copy, PartialEq, Eq, Structural)]
pub enum CaptureKind {
    /// Raw mic, no processing: the "me" track unmodified.
    Mic,
    /// The same mic opened as a communications stream with the OS echo
    /// canceller referencing the speaker output.
    MicAec,
    /// System loopback: the remote attendees coming out of the speakers.
    Loopback,
}

impl CaptureKind {
    /// The track's label in meters and reports.
    pub fn label(&self) -> (l: &'static str)
        ensures
            *self is Mic ==> l@ == "mic"@,
            *self is MicAec ==> l@ == "mic_aec"@,
            *self is Loopback ==> l@ == "loopback"@,
    {
        match self {
            CaptureKind::Mic => "mic",
            CaptureKind::MicAec => "mic_aec",
            CaptureKind::Loopback => "loopback",
        }
    }
}

/// The meter bar: `level` cells of `#`, then the peak marker `|` at cell
/// `peak` (capped to the last cell) when there is a peak and it is not
/// already covered, spaces elsewhere.
pub open spec fn meter(level: nat, peak: nat) -> Seq<char> {
    Seq::new(
        METER_WIDTH as nat,
        |i: int|
            if i < level {
                '#'
            } else if peak > 0 && i == (if peak < METER_WIDTH - 1 { peak as int } else { METER_WIDTH - 1 }) {
                '|'
            } else {
                ' '
            },
    )
}

/// Render a small ASCII meter bar from a level and a recent peak, both in
/// cells of 0..=16.
pub fn meter_bar(level: usize, peak: usize) -> (s: String)
    ensures
        s@ == meter(level as nat, peak as nat),
{
    let mut s = String::new();
    let cap = if peak < METER_WIDTH - 1 { peak } else { METER_WIDTH - 1 };
    for i in 0..METER_WIDTH
        invariant
            cap == (if peak < METER_WIDTH - 1 { peak } else { (METER_WIDTH - 1) as usize }),
            s@ == meter(level as nat, peak as nat).take(i as int),
    {
        let c = if i < level {
            '#'
        } else if peak > 0 && i == cap {
            '|'
        } else {
            ' '
        };
        push_char(&mut s, c);
        proof {
            assert(meter(level as nat, peak as nat).take(i + 1) =~= meter(level as nat, peak as nat).take(
                i as int,
            ).push(c));
        }
    }
    proof {
        assert(meter(level as nat, peak as nat).take(METER_WIDTH as int) =~= meter(level as nat, peak as nat));
    }
    s
}

} // verus!
