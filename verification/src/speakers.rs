//! Speaker labels for diarization: "Speaker N" names handed out in order of
//! first appearance, with the previous label reused when a clip cannot be
//! identified.

use vstd::prelude::*;
use crate::decimal::{decimal, lemma_decimal_injective, push_decimal};

verus! {

/// Clips shorter than this many samples (0.5 s at 16 kHz) are too short to
/// embed reliably.
pub const MIN_EMBED_SAMPLES: usize = 8000;

/// The characters of `"Speaker n"`.
pub open spec fn speaker_name(n: nat) -> Seq<char> {
    seq!['S', 'p', 'e', 'a', 'k', 'e', 'r', ' '] + decimal(n)
}

/// What became of identifying one utterance's speaker.
pub enum Identification {
    /// No embedding model is loaded.
    Unavailable,
    /// The clip is too short to embed.
    TooShort,
    /// Computing the embedding failed.
    Failed,
    /// The embedding was compared with the known speakers: the matching
    /// name, or `None` for a new voice.
    Searched(Option<String>),
}

/// The labelling state: the number the next new voice gets and the last
/// label handed out.
pub struct SpeakerBook {
    next_id: u64,
    last: String,
}

impl SpeakerBook {
    pub closed spec fn next_id_spec(&self) -> nat {
        self.next_id as nat
    }

    pub closed spec fn last_spec(&self) -> Seq<char> {
        self.last@
    }

    /// Before any voice is known: the next one is Speaker 1, and Speaker 1
    /// is the fallback label.
    pub fn new() -> (b: Self)
        ensures
            b.next_id_spec() == 1,
            b.last_spec() == speaker_name(1),
    {
        let mut last = String::from_str("Speaker ");
        push_decimal(&mut last, 1);
        proof {
            reveal_strlit("Speaker ");
            assert(last@ =~= speaker_name(1));
        }
        SpeakerBook { next_id: 1, last }
    }

    /// The number the next new voice will get.
    pub fn next_id(&self) -> (n: u64)
        ensures
            n == self.next_id_spec(),
    {
        self.next_id
    }

    /// Whether a clip of `samples` samples is long enough to embed.
    pub fn long_enough(samples: usize) -> (r: bool)
        ensures
            r == (samples >= MIN_EMBED_SAMPLES),
    {
        samples >= MIN_EMBED_SAMPLES
    }

    /// The label for an utterance given how identification went, and the
    /// name to register for a new voice. Without a model every line is
    /// Speaker 1; short clips and failures reuse the previous label; a known
    /// voice gets its name; a new voice gets the next number.
    pub fn label(&mut self, id: Identification) -> (r: (String, Option<String>))
        requires
            old(self).next_id_spec() < u64::MAX,
        ensures
            id is Unavailable ==> r.0@ == speaker_name(1) && r.1 is None && final(self).last_spec()
                == old(self).last_spec() && final(self).next_id_spec() == old(self).next_id_spec(),
            (id is TooShort || id is Failed) ==> r.0@ == old(self).last_spec() && r.1 is None
                && final(self).last_spec() == old(self).last_spec() && final(self).next_id_spec()
                == old(self).next_id_spec(),
            id matches Identification::Searched(Some(name)) ==> r.0@ == name@ && r.1 is None
                && final(self).last_spec() == name@ && final(self).next_id_spec()
                == old(self).next_id_spec(),
            id matches Identification::Searched(None) ==> r.0@ == speaker_name(
                old(self).next_id_spec(),
            ) && (r.1 matches Some(n) && n@ == r.0@) && final(self).last_spec() == r.0@
                && final(self).next_id_spec() == old(self).next_id_spec() + 1,
    {
        match id {
            Identification::Unavailable => {
                let mut s = String::from_str("Speaker ");
                push_decimal(&mut s, 1);
                proof {
                    reveal_strlit("Speaker ");
                    assert(s@ =~= speaker_name(1));
                }
                (s, None)
            },
            Identification::TooShort => (self.last.clone(), None),
            Identification::Failed => (self.last.clone(), None),
            Identification::Searched(Some(name)) => {
                self.last = name.clone();
                (name, None)
            },
            Identification::Searched(None) => {
                let mut s = String::from_str("Speaker ");
                push_decimal(&mut s, self.next_id);
                proof {
                    reveal_strlit("Speaker ");
                    assert(s@ =~= speaker_name(self.next_id as nat));
                }
                self.next_id = self.next_id + 1;
                self.last = s.clone();
                let reg = s.clone();
                (s, Some(reg))
            },
        }
    }
}

/// Different speaker numbers give different names, so every new voice is
/// told apart from all earlier ones.
pub proof fn law_speaker_names_are_distinct(n: nat, m: nat)
    ensures
        speaker_name(n) == speaker_name(m) <==> n == m,
{
    if speaker_name(n) == speaker_name(m) {
        assert(speaker_name(n).skip(8) =~= decimal(n));
        assert(speaker_name(m).skip(8) =~= decimal(m));
        lemma_decimal_injective(n, m);
    }
}

} // verus!
