//! Transcript line format.

use vstd::prelude::*;

verus! {

/// The characters of a transcript line: `[time] label text`.
pub open spec fn line_spec(time: Seq<char>, label: Seq<char>, text: Seq<char>) -> Seq<char> {
    seq!['['] + time + seq![']', ' '] + label + text
}

/// `"[HH:MM:SS] Speaker 1: text"` (or no label when empty).
pub fn format_line(time: &str, label: &str, text: &str) -> (r: String)
    ensures
        r@ == line_spec(time@, label@, text@),
{
    let mut r = String::from_str("[");
    r.append(time);
    r.append("] ");
    r.append(label);
    r.append(text);
    proof {
        reveal_strlit("[");
        reveal_strlit("] ");
    }
    r
}

/// Render a speaker into a transcript/UI label: `"Speaker 1: "`, or nothing
/// for an unlabelled line.
pub fn speaker_label(speaker: &str) -> (r: String)
    ensures
        speaker@.len() == 0 ==> r@.len() == 0,
        speaker@.len() > 0 ==> r@ == speaker@ + seq![':', ' '],
{
    if speaker.is_empty() {
        String::new()
    } else {
        let mut r = String::from_str(speaker);
        r.append(": ");
        proof {
            reveal_strlit(": ");
        }
        r
    }
}

} // verus!
