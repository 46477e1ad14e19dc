use voice2text::echo::{EchoFilter, WINDOW_NS};
use voice2text::edit::within_one_edit;
use voice2text::words::tokenize;

fn toks(s: &str) -> Vec<String> {
    tokenize(s)
}

#[test]
fn tokenize_splits_on_non_alphanumeric_and_lowercases() {
    assert_eq!(toks("Hello, World! 123"), vec!["hello", "world", "123"]);
}

#[test]
fn within_one_edit_basics() {
    assert!(within_one_edit("roadmap", "roadmaps")); // insertion
    assert!(within_one_edit("review", "revies")); // substitution
    assert!(within_one_edit("review", "reviw")); // deletion
    assert!(!within_one_edit("review", "viewer")); // far apart
    assert!(!within_one_edit("kitten", "sitting")); // 3 edits
}

#[test]
fn matching_mic_line_is_flagged_as_echo() {
    let mut f = EchoFilter::new();
    let now: u64 = 1_000_000_000;
    f.record_final(now, "let us review the roadmap");
    assert!(f.is_echo(now, "let us review the roadmap"));
    // a genuine, different mic line is not echo
    assert!(!f.is_echo(now, "yeah I agree completely"));
}

#[test]
fn echo_with_minor_asr_drift_still_matches() {
    let mut f = EchoFilter::new();
    let now: u64 = 1_000_000_000;
    f.record_final(now, "let us review the roadmaps today");
    // mic re-capture drifts: plural dropped, one near-miss word
    assert!(f.is_echo(now, "let us review the roadmap todays"));
}

#[test]
fn partial_closes_the_ordering_race() {
    let mut f = EchoFilter::new();
    let now: u64 = 1_000_000_000;
    // System line hasn't finalized yet — only a partial exists — but the mic
    // echo already finalizes. It must still be caught.
    f.record_partial(now, "we should ship the release on friday");
    assert!(f.is_echo(now, "we should ship the release on friday"));
}

#[test]
fn short_genuine_reply_is_not_suppressed_by_scattered_words() {
    let mut f = EchoFilter::new();
    let now: u64 = 1_000_000_000;
    f.record_final(now, "i think we should ship");
    f.record_final(now, "do you agree with the plan");
    // "i" appears in the first line and "agree" in the second — pooled they
    // cover 2/3 of this genuine reply, but no single line explains it.
    assert!(!f.is_echo(now, "yeah i agree"));
    // A short line that IS a real echo of one system line is still caught.
    assert!(f.is_echo(now, "do you agree"));
}

#[test]
fn echo_spanning_two_system_lines_matches_the_union() {
    let mut f = EchoFilter::new();
    let now: u64 = 1_000_000_000;
    f.record_final(now, "the deadline is next week");
    f.record_final(now, "and the budget is approved");
    // mic captured one run-on that straddles both system utterances
    assert!(f.is_echo(now, "the deadline is next week and the budget"));
}

#[test]
fn final_supersedes_partial() {
    let mut f = EchoFilter::new();
    let now: u64 = 1_000_000_000;
    f.record_partial(now, "incomplete partial words here");
    f.record_final(now, "let us review the roadmap");
    // partial was cleared by the final; only the final's words count
    assert!(f.is_echo(now, "let us review the roadmap"));
    assert!(!f.is_echo(now, "incomplete partial words here"));
}

#[test]
fn stale_system_speech_does_not_match() {
    let mut f = EchoFilter::new();
    let past: u64 = 1_000_000_000;
    f.record_final(past, "let us review the roadmap");
    f.record_partial(past, "some other live words");
    let later = past + WINDOW_NS + 1_000_000_000;
    assert!(!f.is_echo(later, "let us review the roadmap"));
    assert!(!f.is_echo(later, "some other live words"));
}
