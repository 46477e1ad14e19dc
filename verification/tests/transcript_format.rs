use voice2text::transcript::{format_line, speaker_label};

#[test]
fn formats_line_with_and_without_label() {
    assert_eq!(format_line("10:00:01", "Speaker 1: ", "hi"), "[10:00:01] Speaker 1: hi");
    assert_eq!(format_line("10:00:01", "", "hi"), "[10:00:01] hi");
}

#[test]
fn speaker_label_empty_for_no_speaker() {
    assert_eq!(speaker_label(""), "");
    assert_eq!(speaker_label("You"), "You: ");
}
