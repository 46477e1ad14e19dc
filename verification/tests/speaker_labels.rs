use voice2text::speakers::{Identification, SpeakerBook, MIN_EMBED_SAMPLES};

#[test]
fn new_voices_are_numbered_in_order() {
    let mut book = SpeakerBook::new();
    assert_eq!(book.next_id(), 1);
    let (l1, r1) = book.label(Identification::Searched(None));
    assert_eq!(l1, "Speaker 1");
    assert_eq!(r1, Some("Speaker 1".to_string()));
    let (l2, r2) = book.label(Identification::Searched(None));
    assert_eq!(l2, "Speaker 2");
    assert_eq!(r2, Some("Speaker 2".to_string()));
    assert_eq!(book.next_id(), 3);
}

#[test]
fn known_voices_and_fallbacks() {
    let mut book = SpeakerBook::new();
    assert_eq!(book.label(Identification::TooShort), ("Speaker 1".to_string(), None));
    book.label(Identification::Searched(None));
    book.label(Identification::Searched(None));
    assert_eq!(book.label(Identification::TooShort), ("Speaker 2".to_string(), None));
    assert_eq!(
        book.label(Identification::Searched(Some("Speaker 1".to_string()))),
        ("Speaker 1".to_string(), None)
    );
    assert_eq!(book.label(Identification::Failed), ("Speaker 1".to_string(), None));
    assert_eq!(book.next_id(), 3);
}

#[test]
fn without_a_model_everyone_is_speaker_one() {
    let mut book = SpeakerBook::new();
    book.label(Identification::Searched(None));
    book.label(Identification::Searched(None));
    assert_eq!(book.label(Identification::Unavailable), ("Speaker 1".to_string(), None));
    assert_eq!(book.next_id(), 3);
}

#[test]
fn short_clips_are_not_embedded() {
    assert!(!SpeakerBook::long_enough(MIN_EMBED_SAMPLES - 1));
    assert!(SpeakerBook::long_enough(MIN_EMBED_SAMPLES));
    assert!(!SpeakerBook::long_enough(0));
}
