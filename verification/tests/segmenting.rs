use voice2text::segmenter::{
    partial_due, partial_window_start, Level, Segmenter, FRAME, MAX_UTT_SAMPLES, PARTIAL_WINDOW,
};

fn frame(v: u32) -> Vec<u32> {
    vec![v; FRAME]
}

#[test]
fn quiet_or_moderate_frames_do_not_open_an_utterance() {
    let mut s = Segmenter::new();
    assert!(s.push(&frame(1), Level::Quiet).is_none());
    assert!(s.push(&frame(1), Level::Moderate).is_none());
    assert!(!s.active());
    assert!(s.current().is_empty());
}

#[test]
fn utterance_closes_after_the_silence_hangover() {
    let mut s = Segmenter::new();
    assert!(s.push(&frame(7), Level::Loud).is_none());
    assert!(s.active());
    for _ in 0..11 {
        assert!(s.push(&frame(8), Level::Moderate).is_none());
    }
    for _ in 0..19 {
        assert!(s.push(&frame(0), Level::Quiet).is_none());
    }
    assert_eq!(s.current().len(), FRAME * 31);
    let utt = s.push(&frame(0), Level::Quiet).expect("utterance");
    assert_eq!(utt.len(), FRAME * 32);
    assert_eq!(utt[0], 7);
    assert_eq!(utt[FRAME], 8);
    assert!(!s.active());
}

#[test]
fn speech_resets_the_silence_count() {
    let mut s = Segmenter::new();
    s.push(&frame(1), Level::Loud);
    for _ in 0..19 {
        assert!(s.push(&frame(0), Level::Quiet).is_none());
    }
    assert!(s.push(&frame(1), Level::Moderate).is_none());
    for _ in 0..19 {
        assert!(s.push(&frame(0), Level::Quiet).is_none());
    }
    assert!(s.active());
}

#[test]
fn blips_are_dropped() {
    let mut s = Segmenter::new();
    s.push(&frame(1), Level::Loud);
    for _ in 0..20 {
        assert!(s.push(&frame(0), Level::Quiet).is_none());
    }
    assert!(!s.active());
}

#[test]
fn long_utterances_are_cut_at_the_cap() {
    let mut s = Segmenter::new();
    let n = MAX_UTT_SAMPLES / FRAME;
    for i in 0..n - 1 {
        assert!(s.push(&frame(i as u32), Level::Loud).is_none());
    }
    let utt = s.push(&frame(0), Level::Loud).expect("capped utterance");
    assert_eq!(utt.len(), MAX_UTT_SAMPLES);
    assert!(!s.active());
}

#[test]
fn flush_returns_an_open_utterance_with_enough_speech() {
    let mut s = Segmenter::new();
    assert!(s.flush().is_none());
    s.push(&frame(3), Level::Loud);
    for _ in 0..11 {
        s.push(&frame(3), Level::Moderate);
    }
    assert_eq!(s.flush().map(|u| u.len()), Some(FRAME * 12));
    assert!(!s.active());

    s.push(&frame(3), Level::Loud);
    assert!(s.flush().is_none());
    assert!(!s.active());
}

#[test]
fn interim_lines_refresh_on_cadence() {
    assert!(partial_due(9600, 0, 300));
    assert!(!partial_due(9599, 0, 300));
    assert!(!partial_due(9600, 5000, 300));
    assert!(partial_due(9800, 5000, 300));
    assert!(!partial_due(9800, 5000, 299));
    assert!(!partial_due(9600, 20000, 1000));
    assert_eq!(partial_window_start(1000), 0);
    assert_eq!(partial_window_start(PARTIAL_WINDOW), 0);
    assert_eq!(partial_window_start(PARTIAL_WINDOW + 7), 7);
}
