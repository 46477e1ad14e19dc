use voice2text::meter::{meter_bar, CaptureKind, METER_WIDTH};

#[test]
fn meter_bar_cells() {
    assert_eq!(meter_bar(3, 0), format!("###{}", " ".repeat(13)));
    assert_eq!(meter_bar(3, 8), "###     |       ");
    assert_eq!(meter_bar(0, 20), format!("{}|", " ".repeat(15)));
    assert_eq!(meter_bar(16, 16), "#".repeat(16));
    assert_eq!(meter_bar(5, 2), format!("#####{}", " ".repeat(11)));
    assert_eq!(meter_bar(0, 0).len(), METER_WIDTH);
}

#[test]
fn capture_labels() {
    assert_eq!(CaptureKind::Mic.label(), "mic");
    assert_eq!(CaptureKind::MicAec.label(), "mic_aec");
    assert_eq!(CaptureKind::Loopback.label(), "loopback");
}
