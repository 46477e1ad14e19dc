use voice2text::echo::EchoFilter;
use voice2text::pipeline::{
    classify, listening_detail, save_route, sidecar_line, PartialState, SaveRoute, Source,
};

#[test]
fn source_tags() {
    assert_eq!(Source::System.tag(), "others");
    assert_eq!(Source::Mic.tag(), "me");
}

#[test]
fn listening_status() {
    assert_eq!(listening_detail(true, true), "Listening (system + mic, clean transcript)");
    assert_eq!(listening_detail(true, false), "Listening (system + mic)");
    assert_eq!(listening_detail(false, true), "Listening (system, clean transcript)");
    assert_eq!(listening_detail(false, false), "Listening to system audio");
}

#[test]
fn mic_echo_of_system_speech_is_suppressed() {
    let mut echo = EchoFilter::new();
    let s = 1_000_000_000u64;
    let (label, suppress) = classify(
        Source::System,
        "let us review the roadmap",
        "Speaker 1".to_string(),
        true,
        &mut echo,
        s,
    );
    assert_eq!(label, "Speaker 1");
    assert!(!suppress);
    let (label, suppress) =
        classify(Source::Mic, "let us review the roadmap", String::new(), true, &mut echo, 2 * s);
    assert_eq!(label, "You");
    assert!(suppress);
    let (_, suppress) =
        classify(Source::Mic, "let us review the roadmap", String::new(), false, &mut echo, 2 * s);
    assert!(!suppress);
    let (_, suppress) =
        classify(Source::Mic, "yeah I agree completely", String::new(), true, &mut echo, 2 * s);
    assert!(!suppress);
}

#[test]
fn partials_are_redrawn_only_when_changed() {
    let mut p = PartialState::new();
    assert_eq!(p.update("hello"), Some("Hello".to_string()));
    assert_eq!(p.update("hello"), None);
    assert_eq!(p.update(""), None);
    assert_eq!(p.update("hello i"), Some("Hello I".to_string()));
    p.reset();
    assert_eq!(p.update("hello i"), Some("Hello I".to_string()));
}

#[test]
fn save_routing() {
    assert!(save_route(false, true) == SaveRoute::Nowhere);
    assert!(save_route(false, false) == SaveRoute::Nowhere);
    assert!(save_route(true, true) == SaveRoute::Sidecar);
    assert!(save_route(true, false) == SaveRoute::File);
}

#[test]
fn sidecar_replies() {
    assert_eq!(sidecar_line(true, "  hi \n"), Some("hi".to_string()));
    assert_eq!(sidecar_line(false, "hi"), None);
    assert_eq!(sidecar_line(true, "   "), None);
}
