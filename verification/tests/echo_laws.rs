use voice2text::echo::EchoFilter;

const S: u64 = 1_000_000_000;

#[test]
fn recorded_final_explains_its_own_repeat() {
    let mut f = EchoFilter::new();
    f.record_final(10 * S, "we should ship on friday");
    assert!(f.is_echo(12 * S, "We should ship on Friday!"));
}

#[test]
fn recorded_partial_explains_its_own_repeat() {
    let mut f = EchoFilter::new();
    f.record_partial(10 * S, "please send the invoice");
    assert!(f.is_echo(11 * S, "please send the invoice"));
}

#[test]
fn stale_speech_explains_nothing() {
    let mut f = EchoFilter::new();
    f.record_final(1 * S, "please send the invoice");
    f.record_partial(1 * S, "and the receipt too");
    assert!(!f.is_echo(8 * S, "please send the invoice"));
    assert!(!f.is_echo(8 * S, "and the receipt too"));
}

#[test]
fn wordless_line_is_never_echo() {
    let mut f = EchoFilter::new();
    f.record_final(1 * S, "anything at all");
    assert!(!f.is_echo(1 * S, "?!, ..."));
    assert!(!f.is_echo(1 * S, ""));
}

#[test]
fn window_edge_is_inclusive() {
    let mut f = EchoFilter::new();
    f.record_final(1 * S, "please send the invoice");
    assert!(f.is_echo(7 * S, "please send the invoice"));
    assert!(!f.is_echo(7 * S + 1, "please send the invoice"));
}
