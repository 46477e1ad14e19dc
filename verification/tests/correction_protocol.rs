use voice2text::correction::{
    accept_correction, build_request, correction_budget, is_ready_line, parse_request, sanitize,
    single_line, strip_line_end, CorrectionContext,
};

fn strings(v: &[&str]) -> Vec<String> {
    v.iter().map(|s| s.to_string()).collect()
}

#[test]
fn request_line_layout() {
    assert_eq!(
        build_request(&strings(&["a", "b"]), "c"),
        Some("a\u{1e}b\u{1f}c\n".to_string())
    );
    assert_eq!(build_request(&vec![], "x\ty"), Some("\u{1f}x y\n".to_string()));
    assert_eq!(build_request(&vec![], "  \t "), None);
}

#[test]
fn request_round_trips_through_the_wire() {
    let ctx = strings(&["first line", "second\u{1e}line"]);
    let req = build_request(&ctx, "the target\n").unwrap();
    let (c, t) = parse_request(&strip_line_end(&req));
    assert_eq!(c, strings(&["first line", "second line"]));
    assert_eq!(t, "the target ");
}

#[test]
fn parse_without_separator_is_all_target() {
    assert_eq!(parse_request("plain"), (vec![], "plain".to_string()));
    assert_eq!(
        parse_request("\u{1e}a\u{1e}\u{1e}b\u{1f}t"),
        (strings(&["a", "b"]), "t".to_string())
    );
}

#[test]
fn strip_line_end_only_strips_line_endings() {
    assert_eq!(strip_line_end("abc\r\n"), "abc");
    assert_eq!(strip_line_end(" abc \n\n"), " abc ");
    assert_eq!(strip_line_end(""), "");
}

#[test]
fn sanitize_replaces_control_characters() {
    assert_eq!(sanitize("a\u{1e}b\u{1f}c\n\u{7f}"), "a b c  ");
    assert_eq!(sanitize("plain text"), "plain text");
}

#[test]
fn single_line_cleans_model_replies() {
    assert_eq!(single_line("  Corrected: \"hello there\"\nextra"), "hello there");
    assert_eq!(single_line("`ok`"), "ok");
    assert_eq!(single_line("'quoted' \n second"), "quoted");
    assert_eq!(single_line(""), "");
}

#[test]
fn ready_line() {
    assert!(is_ready_line(" READY\r\n"));
    assert!(!is_ready_line("READY2"));
    assert!(!is_ready_line("ERROR no model"));
}

#[test]
fn unchanged_and_blank_lines() {
    assert!(accept_correction("abc", "abc"));
    assert!(!accept_correction("", "x"));
    assert!(!accept_correction("x", "   "));
}

#[test]
fn budget_is_capped() {
    assert_eq!(correction_budget(Some(10)), 34);
    assert_eq!(correction_budget(Some(176)), 200);
    assert_eq!(correction_budget(Some(177)), 200);
    assert_eq!(correction_budget(None), 88);
}

#[test]
fn context_keeps_accepted_lines() {
    let mut ctx = CorrectionContext::new();
    assert!(!ctx.dead());
    assert_eq!(ctx.request("hello"), Some("\u{1f}hello\n".to_string()));
    assert_eq!(ctx.settle("hello", Some("  hello  ".to_string())), "hello");
    assert_eq!(
        ctx.settle(
            "the budget",
            Some("We have decided to release the product on Friday.".to_string())
        ),
        "the budget"
    );
    assert_eq!(ctx.settle("their going", Some("they're going".to_string())), "they're going");
    assert_eq!(ctx.settle("no reply", None), "no reply");
    assert_eq!(ctx.settle("fifth", None), "fifth");
    assert_eq!(
        ctx.request("next"),
        Some("the budget\u{1e}they're going\u{1e}no reply\u{1e}fifth\u{1f}next\n".to_string())
    );
}

#[test]
fn dead_context_passes_lines_through() {
    let mut ctx = CorrectionContext::new();
    ctx.settle("one", None);
    ctx.mark_dead();
    assert!(ctx.dead());
    assert_eq!(ctx.request("two"), None);
    assert_eq!(ctx.settle("two", Some("too".to_string())), "two");
}
