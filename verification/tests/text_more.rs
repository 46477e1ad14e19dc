use voice2text::text::{
    collapse_segments, finalize, normalize_punct, partial_tail, punctuation_input, segments_text,
    truecase, truecase_partial,
};

#[test]
fn finalize_prefers_the_punctuated_text() {
    assert_eq!(finalize("IGNORED", Some("hello ， world 。 i agree")), "Hello, world. I agree");
}

#[test]
fn punctuation_input_lowercases() {
    assert_eq!(punctuation_input("HELLO WORLD"), "hello world");
}

#[test]
fn normalize_handles_all_full_width_marks() {
    assert_eq!(normalize_punct("a 、 b ： c ； d"), "a, b: c; d");
    assert_eq!(normalize_punct("   "), "");
    assert_eq!(normalize_punct(" x ."), "x.");
}

#[test]
fn truecase_edge_cases() {
    assert_eq!(truecase(""), "");
    assert_eq!(truecase("WOW! i'll GO"), "Wow! I'll go");
    assert_eq!(truecase("  leading space"), "  Leading space");
    assert_eq!(truecase("42 is it? yes"), "42 Is it? Yes");
    assert_eq!(truecase_partial("i think so"), "I think so");
}

#[test]
fn collapse_segments_joins_and_tidies() {
    let segs = vec![" hello  world ".to_string(), "".to_string(), "\tagain\n".to_string()];
    assert_eq!(collapse_segments(&segs), "hello world again");
    assert_eq!(collapse_segments(&vec![]), "");
}

#[test]
fn segments_text_is_none_when_blank() {
    assert_eq!(segments_text(&vec!["  ".to_string(), "".to_string()]), None);
    assert_eq!(
        segments_text(&vec![" one ".to_string(), "two".to_string()]),
        Some("one two".to_string())
    );
}

#[test]
fn partial_tail_keeps_the_last_hundred_characters() {
    assert_eq!(partial_tail("short"), "short");
    let exact = "x".repeat(100);
    assert_eq!(partial_tail(&exact), exact);
    let long = format!("{}{}", "a".repeat(5), "b".repeat(100));
    assert_eq!(partial_tail(&long), format!("...{}", "b".repeat(100)));
}

#[test]
fn normalized_text_is_ascii_and_tidy() {
    let inputs = [
        "一，二、三。四？五！六：七；",
        "  hello ，\t world 。 。 ok ！ ",
        "，start and end；",
        "a , . ? ! : ; b",
        "\u{3000}wide\u{3000}space\u{3000}",
        "",
    ];
    for input in inputs {
        let s = normalize_punct(input);
        for m in ['，', '、', '。', '？', '！', '：', '；'] {
            assert!(!s.contains(m), "{s:?}");
        }
        assert!(!s.contains("  "), "{s:?}");
        for m in [",", ".", "?", "!", ":", ";"] {
            assert!(!s.contains(&format!(" {m}")), "{s:?}");
        }
        assert!(s.chars().all(|c| !c.is_whitespace() || c == ' '), "{s:?}");
        assert_eq!(s.trim(), s);
    }
    assert_eq!(normalize_punct("a , . ? ! : ; b"), "a,.?!:; b");
}

#[test]
fn standalone_i_is_always_capital() {
    for input in ["i", "i i i", "so i'm here and i'll go", "well, i think; i know", "x  i  y"] {
        let t = truecase(input);
        for w in t.split(' ') {
            assert!(w != "i" && !w.starts_with("i'"), "{t:?}");
        }
    }
    assert_eq!(truecase("so i'm here and i'll go"), "So I'm here and I'll go");
}
