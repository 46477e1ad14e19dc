use voice2text::render::{wrap, Live};

#[test]
fn wrap_is_greedy() {
    assert_eq!(wrap("the quick brown fox", 10), vec!["the quick", "brown fox"]);
    assert_eq!(wrap("  spaced   out\twords ", 40), vec!["spaced out words"]);
}

#[test]
fn wrap_of_blank_text_is_one_empty_line() {
    assert_eq!(wrap("", 10), vec![""]);
    assert_eq!(wrap("   ", 10), vec![""]);
}

#[test]
fn wrap_hard_splits_long_words() {
    assert_eq!(wrap("abcdefghij12345", 4), vec!["abcd", "efgh", "ij12", "345"]);
    assert_eq!(wrap("ab abcdefgh", 4), vec!["ab", "abcd", "efgh"]);
}

#[test]
fn wrapped_lines_fit_and_keep_the_words() {
    let text = "one two three four five six seven eight nine ten eleven twelve";
    for width in 1..30 {
        let lines = wrap(text, width);
        assert!(!lines.is_empty());
        for l in &lines {
            assert!(l.chars().count() <= width);
        }
        let joined: String = lines.concat().chars().filter(|c| *c != ' ').collect();
        let words: String = text.chars().filter(|c| *c != ' ').collect();
        assert_eq!(joined, words);
    }
}

#[test]
fn live_width_is_clamped() {
    assert_eq!(Live::new(None).width(), 100);
    assert_eq!(Live::new(Some(5)).width(), 20);
    assert_eq!(Live::new(Some(1000)).width(), 400);
    assert_eq!(Live::new(Some(80)).width(), 80);
    assert_eq!(Live::new(Some(80)).partial_rows(), 0);
}

#[test]
fn partial_is_redrawn_in_place() {
    let mut live = Live::new(Some(20));
    assert_eq!(live.set_partial("hello world"), "\x1b[0Jhello world\r");
    assert_eq!(live.partial_rows(), 1);
    assert_eq!(
        live.set_partial("aaaa bbbb cccc dddd eeee"),
        "\x1b[0Jaaaa bbbb cccc dddd\r\neeee\x1b[1A\r"
    );
    assert_eq!(live.partial_rows(), 2);
}

#[test]
fn commit_prints_lines_permanently() {
    let mut live = Live::new(Some(20));
    live.set_partial("partial words");
    assert_eq!(live.commit("hi there"), "\x1b[0Jhi there\r\n");
    assert_eq!(live.partial_rows(), 0);
    assert_eq!(
        live.commit("aaaa bbbb cccc dddd eeee"),
        "\x1b[0Jaaaa bbbb cccc dddd\r\neeee\r\n"
    );
    assert_eq!(live.width(), 20);
}
