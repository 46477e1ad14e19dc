use voice2text::chars::{chars_of, is_control, is_whitespace};
use voice2text::decimal::{push_decimal, to_decimal};
use voice2text::edit::{levenshtein, within_one_edit};
use voice2text::speakers::{Identification, SpeakerBook};
use voice2text::words::{join_words, split_whitespace, tokenize, trim_str};

#[test]
fn decimal_rendering() {
    assert_eq!(to_decimal(0), "0");
    assert_eq!(to_decimal(7), "7");
    assert_eq!(to_decimal(12345), "12345");
    assert_eq!(to_decimal(u64::MAX), "18446744073709551615");
    let mut s = "n=".to_string();
    push_decimal(&mut s, 42);
    assert_eq!(s, "n=42");
}

#[test]
fn character_classes() {
    assert!(is_whitespace(' '));
    assert!(is_whitespace('\u{3000}'));
    assert!(is_whitespace('\u{85}'));
    assert!(!is_whitespace('x'));
    assert!(is_control('\u{1f}'));
    assert!(is_control('\u{85}'));
    assert!(!is_control(' '));
    assert_eq!(chars_of("ab"), vec!['a', 'b']);
    assert_eq!(chars_of("héllo").len(), 5);
}

#[test]
fn word_splitting() {
    assert_eq!(split_whitespace("  a\tb  c\n"), vec!["a", "b", "c"]);
    assert_eq!(split_whitespace("   "), Vec::<String>::new());
    assert_eq!(tokenize("It's 9:30, OK?"), vec!["it", "s", "9", "30", "ok"]);
    assert_eq!(join_words(&vec!["a".to_string(), "b".to_string()], ", "), "a, b");
    assert_eq!(join_words(&vec![], ", "), "");
    assert_eq!(trim_str("\t x y \n"), "x y");
}

#[test]
fn edit_distance_values() {
    assert_eq!(levenshtein("", ""), 0);
    assert_eq!(levenshtein("", "abc"), 3);
    assert_eq!(levenshtein("flaw", "lawn"), 2);
    assert_eq!(levenshtein("héllo", "hello"), 1);
    assert!(within_one_edit("", "a"));
    assert!(within_one_edit("same", "same"));
    assert!(!within_one_edit("ab", "ba"));
    assert!(!within_one_edit("a", "abc"));
}

#[test]
fn one_edit_agrees_with_levenshtein() {
    let words = ["", "a", "ab", "ba", "abc", "acb", "roadmap", "roadmaps", "review", "reviw", "kitten", "sitting"];
    for a in words {
        for b in words {
            assert_eq!(within_one_edit(a, b), levenshtein(a, b) <= 1, "{a} / {b}");
        }
    }
}

#[test]
fn speaker_names_differ() {
    let mut book = SpeakerBook::new();
    let mut seen = Vec::new();
    for _ in 0..25 {
        let (name, _) = book.label(Identification::Searched(None));
        assert!(!seen.contains(&name));
        seen.push(name);
    }
    assert_eq!(seen[9], "Speaker 10");
}
