use voice2text::text::{normalize_punct, truecase};

#[test]
fn normalizes_full_width_punct_and_spacing() {
    assert_eq!(normalize_punct("hello ， world 。"), "hello, world.");
    assert_eq!(normalize_punct("yes ！ no ？"), "yes! no?");
}

#[test]
fn collapses_repeated_whitespace() {
    assert_eq!(normalize_punct("a   b\tc"), "a b c");
}

#[test]
fn truecase_capitalizes_sentences() {
    assert_eq!(truecase("hello world. how are you?"), "Hello world. How are you?");
}

#[test]
fn truecase_fixes_standalone_i() {
    assert_eq!(truecase("then i said i'm fine"), "Then I said I'm fine");
    // "i" inside a word must not be touched
    assert_eq!(truecase("the list is big"), "The list is big");
}

#[test]
fn finalize_without_punct_model_still_cases() {
    assert_eq!(voice2text::text::finalize("HELLO WORLD", None), "Hello world");
}
