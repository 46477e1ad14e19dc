use voice2text::correction::accept_correction;
use voice2text::edit::levenshtein;

#[test]
fn levenshtein_basics() {
    assert_eq!(levenshtein("kitten", "sitting"), 3);
    assert_eq!(levenshtein("abc", "abc"), 0);
    assert_eq!(levenshtein("", "abc"), 3);
}

#[test]
fn accepts_small_fixes() {
    // homophone / minor word fixes are within the edit budget
    assert!(accept_correction("their going to the meating", "they're going to the meeting"));
    assert!(accept_correction("lets discus the road map", "let's discuss the roadmap"));
    // unchanged is fine
    assert!(accept_correction("the budget is approved", "the budget is approved"));
}

#[test]
fn rejects_paraphrase_and_hallucination() {
    // wholesale rewrite (meaning preserved but words changed too much)
    assert!(!accept_correction("ship it friday", "We have decided to release the product on Friday."));
    // empty / dropped content
    assert!(!accept_correction("the deadline is next week", ""));
    // invented extra content
    assert!(!accept_correction("ok", "ok, and also please remember to email the client about the invoice"));
}
