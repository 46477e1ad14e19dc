use voice2text::prompts::{
    chat_prompt, chatml_prompt, correction_user_message, summary_result, summary_transcript,
    summary_user_message, MAX_INPUT_BYTES,
};

#[test]
fn chatml_layout() {
    assert_eq!(
        chatml_prompt("S", "U"),
        "<|im_start|>system\nS<|im_end|>\n<|im_start|>user\nU<|im_end|>\n<|im_start|>assistant\n"
    );
    assert_eq!(chat_prompt(Some("T".to_string()), "S", "U"), "T");
    assert_eq!(chat_prompt(None, "S", "U"), chatml_prompt("S", "U"));
}

#[test]
fn user_messages() {
    assert_eq!(summary_user_message("x"), "Transcript:\nx");
    assert_eq!(correction_user_message(&vec![], "t"), "NEW line: t");
    assert_eq!(
        correction_user_message(&vec!["a".to_string(), "b".to_string()], "t"),
        "Context:\na\nb\n\nNEW line: t"
    );
}

#[test]
fn summary_input_is_trimmed_and_capped() {
    assert_eq!(summary_transcript("  hi  "), Some("hi".to_string()));
    assert_eq!(summary_transcript("  \n "), None);
    let long = format!("{}{}", "a".repeat(10), "b".repeat(MAX_INPUT_BYTES));
    assert_eq!(summary_transcript(&long), Some("b".repeat(MAX_INPUT_BYTES)));
}

#[test]
fn summary_result_reports_empty_output() {
    assert_eq!(summary_result("  ok \n"), Ok("ok".to_string()));
    assert_eq!(summary_result(" "), Err("empty summary".to_string()));
}
