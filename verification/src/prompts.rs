//! Prompts for the local language model, and the shaping of its input and
//! output for the meeting summary.

use vstd::prelude::*;
use vstd::string::StringSliceAdditionalSpecFns;
use vstd::utf8::{encode_utf8, is_char_boundary};
use crate::words::{join, join_words, trim, trim_str};

verus! {

/// System prompt of the one-shot meeting summary.
pub const SUMMARY_SYSTEM_PROMPT: &'static str = "You are a meeting assistant for a non-native English speaker. Read the meeting transcript and reply with:\n1) A concise summary in 3-5 short sentences.\n2) A bulleted list of action items (who does what, and any deadline) if there are any; otherwise write \"Action items: none\".\nUse simple, clear English. Only use information present in the transcript.";

/// System prompt of the line-correction server.
pub const CORRECTION_SYSTEM_PROMPT: &'static str = "You proofread live speech-to-text for a meeting attended by a non-native English speaker. You are given recent lines for context and one NEW line to fix. Correct ONLY clear speech-recognition mistakes in the NEW line — misheard or wrong words, homophones, wrong names or terms (use the context to disambiguate), and missing short function words. Keep the original meaning, wording, and language. Do NOT paraphrase, translate, summarize, answer questions, or add or remove information. If the NEW line already looks correct, repeat it unchanged. Output ONLY the corrected NEW line, with no quotes, labels, or extra text.";

/// The most recent part of a transcript that is summarized, in bytes.
pub const MAX_INPUT_BYTES: usize = 16_000;

/// A ChatML prompt with one system and one user turn, opening the
/// assistant's turn.
pub open spec fn chatml(system: Seq<char>, user: Seq<char>) -> Seq<char> {
    "<|im_start|>system\n"@ + system + "<|im_end|>\n<|im_start|>user\n"@ + user
        + "<|im_end|>\n<|im_start|>assistant\n"@
}

/// The ChatML rendering used when the model has no usable chat template.
pub fn chatml_prompt(system: &str, user: &str) -> (r: String)
    ensures
        r@ == chatml(system@, user@),
{
    let mut r = String::from_str("<|im_start|>system\n");
    r.append(system);
    r.append("<|im_end|>\n<|im_start|>user\n");
    r.append(user);
    r.append("<|im_end|>\n<|im_start|>assistant\n");
    r
}

/// The chat prompt: the model's own template rendering when it produced one,
/// otherwise ChatML.
pub fn chat_prompt(rendered: Option<String>, system: &str, user: &str) -> (r: String)
    ensures
        rendered matches Some(t) ==> r@ == t@,
        rendered is None ==> r@ == chatml(system@, user@),
{
    match rendered {
        Some(t) => t,
        None => chatml_prompt(system, user),
    }
}

/// The user turn of a summary request.
pub fn summary_user_message(transcript: &str) -> (r: String)
    ensures
        r@ == "Transcript:\n"@ + transcript@,
{
    let mut r = String::from_str("Transcript:\n");
    r.append(transcript);
    r
}

/// The user turn of a correction request: the context lines (one per line)
/// when there are any, then the line to fix.
pub fn correction_user_message(context: &Vec<String>, target: &str) -> (r: String)
    ensures
        context.len() == 0 ==> r@ == "NEW line: "@ + target@,
        context.len() > 0 ==> r@ == "Context:\n"@ + join(context.deep_view(), "\n"@) + "\n\nNEW line: "@
            + target@,
{
    if context.len() == 0 {
        let mut r = String::from_str("NEW line: ");
        r.append(target);
        r
    } else {
        let mut r = String::from_str("Context:\n");
        let body = join_words(context, "\n");
        r.append(body.as_str());
        r.append("\n\nNEW line: ");
        r.append(target);
        r
    }
}

/// The transcript text to summarize: trimmed; `None` when nothing is left;
/// only its last `MAX_INPUT_BYTES` bytes when it is longer (the recent
/// portion matters most).
pub open spec fn summary_input(transcript: Seq<char>) -> Option<Seq<u8>> {
    let t = encode_utf8(trim(transcript));
    if t.len() == 0 {
        None
    } else if t.len() > MAX_INPUT_BYTES {
        Some(t.skip(t.len() - MAX_INPUT_BYTES))
    } else {
        Some(t)
    }
}

/// The transcript text to summarize. Cutting at a byte that is not a
/// character boundary is not possible, so the cut must fall on one.
pub fn summary_transcript(transcript: &str) -> (r: Option<String>)
    requires
        encode_utf8(trim(transcript@)).len() <= usize::MAX,
        encode_utf8(trim(transcript@)).len() > MAX_INPUT_BYTES ==> is_char_boundary(
            encode_utf8(trim(transcript@)),
            encode_utf8(trim(transcript@)).len() - MAX_INPUT_BYTES,
        ),
    ensures
        summary_input(transcript@) is None ==> r is None,
        summary_input(transcript@) matches Some(b) ==> (r matches Some(s) && encode_utf8(s@) == b),
{
    let t = trim_str(transcript);
    let s = t.as_str();
    proof {
        assert(s.spec_bytes() == encode_utf8(trim(transcript@)));
        if s@.len() == 0 {
            assert(encode_utf8(s@) =~= Seq::<u8>::empty()) by {
                assert(s@ =~= Seq::<char>::empty());
            }
        }
    }
    if s.is_empty() {
        return None;
    }
    let n = s.len();
    if n > MAX_INPUT_BYTES {
        let (_, tail) = s.split_at(n - MAX_INPUT_BYTES);
        let r = String::from_str(tail);
        proof {
            assert(tail.spec_bytes() =~= encode_utf8(trim(transcript@)).skip(n - MAX_INPUT_BYTES));
        }
        Some(r)
    } else {
        Some(String::from_str(s))
    }
}

/// The summary produced by the sidecar: its trimmed output, or the error
/// "empty summary" when it printed nothing.
pub fn summary_result(output: &str) -> (r: Result<String, String>)
    ensures
        trim(output@).len() == 0 ==> (r matches Err(e) && e@ == "empty summary"@),
        trim(output@).len() > 0 ==> (r matches Ok(s) && s@ == trim(output@)),
{
    let t = trim_str(output);
    if t.as_str().is_empty() {
        Err(String::from_str("empty summary"))
    } else {
        Ok(t)
    }
}

} // verus!
