//! The model server's chat answer: the tokens it reports and the JSON
//! object the agent's action is read from.
use vstd::prelude::*;
use crate::llm::{Llm, first_json_object, spec_first_json_object};
use crate::types::Action;

verus! {

// ------------------------------------------------------------ the model's answer

/// What the chat answer `raw` of a model server holds: the tokens it reports
/// spent, the message's content and its reasoning, each when present
/// (`None` when the text is not JSON).
pub uninterp spec fn reply_parts(raw: Seq<char>) -> Option<(Option<u64>, Option<Seq<char>>, Option<Seq<char>>)>;

/// The view of an optional text.
pub open spec fn text_view(t: Option<String>) -> Option<Seq<char>> {
    match t {
        Some(s) => Some(s@),
        None => None,
    }
}

/// Reads a chat answer with `serde_json::from_str` into a JSON value and
/// picks `usage.total_tokens`, `choices[0].message.content` and
/// `choices[0].message.reasoning_content`, each as present or not. The
/// contract names the result `reply_parts` and says nothing of how the JSON
/// parser reads a text.
#[verifier::external_body]
fn chat_reply(raw: &str) -> (r: Option<(Option<u64>, Option<String>, Option<String>)>)
    ensures
        match r {
            Some((t, c, rc)) => reply_parts(raw@) == Some((t, text_view(c), text_view(rc))),
            None => reply_parts(raw@) is None,
        },
{
    let v: serde_json::Value = serde_json::from_str(raw).ok()?;
    let msg = &v["choices"][0]["message"];
    Some((
        v["usage"]["total_tokens"].as_u64(),
        msg["content"].as_str().map(|s| s.to_string()),
        msg["reasoning_content"].as_str().map(|s| s.to_string()),
    ))
}

/// The tokens an answer reports: none when it does not say.
pub open spec fn tokens_or_none(t: Option<u64>) -> u64 {
    match t {
        Some(n) => n,
        None => 0,
    }
}

/// A text of an answer: empty when the answer has none.
pub open spec fn text_or_empty(t: Option<Seq<char>>) -> Seq<char> {
    match t {
        Some(s) => s,
        None => Seq::empty(),
    }
}

/// The text of an answer: the content, then the reasoning (reasoning models
/// may put everything in the latter).
pub open spec fn answer_text(content: Seq<char>, reasoning: Seq<char>) -> Seq<char> {
    content + reasoning
}

/// The JSON object an answer's text holds.
pub open spec fn reply_object_of(content: Seq<char>, reasoning: Seq<char>) -> Option<Seq<char>> {
    spec_first_json_object(answer_text(content, reasoning))
}

/// Reads the chat answer `raw` of the model server: the tokens it reports are
/// added to the agent's count (which stops at `u64::MAX`), and the result is
/// the first JSON object of the content followed by the reasoning. An answer
/// that is not JSON changes nothing and gives `None`.
pub fn reply_object(llm: &mut Llm, raw: &str) -> (r: Option<String>)
    ensures
        final(llm).name == old(llm).name,
        final(llm).host == old(llm).host,
        final(llm).model == old(llm).model,
        final(llm).max_tokens == old(llm).max_tokens,
        final(llm).thinking == old(llm).thinking,
        final(llm).parse_failures == old(llm).parse_failures,
        match reply_parts(raw@) {
            None => r is None && final(llm).tokens == old(llm).tokens,
            Some((t, c, rc)) => {
                &&& final(llm).tokens == (if old(llm).tokens + tokens_or_none(t) > u64::MAX {
                    u64::MAX as int
                } else {
                    old(llm).tokens + tokens_or_none(t)
                })
                &&& match reply_object_of(text_or_empty(c), text_or_empty(rc)) {
                    Some(o) => r matches Some(s) && s@ == o,
                    None => r is None,
                }
            },
        },
{
    let (t, content, reasoning) = match chat_reply(raw) {
        Some(parts) => parts,
        None => return None,
    };
    let spent = match t {
        Some(n) => n,
        None => 0,
    };
    llm.tokens = llm.tokens.saturating_add(spent);
    let mut text = match content {
        Some(c) => c,
        None => String::new(),
    };
    match reasoning {
        Some(r) => text.append(r.as_str()),
        None => {},
    }
    first_json_object(text.as_str())
}



/// What a language-model agent does once its answer was read.
#[derive(Clone, Copy, Debug)]
pub enum Retry {
    /// Play the action read.
    Play(Action),
    /// Ask the model once more.
    AskAgain,
    /// Give up and end the turn.
    EndTurn,
}

/// The decision after attempt `attempt` (0, then 1) of a language-model
/// agent: a usable answer is played; an unusable one is counted, and is
/// followed by one more try with a larger answer budget, then by the end of
/// the turn rather than a loop on a model that cannot produce JSON.
pub fn after_answer(llm: &mut Llm, attempt: u32, answer: Option<Action>) -> (r: Retry)
    requires
        attempt < 2,
        answer is None ==> old(llm).parse_failures < u32::MAX,
    ensures
        final(llm).name == old(llm).name,
        final(llm).host == old(llm).host,
        final(llm).model == old(llm).model,
        final(llm).thinking == old(llm).thinking,
        final(llm).tokens == old(llm).tokens,
        match answer {
            Some(a) => {
                &&& r == Retry::Play(a)
                &&& final(llm).parse_failures == old(llm).parse_failures
                &&& final(llm).max_tokens == old(llm).max_tokens
            },
            None => {
                &&& final(llm).parse_failures == old(llm).parse_failures + 1
                &&& final(llm).max_tokens == (if attempt == 0 {
                    2000
                } else {
                    old(llm).max_tokens
                })
                &&& r == (if attempt == 0 {
                    Retry::AskAgain
                } else {
                    Retry::EndTurn
                })
            },
        },
{
    match answer {
        Some(a) => Retry::Play(a),
        None => {
            llm.record_failure(attempt);
            if attempt == 0 {
                Retry::AskAgain
            } else {
                Retry::EndTurn
            }
        },
    }
}

} // verus!
