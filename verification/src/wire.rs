//! What travels between the probe and an engine: the request, the lines of the
//! streamed answer, and the chunks they carry.
use vstd::prelude::*;
use vstd::string::*;

use crate::binary64::Binary64;
use crate::text::{
    begins_with, chars_of, law_trimming_keeps_the_rest, reads, space, starts, string_of, trim,
    trim_end, trim_range, trim_start,
};

verus! {

/// One message of a conversation.
#[derive(Debug, Clone, PartialEq, Eq)]
pub struct ChatMessage {
    /// Who speaks.
    pub role: String,
    /// What is said.
    pub content: String,
}

impl ChatMessage {
    /// A message from the user.
    pub fn user(content: impl Into<String>) -> (message: Self)
        ensures
            message.role@ == "user"@,
            call_ensures(<_ as Into<String>>::into, (content,), message.content),
    {
        ChatMessage { role: String::from("user"), content: content.into() }
    }
}

/// The body of a streamed completion request.
#[derive(Debug, Clone, PartialEq, Eq)]
pub struct ChatRequest {
    /// The model to use.
    pub model: String,
    /// The conversation: one message from the user.
    pub messages: Vec<ChatMessage>,
    /// How many tokens to generate at most.
    pub max_tokens: u32,
    /// Sampling temperature.
    pub temperature: Binary64,
    /// Always set: timing tokens needs the streamed form.
    pub stream: bool,
}

impl ChatRequest {
    /// A streamed request with the prompt as its only message.
    pub fn new(
        model: impl Into<String>,
        prompt: impl Into<String>,
        max_tokens: u32,
        temperature: Binary64,
    ) -> (request: Self)
        ensures
            call_ensures(<_ as Into<String>>::into, (model,), request.model),
            request.messages@.len() == 1,
            request.messages@[0].role@ == "user"@,
            call_ensures(<_ as Into<String>>::into, (prompt,), request.messages@[0].content),
            request.max_tokens == max_tokens,
            request.temperature == temperature,
            request.stream,
    {
        let message: ChatMessage = ChatMessage::user(prompt);
        let mut messages: Vec<ChatMessage> = Vec::new();
        messages.push(message);
        ChatRequest { model: model.into(), messages, max_tokens, temperature, stream: true }
    }
}

/// What one line of the stream is.
#[derive(Debug, Clone, PartialEq, Eq)]
pub enum SseLine {
    /// Nothing to act on: a blank line, a comment, another field.
    Ignore,
    /// The mark that ends the stream.
    Done,
    /// Data: the payload of a chunk.
    Chunk(String),
}

/// What follows the `data:` mark of a line, without surrounding white space.
pub open spec fn payload(line: Seq<char>) -> Option<Seq<char>> {
    let text = trim(line);
    if begins_with(text, "data:"@) {
        Some(trim(text.skip("data:"@.len() as int)))
    } else {
        None
    }
}

/// Classifies one line of the stream.
pub fn classify_sse_line(line: &str) -> (r: SseLine)
    ensures
        match payload(line@) {
            None => r is Ignore,
            Some(text) => if text == "[DONE]"@ {
                r is Done
            } else {
                r matches SseLine::Chunk(chunk) && chunk@ == text
            },
        },
{
    let text: Vec<char> = chars_of(line);
    let mark: Vec<char> = chars_of("data:");
    let done: Vec<char> = chars_of("[DONE]");
    assert(text@.subrange(0, text@.len() as int) =~= line@);
    let (a, b) = trim_range(&text, 0, text.len());
    if !starts(&text, a, b, &mark) {
        return SseLine::Ignore;
    }
    let from: usize = a + mark.len();
    assert(text@.subrange(a as int, b as int).skip(mark@.len() as int) =~= text@.subrange(
        from as int,
        b as int,
    ));
    let (c, d) = trim_range(&text, from, b);
    if reads(&text, c, d, &done) {
        SseLine::Done
    } else {
        SseLine::Chunk(string_of(vstd::slice::slice_subrange(&text, c, d)))
    }
}

/// The part of a choice that a chunk adds.
#[derive(Debug, Clone, PartialEq, Eq)]
pub struct ChatDelta {
    /// The text it adds.
    pub content: Option<String>,
}

/// One choice of a chunk.
#[derive(Debug, Clone, PartialEq, Eq)]
pub struct ChatChoice {
    /// What the chunk adds.
    pub delta: ChatDelta,
    /// Why generation ended, if it did.
    pub finish_reason: Option<String>,
}

/// One chunk of the streamed answer.
#[derive(Debug, Clone, PartialEq, Eq)]
pub struct ChatChunk {
    /// The choices; a probe reads the first.
    pub choices: Vec<ChatChoice>,
}

/// What a chunk means to the probe.
#[derive(Debug, Clone, PartialEq, Eq)]
pub enum ChunkOutcome {
    /// New text.
    Token(String),
    /// The end of generation, with its reason.
    Finished(String),
    /// Neither.
    Empty,
}

/// The text a chunk adds, if any.
pub open spec fn token_text(chunk: ChatChunk) -> Option<Seq<char>> {
    if chunk.choices@.len() > 0 {
        match chunk.choices@[0].delta.content {
            Some(content) => if content@.len() > 0 {
                Some(content@)
            } else {
                None
            },
            None => None,
        }
    } else {
        None
    }
}

/// The reason a chunk gives for the end of generation, if any.
pub open spec fn finish_text(chunk: ChatChunk) -> Option<Seq<char>> {
    if chunk.choices@.len() > 0 {
        match chunk.choices@[0].finish_reason {
            Some(reason) => Some(reason@),
            None => None,
        }
    } else {
        None
    }
}

/// Whether a chunk gives a reason for the end of generation.
pub fn gives_finish_reason(chunk: &ChatChunk) -> (r: bool)
    ensures
        r == (finish_text(*chunk) is Some),
{
    chunk.choices.len() > 0 && chunk.choices[0].finish_reason.is_some()
}

/// What a chunk means. Only its first choice counts. New text comes first: an
/// engine may pack its last token together with the finish reason.
pub fn extract_token(chunk: &ChatChunk) -> (outcome: ChunkOutcome)
    ensures
        match (token_text(*chunk), finish_text(*chunk)) {
            (Some(text), _) => outcome matches ChunkOutcome::Token(s) && s@ == text,
            (None, Some(reason)) => outcome matches ChunkOutcome::Finished(s) && s@ == reason,
            (None, None) => outcome is Empty,
        },
{
    if chunk.choices.len() == 0 {
        return ChunkOutcome::Empty;
    }
    let choice: &ChatChoice = &chunk.choices[0];
    match &choice.delta.content {
        Some(content) => {
            if !content.as_str().is_empty() {
                return ChunkOutcome::Token(content.clone());
            }
        },
        None => {},
    }
    match &choice.finish_reason {
        Some(reason) => ChunkOutcome::Finished(reason.clone()),
        None => ChunkOutcome::Empty,
    }
}

/// A payload that is written behind the mark reads back, with a space between
/// them or without; a line without the mark has none.
pub proof fn law_payload_reads_back(text: Seq<char>, line: Seq<char>)
    requires
        text.len() > 0,
        !space(text[0]),
        !space(text.last()),
        line.len() > 0,
        !space(line[0]),
        !space(line.last()),
        line[0] != 'd',
    ensures
        payload(seq!['d', 'a', 't', 'a', ':'] + text) == Some(text),
        payload(seq!['d', 'a', 't', 'a', ':', ' '] + text) == Some(text),
        payload(line) is None,
{
    reveal_strlit("data:");
    let mark = "data:"@;
    assert(mark =~= seq!['d', 'a', 't', 'a', ':']);
    let near = seq!['d', 'a', 't', 'a', ':'] + text;
    let far = seq!['d', 'a', 't', 'a', ':', ' '] + text;
    assert(near[0] == 'd' && far[0] == 'd');
    assert(near.last() == text.last() && far.last() == text.last());
    law_trimming_keeps_the_rest(near);
    law_trimming_keeps_the_rest(far);
    law_trimming_keeps_the_rest(text);
    law_trimming_keeps_the_rest(line);
    assert(near.take(5) =~= mark);
    assert(far.take(5) =~= mark);
    assert(near.skip(5) =~= text);
    let spaced = far.skip(5);
    assert(spaced =~= seq![' '] + text);
    assert(spaced.last() == text.last());
    assert(trim_end(spaced) == spaced);
    assert(spaced.skip(1) =~= text);
    assert(trim_start(spaced) == trim_start(text));
    if begins_with(line, mark) {
        assert(line.take(5)[0] == mark[0]);
        assert(line.take(5)[0] == line[0]);
    }
}

} // verus!
