//! The probe: one streamed completion request, and the arrival time of each of
//! its tokens.
//!
//! Sending, waiting, decoding of payloads and the clock belong to the caller;
//! here stands what each chunk of bytes and each decoded chunk leads to.
use vstd::prelude::*;
use vstd::string::*;
use vstd::utf8::{decode_utf8, encode_scalar, encode_utf8, valid_utf8};

use crate::binary64::{integer, Binary64};
use crate::decoder::{newline, utf8_complaint, without_cr, LineDecoder};
use crate::derive::arrivals_in_order;
use crate::text::{chars_of, digits, push_decimal};
use crate::timing::{RequestTiming, TokenArrival};
use crate::wire::{
    classify_sse_line, extract_token, finish_text, gives_finish_reason, payload, token_text,
    ChatChunk, ChatRequest, ChunkOutcome, SseLine,
};

verus! {

/// What to ask of an engine.
#[derive(Debug, Clone)]
pub struct ProbeConfig {
    /// The base address of the engine.
    pub endpoint: String,
    /// The model to request.
    pub model: String,
    /// The prompt.
    pub prompt: String,
    /// How many tokens to generate at most.
    pub max_tokens: u32,
    /// Sampling temperature.
    pub temperature: Binary64,
}

/// `s` without final slashes.
pub open spec fn without_slashes(s: Seq<char>) -> Seq<char>
    decreases s.len(),
{
    if s.len() > 0 && s.last() == '/' {
        without_slashes(s.drop_last())
    } else {
        s
    }
}

impl ProbeConfig {
    /// A configuration with the profiling default: temperature zero, so that
    /// runs repeat.
    pub fn new(
        endpoint: impl Into<String>,
        model: impl Into<String>,
        prompt: impl Into<String>,
        max_tokens: u32,
    ) -> (config: Self)
        ensures
            call_ensures(<_ as Into<String>>::into, (endpoint,), config.endpoint),
            call_ensures(<_ as Into<String>>::into, (model,), config.model),
            call_ensures(<_ as Into<String>>::into, (prompt,), config.prompt),
            config.max_tokens == max_tokens,
            config.temperature == integer(0),
    {
        ProbeConfig {
            endpoint: endpoint.into(),
            model: model.into(),
            prompt: prompt.into(),
            max_tokens,
            temperature: Binary64::from_u64(0),
        }
    }

    /// The address of the completions endpoint, without a doubled slash.
    pub fn completions_url(&self) -> (url: String)
        ensures
            url@ == without_slashes(self.endpoint@) + "/v1/chat/completions"@,
    {
        let base: Vec<char> = chars_of(&self.endpoint);
        let mut end: usize = base.len();
        assert(base@.take(end as int) =~= base@);
        while end > 0 && base[end - 1] == '/'
            invariant
                end <= base@.len(),
                without_slashes(base@.take(end as int)) == without_slashes(self.endpoint@),
            decreases end,
        {
            assert(base@.take(end as int).drop_last() =~= base@.take(end - 1));
            end -= 1;
        }
        assert(end > 0 ==> base@.take(end as int).last() == base@[end - 1]);
        let mut url: String = crate::text::string_of(
            vstd::slice::slice_subrange(base.as_slice(), 0, end),
        );
        assert(url@ =~= base@.take(end as int));
        url.append("/v1/chat/completions");
        url
    }

    /// The request to send.
    pub fn request(&self) -> (request: ChatRequest)
        ensures
            request.model@ == self.model@,
            request.messages@.len() == 1,
            request.messages@[0].role@ == "user"@,
            request.messages@[0].content@ == self.prompt@,
            request.max_tokens == self.max_tokens,
            request.temperature == self.temperature,
            request.stream,
    {
        ChatRequest::new(
            self.model.clone(),
            self.prompt.clone(),
            self.max_tokens,
            self.temperature,
        )
    }
}

/// What can go wrong with a probe.
#[derive(Debug, Clone, PartialEq, Eq)]
pub enum ProbeError {
    /// The request could not be completed; what the transport reported.
    Transport(String),
    /// The engine answered with a status that is no success.
    HttpStatus {
        /// The status code.
        status: u16,
        /// The beginning of the answer.
        body: String,
    },
    /// A line of the stream could not be read.
    MalformedChunk {
        /// What is wrong with it.
        reason: String,
    },
    /// The stream ended before the engine said so.
    StreamTruncated {
        /// How many tokens had arrived.
        tokens_received: u32,
    },
}

impl ProbeError {
    /// The error in words.
    pub open spec fn words(self) -> Seq<char> {
        match self {
            ProbeError::Transport(message) => "request to the engine failed: "@ + message@,
            ProbeError::HttpStatus { status, body } => "engine returned HTTP "@ + digits(
                status as nat,
            ) + ": "@ + body@,
            ProbeError::MalformedChunk { reason } => "malformed stream chunk: "@ + reason@,
            ProbeError::StreamTruncated { tokens_received } => "stream ended unexpectedly after "@
                + digits(tokens_received as nat) + " token(s)"@,
        }
    }

    /// The error in words.
    pub fn message(&self) -> (text: String)
        ensures
            text@ == self.words(),
    {
        match self {
            ProbeError::Transport(message) => {
                let mut text: String = String::from_str("request to the engine failed: ");
                text.append(message.as_str());
                text
            },
            ProbeError::HttpStatus { status, body } => {
                let mut text: String = String::from_str("engine returned HTTP ");
                push_decimal(&mut text, *status as u128);
                text.append(": ");
                text.append(body.as_str());
                text
            },
            ProbeError::MalformedChunk { reason } => {
                let mut text: String = String::from_str("malformed stream chunk: ");
                text.append(reason.as_str());
                text
            },
            ProbeError::StreamTruncated { tokens_received } => {
                let mut text: String = String::from_str("stream ended unexpectedly after ");
                push_decimal(&mut text, *tokens_received as u128);
                text.append(" token(s)");
                text
            },
        }
    }
}

/// The longest beginning of a text whose UTF-8 form takes at most `limit`
/// bytes.
pub open spec fn fitting(text: Seq<char>, limit: nat) -> Seq<char>
    decreases text.len(),
{
    if text.len() == 0 || encode_utf8(text).len() <= limit {
        text
    } else {
        fitting(text.drop_last(), limit)
    }
}

/// The answer of a failed request as an error keeps it: the whole characters
/// among the first 512 bytes, with an ellipsis if there are more.
pub open spec fn shortened(body: Seq<char>) -> Seq<char> {
    if encode_utf8(body).len() > 512 {
        fitting(body, 512) + "\u{2026}"@
    } else {
        body
    }
}

/// The UTF-8 form of a text grows by the form of each character.
proof fn lemma_encoded(text: Seq<char>)
    requires
        text.len() > 0,
    ensures
        encode_utf8(text) == encode_utf8(text.drop_last()) + encode_scalar(text.last() as u32),
    decreases text.len(),
{
    let tail = text.drop_first();
    if tail.len() == 0 {
        assert(text.drop_last() =~= Seq::empty());
        assert(encode_utf8(tail) =~= Seq::empty());
        assert(encode_utf8(text) =~= encode_utf8(text.drop_last()) + encode_scalar(
            text.last() as u32,
        ));
    } else {
        lemma_encoded(tail);
        assert(text.drop_last().drop_first() =~= tail.drop_last());
        assert(encode_utf8(text) =~= encode_utf8(text.drop_last()) + encode_scalar(
            text.last() as u32,
        ));
    }
}

/// A beginning that fits, while one character more does not, is the longest
/// that fits.
proof fn lemma_fitting(text: Seq<char>, limit: nat, n: int)
    requires
        0 <= n < text.len(),
        encode_utf8(text.take(n)).len() <= limit,
        encode_utf8(text.take(n + 1)).len() > limit,
    ensures
        fitting(text, limit) == text.take(n),
        encode_utf8(text).len() > limit,
    decreases text.len(),
{
    let shorter = text.drop_last();
    if n + 1 == text.len() {
        assert(text.take(n + 1) =~= text);
        assert(shorter =~= text.take(n));
        assert(fitting(shorter, limit) == shorter);
    } else {
        assert(shorter.take(n) =~= text.take(n));
        assert(shorter.take(n + 1) =~= text.take(n + 1));
        lemma_fitting(shorter, limit, n);
        lemma_encoded(text);
    }
}

/// The number of bytes in the UTF-8 form of a character.
fn encoded_len(c: char) -> (n: usize)
    ensures
        n == encode_scalar(c as u32).len(),
        1 <= n <= 4,
{
    let code: u32 = c as u32;
    if code <= 0x7f {
        1
    } else if code <= 0x7ff {
        2
    } else if code <= 0xffff {
        3
    } else {
        4
    }
}

/// The answer of a failed request as an error keeps it.
fn shorten(body: String) -> (text: String)
    ensures
        text@ == shortened(body@),
{
    let chars: Vec<char> = chars_of(&body);
    let mut n: usize = 0;
    let mut bytes: usize = 0;
    assert(body@.take(0) =~= Seq::empty());
    while n < chars.len()
        invariant
            chars@ == body@,
            n <= chars@.len(),
            bytes == encode_utf8(body@.take(n as int)).len(),
            bytes <= 512,
        decreases chars@.len() - n,
    {
        let size: usize = encoded_len(chars[n]);
        proof {
            let more = body@.take(n + 1);
            lemma_encoded(more);
            assert(more.drop_last() =~= body@.take(n as int));
        }
        if bytes + size > 512 {
            proof {
                lemma_fitting(body@, 512, n as int);
            }
            let mut cut: String = crate::text::string_of(
                vstd::slice::slice_subrange(chars.as_slice(), 0, n),
            );
            assert(cut@ =~= body@.take(n as int));
            cut.append("\u{2026}");
            return cut;
        }
        bytes += size;
        n += 1;
    }
    assert(body@.take(n as int) =~= body@);
    body
}

/// The error for an answer whose status is no success. `None` stands for an
/// answer that could not be read.
pub fn http_failure(status: u16, body: Option<String>) -> (e: ProbeError)
    ensures
        e matches ProbeError::HttpStatus { status: code, body: text } && code == status && text@
            == match body {
            Some(body) => shortened(body@),
            None => "<failed to read error body>"@,
        },
{
    let body: String = match body {
        Some(body) => shorten(body),
        None => String::from_str("<failed to read error body>"),
    };
    ProbeError::HttpStatus { status, body }
}

// ---------------------------------------------------------------------------
// The stream.
// ---------------------------------------------------------------------------

/// What the caller is to do next.
#[derive(Debug, Clone, PartialEq, Eq)]
pub enum Action {
    /// Read more bytes.
    Read,
    /// Decode this payload as a chunk.
    Decode(String),
    /// Stop reading: the engine has finished.
    Stop,
}

/// What the pending bytes hold next.
pub enum Found {
    /// No complete line that matters.
    Nothing,
    /// The mark that ends the stream.
    Done,
    /// A payload.
    Payload(Seq<char>),
    /// A line that is not UTF-8.
    Garbled(Seq<u8>),
}

/// The first line that matters, and the bytes behind it.
pub open spec fn search(pending: Seq<u8>) -> (Found, Seq<u8>)
    decreases pending.len(),
{
    match newline(pending) {
        None => (Found::Nothing, pending),
        Some(i) => {
            let line = without_cr(pending.take(i));
            let rest = pending.skip(i + 1);
            if !valid_utf8(line) {
                (Found::Garbled(line), rest)
            } else {
                match payload(decode_utf8(line)) {
                    None => if 0 <= i < pending.len() {
                        search(rest)
                    } else {
                        (Found::Nothing, rest)
                    },
                    Some(text) => if text == "[DONE]"@ {
                        (Found::Done, rest)
                    } else {
                        (Found::Payload(text), rest)
                    },
                }
            }
        },
    }
}

/// The arrivals after a chunk that came at `elapsed_ns`: one more if it adds
/// text.
pub open spec fn arrivals_after(
    tokens: Seq<TokenArrival>,
    chunk: ChatChunk,
    elapsed_ns: u64,
) -> Seq<TokenArrival> {
    if token_text(chunk) is Some {
        tokens.push(TokenArrival { index: tokens.len() as u32, elapsed_ns })
    } else {
        tokens
    }
}

/// Whether a chunk ends the stream: it gives a reason, with or without text.
pub open spec fn ends(chunk: ChatChunk) -> bool {
    finish_text(chunk) is Some
}

/// Whether tokens carry their positions.
pub open spec fn numbered(tokens: Seq<TokenArrival>) -> bool {
    forall|i: int| 0 <= i < tokens.len() ==> (#[trigger] tokens[i]).index == i as u32
}

/// The state of a running probe.
#[derive(Debug)]
pub struct Probe {
    decoder: LineDecoder,
    tokens: Vec<TokenArrival>,
    finished: bool,
}

impl Probe {
    /// The bytes that have been received and not yet read.
    pub closed spec fn pending(&self) -> Seq<u8> {
        self.decoder@
    }

    /// The tokens that have arrived.
    pub closed spec fn arrivals(&self) -> Seq<TokenArrival> {
        self.tokens@
    }

    /// Whether the engine has said that it is done.
    pub closed spec fn is_finished(&self) -> bool {
        self.finished
    }

    /// A probe that has received nothing.
    pub fn new() -> (probe: Self)
        ensures
            probe.pending() == Seq::<u8>::empty(),
            probe.arrivals() == Seq::<TokenArrival>::empty(),
            !probe.is_finished(),
    {
        Probe { decoder: LineDecoder::new(), tokens: Vec::new(), finished: false }
    }

    /// Takes up a chunk of bytes.
    pub fn receive(&mut self, bytes: &[u8])
        ensures
            final(self).pending() == old(self).pending() + bytes@,
            final(self).arrivals() == old(self).arrivals(),
            final(self).is_finished() == old(self).is_finished(),
    {
        self.decoder.push(bytes);
    }

    /// Reads on to the next line that matters.
    pub fn advance(&mut self) -> (r: Result<Action, ProbeError>)
        ensures
            final(self).arrivals() == old(self).arrivals(),
            final(self).pending() == search(old(self).pending()).1,
            final(self).is_finished() == (old(self).is_finished() || search(old(self).pending()).0
                is Done),
            match search(old(self).pending()).0 {
                Found::Nothing => r == Ok::<Action, ProbeError>(Action::Read),
                Found::Done => r == Ok::<Action, ProbeError>(Action::Stop),
                Found::Payload(text) => r matches Ok(Action::Decode(s)) && s@ == text,
                Found::Garbled(line) => r matches Err(ProbeError::MalformedChunk { reason })
                    && reason@ == "invalid UTF-8 in stream: "@ + utf8_complaint(line),
            },
    {
        loop
            invariant
                self.tokens@ == old(self).tokens@,
                self.finished == old(self).finished,
                search(self.decoder@) == search(old(self).decoder@),
            decreases self.decoder@.len(),
        {
            let ghost before = self.decoder@;
            proof {
                crate::decoder::lemma_newline(before);
            }
            match self.decoder.next_line() {
                Ok(None) => {
                    return Ok(Action::Read);
                },
                Ok(Some(line)) => {
                    match classify_sse_line(&line) {
                        SseLine::Ignore => {},
                        SseLine::Done => {
                            self.finished = true;
                            return Ok(Action::Stop);
                        },
                        SseLine::Chunk(text) => {
                            return Ok(Action::Decode(text));
                        },
                    }
                },
                Err(e) => {
                    let mut reason: String = String::from_str("invalid UTF-8 in stream: ");
                    reason.append(e.message.as_str());
                    return Err(ProbeError::MalformedChunk { reason });
                },
            }
        }
    }

    /// Takes up a chunk: its token first, then its finish reason.
    fn take_chunk(&mut self, chunk: &ChatChunk, elapsed_ns: u64)
        ensures
            final(self).pending() == old(self).pending(),
            final(self).arrivals() == arrivals_after(old(self).arrivals(), *chunk, elapsed_ns),
            final(self).is_finished() == (old(self).is_finished() || ends(*chunk)),
    {
        match extract_token(chunk) {
            ChunkOutcome::Token(_) => {
                #[verifier::truncate]
                let index: u32 = self.tokens.len() as u32;
                self.tokens.push(TokenArrival::new(index, elapsed_ns));
            },
            ChunkOutcome::Finished(_) => {},
            ChunkOutcome::Empty => {},
        }
        if gives_finish_reason(chunk) {
            self.finished = true;
        }
    }

    /// Takes up what decoding a payload gave, at `elapsed_ns`: a chunk, or
    /// what the decoder reported. Says whether the engine has finished.
    pub fn decoded(&mut self, chunk: Result<ChatChunk, String>, elapsed_ns: u64) -> (r: Result<
        bool,
        ProbeError,
    >)
        ensures
            final(self).pending() == old(self).pending(),
            match chunk {
                Ok(chunk) => {
                    &&& final(self).arrivals() == arrivals_after(
                        old(self).arrivals(),
                        chunk,
                        elapsed_ns,
                    )
                    &&& final(self).is_finished() == (old(self).is_finished() || ends(chunk))
                    &&& r == Ok::<bool, ProbeError>(final(self).is_finished())
                },
                Err(message) => {
                    &&& final(self).arrivals() == old(self).arrivals()
                    &&& final(self).is_finished() == old(self).is_finished()
                    &&& r matches Err(ProbeError::MalformedChunk { reason }) && reason@
                        == "JSON parse error: "@ + message@
                },
            },
    {
        match chunk {
            Ok(chunk) => {
                self.take_chunk(&chunk, elapsed_ns);
                Ok(self.finished)
            },
            Err(message) => {
                let mut reason: String = String::from_str("JSON parse error: ");
                reason.append(message.as_str());
                Err(ProbeError::MalformedChunk { reason })
            },
        }
    }

    /// Takes up the end of the bytes. Unless the engine has finished, what is
    /// left over counts as one last line and is used up; its payload, if it has
    /// one, is to be decoded.
    pub fn end_of_stream(&mut self) -> (r: Result<Option<String>, ProbeError>)
        ensures
            final(self).arrivals() == old(self).arrivals(),
            final(self).pending() == if old(self).is_finished() {
                old(self).pending()
            } else {
                Seq::<u8>::empty()
            },
            ({
                let line = without_cr(old(self).pending());
                if old(self).is_finished() || old(self).pending().len() == 0 {
                    &&& r == Ok::<Option<String>, ProbeError>(None)
                    &&& final(self).is_finished() == old(self).is_finished()
                } else if !valid_utf8(line) {
                    &&& r matches Err(ProbeError::MalformedChunk { reason }) && reason@
                        == "invalid UTF-8 in trailing line: "@ + utf8_complaint(line)
                    &&& !final(self).is_finished()
                } else {
                    match payload(decode_utf8(line)) {
                        None => r == Ok::<Option<String>, ProbeError>(None) && !final(self).is_finished(),
                        Some(text) => if text == "[DONE]"@ {
                            r == Ok::<Option<String>, ProbeError>(None) && final(self).is_finished()
                        } else {
                            r matches Ok(Some(s)) && s@ == text && !final(self).is_finished()
                        },
                    }
                }
            }),
    {
        if self.finished {
            return Ok(None);
        }
        match self.decoder.finish() {
            Ok(None) => Ok(None),
            Ok(Some(line)) => match classify_sse_line(&line) {
                SseLine::Ignore => Ok(None),
                SseLine::Done => {
                    self.finished = true;
                    Ok(None)
                },
                SseLine::Chunk(text) => Ok(Some(text)),
            },
            Err(e) => {
                let mut reason: String = String::from_str("invalid UTF-8 in trailing line: ");
                reason.append(e.message.as_str());
                Err(ProbeError::MalformedChunk { reason })
            },
        }
    }

    /// Takes up what decoding the last payload gave. One that does not decode
    /// is passed over.
    pub fn decoded_last(&mut self, chunk: Option<ChatChunk>, elapsed_ns: u64)
        ensures
            final(self).pending() == old(self).pending(),
            match chunk {
                Some(chunk) => {
                    &&& final(self).arrivals() == arrivals_after(
                        old(self).arrivals(),
                        chunk,
                        elapsed_ns,
                    )
                    &&& final(self).is_finished() == (old(self).is_finished() || ends(chunk))
                },
                None => {
                    &&& final(self).arrivals() == old(self).arrivals()
                    &&& final(self).is_finished() == old(self).is_finished()
                },
            },
    {
        match chunk {
            Some(chunk) => self.take_chunk(&chunk, elapsed_ns),
            None => {},
        }
    }

    /// The timing of the request, if the engine has finished.
    pub fn conclude(self, total_ns: u64) -> (r: Result<RequestTiming, ProbeError>)
        ensures
            if self.is_finished() {
                r matches Ok(timing) && timing.tokens@ == self.arrivals() && timing.total_ns
                    == total_ns
            } else {
                r == Err::<RequestTiming, ProbeError>(
                    ProbeError::StreamTruncated { tokens_received: self.arrivals().len() as u32 },
                )
            },
    {
        if self.finished {
            Ok(RequestTiming::new(self.tokens, total_ns))
        } else {
            #[verifier::truncate]
            let tokens_received: u32 = self.tokens.len() as u32;
            Err(ProbeError::StreamTruncated { tokens_received })
        }
    }
}

/// Final slashes on the address of an engine do not matter, and none of them
/// doubles the slash of the path.
pub proof fn law_final_slashes_do_not_matter(endpoint: Seq<char>)
    ensures
        without_slashes(endpoint.push('/')) == without_slashes(endpoint),
        without_slashes(endpoint).len() > 0 ==> without_slashes(endpoint).last() != '/',
    decreases endpoint.len(),
{
    assert(endpoint.push('/').drop_last() =~= endpoint);
    if endpoint.len() > 0 && endpoint.last() == '/' {
        law_final_slashes_do_not_matter(endpoint.drop_last());
    }
}

/// Every chunk keeps the numbering of the arrivals: one arrival per token, at
/// its position.
pub proof fn law_arrivals_are_numbered(
    tokens: Seq<TokenArrival>,
    chunk: ChatChunk,
    elapsed_ns: u64,
)
    requires
        numbered(tokens),
    ensures
        numbered(arrivals_after(tokens, chunk, elapsed_ns)),
{
}

/// On a clock that does not run backwards, arrivals stay in order of time.
pub proof fn law_arrivals_stay_in_order(
    tokens: Seq<TokenArrival>,
    chunk: ChatChunk,
    elapsed_ns: u64,
)
    requires
        arrivals_in_order(tokens),
        tokens.len() > 0 ==> tokens.last().elapsed_ns <= elapsed_ns,
    ensures
        arrivals_in_order(arrivals_after(tokens, chunk, elapsed_ns)),
{
    let after = arrivals_after(tokens, chunk, elapsed_ns);
    assert forall|i: int, j: int| 0 <= i <= j < after.len() implies (
    #[trigger] after[i]).elapsed_ns <= (#[trigger] after[j]).elapsed_ns by {
        if j == tokens.len() && i < j {
            assert(tokens[i].elapsed_ns <= tokens[tokens.len() - 1].elapsed_ns);
        }
    }
}

/// A chunk without text leaves the arrivals as they were, and one with text
/// adds its token even where its finish reason ends the stream: neither is
/// lost to the other.
pub proof fn law_text_is_never_lost(tokens: Seq<TokenArrival>, chunk: ChatChunk, elapsed_ns: u64)
    ensures
        arrivals_after(tokens, chunk, elapsed_ns).len() == tokens.len() + if token_text(
            chunk,
        ) is Some {
            1int
        } else {
            0
        },
        token_text(chunk) is Some && finish_text(chunk) is Some ==> ends(chunk) && arrivals_after(
            tokens,
            chunk,
            elapsed_ns,
        ).last() == (TokenArrival { index: tokens.len() as u32, elapsed_ns }),
{
}

/// How the stream is cut into chunks does not matter: what is found in the
/// first part is found in the whole, and where nothing is found, the search
/// goes on with what is left together with the second part.
pub proof fn law_search_ignores_chunking(first: Seq<u8>, second: Seq<u8>)
    ensures
        match search(first).0 {
            Found::Nothing => search(first + second) == search(search(first).1 + second),
            found => search(first + second) == (found, search(first).1 + second),
        },
    decreases first.len(),
{
    let whole = first + second;
    crate::decoder::lemma_newline(first);
    match newline(first) {
        None => {},
        Some(i) => {
            crate::decoder::lemma_newline_is(whole, i);
            assert(whole.take(i) =~= first.take(i));
            assert(whole.skip(i + 1) =~= first.skip(i + 1) + second);
            law_search_ignores_chunking(first.skip(i + 1), second);
        },
    }
}

/// A line is taken at its newline: its payload is what is found, the mark of the
/// end ends the stream, and a line without a payload is passed over. What
/// stands behind it waits.
pub proof fn law_the_first_payload_is_found(line: Seq<u8>, rest: Seq<u8>)
    requires
        forall|i: int| 0 <= i < line.len() ==> line[i] != 10,
        line.len() > 0 ==> line.last() != 13,
    ensures
        ({
            let bytes = line + seq![10u8] + rest;
            &&& !valid_utf8(line) ==> search(bytes) == (Found::Garbled(line), rest)
            &&& valid_utf8(line) && payload(decode_utf8(line)) is None ==> search(bytes) == search(
                rest,
            )
            &&& valid_utf8(line) && payload(decode_utf8(line)) == Some("[DONE]"@) ==> search(bytes)
                == (Found::Done, rest)
            &&& valid_utf8(line) ==> (payload(decode_utf8(line)) matches Some(text) ==> (text
                != "[DONE]"@ ==> search(bytes) == (Found::Payload(text), rest)))
            &&& search(line) == (Found::Nothing, line)
        }),
{
    let n = line.len() as int;
    let bytes = line + seq![10u8] + rest;
    assert(bytes[n] == 10);
    assert forall|j: int| 0 <= j < n implies bytes[j] != 10 by {
        assert(bytes[j] == line[j]);
    }
    crate::decoder::lemma_newline_is(bytes, n);
    crate::decoder::lemma_newline(line);
    assert(bytes.take(n) =~= line);
    assert(bytes.skip(n + 1) =~= rest);
}

/// A chunk counts as a token exactly if its first choice adds text: then the
/// token stands behind those that came before, at the time it came; and it ends
/// the stream exactly if its first choice gives a reason.
pub proof fn law_chunks_with_text_are_tokens(
    tokens: Seq<TokenArrival>,
    chunk: ChatChunk,
    elapsed_ns: u64,
)
    ensures
        ({
            let first = chunk.choices@[0];
            let adds = chunk.choices@.len() > 0 && first.delta.content is Some
                && first.delta.content->0@.len() > 0;
            let after = arrivals_after(tokens, chunk, elapsed_ns);
            &&& adds ==> after.len() == tokens.len() + 1 && after.last().elapsed_ns == elapsed_ns
                && after.last().index == tokens.len() as u32 && after.drop_last() == tokens
            &&& !adds ==> after == tokens
            &&& ends(chunk) <==> chunk.choices@.len() > 0 && first.finish_reason is Some
        }),
{
    let after = arrivals_after(tokens, chunk, elapsed_ns);
    if token_text(chunk) is Some {
        assert(after.drop_last() =~= tokens);
    }
}

/// The beginning of a text that fits is a beginning of it, takes no more bytes
/// than there are, and one character more would take more.
proof fn lemma_fitting_is_longest(text: Seq<char>, limit: nat)
    ensures
        ({
            let n = fitting(text, limit).len() as int;
            &&& n <= text.len()
            &&& fitting(text, limit) == text.take(n)
            &&& n > 0 ==> encode_utf8(fitting(text, limit)).len() <= limit
            &&& n < text.len() ==> encode_utf8(text.take(n + 1)).len() > limit
        }),
    decreases text.len(),
{
    if text.len() == 0 || encode_utf8(text).len() <= limit {
        assert(text.take(text.len() as int) =~= text);
    } else {
        let rest = text.drop_last();
        lemma_fitting_is_longest(rest, limit);
        let n = fitting(rest, limit).len() as int;
        assert(rest.take(n) =~= text.take(n));
        if n < rest.len() {
            assert(rest.take(n + 1) =~= text.take(n + 1));
        } else {
            assert(text.take(n + 1) =~= text);
        }
    }
}

/// An answer is kept whole where it takes at most 512 bytes; else as much of its
/// beginning as does, with an ellipsis behind it.
pub proof fn law_answers_are_kept_from_the_beginning(body: Seq<char>)
    ensures
        encode_utf8(body).len() <= 512 ==> shortened(body) == body,
        encode_utf8(body).len() > 512 ==> exists|n: int|
            {
                &&& 0 <= n < body.len()
                &&& n > 0 ==> encode_utf8(#[trigger] body.take(n)).len() <= 512
                &&& encode_utf8(body.take(n + 1)).len() > 512
                &&& shortened(body) == body.take(n) + "\u{2026}"@
            },
{
    if encode_utf8(body).len() > 512 {
        lemma_fitting_is_longest(body, 512);
        let n = fitting(body, 512).len() as int;
        if n == body.len() {
            assert(body.take(n) =~= body);
            assert(body.len() > 0);
        }
        assert(shortened(body) == body.take(n) + "\u{2026}"@);
    }
}

} // verus!
