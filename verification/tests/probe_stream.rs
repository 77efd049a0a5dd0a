//! The probe: line framing, chunks, and the stream as a whole.
use inferscope::binary64::Binary64;
use inferscope::decoder::LineDecoder;
use inferscope::probe::{
    http_failure, Action, Probe, ProbeConfig, ProbeError,
};
use inferscope::timing::RequestTiming;
use inferscope::wire::{
    classify_sse_line, extract_token, ChatChoice, ChatChunk, ChatDelta, ChatMessage, ChatRequest,
    ChunkOutcome, SseLine,
};

#[test]
fn empty_decoder_yields_no_line() {
    let mut d = LineDecoder::new();
    assert_eq!(d.next_line().unwrap(), None);
}

#[test]
fn one_complete_line_is_yielded() {
    let mut d = LineDecoder::new();
    d.push(b"hello\n");
    assert_eq!(d.next_line().unwrap(), Some("hello".to_string()));
    assert_eq!(d.next_line().unwrap(), None);
}

#[test]
fn two_lines_in_one_push_are_yielded_in_order() {
    let mut d = LineDecoder::new();
    d.push(b"first\nsecond\n");
    assert_eq!(d.next_line().unwrap(), Some("first".to_string()));
    assert_eq!(d.next_line().unwrap(), Some("second".to_string()));
    assert_eq!(d.next_line().unwrap(), None);
}

#[test]
fn a_line_split_across_pushes_is_reassembled() {
    let mut d = LineDecoder::new();
    d.push(b"hel");
    assert_eq!(d.next_line().unwrap(), None);
    d.push(b"lo\n");
    assert_eq!(d.next_line().unwrap(), Some("hello".to_string()));
}

#[test]
fn pathological_byte_at_a_time_still_reassembles() {
    let mut d = LineDecoder::new();
    for byte in b"streamed\n" {
        d.push(std::slice::from_ref(byte));
    }
    assert_eq!(d.next_line().unwrap(), Some("streamed".to_string()));
    assert_eq!(d.next_line().unwrap(), None);
}

#[test]
fn crlf_line_endings_are_handled() {
    let mut d = LineDecoder::new();
    d.push(b"hello\r\nworld\r\n");
    assert_eq!(d.next_line().unwrap(), Some("hello".to_string()));
    assert_eq!(d.next_line().unwrap(), Some("world".to_string()));
}

#[test]
fn blank_line_is_yielded_as_empty_string() {
    let mut d = LineDecoder::new();
    d.push(b"\n");
    assert_eq!(d.next_line().unwrap(), Some(String::new()));
}

#[test]
fn finish_returns_trailing_partial_line() {
    let mut d = LineDecoder::new();
    d.push(b"data: [DONE]");
    assert_eq!(d.next_line().unwrap(), None);
    assert_eq!(d.finish().unwrap(), Some("data: [DONE]".to_string()));
}

#[test]
fn finish_on_empty_buffer_returns_none() {
    let mut d = LineDecoder::new();
    assert_eq!(d.finish().unwrap(), None);
}

#[test]
fn finish_after_complete_lines_returns_none() {
    let mut d = LineDecoder::new();
    d.push(b"one\ntwo\n");
    let _ = d.next_line().unwrap();
    let _ = d.next_line().unwrap();
    assert_eq!(d.finish().unwrap(), None);
}

#[test]
fn invalid_utf8_yields_an_error() {
    let mut d = LineDecoder::new();
    d.push(&[0xff, 0xfe, b'\n']);
    assert!(d.next_line().is_err());
}

#[test]
fn a_bad_line_is_taken_off_and_described() {
    let mut d = LineDecoder::default();
    d.push(&[0xff, b'\n', b'o', b'k', b'\n']);
    let words = std::str::from_utf8(&[0xff]).unwrap_err().to_string();
    assert_eq!(d.next_line().unwrap_err().message, words);
    assert_eq!(d.next_line().unwrap(), Some("ok".to_string()));
    d.push(&[0xc3]);
    assert!(d.finish().is_err());
    assert_eq!(d.finish().unwrap(), None);
}

#[test]
fn only_one_carriage_return_is_cut() {
    let mut d = LineDecoder::new();
    d.push("caf\u{e9}\r\r\nx\r".as_bytes());
    assert_eq!(d.next_line().unwrap(), Some("caf\u{e9}\r".to_string()));
    assert_eq!(d.finish().unwrap(), Some("x".to_string()));
}

#[test]
fn chunk_boundaries_do_not_show() {
    let stream = "one\r\ntwo\n\nthree \u{1f600}\nrest".as_bytes();
    let mut whole = LineDecoder::new();
    whole.push(stream);
    let mut expected: Vec<String> = Vec::new();
    while let Some(line) = whole.next_line().unwrap() {
        expected.push(line);
    }
    for size in 1..stream.len() {
        let mut d = LineDecoder::new();
        let mut lines: Vec<String> = Vec::new();
        for chunk in stream.chunks(size) {
            d.push(chunk);
            while let Some(line) = d.next_line().unwrap() {
                lines.push(line);
            }
        }
        assert_eq!(lines, expected);
        assert_eq!(d.finish().unwrap(), Some("rest".to_string()));
    }
}

fn chunk(content: Option<&str>, finish: Option<&str>) -> ChatChunk {
    ChatChunk {
        choices: vec![ChatChoice {
            delta: ChatDelta { content: content.map(String::from) },
            finish_reason: finish.map(String::from),
        }],
    }
}

#[test]
fn content_chunk_yields_a_token() {
    let c = chunk(Some("Hello"), None);
    assert_eq!(extract_token(&c), ChunkOutcome::Token("Hello".to_string()));
}

#[test]
fn finish_chunk_without_content_yields_finished() {
    let c = chunk(None, Some("stop"));
    assert_eq!(extract_token(&c), ChunkOutcome::Finished("stop".to_string()));
}

#[test]
fn empty_delta_without_finish_is_empty() {
    let c = chunk(None, None);
    assert_eq!(extract_token(&c), ChunkOutcome::Empty);
}

#[test]
fn empty_string_content_is_empty_not_a_token() {
    let c = chunk(Some(""), None);
    assert_eq!(extract_token(&c), ChunkOutcome::Empty);
}

#[test]
fn content_takes_precedence_over_finish_reason() {
    let c = chunk(Some("!"), Some("stop"));
    assert_eq!(extract_token(&c), ChunkOutcome::Token("!".to_string()));
}

#[test]
fn no_choices_is_empty_not_an_error() {
    let c = ChatChunk { choices: vec![] };
    assert_eq!(extract_token(&c), ChunkOutcome::Empty);
}

#[test]
fn only_the_first_choice_is_examined() {
    let c = ChatChunk {
        choices: vec![
            ChatChoice {
                delta: ChatDelta { content: Some("first".to_string()) },
                finish_reason: None,
            },
            ChatChoice {
                delta: ChatDelta { content: Some("ignored".to_string()) },
                finish_reason: None,
            },
        ],
    };
    assert_eq!(extract_token(&c), ChunkOutcome::Token("first".to_string()));
}

#[test]
fn chat_message_user_sets_the_role() {
    let m = ChatMessage::user("hello");
    assert_eq!(m.role, "user");
    assert_eq!(m.content, "hello");
}

#[test]
fn chat_request_new_forces_stream_true() {
    let req = ChatRequest::new("llama3", "hi", 64, Binary64::from_u64(0));
    assert!(req.stream, "the probe must request the streamed response form");
    assert_eq!(req.model, "llama3");
    assert_eq!(req.messages, vec![ChatMessage::user("hi")]);
    assert_eq!(req.max_tokens, 64);
}

fn double(x: Binary64) -> f64 {
    x.mantissa as f64 * 2f64.powi(x.exponent)
}

#[test]
fn new_applies_profiling_defaults() {
    let cfg = ProbeConfig::new("http://localhost:8080", "llama3", "hi", 64);
    assert_eq!(cfg.endpoint, "http://localhost:8080");
    assert_eq!(cfg.model, "llama3");
    assert_eq!(cfg.prompt, "hi");
    assert_eq!(cfg.max_tokens, 64);
    assert_eq!(double(cfg.temperature), 0.0);
}

#[test]
fn completions_url_appends_the_openai_path() {
    let cfg = ProbeConfig::new("http://localhost:8080", "llama3", "hi", 64);
    assert_eq!(cfg.completions_url(), "http://localhost:8080/v1/chat/completions");
}

#[test]
fn completions_url_handles_a_trailing_slash() {
    let cfg = ProbeConfig::new("http://localhost:8080/", "llama3", "hi", 64);
    assert_eq!(cfg.completions_url(), "http://localhost:8080/v1/chat/completions");
}

#[test]
fn completions_url_handles_multiple_trailing_slashes() {
    let cfg = ProbeConfig::new("http://localhost:8080///", "llama3", "hi", 64);
    assert_eq!(cfg.completions_url(), "http://localhost:8080/v1/chat/completions");
}

#[test]
fn the_request_carries_the_configuration() {
    let cfg = ProbeConfig::new("http://localhost:8080", "llama3", "hi", 64);
    let req = cfg.request();
    assert_eq!(req, ChatRequest::new("llama3", "hi", 64, Binary64::from_u64(0)));
}

#[test]
fn stream_lines_are_classified() {
    assert_eq!(classify_sse_line(""), SseLine::Ignore);
    assert_eq!(classify_sse_line(": comment"), SseLine::Ignore);
    assert_eq!(classify_sse_line("event: ping"), SseLine::Ignore);
    assert_eq!(classify_sse_line("data: [DONE]"), SseLine::Done);
    assert_eq!(classify_sse_line("data:[DONE] "), SseLine::Done);
    assert_eq!(classify_sse_line("data: {\"a\": 1}"), SseLine::Chunk("{\"a\": 1}".to_string()));
}

/// Decodes a payload the way an engine writes it.
fn decode(payload: &str) -> Result<ChatChunk, String> {
    let value: serde_json::Value =
        serde_json::from_str(payload).map_err(|e| e.to_string())?;
    let choices = value["choices"].as_array().cloned().unwrap_or_default();
    Ok(ChatChunk {
        choices: choices
            .iter()
            .map(|c| ChatChoice {
                delta: ChatDelta {
                    content: c["delta"]["content"].as_str().map(String::from),
                },
                finish_reason: c["finish_reason"].as_str().map(String::from),
            })
            .collect(),
    })
}

/// Runs a probe over a body that arrives in chunks of `size` bytes, on a clock
/// that advances by one with every reading.
fn run(body: &[u8], size: usize) -> Result<RequestTiming, ProbeError> {
    let mut probe = Probe::new();
    let mut clock: u64 = 0;
    let mut finished = false;
    for bytes in body.chunks(size) {
        if finished {
            break;
        }
        probe.receive(bytes);
        loop {
            match probe.advance()? {
                Action::Read => break,
                Action::Stop => {
                    finished = true;
                    break;
                }
                Action::Decode(payload) => {
                    clock += 1;
                    if probe.decoded(decode(&payload), clock)? {
                        finished = true;
                        break;
                    }
                }
            }
        }
    }
    if let Some(payload) = probe.end_of_stream()? {
        clock += 1;
        probe.decoded_last(decode(&payload).ok(), clock);
    }
    probe.conclude(clock + 1)
}

fn sse_body(tokens: &[&str], finish_reason: &str) -> String {
    let mut out = String::new();
    for tok in tokens {
        out.push_str(&format!(
            "data: {{\"choices\":[{{\"delta\":{{\"content\":\"{tok}\"}},\"finish_reason\":null}}]}}\n\n"
        ));
    }
    out.push_str(&format!(
        "data: {{\"choices\":[{{\"delta\":{{}},\"finish_reason\":\"{finish_reason}\"}}]}}\n\n"
    ));
    out.push_str("data: [DONE]\n\n");
    out
}

#[test]
fn run_records_one_arrival_per_token() {
    let body = sse_body(&["Hello", " ", "world"], "stop");
    for size in [1, 7, 64, 100_000] {
        let timing = run(body.as_bytes(), size).expect("probe should succeed");
        assert_eq!(timing.token_count(), 3);
        assert_eq!(timing.tokens[0].index, 0);
        assert_eq!(timing.tokens[1].index, 1);
        assert_eq!(timing.tokens[2].index, 2);
    }
}

#[test]
fn arrival_timestamps_are_monotonically_increasing() {
    let body = sse_body(&["one", "two", "three", "four"], "stop");
    let timing = run(body.as_bytes(), 10).expect("probe should succeed");
    for pair in timing.tokens.windows(2) {
        assert!(pair[1].elapsed_ns >= pair[0].elapsed_ns);
    }
    let last = timing.tokens.last().unwrap();
    assert!(timing.total_ns >= last.elapsed_ns);
}

#[test]
fn http_error_status_is_surfaced() {
    match http_failure(500, Some("internal error".to_string())) {
        ProbeError::HttpStatus { status, body } => {
            assert_eq!(status, 500);
            assert!(body.contains("internal error"));
        }
        other => panic!("expected HttpStatus, got {other:?}"),
    }
    match http_failure(502, None) {
        ProbeError::HttpStatus { body, .. } => assert_eq!(body, "<failed to read error body>"),
        other => panic!("expected HttpStatus, got {other:?}"),
    }
}

#[test]
fn a_long_error_body_is_cut_at_512_bytes() {
    let long = "x".repeat(600);
    match http_failure(500, Some(long)) {
        ProbeError::HttpStatus { body, .. } => {
            assert_eq!(body, format!("{}\u{2026}", "x".repeat(512)));
        }
        other => panic!("expected HttpStatus, got {other:?}"),
    }
    let exact = "y".repeat(512);
    match http_failure(500, Some(exact.clone())) {
        ProbeError::HttpStatus { body, .. } => assert_eq!(body, exact),
        other => panic!("expected HttpStatus, got {other:?}"),
    }
}

#[test]
fn a_long_error_body_is_cut_between_characters() {
    for (text, kept) in [
        (format!("{}\u{e9}\u{e9}", "a".repeat(511)), "a".repeat(511)),
        (format!("{}\u{e9}", "a".repeat(512)), "a".repeat(512)),
        (format!("{}\u{20ac}bc", "a".repeat(510)), "a".repeat(510)),
        (format!("{}\u{1f600}bc", "a".repeat(509)), "a".repeat(509)),
        (format!("{}\u{e9}b", "a".repeat(510)), format!("{}\u{e9}", "a".repeat(510))),
    ] {
        assert_eq!(
            http_failure(500, Some(text)),
            ProbeError::HttpStatus { status: 500, body: format!("{kept}\u{2026}") }
        );
    }
    let fits = format!("{}\u{e9}", "a".repeat(510));
    assert_eq!(
        http_failure(500, Some(fits.clone())),
        ProbeError::HttpStatus { status: 500, body: fits }
    );
}

#[test]
fn a_last_token_packed_with_the_finish_reason_ends_the_stream() {
    let packed = "data: {\"choices\":[{\"delta\":{\"content\":\"!\"},\"finish_reason\":\"stop\"}]}";
    for body in [format!("{packed}\n\n"), packed.to_string()] {
        for size in [1, 7, 4096] {
            let timing = run(body.as_bytes(), size).expect("the engine signalled completion");
            assert_eq!(timing.token_count(), 1);
            assert_eq!(timing.tokens[0].index, 0);
        }
    }
}

#[test]
fn malformed_json_in_a_chunk_is_reported() {
    let body = "data: {not valid json\n\ndata: [DONE]\n\n";
    let err = run(body.as_bytes(), 9).expect_err("probe should fail");
    match err {
        ProbeError::MalformedChunk { reason } => {
            assert!(reason.starts_with("JSON parse error: "), "{reason}");
        }
        other => panic!("expected MalformedChunk, got {other:?}"),
    }
}

#[test]
fn stream_without_done_marker_is_truncated() {
    let body = "\
data: {\"choices\":[{\"delta\":{\"content\":\"hi\"},\"finish_reason\":null}]}\n\n\
data: {\"choices\":[{\"delta\":{\"content\":\" there\"},\"finish_reason\":null}]}\n\n";
    match run(body.as_bytes(), 50).expect_err("probe should fail") {
        ProbeError::StreamTruncated { tokens_received } => assert_eq!(tokens_received, 2),
        other => panic!("expected StreamTruncated, got {other:?}"),
    }
}

#[test]
fn empty_intermediate_chunks_are_ignored() {
    let body = "\
data: {\"choices\":[{\"delta\":{},\"finish_reason\":null}]}\n\n\
data: {\"choices\":[{\"delta\":{\"content\":\"real\"},\"finish_reason\":null}]}\n\n\
data: {\"choices\":[{\"delta\":{},\"finish_reason\":\"stop\"}]}\n\n\
data: [DONE]\n\n";
    let timing = run(body.as_bytes(), 33).expect("probe should succeed");
    assert_eq!(timing.token_count(), 1);
}

#[test]
fn a_trailing_line_without_newline_still_counts() {
    let body = "data: {\"choices\":[{\"delta\":{\"content\":\"a\"}}]}\ndata: [DONE]";
    assert_eq!(run(body.as_bytes(), 5).unwrap().token_count(), 1);
    let token = "data: {\"choices\":[{\"delta\":{\"content\":\"a\"}}]}";
    assert_eq!(
        run(token.as_bytes(), 5).unwrap_err(),
        ProbeError::StreamTruncated { tokens_received: 1 }
    );
    let broken = "data: {";
    assert_eq!(
        run(broken.as_bytes(), 5).unwrap_err(),
        ProbeError::StreamTruncated { tokens_received: 0 }
    );
}

#[test]
fn bytes_that_are_not_text_are_malformed() {
    let words = std::str::from_utf8(&[0xff]).unwrap_err().to_string();
    assert_eq!(
        run(&[0xff, b'\n'], 2).unwrap_err(),
        ProbeError::MalformedChunk { reason: format!("invalid UTF-8 in stream: {words}") }
    );
    assert_eq!(
        run(&[0xff], 2).unwrap_err(),
        ProbeError::MalformedChunk { reason: format!("invalid UTF-8 in trailing line: {words}") }
    );
}

#[test]
fn what_follows_the_end_is_not_read() {
    let body = "data: [DONE]\ndata: {broken\n";
    assert_eq!(run(body.as_bytes(), 1000).unwrap().token_count(), 0);
}

#[test]
fn probe_errors_say_what_failed() {
    assert_eq!(
        ProbeError::Transport("refused".to_string()).message(),
        "request to the engine failed: refused"
    );
    assert_eq!(
        ProbeError::HttpStatus { status: 404, body: "no".to_string() }.message(),
        "engine returned HTTP 404: no"
    );
    assert_eq!(
        ProbeError::MalformedChunk { reason: "x".to_string() }.message(),
        "malformed stream chunk: x"
    );
    assert_eq!(
        ProbeError::StreamTruncated { tokens_received: 12 }.message(),
        "stream ended unexpectedly after 12 token(s)"
    );
}
