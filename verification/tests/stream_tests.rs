use talkcody::codex::{
    build_openai_oauth_tool_input, parse_openai_oauth_event, parse_openai_oauth_function_call_done,
};
use talkcody::events::{ProtocolStreamState, StreamEvent, ToolCallAccum};
use talkcody::find_sse_delimiter;
use talkcody::json::JsonValue;
use talkcody::sse::parse_sse_event;
use talkcody::request::{
    build_openai_oauth_request, normalize_model, ContentPart, Message, MessageContent,
    StreamTextRequest,
};
use talkcody::stream::{run_stream, ChunkOutcome, StreamSession};

#[test]
fn openai_oauth_skips_partial_tool_call_arguments() {
    let mut state = ProtocolStreamState::default();
    state.tool_calls.insert(
        "item_1".to_string(),
        ToolCallAccum {
            tool_call_id: "call_1".to_string(),
            tool_name: "readFile".to_string(),
            arguments: "{".to_string(),
        },
    );
    state.tool_call_order.push("item_1".to_string());

    let event = parse_openai_oauth_event(None, "{}", &mut state).expect("parse event");
    assert!(event.is_none());
    assert!(state.pending_events.is_empty());
    assert!(!state.emitted_tool_calls.contains("item_1"));
}

#[test]
fn openai_oauth_emits_tool_call_when_arguments_complete() {
    let mut state = ProtocolStreamState::default();
    state.tool_calls.insert(
        "item_1".to_string(),
        ToolCallAccum {
            tool_call_id: "call_1".to_string(),
            tool_name: "readFile".to_string(),
            arguments: "{\"path\":\"/tmp/a\"}".to_string(),
        },
    );
    state.tool_call_order.push("item_1".to_string());

    let event = parse_openai_oauth_event(
        Some("response.function_call_arguments.delta"),
        "{}",
        &mut state,
    )
    .expect("parse event");
    assert!(event.is_some());
    assert!(state.emitted_tool_calls.contains("item_1"));
}

#[test]
fn openai_oauth_function_call_done_emits_once() {
    let mut state = ProtocolStreamState::default();
    let payload_text =
        "{\"item_id\":\"item_1\",\"name\":\"readFile\",\"arguments\":\"{\\\"path\\\":\\\"/tmp/a\\\"}\"}";
    let payload = talkcody::json::parse_json(payload_text).expect("payload");

    let first = parse_openai_oauth_function_call_done(&payload, &mut state);
    assert!(first.is_some());
    assert!(state.emitted_tool_calls.contains("item_1"));

    let second = parse_openai_oauth_function_call_done(&payload, &mut state);
    assert!(second.is_none());
}

#[test]
fn openai_oauth_preserves_tool_call_index_order() {
    let mut state = ProtocolStreamState::default();
    let first = "{\"type\":\"response.output_item.added\",\"item\":{\"type\":\"function_call\",\"id\":\"item_b\",\"call_id\":\"call_b\",\"name\":\"glob\",\"index\":1}}";
    let second = "{\"type\":\"response.output_item.added\",\"item\":{\"type\":\"function_call\",\"id\":\"item_a\",\"call_id\":\"call_a\",\"name\":\"readFile\",\"index\":0}}";
    let args_a = "{\"type\":\"response.function_call_arguments.done\",\"item_id\":\"item_a\",\"name\":\"readFile\",\"arguments\":\"{\\\"file_path\\\":\\\"/tmp/a\\\"}\",\"index\":0}";
    let args_b = "{\"type\":\"response.function_call_arguments.done\",\"item_id\":\"item_b\",\"name\":\"glob\",\"arguments\":\"{\\\"pattern\\\":\\\"*.rs\\\"}\",\"index\":1}";

    let _ = parse_openai_oauth_event(None, first, &mut state).expect("parse first");
    let _ = parse_openai_oauth_event(None, second, &mut state).expect("parse second");

    let mut tool_calls: Vec<String> = Vec::new();

    if let Some(event) = parse_openai_oauth_event(None, args_b, &mut state).expect("parse args b")
    {
        if let StreamEvent::ToolCall { tool_call_id, .. } = event {
            tool_calls.push(tool_call_id);
        }
    }
    while !state.pending_events.is_empty() {
        let event = state.pending_events.remove(0);
        if let StreamEvent::ToolCall { tool_call_id, .. } = event {
            tool_calls.push(tool_call_id);
        }
    }

    if let Some(event) = parse_openai_oauth_event(None, args_a, &mut state).expect("parse args a")
    {
        if let StreamEvent::ToolCall { tool_call_id, .. } = event {
            tool_calls.push(tool_call_id);
        }
    }
    while !state.pending_events.is_empty() {
        let event = state.pending_events.remove(0);
        if let StreamEvent::ToolCall { tool_call_id, .. } = event {
            tool_calls.push(tool_call_id);
        }
    }

    assert_eq!(tool_calls, vec!["call_b".to_string(), "call_a".to_string()]);
}

#[test]
fn find_sse_delimiter_prefers_crlf() {
    let data: Vec<u8> = b"event: ping\r\n\r\n".to_vec();
    let delimiter = find_sse_delimiter(&data);
    assert_eq!(delimiter, Some((11, 4)));
}

#[test]
fn find_sse_delimiter_prefers_crlf_over_earlier_lf() {
    let data: Vec<u8> = b"a\n\nb\r\n\r\n".to_vec();
    let delimiter = find_sse_delimiter(&data);
    assert_eq!(delimiter, Some((4, 4)));
}

#[test]
fn parse_sse_event_preserves_data_lines() {
    let raw = "event: message\ndata: first\ndata: second\n";
    let event = parse_sse_event(raw).expect("parsed");
    assert_eq!(event.event.as_deref(), Some("message"));
    assert_eq!(event.data, "first\nsecond");
}

#[test]
fn parse_sse_event_drops_frames_without_data() {
    assert!(parse_sse_event("event: ping").is_none());
    assert!(parse_sse_event(": comment only").is_none());
}

#[test]
fn openai_oauth_response_completed_emits_usage_and_done() {
    let mut state = ProtocolStreamState::default();
    let payload = "{\"type\":\"response.completed\",\"response\":{\"usage\":{\"input_tokens\":10,\"output_tokens\":5,\"total_tokens\":15}}}";

    let first = parse_openai_oauth_event(None, payload, &mut state)
        .expect("parse event")
        .expect("event");
    match first {
        StreamEvent::Usage {
            input_tokens,
            output_tokens,
            total_tokens,
            ..
        } => {
            assert_eq!(input_tokens, 10);
            assert_eq!(output_tokens, 5);
            assert_eq!(total_tokens, Some(15));
        }
        _ => panic!("Unexpected event"),
    }

    let second = parse_openai_oauth_event(Some("response.output_text.done"), "{}", &mut state)
        .expect("parse event")
        .expect("event");
    match second {
        StreamEvent::Done { finish_reason } => {
            assert_eq!(finish_reason, None);
        }
        _ => panic!("Unexpected event"),
    }
}

#[test]
fn openai_oauth_response_failed_reports_message() {
    let mut state = ProtocolStreamState::default();
    let payload = "{\"type\":\"response.failed\",\"response\":{\"error\":{\"message\":\"quota exhausted\"}}}";
    let event = parse_openai_oauth_event(None, payload, &mut state)
        .expect("parse event")
        .expect("event");
    match event {
        StreamEvent::Error { message } => assert_eq!(message, "quota exhausted"),
        _ => panic!("Unexpected event"),
    }
}

#[test]
fn openai_oauth_rejects_frames_that_are_not_json() {
    let mut state = ProtocolStreamState::default();
    let result = parse_openai_oauth_event(None, "not json", &mut state);
    assert!(result.is_err());
}

#[test]
fn openai_oauth_streams_text_deltas_with_one_start() {
    let mut state = ProtocolStreamState::default();
    let d1 = "{\"type\":\"response.output_text.delta\",\"delta\":\"Hel\"}";
    let d2 = "{\"type\":\"response.output_text.delta\",\"delta\":\"lo\"}";

    let first = parse_openai_oauth_event(None, d1, &mut state)
        .expect("parse")
        .expect("event");
    assert!(matches!(first, StreamEvent::TextStart));
    let mut texts: Vec<String> = Vec::new();
    while !state.pending_events.is_empty() {
        if let StreamEvent::TextDelta { text } = state.pending_events.remove(0) {
            texts.push(text);
        }
    }
    let second = parse_openai_oauth_event(None, d2, &mut state)
        .expect("parse")
        .expect("event");
    match second {
        StreamEvent::TextDelta { text } => texts.push(text),
        _ => panic!("Unexpected event"),
    }
    assert_eq!(texts.join(""), "Hello");
}

#[test]
fn openai_oauth_reasoning_runs_start_once_per_id() {
    let mut state = ProtocolStreamState::default();
    let d1 = "{\"type\":\"response.reasoning_text.delta\",\"item_id\":\"r1\",\"delta\":\"think\"}";
    let done = "{\"type\":\"response.reasoning_text.done\",\"item_id\":\"r1\"}";

    let first = parse_openai_oauth_event(None, d1, &mut state)
        .expect("parse")
        .expect("event");
    match first {
        StreamEvent::ReasoningStart { id } => assert_eq!(id, "r1"),
        _ => panic!("Unexpected event"),
    }
    let mut saw_delta = false;
    while !state.pending_events.is_empty() {
        if let StreamEvent::ReasoningDelta { id, text } = state.pending_events.remove(0) {
            assert_eq!(id, "r1");
            assert_eq!(text, "think");
            saw_delta = true;
        }
    }
    assert!(saw_delta);

    let end = parse_openai_oauth_event(None, done, &mut state)
        .expect("parse")
        .expect("event");
    match end {
        StreamEvent::ReasoningEnd { id } => assert_eq!(id, "r1"),
        _ => panic!("Unexpected event"),
    }
}

#[test]
fn openai_oauth_chat_chunks_capture_finish_reason() {
    let mut state = ProtocolStreamState::default();
    let chunk = "{\"object\":\"chat.completion.chunk\",\"choices\":[{\"finish_reason\":\"stop\",\"delta\":{\"content\":\"hi\"}}]}";
    let first = parse_openai_oauth_event(None, chunk, &mut state)
        .expect("parse")
        .expect("event");
    assert!(matches!(first, StreamEvent::TextStart));
    assert_eq!(state.finish_reason, Some("stop".to_string()));
}

#[test]
fn tool_input_rule_distinguishes_forced_and_unforced() {
    assert!(build_openai_oauth_tool_input("", false).is_none());
    assert!(matches!(
        build_openai_oauth_tool_input("", true),
        Some(JsonValue::Obj(_))
    ));
    assert!(build_openai_oauth_tool_input("{\"a\":1", false).is_none());
    assert!(matches!(
        build_openai_oauth_tool_input("{\"a\":1", true),
        Some(JsonValue::Str(_))
    ));
    assert!(matches!(
        build_openai_oauth_tool_input("{\"a\":1}", false),
        Some(JsonValue::Obj(_))
    ));
}

#[test]
fn session_assembles_frames_across_chunk_boundaries() {
    let mut session = StreamSession::new();
    let part1: Vec<u8> = b"data: {\"type\":\"response.outp".to_vec();
    let part2: Vec<u8> = b"ut_text.delta\",\"delta\":\"hi\"}\n\n".to_vec();

    match session.feed_data(&part1) {
        talkcody::stream::FeedResult::Rolling(events) => assert!(events.is_empty()),
        _ => panic!("expected to keep rolling"),
    }
    match session.feed_data(&part2) {
        talkcody::stream::FeedResult::Rolling(events) => {
            assert_eq!(events.len(), 2);
            assert!(matches!(events[0], StreamEvent::TextStart));
            match &events[1] {
                StreamEvent::TextDelta { text } => assert_eq!(text, "hi"),
                _ => panic!("expected a text delta"),
            }
        }
        _ => panic!("expected to keep rolling"),
    }
    assert_eq!(session.response_text, "hi");
}

#[test]
fn run_ends_with_exactly_one_closing_done() {
    let frame: Vec<u8> =
        b"data: {\"type\":\"response.output_text.delta\",\"delta\":\"hi\"}\n\n".to_vec();
    let (events, ok) = run_stream(vec![ChunkOutcome::Data(frame), ChunkOutcome::End]);
    assert!(ok);
    assert!(matches!(events.last().unwrap(), StreamEvent::Done { .. }));
    let done_count = events
        .iter()
        .filter(|e| matches!(e, StreamEvent::Done { .. }))
        .count();
    assert_eq!(done_count, 1);
}

#[test]
fn run_decoder_done_closes_the_request() {
    let frame: Vec<u8> = b"data: {\"type\":\"response.completed\",\"response\":{}}\n\n".to_vec();
    let trailing: Vec<u8> = b"data: {\"type\":\"response.output_text.delta\"}\n\n".to_vec();
    let (events, ok) = run_stream(vec![ChunkOutcome::Data(frame), ChunkOutcome::Data(trailing)]);
    assert!(ok);
    assert!(matches!(events.last().unwrap(), StreamEvent::Done { .. }));
}

#[test]
fn run_times_out_with_one_error_event() {
    let (events, ok) = run_stream(vec![ChunkOutcome::TimedOut, ChunkOutcome::End]);
    assert!(!ok);
    assert_eq!(events.len(), 1);
    match &events[0] {
        StreamEvent::Error { message } => {
            assert_eq!(message, "Stream timeout - no data received for 60 seconds")
        }
        _ => panic!("expected the timeout error"),
    }
}

#[test]
fn run_surfaces_transport_errors() {
    let (events, ok) = run_stream(vec![ChunkOutcome::Failed("reset".to_string())]);
    assert!(!ok);
    assert_eq!(events.len(), 1);
    match &events[0] {
        StreamEvent::Error { message } => assert_eq!(message, "Stream error: reset"),
        _ => panic!("expected the transport error"),
    }
}

#[test]
fn run_rejects_frames_that_are_not_utf8() {
    let mut bytes: Vec<u8> = vec![0xff, 0xfe];
    bytes.extend_from_slice(b"\n\n");
    let (events, ok) = run_stream(vec![ChunkOutcome::Data(bytes)]);
    assert!(!ok);
    assert!(matches!(events.last().unwrap(), StreamEvent::Error { .. }));
}

#[test]
fn arguments_accumulate_across_deltas_in_order() {
    let mut state = ProtocolStreamState::default();
    let d1 = "{\"type\":\"response.function_call_arguments.delta\",\"item_id\":\"i\",\"delta\":\"{\\\"a\\\":\"}";
    let d2 = "{\"type\":\"response.function_call_arguments.delta\",\"item_id\":\"i\",\"delta\":\"1}\"}";
    let _ = parse_openai_oauth_event(None, d1, &mut state).expect("parse");
    let _ = parse_openai_oauth_event(None, d2, &mut state).expect("parse");
    let acc = state.tool_calls.get("i").expect("accumulator");
    assert_eq!(acc.arguments, "{\"a\":1}");
}

#[test]
fn oauth_request_maps_tool_results() {
    let input_obj = talkcody::json::parse_json("{\"url\":\"https://example.com\"}").unwrap();
    let output_obj =
        talkcody::json::parse_json("{\"type\":\"text\",\"value\":\"ok\"}").unwrap();
    let request = StreamTextRequest {
        model: "gpt-5.2-codex".to_string(),
        messages: vec![
            Message::User {
                content: MessageContent::Text("hi".to_string()),
            },
            Message::Assistant {
                content: MessageContent::Parts(vec![
                    ContentPart::Text {
                        text: "checking".to_string(),
                    },
                    ContentPart::ToolCall {
                        tool_call_id: "call_1".to_string(),
                        tool_name: "webFetch".to_string(),
                        input: input_obj,
                    },
                ]),
            },
            Message::Tool {
                content: vec![ContentPart::ToolResult {
                    tool_call_id: "call_1".to_string(),
                    tool_name: "webFetch".to_string(),
                    output: output_obj,
                }],
            },
        ],
        tools: None,
        temperature: None,
        top_p: None,
        top_k: None,
        max_tokens: None,
    };

    let body = build_openai_oauth_request(&request, "gpt-5.2-codex", "be helpful");
    let input = match body.get("input") {
        Some(v) => v.as_array().expect("input array"),
        None => panic!("missing input"),
    };

    let type_of = |item: &talkcody::json::JsonValue| -> String {
        item.get("type")
            .and_then(|v| v.as_str())
            .unwrap_or("")
            .to_string()
    };
    assert!(input.iter().all(|item| type_of(item) != "tool_result"));
    assert!(input.iter().any(|item| type_of(item) == "function_call"));

    let output_item = input
        .iter()
        .find(|item| type_of(item) == "function_call_output")
        .expect("function_call_output item");
    assert_eq!(
        output_item.get("output").and_then(|v| v.as_str()),
        Some("ok")
    );

    assert_eq!(
        body.get("model").and_then(|v| v.as_str()),
        Some("gpt-5.2-codex")
    );
}

#[test]
fn oauth_request_normalizes_model_names() {
    assert_eq!(normalize_model("openai/GPT-5.1-Codex-Max"), "gpt-5.1-codex-max");
    assert_eq!(normalize_model("gpt-4o"), "gpt-5.2-codex");
}
