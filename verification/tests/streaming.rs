use void::stream::{
    has_xml_tool_calls, line_payload, object_members, parse_xml_tool_calls, strip_xml_tool_calls,
    StreamDecoder, StreamEvent,
};
use void::types::Json;

fn obj(members: Vec<(&str, Json)>) -> Json {
    Json::Object(members.into_iter().map(|(k, v)| (k.to_string(), v)).collect())
}

fn s(t: &str) -> Json {
    Json::Str(t.to_string())
}

fn delta(d: Json) -> Json {
    obj(vec![("choices", Json::Array(vec![obj(vec![("delta", d)])]))])
}

#[test]
fn chunks_are_cut_into_complete_lines() {
    let mut d = StreamDecoder::new();
    assert_eq!(d.push_chunk("data: a\ndata: "), vec!["data: a".to_string()]);
    assert_eq!(d.push_chunk("b\n\n"), vec!["data: b".to_string(), "".to_string()]);
    assert_eq!(d.take_rest(), None);
    assert!(d.push_chunk("tail").is_empty());
    assert_eq!(d.take_rest(), Some("tail".to_string()));
}

#[test]
fn lines_lose_nothing() {
    let mut d = StreamDecoder::new();
    let mut seen = Vec::new();
    for chunk in ["ab\nc", "d\n", "\nef"] {
        seen.extend(d.push_chunk(chunk));
    }
    seen.push(d.take_rest().unwrap_or_default());
    assert_eq!(seen.join("\n"), "ab\ncd\n\nef");
}

#[test]
fn data_lines_carry_payloads() {
    assert_eq!(line_payload("data: {\"x\":1}"), Some("{\"x\":1}".to_string()));
    assert_eq!(line_payload("data: [DONE]"), None);
    assert_eq!(line_payload(": keep-alive"), None);
}

#[test]
fn content_and_reasoning_become_tokens_and_thinking() {
    let mut d = StreamDecoder::new();
    let events = d.handle_payload(&delta(obj(vec![("content", s("Hello")), ("reasoning_content", s("hmm"))])));
    assert_eq!(events.len(), 2);
    assert!(matches!(&events[0], StreamEvent::Token(t) if t == "Hello"));
    assert!(matches!(&events[1], StreamEvent::Thinking(t) if t == "hmm"));
}

#[test]
fn payloads_without_a_delta_give_nothing() {
    let mut d = StreamDecoder::new();
    assert!(d.handle_payload(&obj(vec![("choices", Json::Array(Vec::new()))])).is_empty());
    assert!(d.handle_payload(&Json::Null).is_empty());
}

#[test]
fn tool_call_fragments_are_assembled() {
    let mut d = StreamDecoder::new();
    let first = delta(obj(vec![(
        "tool_calls",
        Json::Array(vec![obj(vec![
            ("index", Json::Number(Some(0))),
            ("id", s("call_1")),
            ("function", obj(vec![("name", s("Read")), ("arguments", s("{\"filePath\":"))])),
        ])]),
    )]));
    assert!(d.handle_payload(&first).is_empty());
    let second = delta(obj(vec![(
        "tool_calls",
        Json::Array(vec![obj(vec![
            ("index", Json::Number(Some(0))),
            ("function", obj(vec![("arguments", s("\"a.txt\"}"))])),
        ])]),
    )]));
    let events = d.handle_payload(&second);
    assert_eq!(events.len(), 1);
    match &events[0] {
        StreamEvent::ToolCall(c) => {
            assert_eq!(c.id, "call_1");
            assert_eq!(c.call_type, "function");
            assert_eq!(c.function.name, "Read");
            assert_eq!(c.function.arguments, "{\"filePath\":\"a.txt\"}");
        },
        _ => panic!("expected a tool call"),
    }
    assert!(d.finish().is_empty());
}

#[test]
fn unfinished_tool_calls_are_sent_at_the_end_when_their_arguments_parse() {
    let mut d = StreamDecoder::new();
    let frag = delta(obj(vec![(
        "tool_calls",
        Json::Array(vec![
            obj(vec![("index", Json::Number(Some(0))), ("function", obj(vec![("name", s("Glob")), ("arguments", s("{}"))]))]),
            obj(vec![("index", Json::Number(Some(1))), ("id", s("x")), ("function", obj(vec![("name", s("Bash")), ("arguments", s("{\"comm"))]))]),
        ]),
    )]));
    assert!(d.handle_payload(&frag).is_empty());
    let events = d.finish();
    assert_eq!(events.len(), 1);
    assert!(matches!(&events[0], StreamEvent::ToolCall(c) if c.function.name == "Glob" && c.id == "" && c.function.arguments == "{}"));
}

#[test]
fn xml_tool_calls_are_recognised() {
    assert!(has_xml_tool_calls("x <tool_call>y</tool_call>"));
    assert!(has_xml_tool_calls("<toolcall></toolcall>"));
    assert!(!has_xml_tool_calls("<tool_call> only opened"));
    let calls = parse_xml_tool_calls("<tool_call><function=Read><parameter=filePath> README.md </parameter></function></tool_call>");
    assert_eq!(calls.len(), 1);
    assert_eq!(calls[0].id, "call_0");
    assert_eq!(calls[0].call_type, "function");
    assert_eq!(calls[0].function.name, "Read");
    assert_eq!(calls[0].function.arguments, "{\"filePath\":\"README.md\"}");
}

#[test]
fn several_xml_tool_calls_are_numbered() {
    let calls = parse_xml_tool_calls("<toolcall><function=Glob><parameter=pattern>*.rs</parameter></toolcall> and <toolcall><function=Bash></toolcall>");
    assert_eq!(calls.len(), 2);
    assert_eq!(calls[0].id, "call_0");
    assert_eq!(calls[0].function.arguments, "{\"pattern\":\"*.rs\"}");
    assert_eq!(calls[1].id, "call_1");
    assert_eq!(calls[1].function.name, "Bash");
    assert_eq!(calls[1].function.arguments, "{}");
}

#[test]
fn xml_tool_calls_are_stripped_from_display() {
    let shown = strip_xml_tool_calls("Let me look.\n<tool_call>\n<function=Read>\n</tool_call>\n\nDone");
    assert_eq!(shown, "Let me look.\nDone\n");
}

#[test]
fn xml_tool_calls_in_content_are_sent_as_calls() {
    let mut d = StreamDecoder::new();
    let events = d.handle_payload(&delta(obj(vec![(
        "content",
        s("Sure.\n<tool_call>\n<function=Read><parameter=filePath>a</parameter></function>\n</tool_call>"),
    )])));
    assert_eq!(events.len(), 2);
    assert!(matches!(&events[0], StreamEvent::ToolCall(c) if c.function.name == "Read"));
    assert!(matches!(&events[1], StreamEvent::Token(t) if t == "Sure.\n"));
}

#[test]
fn text_after_a_one_line_tool_call_is_kept() {
    assert_eq!(strip_xml_tool_calls("<tool_call><function=Read></function></tool_call>\nafter"), "after\n");
    assert_eq!(strip_xml_tool_calls("before\n<toolcall><function=Glob></toolcall>\nafter"), "before\nafter\n");
}

#[test]
fn cutting_the_stream_differently_gives_the_same_lines() {
    let text = "data: a\n\ndata: bé\ndata: [DONE]\ntail";
    let whole = {
        let mut d = StreamDecoder::new();
        let mut seen = d.push_chunk(text);
        seen.push(d.take_rest().unwrap_or_default());
        seen
    };
    for cut in [1, 5, 8, 12, 20, 30] {
        let mut d = StreamDecoder::new();
        let mut seen = Vec::new();
        let (a, b) = text.split_at(cut);
        seen.extend(d.push_chunk(a));
        seen.extend(d.push_chunk(b));
        seen.push(d.take_rest().unwrap_or_default());
        assert_eq!(seen, whole);
    }
}

#[test]
fn data_lines_are_parsed_and_handled() {
    let mut d = StreamDecoder::new();
    let events = d.parse_line("data: {\"choices\":[{\"delta\":{\"content\":\"Hi\"}}]}");
    assert_eq!(events.len(), 1);
    assert!(matches!(&events[0], StreamEvent::Token(t) if t == "Hi"));
}

#[test]
fn other_lines_give_no_events() {
    let mut d = StreamDecoder::new();
    assert!(d.parse_line("data: [DONE]").is_empty());
    assert!(d.parse_line("data: {not json").is_empty());
    assert!(d.parse_line(": keep-alive").is_empty());
    assert!(d.parse_line("").is_empty());
}

#[test]
fn tool_call_fragments_arrive_over_lines() {
    let mut d = StreamDecoder::new();
    let first = "data: {\"choices\":[{\"delta\":{\"tool_calls\":[{\"index\":0,\"id\":\"c1\",\"function\":{\"name\":\"Read\",\"arguments\":\"{\\\"a\\\":\"}}]}}]}";
    assert!(d.parse_line(first).is_empty());
    let second = "data: {\"choices\":[{\"delta\":{\"tool_calls\":[{\"index\":0,\"function\":{\"arguments\":\"1}\"}}]}}]}";
    let events = d.parse_line(second);
    assert_eq!(events.len(), 1);
    match &events[0] {
        StreamEvent::ToolCall(c) => {
            assert_eq!(c.id, "c1");
            assert_eq!(c.function.name, "Read");
            assert_eq!(c.function.arguments, "{\"a\":1}");
        }
        _ => panic!("expected a tool call"),
    }
    assert!(d.finish().is_empty());
}

#[test]
fn object_members_reads_objects_only() {
    let m = object_members("{\"path\":\"a.txt\",\"limit\":5,\"neg\":-1}");
    assert_eq!(m.len(), 3);
    assert!(m.iter().any(|(k, v)| k == "path" && matches!(v, Json::Str(t) if t == "a.txt")));
    assert!(m.iter().any(|(k, v)| k == "limit" && matches!(v, Json::Number(Some(5)))));
    assert!(m.iter().any(|(k, v)| k == "neg" && matches!(v, Json::Number(None))));
    assert!(object_members("[1, 2]").is_empty());
    assert!(object_members("not json").is_empty());
    assert!(object_members("{}").is_empty());
}

fn decode_all(chunks: &[&str]) -> Vec<StreamEvent> {
    let mut d = StreamDecoder::new();
    let mut events = Vec::new();
    for c in chunks {
        events.extend(d.decode_chunk(c));
    }
    events.extend(d.end_of_stream());
    events
}

fn describe(events: &[StreamEvent]) -> Vec<String> {
    events
        .iter()
        .map(|e| match e {
            StreamEvent::Token(t) => format!("token {}", t),
            StreamEvent::Thinking(t) => format!("thinking {}", t),
            StreamEvent::ToolCall(c) => format!("call {} {} {}", c.id, c.function.name, c.function.arguments),
            StreamEvent::Done => "done".to_string(),
            _ => "other".to_string(),
        })
        .collect()
}

#[test]
fn chunks_decode_their_complete_lines() {
    let mut d = StreamDecoder::new();
    let first = d.decode_chunk("data: {\"choices\":[{\"delta\":{\"content\":\"a\"}}]}\ndata: {\"cho");
    assert_eq!(describe(&first), vec!["token a".to_string()]);
    let second = d.decode_chunk("ices\":[{\"delta\":{\"content\":\"b\"}}]}\n");
    assert_eq!(describe(&second), vec!["token b".to_string()]);
    assert_eq!(describe(&d.end_of_stream()), vec!["done".to_string()]);
}

#[test]
fn the_stream_ends_with_its_rest_its_calls_and_done() {
    let mut d = StreamDecoder::new();
    let frag = "data: {\"choices\":[{\"delta\":{\"tool_calls\":[{\"index\":3,\"id\":\"k\",\"function\":{\"name\":\"Glob\",\"arguments\":\"{}\"}}]}}]}\n";
    let events = d.decode_chunk(frag);
    assert_eq!(describe(&events), vec!["call k Glob {}".to_string()]);
    assert!(d.decode_chunk("data: {\"choices\":[{\"delta\":{\"content\":\"end\"}}]}").is_empty());
    assert_eq!(describe(&d.end_of_stream()), vec!["token end".to_string(), "done".to_string()]);
}

#[test]
fn chunking_does_not_change_the_events() {
    let body = "data: {\"choices\":[{\"delta\":{\"content\":\"Hi\"}}]}\n\ndata: {\"choices\":[{\"delta\":{\"reasoning_content\":\"hm\"}}]}\ndata: [DONE]\n";
    let whole = describe(&decode_all(&[body]));
    assert_eq!(whole, vec!["token Hi".to_string(), "thinking hm".to_string(), "done".to_string()]);
    for cut in 0..body.len() {
        if body.is_char_boundary(cut) {
            let (a, b) = body.split_at(cut);
            assert_eq!(describe(&decode_all(&[a, b])), whole);
        }
    }
    let bytes: Vec<String> = body.chars().map(|c| c.to_string()).collect();
    let pieces: Vec<&str> = bytes.iter().map(|s| s.as_str()).collect();
    assert_eq!(describe(&decode_all(&pieces)), whole);
}
