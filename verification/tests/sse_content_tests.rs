use pact_sse_plugin::rules::MatchRule;
use pact_sse_plugin::sse_content::{
    compare_sse_events, data_path_of, format_sse_content, parse_sse_content, SseEvent,
};

fn event(event: Option<&str>, id: Option<&str>, data: &str, retry: Option<u64>) -> SseEvent {
    SseEvent {
        event: event.map(|s| s.to_string()),
        id: id.map(|s| s.to_string()),
        data: data.to_string(),
        retry,
    }
}

fn same(a: &SseEvent, b: &SseEvent) -> bool {
    a.event == b.event && a.id == b.id && a.data == b.data && a.retry == b.retry
}

#[test]
fn parse_basic_events() {
    let events = SseEvent::parse("id:1\nevent:count\ndata:100\n\nid:2\ndata:hello\n\n");
    assert_eq!(events.len(), 2);
    assert_eq!(events[0].id.as_deref(), Some("1"));
    assert_eq!(events[0].event.as_deref(), Some("count"));
    assert_eq!(events[0].data, "100");
    assert_eq!(events[0].retry, None);
    assert_eq!(events[1].id.as_deref(), Some("2"));
    assert_eq!(events[1].event, None);
    assert_eq!(events[1].data, "hello");
}

#[test]
fn parse_retry_and_event_type() {
    let events = SseEvent::parse("retry:3000\nevent:ping\ndata:pong\n\n");
    assert_eq!(events.len(), 1);
    assert_eq!(events[0].retry, Some(3000));
    assert_eq!(events[0].event.as_deref(), Some("ping"));
    assert_eq!(events[0].data, "pong");
}

#[test]
fn parse_trims_id_and_event_but_not_data() {
    let events = SseEvent::parse("id:  7 \nevent:\tuser \ndata: id: 12, name: John\n\n");
    assert_eq!(events.len(), 1);
    assert_eq!(events[0].id.as_deref(), Some("7"));
    assert_eq!(events[0].event.as_deref(), Some("user"));
    assert_eq!(events[0].data, " id: 12, name: John");
}

#[test]
fn parse_joins_data_lines() {
    let events = SseEvent::parse("data:simple text\ndata:other text\n\n");
    assert_eq!(events.len(), 1);
    assert_eq!(events[0].data, "simple text\nother text");
}

#[test]
fn parse_empty_first_data_line_is_kept() {
    let events = SseEvent::parse("data:\ndata:x\n\n");
    assert_eq!(events[0].data, "\nx");
}

#[test]
fn parse_skips_comments_unknown_fields_and_blank_runs() {
    let events = SseEvent::parse(":comment\n\n\nfoo:bar\ndata:a\n\n\n\n");
    assert_eq!(events.len(), 1);
    assert_eq!(events[0].data, "a");
}

#[test]
fn parse_handles_carriage_returns() {
    let events = SseEvent::parse("event:count\r\ndata:34\r\r\n\r\n");
    assert_eq!(events.len(), 1);
    assert_eq!(events[0].event.as_deref(), Some("count"));
    assert_eq!(events[0].data, "34");
}

#[test]
fn parse_drops_unterminated_event() {
    let events = SseEvent::parse("data:first\n\ndata:second");
    assert_eq!(events.len(), 1);
    assert_eq!(events[0].data, "first");
}

#[test]
fn parse_ignores_bad_retry() {
    let events = SseEvent::parse("retry:10\nretry:abc\nretry:99999999999999999999999\ndata:x\n\n");
    assert_eq!(events[0].retry, Some(10));
    let events = SseEvent::parse("retry: 20 \n\n");
    assert_eq!(events.len(), 1);
    assert_eq!(events[0].retry, Some(20));
    assert_eq!(events[0].data, "");
}

#[test]
fn parse_provider_stream() {
    let content = "id:901\nretry:20\n\ndata: I read this book many times\n\nevent:count\ndata:34\n\ndata: Last time I read it\n\nevent:time\ndata:2015-02-21\n\nevent:user\ndata: id: 12, name: John\n\n";
    let events = SseEvent::parse(content);
    assert_eq!(events.len(), 6);
    assert_eq!(events[0].id.as_deref(), Some("901"));
    assert_eq!(events[0].retry, Some(20));
    assert_eq!(events[0].data, "");
    assert_eq!(events[2].event.as_deref(), Some("count"));
    assert_eq!(events[4].data, "2015-02-21");
}

#[test]
fn format_event_text() {
    let e = event(Some("message"), None, "Hello from SSE mock server!", Some(3000));
    assert_eq!(e.format(), "event:message\nretry:3000\ndata:Hello from SSE mock server!\n\n");
    let e = event(Some("count"), Some("1"), "a\nb", None);
    assert_eq!(e.format(), "id:1\nevent:count\ndata:a\ndata:b\n\n");
    let e = event(None, None, "", None);
    assert_eq!(e.format(), "data:\n\n");
}

#[test]
fn format_content_concatenates_events() {
    let events = vec![event(None, Some("1"), "x", None), event(None, None, "y", Some(5))];
    let bytes = format_sse_content(&events);
    assert_eq!(String::from_utf8(bytes).unwrap(), "id:1\ndata:x\n\nretry:5\ndata:y\n\n");
    assert!(format_sse_content(&vec![]).is_empty());
}

#[test]
fn format_then_parse_gives_events_back() {
    let events = vec![
        event(Some("count"), Some("100"), "simple text\nother text", Some(3000)),
        event(None, None, "", None),
        event(Some("user"), None, " id: 123, name: Bob", None),
        event(None, Some("a b"), "\n\nx\n", Some(0)),
    ];
    let bytes = format_sse_content(&events);
    let back = parse_sse_content(&bytes).ok().unwrap();
    assert_eq!(back.len(), events.len());
    for (a, b) in events.iter().zip(back.iter()) {
        assert!(same(a, b));
    }
}

#[test]
fn parse_format_parse_is_stable() {
    let text = "id: 5 \r\ndata:a\r\r\ndata:b\n:c\nretry:x\n\nevent:e\ndata:z\n\n";
    let first = SseEvent::parse(text);
    let again = SseEvent::parse(&String::from_utf8(format_sse_content(&first)).unwrap());
    assert_eq!(first.len(), again.len());
    for (a, b) in first.iter().zip(again.iter()) {
        assert!(same(a, b));
    }
}

#[test]
fn parse_content_rejects_invalid_utf8() {
    let err = parse_sse_content(&[0x64, 0xff, 0x0a]).err().unwrap();
    assert_eq!(err.message(), "content is not valid UTF-8");
    let ok = parse_sse_content("data:é\n\n".as_bytes()).ok().unwrap();
    assert_eq!(ok[0].data, "é");
}

#[test]
fn compare_identical_streams_finds_nothing() {
    let events = SseEvent::parse("id:1\ndata:a\n\ndata:b\n\n");
    let copy = SseEvent::parse("id:1\ndata:a\n\ndata:b\n\n");
    assert!(compare_sse_events(&events, &copy, &vec![]).is_empty());
}

#[test]
fn compare_reports_unmatched_event() {
    let expected = SseEvent::parse("data:a\n\ndata:b\n\n");
    let actual = SseEvent::parse("data:a\n\ndata:c\n\n");
    let ms = compare_sse_events(&expected, &actual, &vec![]);
    assert_eq!(ms.len(), 1);
    assert_eq!(ms[0].mismatch, "No actual SSE event matches expected event 1");
    assert_eq!(ms[0].path, "$[1]");
    assert_eq!(ms[0].mismatch_type, "body");
    assert_eq!(ms[0].diff, "");
    assert_eq!(ms[0].expected.as_deref(), Some("data:b\n\n".as_bytes()));
    assert_eq!(ms[0].actual, None);
}

#[test]
fn compare_ignores_order_and_extra_events() {
    let expected = SseEvent::parse("data:b\n\ndata:a\n\n");
    let actual = SseEvent::parse("data:a\n\ndata:x\n\ndata:b\n\n");
    assert!(compare_sse_events(&expected, &actual, &vec![]).is_empty());
    let none: Vec<SseEvent> = Vec::new();
    let ms = compare_sse_events(&expected, &none, &vec![]);
    assert_eq!(ms.len(), 2);
    assert_eq!(ms[0].path, "$[0]");
    assert_eq!(ms[1].path, "$[1]");
}

#[test]
fn compare_type_rule_accepts_any_text() {
    let expected = SseEvent::parse("data:100\n\n");
    let actual = SseEvent::parse("data:aa\n\n");
    let rules = vec![("$.data".to_string(), vec![MatchRule::Type])];
    assert!(compare_sse_events(&expected, &actual, &rules).is_empty());
    assert_eq!(compare_sse_events(&expected, &actual, &vec![]).len(), 1);
}

#[test]
fn compare_typed_event_rules() {
    let expected = SseEvent::parse("event:count\ndata:100\n\n");
    let rules = vec![("$.data.count".to_string(), vec![MatchRule::Number])];
    let good = SseEvent::parse("event:count\ndata:12\n\n");
    assert!(compare_sse_events(&expected, &good, &rules).is_empty());
    let bad = SseEvent::parse("event:count\ndata:x\n\n");
    assert_eq!(compare_sse_events(&expected, &bad, &rules).len(), 1);
    let other_type = SseEvent::parse("event:time\ndata:12\n\n");
    assert_eq!(compare_sse_events(&expected, &other_type, &rules).len(), 1);
}

#[test]
fn compare_id_and_retry_rules() {
    let expected = SseEvent::parse("id:100\nretry:3000\n\n");
    let rules = vec![
        ("$.id".to_string(), vec![MatchRule::Number]),
        ("$.retry".to_string(), vec![MatchRule::Integer]),
    ];
    let actual = SseEvent::parse("id:7\nretry:12\n\n");
    assert!(compare_sse_events(&expected, &actual, &rules).is_empty());
    assert_eq!(compare_sse_events(&expected, &actual, &vec![]).len(), 1);
    let no_id = SseEvent::parse("retry:12\n\n");
    assert_eq!(compare_sse_events(&expected, &no_id, &rules).len(), 1);
}

#[test]
fn data_paths() {
    assert_eq!(data_path_of(&None), "$.data");
    assert_eq!(data_path_of(&Some("count".to_string())), "$.data.count");
    assert_eq!(data_path_of(&Some("_a1".to_string())), "$.data._a1");
    assert_eq!(data_path_of(&Some("a b".to_string())), "$.data['a b']");
    assert_eq!(data_path_of(&Some("1a".to_string())), "$.data['1a']");
    assert_eq!(data_path_of(&Some("it's".to_string())), "$.data['it\\'s']");
}
