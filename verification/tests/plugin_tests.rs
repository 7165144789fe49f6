use pact_sse_plugin::json::{get, to_object, to_value, JsonValue, ProtoKind, ProtoStruct, ProtoValue};
use pact_sse_plugin::mock_server::{
    accept_step, greeting, AcceptAction, AcceptEvent, mock_server_address, sse_connection_output, MockServerRegistry,
};
use pact_sse_plugin::plugin::{
    compare_contents, configure_interaction, generate_content, init_plugin,
    prepare_interaction_for_verification, Body, ContentTypeHint, EntryType, MarkupType,
    RuleRequest,
};
use pact_sse_plugin::rules::AttributeValue;
use pact_sse_plugin::sse_content::SseEvent;

fn body(content: Option<&[u8]>) -> Body {
    Body {
        content_type: "text/event-stream".to_string(),
        content: content.map(|c| c.to_vec()),
        content_type_hint: ContentTypeHint::Default,
    }
}

fn string_value(s: &str) -> ProtoValue {
    ProtoValue { kind: Some(ProtoKind::StringValue(s.to_string())) }
}

fn struct_value(fields: Vec<(&str, ProtoValue)>) -> ProtoValue {
    ProtoValue { kind: Some(ProtoKind::StructValue(proto_struct(fields))) }
}

fn proto_struct(fields: Vec<(&str, ProtoValue)>) -> ProtoStruct {
    ProtoStruct { fields: fields.into_iter().map(|(k, v)| (k.to_string(), v)).collect() }
}

#[test]
fn catalogue_entries() {
    let r = init_plugin();
    assert_eq!(r.catalogue.len(), 3);
    assert!(matches!(r.catalogue[0].entry_type, EntryType::Transport));
    assert!(matches!(r.catalogue[1].entry_type, EntryType::ContentMatcher));
    assert!(matches!(r.catalogue[2].entry_type, EntryType::ContentGenerator));
    for entry in &r.catalogue {
        assert_eq!(entry.key, "sse");
    }
    assert!(r.catalogue[0].values.is_empty());
    for entry in &r.catalogue[1..] {
        assert_eq!(entry.values, vec![("content-types".to_string(), "text/event-stream".to_string())]);
    }
}

#[test]
fn compare_contents_same_stream() {
    let c = b"id:1\ndata:a\n\n";
    let r = compare_contents(&Some(body(Some(c))), &Some(body(Some(c))), &vec![]).ok().unwrap();
    assert_eq!(r.error, "");
    assert_eq!(r.results.len(), 1);
    assert_eq!(r.results[0].0, "");
    assert!(r.results[0].1.is_empty());
}

#[test]
fn compare_contents_different_streams() {
    let r = compare_contents(&Some(body(Some(b"data:a\n\n"))), &Some(body(Some(b"data:b\n\n"))), &vec![])
        .ok()
        .unwrap();
    assert_eq!(r.results[0].1.len(), 1);
    assert_eq!(r.results[0].1[0].path, "$[0]");
}

#[test]
fn compare_contents_errors() {
    let e = compare_contents(&Some(body(None)), &Some(body(Some(b"data:a\n\n"))), &vec![]).err().unwrap();
    assert_eq!(e, "No expected content");
    let e = compare_contents(&Some(body(Some(b"data:a\n\n"))), &Some(body(None)), &vec![]).err().unwrap();
    assert_eq!(e, "No actual content");
    let e = compare_contents(&Some(body(Some(&[0xff]))), &Some(body(Some(b""))), &vec![]).err().unwrap();
    assert_eq!(e, "Failed to parse expected SSE: content is not valid UTF-8");
    let e = compare_contents(&Some(body(Some(b""))), &Some(body(Some(&[0xc3]))), &vec![]).err().unwrap();
    assert_eq!(e, "Failed to parse actual SSE: content is not valid UTF-8");
}

#[test]
fn compare_contents_unexpected_body() {
    let r = compare_contents(&None, &Some(body(Some(b"data:a\n\n"))), &vec![]).ok().unwrap();
    assert_eq!(r.results.len(), 1);
    let m = &r.results[0].1[0];
    assert_eq!(m.mismatch, "Expected no SSE content, but got 8 bytes");
    assert_eq!(m.expected, None);
    assert_eq!(m.actual.as_deref(), Some(&b"data:a\n\n"[..]));
    assert_eq!(m.path, "");
    assert_eq!(m.mismatch_type, "body");
}

#[test]
fn compare_contents_missing_body() {
    let r = compare_contents(&Some(body(Some(b"data:a\n\n"))), &None, &vec![]).ok().unwrap();
    let m = &r.results[0].1[0];
    assert_eq!(m.mismatch, "Expected SSE content, but did not get any");
    assert_eq!(m.expected.as_deref(), Some(&b"data:a\n\n"[..]));
    assert_eq!(m.actual, None);
}

#[test]
fn compare_contents_no_bodies() {
    let r = compare_contents(&None, &None, &vec![]).ok().unwrap();
    assert!(r.results.is_empty());
}

#[test]
fn configure_interaction_with_data() {
    let config = proto_struct(vec![(
        "response",
        struct_value(vec![("data", string_value("event:count\ndata:1\n\ndata:two\nlines\n\n"))]),
    )]);
    let r = configure_interaction(&config);
    assert_eq!(r.error, "");
    assert_eq!(r.interaction.len(), 1);
    let part = &r.interaction[0];
    assert_eq!(part.part_name, "response");
    assert_eq!(part.interaction_markup, "");
    assert!(matches!(part.interaction_markup_type, MarkupType::CommonMark));
    let b = part.contents.as_ref().unwrap();
    assert_eq!(b.content_type, "text/event-stream");
    assert!(matches!(b.content_type_hint, ContentTypeHint::Default));
    assert_eq!(
        String::from_utf8(b.content.clone().unwrap()).unwrap(),
        "event:count\ndata:1\n\ndata:two\n\n"
    );
}

#[test]
fn configure_interaction_without_data() {
    let no_response = proto_struct(vec![("request", struct_value(vec![]))]);
    assert!(configure_interaction(&no_response).interaction.is_empty());
    let not_a_struct = proto_struct(vec![("response", string_value("data:x\n\n"))]);
    assert!(configure_interaction(&not_a_struct).interaction.is_empty());
    let data_not_string = proto_struct(vec![(
        "response",
        struct_value(vec![("data", ProtoValue { kind: Some(ProtoKind::BoolValue(true)) })]),
    )]);
    assert!(configure_interaction(&data_not_string).interaction.is_empty());
}

#[test]
fn generate_content_rewrites_events() {
    let r = generate_content(&b"retry: 3000\r\nevent: count \r\ndata:100\r\n\r\n".to_vec());
    let b = r.contents.unwrap();
    assert_eq!(b.content_type, "text/event-stream");
    assert_eq!(String::from_utf8(b.content.unwrap()).unwrap(), "event:count\nretry:3000\ndata:100\n\n");
}

#[test]
fn generate_content_replaces_invalid_utf8() {
    let r = generate_content(&vec![b'd', b'a', b't', b'a', b':', 0xff, b'\n', b'\n']);
    let out = r.contents.unwrap().content.unwrap();
    assert_eq!(String::from_utf8(out).unwrap(), "data:\u{fffd}\n\n");
}

#[test]
fn generate_content_is_stable() {
    let first = generate_content(&b"id: 9\ndata:a\ndata:b\n:x\n\ndata:c".to_vec()).contents.unwrap().content.unwrap();
    let second = generate_content(&first).contents.unwrap().content.unwrap();
    assert_eq!(first, second);
    assert_eq!(String::from_utf8(first).unwrap(), "id:9\ndata:a\ndata:b\n\n");
}

#[test]
fn prepare_interaction_has_empty_body() {
    let r = prepare_interaction_for_verification();
    let b = r.body.unwrap();
    assert_eq!(b.content_type, "text/event-stream");
    assert!(b.content.is_none());
}

#[test]
fn json_conversion() {
    let nan = f64::NAN.to_bits();
    let inf = f64::INFINITY.to_bits();
    let num = 1.5f64.to_bits();
    let v = struct_value(vec![
        ("a", ProtoValue { kind: Some(ProtoKind::NumberValue(num)) }),
        ("b", ProtoValue { kind: Some(ProtoKind::NumberValue(nan)) }),
        ("c", ProtoValue { kind: Some(ProtoKind::NumberValue(inf)) }),
        ("d", ProtoValue { kind: None }),
        ("e", ProtoValue { kind: Some(ProtoKind::ListValue(vec![string_value("x"), ProtoValue { kind: Some(ProtoKind::NullValue) }])) }),
        ("f", ProtoValue { kind: Some(ProtoKind::BoolValue(false)) }),
    ]);
    match to_value(&v) {
        JsonValue::Object(entries) => {
            assert_eq!(entries.len(), 6);
            assert!(matches!(entries[0].1, JsonValue::Number(b) if b == num));
            assert!(matches!(entries[1].1, JsonValue::Null));
            assert!(matches!(entries[2].1, JsonValue::Null));
            assert!(matches!(entries[3].1, JsonValue::Null));
            match &entries[4].1 {
                JsonValue::Array(items) => {
                    assert!(matches!(&items[0], JsonValue::String(s) if s == "x"));
                    assert!(matches!(items[1], JsonValue::Null));
                }
                _ => panic!("expected an array"),
            }
            assert!(matches!(entries[5].1, JsonValue::Bool(false)));
            assert!(matches!(get(&entries, "f"), Some(JsonValue::Bool(false))));
            assert!(get(&entries, "z").is_none());
        }
        _ => panic!("expected an object"),
    }
}

#[test]
fn json_lookup_takes_last_entry() {
    let s = proto_struct(vec![("k", string_value("first")), ("k", string_value("second"))]);
    match to_object(&s) {
        JsonValue::Object(entries) => {
            assert!(matches!(get(&entries, "k"), Some(JsonValue::String(v)) if v == "second"));
        }
        _ => panic!("expected an object"),
    }
}

#[test]
fn registry_tracks_started_servers() {
    let mut registry = MockServerRegistry::new();
    let key = registry.start_mock_server("127.0.0.1".to_string(), 8080, "{}".to_string());
    assert_eq!(key.len(), 36);
    for (i, c) in key.chars().enumerate() {
        if i == 8 || i == 13 || i == 18 || i == 23 {
            assert_eq!(c, '-');
        } else {
            assert!(c.is_ascii_digit() || ('a'..='f').contains(&c));
        }
    }
    assert_eq!(key.chars().nth(14), Some('4'));
    let server = registry.get(&key).unwrap();
    assert_eq!(server.port, 8080);
    assert_eq!(server.address, "127.0.0.1");
    assert_eq!(server.pact, "{}");
    let (ok, results) = registry.mock_server_results(&key);
    assert!(ok);
    assert!(results.is_empty());
    let other = registry.start_mock_server("::1".to_string(), 0, String::new());
    assert_ne!(key, other);
    assert_eq!(registry.get(&key).unwrap().port, 8080);
    assert_eq!(registry.get(&other).unwrap().address, "::1");
}

#[test]
fn registry_unknown_key() {
    let registry = MockServerRegistry::new();
    assert!(registry.get(&"missing".to_string()).is_none());
    let (ok, results) = registry.mock_server_results(&"missing".to_string());
    assert!(ok);
    assert!(results.is_empty());
}

#[test]
fn mock_server_address_format() {
    assert_eq!(mock_server_address(&"127.0.0.1".to_string(), 8080), "127.0.0.1:8080");
    assert_eq!(mock_server_address(&"0.0.0.0".to_string(), 0), "0.0.0.0:0");
}

#[test]
fn mock_server_connection_output() {
    let (head, event) = sse_connection_output();
    assert_eq!(
        String::from_utf8(head).unwrap(),
        "HTTP/1.1 200 OK\r\nContent-Type: text/event-stream\r\nCache-Control: no-cache\r\nConnection: keep-alive\r\n\r\n"
    );
    assert_eq!(
        String::from_utf8(event).unwrap(),
        "event:message\nretry:3000\ndata:Hello from SSE mock server!\n\n"
    );
    let g = greeting();
    assert_eq!(g.event.as_deref(), Some("message"));
    assert_eq!(g.retry, Some(3000));
}

fn rule(rule_type: &str, values: Option<Vec<(&str, AttributeValue)>>) -> RuleRequest {
    RuleRequest {
        rule_type: rule_type.to_string(),
        values: values.map(|vs| vs.into_iter().map(|(k, v)| (k.to_string(), v)).collect()),
    }
}

fn text(s: &str) -> AttributeValue {
    AttributeValue::Text(s.to_string())
}

fn text_of(values: &[(String, AttributeValue)], name: &str) -> Option<String> {
    values.iter().rev().find(|(k, _)| k == name).and_then(|(_, v)| match v {
        AttributeValue::Text(t) => Some(t.clone()),
        AttributeValue::Json(_) => None,
    })
}

fn consumer_config() -> ProtoStruct {
    proto_struct(vec![
        ("data", string_value("matching(type, 'simple text\nother text')")),
        ("data[count]", string_value("matching(number, 100)")),
        ("data[time]", string_value("matching(datetime, 'yyyy-MM-dd', '2000-01-01')")),
        ("data[user]", string_value("matching(regex, 'id: \\d+, name: \\w+', 'id: 123, name: Bob')")),
        ("event", string_value("matching(type, 'count')")),
        ("id", string_value("matching(number, 100)")),
        ("retry", string_value("matching(integer, 3000)")),
    ])
}

const PROVIDER_STREAM: &str = "id:100\nretry:3000\n\ndata: I am\n\nevent:user\ndata: id: 12, name: John\n\ndata: I have many books\n\nevent:count\ndata:12\n\ndata: I love this book. I read it many times\n\nevent:count\ndata:34\n\ndata: Last time I read it\n\nevent:time\ndata:2015-02-21\n\n";

#[test]
fn compare_contents_type_rule_accepts_other_text() {
    let rules = vec![("$.data".to_string(), vec![rule("type", Some(vec![]))])];
    let r = compare_contents(&Some(body(Some(b"data:100\n\n"))), &Some(body(Some(b"data:aa\n\n"))), &rules)
        .ok()
        .unwrap();
    assert_eq!(r.results.len(), 1);
    assert_eq!(r.results[0].0, "");
    assert!(r.results[0].1.is_empty());
}

#[test]
fn compare_contents_skips_rules_without_values() {
    let rules = vec![("$.data".to_string(), vec![rule("type", None)])];
    let r = compare_contents(&Some(body(Some(b"data:100\n\n"))), &Some(body(Some(b"data:aa\n\n"))), &rules)
        .ok()
        .unwrap();
    assert_eq!(r.results[0].1.len(), 1);
    assert_eq!(r.results[0].1[0].mismatch, "No actual SSE event matches expected event 0");
}

#[test]
fn compare_contents_regex_and_number_rules() {
    let rules = vec![
        ("$.data.user".to_string(), vec![rule("regex", Some(vec![("regex", text("^id: \\d+$"))]))]),
        ("$.data.count".to_string(), vec![rule("number", Some(vec![]))]),
    ];
    let expected = b"event:user\ndata:id: 1\n\nevent:count\ndata:5\n\n";
    let good = b"event:count\ndata:-2.5\n\nevent:user\ndata:id: 42\n\n";
    let r = compare_contents(&Some(body(Some(expected))), &Some(body(Some(good))), &rules).ok().unwrap();
    assert!(r.results[0].1.is_empty());
    let bad = b"event:count\ndata:five\n\nevent:user\ndata:name: x\n\n";
    let r = compare_contents(&Some(body(Some(expected))), &Some(body(Some(bad))), &rules).ok().unwrap();
    assert_eq!(r.results[0].1.len(), 2);
    assert_eq!(r.results[0].1[0].path, "$[0]");
    assert_eq!(r.results[0].1[1].path, "$[1]");
}

#[test]
fn configure_interaction_from_matching_expressions() {
    let r = configure_interaction(&consumer_config());
    assert_eq!(r.error, "");
    assert_eq!(r.interaction.len(), 1);
    let part = &r.interaction[0];
    assert_eq!(part.part_name, "response");
    let content = part.contents.as_ref().unwrap().content.clone().unwrap();
    let events = SseEvent::parse(&String::from_utf8(content).unwrap());
    let data: Vec<&str> = events.iter().map(|e| e.data.as_str()).collect();
    assert_eq!(data, vec!["simple text\nother text", "100", "2000-01-01", "id: 123, name: Bob"]);
    assert_eq!(events[0].id.as_deref(), Some("100"));
    assert_eq!(events[0].retry, Some(3000));
    assert_eq!(events[0].event, None);
    let names: Vec<Option<&str>> = events[1..].iter().map(|e| e.event.as_deref()).collect();
    assert_eq!(names, vec![Some("count"), Some("time"), Some("user")]);
    for e in &events[1..] {
        assert!(e.id.is_none() && e.retry.is_none());
    }
    let paths: Vec<&str> = part.rules.iter().map(|(p, _)| p.as_str()).collect();
    assert_eq!(paths, vec!["$.data", "$.data.count", "$.data.time", "$.data.user", "$.id", "$.retry"]);
    let types: Vec<&str> = part.rules.iter().map(|(_, rs)| rs[0].rule_type.as_str()).collect();
    assert_eq!(types, vec!["type", "number", "datetime", "regex", "number", "integer"]);
    for (_, rs) in &part.rules {
        let values = rs[0].values.as_ref().unwrap();
        assert_eq!(text_of(values, "match").as_deref(), Some(rs[0].rule_type.as_str()));
    }
    let time_values = part.rules[2].1[0].values.as_ref().unwrap();
    assert_eq!(text_of(time_values, "format").as_deref(), Some("yyyy-MM-dd"));
    let user_values = part.rules[3].1[0].values.as_ref().unwrap();
    assert_eq!(text_of(user_values, "regex").as_deref(), Some("id: \\d+, name: \\w+"));
}

#[test]
fn configure_interaction_without_data_entry() {
    let config = proto_struct(vec![
        ("data[count]", string_value("matching(number, 100)")),
        ("id", string_value("matching(number, 100)")),
        ("retry", string_value("matching(integer, 3000)")),
    ]);
    let r = configure_interaction(&config);
    let content = r.interaction[0].contents.as_ref().unwrap().content.clone().unwrap();
    let text = String::from_utf8(content).unwrap();
    assert!(text.starts_with("id:100\nretry:3000\n\n"));
    let events = SseEvent::parse(&text);
    assert_eq!(events.len(), 2);
    assert_eq!(events[0].data, "");
    assert_eq!(events[0].event, None);
    assert_eq!(events[1].event.as_deref(), Some("count"));
    assert_eq!(events[1].data, "100");
}

#[test]
fn configure_interaction_with_plain_values() {
    let config = proto_struct(vec![("data", string_value("hello")), ("other", string_value("x"))]);
    let r = configure_interaction(&config);
    assert_eq!(r.interaction.len(), 1);
    let content = r.interaction[0].contents.as_ref().unwrap().content.clone().unwrap();
    assert_eq!(String::from_utf8(content).unwrap(), "data:hello\n\n");
    assert!(r.interaction[0].rules.is_empty());
}

#[test]
fn provider_stream_matches_consumer_configuration() {
    let r = configure_interaction(&consumer_config());
    let part = &r.interaction[0];
    let expected = part.contents.as_ref().unwrap().content.clone().unwrap();
    let rules: Vec<(String, Vec<RuleRequest>)> = part.rules.clone();
    let actual = PROVIDER_STREAM.as_bytes();
    let result = compare_contents(&Some(body(Some(&expected))), &Some(body(Some(actual))), &rules)
        .ok()
        .unwrap();
    assert!(result.results[0].1.is_empty());
    let without_rules = compare_contents(&Some(body(Some(&expected))), &Some(body(Some(actual))), &vec![])
        .ok()
        .unwrap();
    assert_eq!(without_rules.results[0].1.len(), 4);
}

#[test]
fn compare_contents_min_type_rule_with_number() {
    let rules = vec![("$.data".to_string(), vec![rule("min-type", Some(vec![("min", AttributeValue::Json("1".to_string()))]))])];
    let r = compare_contents(&Some(body(Some(b"data:100\n\n"))), &Some(body(Some(b"data:aa\n\n"))), &rules)
        .ok()
        .unwrap();
    assert!(r.results[0].1.is_empty());
    let no_min = vec![("$.data".to_string(), vec![rule("min-type", Some(vec![]))])];
    let r = compare_contents(&Some(body(Some(b"data:100\n\n"))), &Some(body(Some(b"data:aa\n\n"))), &no_min)
        .ok()
        .unwrap();
    assert_eq!(r.results[0].1.len(), 1);
    let bad_json = vec![("$.data".to_string(), vec![rule("min-type", Some(vec![("min", AttributeValue::Json("{".to_string()))]))])];
    let r = compare_contents(&Some(body(Some(b"data:100\n\n"))), &Some(body(Some(b"data:aa\n\n"))), &bad_json)
        .ok()
        .unwrap();
    assert_eq!(r.results[0].1.len(), 1);
}

#[test]
fn compare_contents_rules_that_check_no_text_need_equality() {
    let rules = vec![("$.data".to_string(), vec![rule("semver", Some(vec![]))])];
    let same = compare_contents(&Some(body(Some(b"data:1.0.0\n\n"))), &Some(body(Some(b"data:1.0.0\n\n"))), &rules)
        .ok()
        .unwrap();
    assert!(same.results[0].1.is_empty());
    let other = compare_contents(&Some(body(Some(b"data:1.0.0\n\n"))), &Some(body(Some(b"data:2.0.0\n\n"))), &rules)
        .ok()
        .unwrap();
    assert_eq!(other.results[0].1.len(), 1);
}

#[test]
fn compare_contents_unsafe_datetime_format_accepts_nothing() {
    let rules = vec![("$.data".to_string(), vec![rule("datetime", Some(vec![("format", text("yyyyy-dd"))]))])];
    let r = compare_contents(&Some(body(Some(b"data:2000-01\n\n"))), &Some(body(Some(b"data:40000-01\n\n"))), &rules)
        .ok()
        .unwrap();
    assert_eq!(r.results[0].1.len(), 1);
}

#[test]
fn configure_interaction_collection_expressions_are_plain_text() {
    let config = proto_struct(vec![("data", string_value("eachKey(matching(type, 'x'))"))]);
    let r = configure_interaction(&config);
    let content = r.interaction[0].contents.as_ref().unwrap().content.clone().unwrap();
    assert_eq!(String::from_utf8(content).unwrap(), "data:eachKey(matching(type, 'x'))\n\n");
    assert!(r.interaction[0].rules.is_empty());
}

#[test]
fn accept_loop_stops_at_first_failure() {
    assert!(matches!(accept_step(AcceptEvent::Accepted), AcceptAction::ServeAndContinue));
    assert!(matches!(accept_step(AcceptEvent::Failed), AcceptAction::Stop));
}
