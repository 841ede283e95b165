use tool_stream::args::ToolArguments;
use tool_stream::events::{ParseErrorKind, ToolCallEvent};
use tool_stream::machine::{parse_events, parse_events_with, XmlStreamParser};
use tool_stream::model::ParserOptions;

fn run_chunks(chunks: &[&str]) -> Vec<ToolCallEvent> {
    let mut p = XmlStreamParser::new();
    let mut events = Vec::new();
    for chunk in chunks {
        p.feed(chunk);
        while let Some(e) = p.next_event() {
            events.push(e);
        }
    }
    events.extend(p.finish());
    events
}

fn per_char_chunks(s: &str) -> Vec<String> {
    s.chars().map(|c| c.to_string()).collect()
}

fn text_events(s: &str) -> Vec<ToolCallEvent> {
    s.chars().map(|c| ToolCallEvent::Text(c.to_string())).collect()
}

fn args_of(pairs: &[(&str, &str)]) -> ToolArguments {
    let mut a = ToolArguments::new();
    for (k, v) in pairs {
        a.insert(k.to_string(), v.to_string());
    }
    a
}

fn weather_events() -> Vec<ToolCallEvent> {
    vec![
        ToolCallEvent::ToolStart { id: "tool_1".to_string(), name: "get_weather".to_string() },
        ToolCallEvent::Parameter {
            id: "tool_1".to_string(),
            arguments: args_of(&[
                ("location", "New York"),
                ("date", "tomorrow"),
                ("unit", "fahrenheit"),
            ]),
        },
        ToolCallEvent::ToolEnd { id: "tool_1".to_string() },
    ]
}

#[test]
fn test_stream_to_stream_only_text() {
    let input = "明日のニューヨークの天気ですね。承知いたしました。\n\n結果が取得でき次第、すぐにお知らせします。";
    let chunks = per_char_chunks(input);
    let refs: Vec<&str> = chunks.iter().map(|s| s.as_str()).collect();
    let events = run_chunks(&refs);
    assert_eq!(events, text_events(input));
}

#[test]
fn test_stream_to_stream_only_tool_call() {
    let input = "<get_weather>\n  <location>New York</location>\n  <date>tomorrow</date>\n  <unit>fahrenheit</unit>\n</get_weather>";
    let chunks = per_char_chunks(input);
    let refs: Vec<&str> = chunks.iter().map(|s| s.as_str()).collect();
    let events = run_chunks(&refs);
    assert_eq!(events, weather_events());
}

#[test]
fn test_stream_to_stream() {
    let head = "明日のニューヨークの天気ですね。承知いたしました。\n\n";
    let tail = "\n\n結果が取得でき次第、すぐにお知らせします。";
    let input = format!(
        "{}<get_weather>\n  <location>New York</location>\n  <date>tomorrow</date>\n  <unit>fahrenheit</unit>\n</get_weather>{}",
        head, tail
    );
    let chunks = per_char_chunks(&input);
    let refs: Vec<&str> = chunks.iter().map(|s| s.as_str()).collect();
    let events = run_chunks(&refs);
    let mut expected = text_events(head);
    expected.extend(weather_events());
    expected.extend(text_events(tail));
    assert_eq!(events, expected);
}

#[test]
fn test_stream_to_stream_2() {
    let head = "明日のニューヨークの天気ですね。承知いたしました。\n\n";
    let tail = "\n\n結果が取得でき次第、すぐにお知らせします。";
    let input = format!(
        "{}<get_weather>\n  <location>New York</location>\n  <date>tomorrow</date>\n  <unit>fahrenheit</unit>\n</get_weather>{}",
        head, tail
    );
    let chars: Vec<String> = input.chars().map(|c| c.to_string()).collect();
    let chunks: Vec<String> = chars.chunks(3).map(|c| c.join("")).collect();
    let refs: Vec<&str> = chunks.iter().map(|s| s.as_str()).collect();
    let events = run_chunks(&refs);
    let mut expected = text_events(head);
    expected.extend(weather_events());
    expected.extend(text_events(tail));
    assert_eq!(events, expected);
}

#[test]
fn test_write_to_file() {
    let head = "Okay, I will write the following content to the file.\n";
    let tail = "\nLet me know if that looks correct.";
    let input = format!(
        "{}<write_to_file>\n<path>src/main.rs</path>\n<content>\nfn main() {{\n    println!(\"Hello, world!\");\n}}\n</content>\n</write_to_file>{}",
        head, tail
    );
    let chunks = per_char_chunks(&input);
    let refs: Vec<&str> = chunks.iter().map(|s| s.as_str()).collect();
    let events = run_chunks(&refs);
    let mut expected = text_events(head);
    expected.push(ToolCallEvent::ToolStart {
        id: "tool_1".to_string(),
        name: "write_to_file".to_string(),
    });
    expected.push(ToolCallEvent::Parameter {
        id: "tool_1".to_string(),
        arguments: args_of(&[
            ("path", "src/main.rs"),
            ("content", "fn main() {\n    println!(\"Hello, world!\");\n}"),
        ]),
    });
    expected.push(ToolCallEvent::ToolEnd { id: "tool_1".to_string() });
    expected.extend(text_events(tail));
    assert_eq!(events, expected);
}

#[test]
fn empty_tool_emits_start_and_end_only() {
    let events = parse_events("<ping></ping>");
    assert_eq!(
        events,
        vec![
            ToolCallEvent::ToolStart { id: "tool_1".to_string(), name: "ping".to_string() },
            ToolCallEvent::ToolEnd { id: "tool_1".to_string() },
        ]
    );
}

#[test]
fn chunk_boundary_mid_tag_changes_nothing() {
    let whole = parse_events("<get_weather><x>1</x></get_weather>");
    let split = run_chunks(&["<get_", "weather><x>1</x></get_weather>"]);
    assert_eq!(whole, split);
    assert_eq!(
        whole,
        vec![
            ToolCallEvent::ToolStart { id: "tool_1".to_string(), name: "get_weather".to_string() },
            ToolCallEvent::Parameter { id: "tool_1".to_string(), arguments: args_of(&[("x", "1")]) },
            ToolCallEvent::ToolEnd { id: "tool_1".to_string() },
        ]
    );
}

#[test]
fn prose_only_is_one_text_event_per_character() {
    let events = parse_events("just prose");
    assert_eq!(events.len(), 10);
    assert_eq!(events, text_events("just prose"));
}

#[test]
fn empty_trailing_chunk_leaves_no_artifacts() {
    let reference = run_chunks(&["<a><b>1</b>"]);
    let with_empty = run_chunks(&["<a><b>1</b>", ""]);
    assert_eq!(reference, with_empty);
    assert_eq!(
        reference,
        vec![
            ToolCallEvent::ToolStart { id: "tool_1".to_string(), name: "a".to_string() },
            ToolCallEvent::Parameter { id: "tool_1".to_string(), arguments: args_of(&[("b", "1")]) },
            ToolCallEvent::ToolEnd { id: "tool_1".to_string() },
        ]
    );
}

#[test]
fn replay_with_fresh_parser_is_identical_and_ids_restart() {
    let input = "a<t><k>v</k></t>b";
    let first = parse_events(input);
    let second = parse_events(input);
    assert_eq!(first, second);
    assert!(first.contains(&ToolCallEvent::ToolStart {
        id: "tool_1".to_string(),
        name: "t".to_string()
    }));
}

#[test]
fn identifiers_increase_across_tools() {
    let events = parse_events("<a></a><b></b>");
    assert_eq!(
        events,
        vec![
            ToolCallEvent::ToolStart { id: "tool_1".to_string(), name: "a".to_string() },
            ToolCallEvent::ToolEnd { id: "tool_1".to_string() },
            ToolCallEvent::ToolStart { id: "tool_2".to_string(), name: "b".to_string() },
            ToolCallEvent::ToolEnd { id: "tool_2".to_string() },
        ]
    );
}

#[test]
fn starts_and_ends_balance_on_messy_input() {
    let events = parse_events("<a><b>x</c>text</a><d><e>1");
    let starts = events
        .iter()
        .filter(|e| matches!(e, ToolCallEvent::ToolStart { .. }))
        .count();
    let ends = events
        .iter()
        .filter(|e| matches!(e, ToolCallEvent::ToolEnd { .. }))
        .count();
    assert_eq!(starts, ends);
}

#[test]
fn parameter_events_sit_between_start_and_end() {
    let events = parse_events("x<t><a>1</a><b>2</b></t>y");
    for (i, e) in events.iter().enumerate() {
        if let ToolCallEvent::Parameter { id, .. } = e {
            match &events[i - 1] {
                ToolCallEvent::ToolStart { id: sid, .. } => assert_eq!(sid, id),
                other => panic!("parameter not preceded by its start: {:?}", other),
            }
            match &events[i + 1] {
                ToolCallEvent::ToolEnd { id: eid } => assert_eq!(eid, id),
                ToolCallEvent::Error(_) => {}
                other => panic!("parameter not followed by end or error: {:?}", other),
            }
        }
    }
}

#[test]
fn mismatched_close_emits_error_then_synthesized_end() {
    let events = parse_events("<t><a>x</b></t>z");
    assert_eq!(
        events,
        vec![
            ToolCallEvent::ToolStart { id: "tool_1".to_string(), name: "t".to_string() },
            ToolCallEvent::Error(ParseErrorKind::MismatchedEndTag {
                expected: "a".to_string(),
                found: "b".to_string(),
            }),
            ToolCallEvent::ToolEnd { id: "tool_1".to_string() },
            ToolCallEvent::Text("z".to_string()),
        ]
    );
}

#[test]
fn end_of_input_inside_value_reports_eof_and_closes() {
    let events = parse_events("<t><a>half");
    assert_eq!(
        events,
        vec![
            ToolCallEvent::ToolStart { id: "tool_1".to_string(), name: "t".to_string() },
            ToolCallEvent::Error(ParseErrorKind::UnexpectedEof),
            ToolCallEvent::ToolEnd { id: "tool_1".to_string() },
        ]
    );
}

#[test]
fn unterminated_trailing_tag_is_dropped_silently() {
    let events = parse_events("ab<xy");
    assert_eq!(events, text_events("ab"));
}

#[test]
fn stray_closing_tag_is_discarded() {
    let events = parse_events("</foo>ok");
    assert_eq!(events, text_events("ok"));
}

#[test]
fn tag_name_cap_reports_invalid_structure() {
    let options = ParserOptions {
        max_tool_name_length: 3,
        max_parameter_value_length: None,
        entity_decoding: true,
    };
    // After `abc`, the fourth name character breaches the cap; the parser
    // returns to prose mode, so the remaining characters pass through.
    let events = parse_events_with(options, "<abcdef>");
    let mut expected = vec![ToolCallEvent::Error(ParseErrorKind::InvalidStructure)];
    expected.extend(text_events("ef>"));
    assert_eq!(events, expected);
}

#[test]
fn value_cap_reports_value_too_large_and_closes_tool() {
    let options = ParserOptions {
        max_tool_name_length: 256,
        max_parameter_value_length: Some(2),
        entity_decoding: true,
    };
    let events = parse_events_with(options, "<t><a>xyz</a></t>");
    assert_eq!(
        events,
        vec![
            ToolCallEvent::ToolStart { id: "tool_1".to_string(), name: "t".to_string() },
            ToolCallEvent::Error(ParseErrorKind::ValueTooLarge),
            ToolCallEvent::ToolEnd { id: "tool_1".to_string() },
        ]
    );
}

#[test]
fn entity_decoding_can_be_switched_off() {
    let options = ParserOptions {
        max_tool_name_length: 256,
        max_parameter_value_length: None,
        entity_decoding: false,
    };
    let raw = parse_events_with(options, "<t><v>a&amp;b</v></t>");
    let decoded = parse_events("<t><v>a&amp;b</v></t>");
    let raw_args = args_of(&[("v", "a&amp;b")]);
    let decoded_args = args_of(&[("v", "a&b")]);
    assert_eq!(raw[1], ToolCallEvent::Parameter { id: "tool_1".to_string(), arguments: raw_args });
    assert_eq!(
        decoded[1],
        ToolCallEvent::Parameter { id: "tool_1".to_string(), arguments: decoded_args }
    );
}

#[test]
fn text_inside_tool_outside_parameters_is_discarded() {
    let events = parse_events("<t> noise <a>1</a> more </t>");
    assert_eq!(
        events,
        vec![
            ToolCallEvent::ToolStart { id: "tool_1".to_string(), name: "t".to_string() },
            ToolCallEvent::Parameter { id: "tool_1".to_string(), arguments: args_of(&[("a", "1")]) },
            ToolCallEvent::ToolEnd { id: "tool_1".to_string() },
        ]
    );
}
