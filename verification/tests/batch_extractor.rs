use tool_stream::args::ToolArguments;
use tool_stream::batch::{parse_tool_call, render_tool_call, ToolCall, ToolParseError};

fn args_of(pairs: &[(&str, &str)]) -> ToolArguments {
    let mut a = ToolArguments::new();
    for (k, v) in pairs {
        a.insert(k.to_string(), v.to_string());
    }
    a
}

#[test]
fn test_parse_get_weather() {
    let llm_response = r#"
明日のニューヨークの天気ですね。承知いたしました。
外部の天気予報ツールを使って最新の情報を確認しますね。

<get_weather>
  <location>New York</location>
  <date>tomorrow</date>
  <unit>fahrenheit</unit>
</get_weather>

結果が取得でき次第、すぐにお知らせします。
"#;
    let expected_tool_call = ToolCall {
        tool_name: "get_weather".to_string(),
        parameters: args_of(&[
            ("location", "New York"),
            ("date", "tomorrow"),
            ("unit", "fahrenheit"),
        ]),
    };

    match parse_tool_call(llm_response) {
        Ok(tool_call) => assert_eq!(tool_call, expected_tool_call),
        Err(e) => panic!("Parse failed: {:?}", e),
    }
}

#[test]
fn test_parse_write_file() {
    let llm_response = r#"
Okay, I will write the following content to the file.
<write_to_file>
<path>src/main.rs</path>
<content>
fn main() {
    println!("Hello, world!");
}
</content>
</write_to_file>
Let me know if that looks correct.
"#;
    let expected_content = r#"fn main() {
    println!("Hello, world!");
}"#;
    let expected_tool_call = ToolCall {
        tool_name: "write_to_file".to_string(),
        parameters: args_of(&[("path", "src/main.rs"), ("content", expected_content)]),
    };

    match parse_tool_call(llm_response) {
        Ok(tool_call) => assert_eq!(tool_call, expected_tool_call),
        Err(e) => panic!("Parse failed: {:?}", e),
    }
}

#[test]
fn test_no_tool_found() {
    let llm_response = "明日の天気は晴れでしょう。";
    match parse_tool_call(llm_response) {
        Err(ToolParseError::NoToolXmlFound) => {}
        Ok(_) => panic!("Should have failed, but parsed successfully."),
        Err(e) => panic!("Expected NoToolXmlFound, but got {:?}", e),
    }
}

#[test]
fn test_malformed_xml() {
    let llm_response = "<get_weather><location>New York</date></get_weather>"; // Mismatched tag
    match parse_tool_call(llm_response) {
        Err(_) => {}
        Ok(_) => panic!("Should have failed due to malformed XML."),
    }
}

#[test]
fn mismatched_end_tag_names_both_sides() {
    let r = parse_tool_call("<get_weather><location>New York</date></get_weather>");
    match r {
        Err(ToolParseError::MismatchedEndTag { expected, found }) => {
            assert_eq!(expected, "location");
            assert_eq!(found, "date");
        }
        other => panic!("expected MismatchedEndTag, got {:?}", other),
    }
}

#[test]
fn empty_tool_parses_with_no_parameters() {
    let r = parse_tool_call("<ping></ping>").unwrap();
    assert_eq!(r.tool_name, "ping");
    assert_eq!(r.parameters.len(), 0);
}

#[test]
fn input_ending_inside_value_is_unexpected_eof() {
    match parse_tool_call("prose <tool><key>half a val") {
        Err(ToolParseError::UnexpectedEof) => {}
        other => panic!("expected UnexpectedEof, got {:?}", other),
    }
}

#[test]
fn first_tag_must_begin_alphanumeric() {
    match parse_tool_call("<!-- note --> no call here") {
        Err(ToolParseError::NoToolXmlFound) => {}
        other => panic!("expected NoToolXmlFound, got {:?}", other),
    }
}

#[test]
fn unicode_tool_and_parameter_names_parse() {
    let r = parse_tool_call("<天気><場所>東京</場所></天気>").unwrap();
    assert_eq!(r.tool_name, "天気");
    assert_eq!(r.parameters.get("場所").unwrap(), "東京");
}

#[test]
fn entity_references_decode_in_values() {
    let r = parse_tool_call("<t><v>a&amp;b &lt;x&gt; &quot;q&quot; &apos;s&apos;</v></t>").unwrap();
    assert_eq!(r.parameters.get("v").unwrap(), "a&b <x> \"q\" 's'");
}

#[test]
fn unknown_entities_pass_through() {
    let r = parse_tool_call("<t><v>&copy; &amp</v></t>").unwrap();
    assert_eq!(r.parameters.get("v").unwrap(), "&copy; &amp");
}

#[test]
fn repeated_parameter_overwrites_in_place() {
    let r = parse_tool_call("<t><k>old</k><m>mid</m><k>new</k></t>").unwrap();
    assert_eq!(r.parameters.len(), 2);
    let first = r.parameters.entry(0);
    assert_eq!(first.name, "k");
    assert_eq!(first.value, "new");
    assert_eq!(r.parameters.entry(1).name, "m");
}

#[test]
fn round_trip_of_clean_record() {
    let original = ToolCall {
        tool_name: "get_weather".to_string(),
        parameters: args_of(&[("location", "New York"), ("unit", "fahrenheit")]),
    };
    let rendered = render_tool_call(&original);
    assert_eq!(
        rendered,
        "<get_weather><location>New York</location><unit>fahrenheit</unit></get_weather>"
    );
    let reparsed = parse_tool_call(&rendered).unwrap();
    assert_eq!(reparsed, original);
}

#[test]
fn round_trip_of_record_without_parameters() {
    let original = ToolCall { tool_name: "ping".to_string(), parameters: ToolArguments::new() };
    let reparsed = parse_tool_call(&render_tool_call(&original)).unwrap();
    assert_eq!(reparsed, original);
}

#[test]
fn overlong_tag_name_is_invalid_structure() {
    let mut input = String::from("<");
    for _ in 0..300 {
        input.push('a');
    }
    input.push('>');
    match parse_tool_call(&input) {
        Err(ToolParseError::InvalidStructure) => {}
        other => panic!("expected InvalidStructure, got {:?}", other),
    }
}

#[test]
fn processing_instruction_is_not_a_tool() {
    match parse_tool_call("<?xml version=\"1.0\"?> prose") {
        Err(ToolParseError::NoToolXmlFound) => {}
        other => panic!("expected NoToolXmlFound, got {:?}", other),
    }
}

#[test]
fn whitespace_inside_tag_names_is_kept_verbatim() {
    let r = parse_tool_call("<my tool><some key>v</some key></my tool>").unwrap();
    assert_eq!(r.tool_name, "my tool");
    assert_eq!(r.parameters.get("some key").unwrap(), "v");
}

#[test]
fn empty_parameter_value_is_kept_as_empty_string() {
    let r = parse_tool_call("<t><a></a></t>").unwrap();
    assert_eq!(r.parameters.len(), 1);
    assert_eq!(r.parameters.get("a").unwrap(), "");
}

#[test]
fn batch_takes_the_first_complete_tool() {
    let r = parse_tool_call("<a><x>1</x></a><b><y>2</y></b>").unwrap();
    assert_eq!(r.tool_name, "a");
    assert_eq!(r.parameters.get("x").unwrap(), "1");
    assert!(r.parameters.get("y").is_none());
}
