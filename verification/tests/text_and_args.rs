use tool_stream::args::ToolArguments;
use tool_stream::events::{ParseErrorKind, ToolCallStreamError};
use tool_stream::model::ParserOptions;
use tool_stream::stream::XmlError;
use tool_stream::text::{decode_entities_string, tool_id_string, trim_string};

#[test]
fn trim_removes_blanks_at_both_edges_only() {
    assert_eq!(trim_string(" \t\r\n hello  world \n"), "hello  world");
    assert_eq!(trim_string(""), "");
    assert_eq!(trim_string("   \n\t "), "");
    assert_eq!(trim_string("x"), "x");
    assert_eq!(trim_string("\nfn main() {\n}\n"), "fn main() {\n}");
}

#[test]
fn entity_decoding_handles_all_five_references() {
    assert_eq!(decode_entities_string("&amp;&lt;&gt;&quot;&apos;"), "&<>\"'");
    assert_eq!(decode_entities_string("a&amp;amp;b"), "a&amp;b");
    assert_eq!(decode_entities_string("&copy; &amp"), "&copy; &amp");
    assert_eq!(decode_entities_string("plain"), "plain");
    assert_eq!(decode_entities_string(""), "");
}

#[test]
fn tool_identifiers_render_in_decimal() {
    assert_eq!(tool_id_string(1), "tool_1");
    assert_eq!(tool_id_string(42), "tool_42");
    assert_eq!(tool_id_string(1000), "tool_1000");
}

#[test]
fn arguments_keep_insertion_order_and_overwrite_in_place() {
    let mut a = ToolArguments::new();
    a.insert("a".to_string(), "1".to_string());
    a.insert("b".to_string(), "2".to_string());
    a.insert("a".to_string(), "3".to_string());
    assert_eq!(a.len(), 2);
    assert_eq!(a.entry(0).name, "a");
    assert_eq!(a.entry(0).value, "3");
    assert_eq!(a.entry(1).name, "b");
    assert_eq!(a.get("a").unwrap(), "3");
    assert_eq!(a.get("b").unwrap(), "2");
    assert!(a.get("c").is_none());
    assert!(!a.is_empty());
}

#[test]
fn arguments_render_as_a_json_object_in_order() {
    let mut a = ToolArguments::new();
    a.insert("location".to_string(), "New York".to_string());
    a.insert("note".to_string(), "say \"hi\"\n".to_string());
    assert_eq!(a.to_json(), "{\"location\":\"New York\",\"note\":\"say \\\"hi\\\"\\n\"}");
    assert_eq!(ToolArguments::new().to_json(), "{}");
}

#[test]
fn error_kinds_describe_themselves() {
    let k = ParseErrorKind::MismatchedEndTag { expected: "a".to_string(), found: "b".to_string() };
    assert_eq!(k.message(), "expected end tag a, found b");
    assert_eq!(ParseErrorKind::UnexpectedEof.message(), "unexpected end of input");
    assert_eq!(ParseErrorKind::InvalidStructure.message(), "invalid structure");
    assert_eq!(ParseErrorKind::ValueTooLarge.message(), "parameter value too large");
    assert_eq!(ParseErrorKind::InvalidEncoding.message(), "invalid character encoding");
}

#[test]
fn xml_errors_carry_their_message() {
    assert_eq!(XmlError::Xml("boom".to_string()).message(), "boom");
    assert_eq!(XmlError::Other("odd".to_string()).message(), "odd");
    assert_eq!(XmlError::Xml("x".to_string()), XmlError::Xml("x".to_string()));
}

#[test]
fn stream_error_variants_compare() {
    assert_eq!(ToolCallStreamError::UnexpectedEof, ToolCallStreamError::UnexpectedEof);
    assert_ne!(
        ToolCallStreamError::IoError("broken pipe".to_string()),
        ToolCallStreamError::UnexpectedEof
    );
}

#[test]
fn default_options_match_the_documented_defaults() {
    let o = ParserOptions::default();
    assert_eq!(o.max_tool_name_length, 256);
    assert_eq!(o.max_parameter_value_length, None);
    assert!(o.entity_decoding);
}
