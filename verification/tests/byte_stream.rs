use tool_stream::stream::{ToolCallEvent, ToolCallStream, XmlError};

fn drain(stream: &mut ToolCallStream) -> Vec<Result<ToolCallEvent, XmlError>> {
    let mut items = Vec::new();
    while let Some(item) = stream.next_event() {
        items.push(item);
    }
    items
}

#[test]
fn test_stream_parser() {
    let mut stream = ToolCallStream::new(b"");

    // XMLを一文字ずつ送信
    let xml = r#"<get_weather><location>Tokyo</location></get_weather>"#;
    for c in xml.chars() {
        stream.push_data(c.to_string().as_bytes());
    }

    let mut events = Vec::new();
    while let Some(event) = stream.next_event() {
        events.push(event);
    }

    // イベントを検証
    assert!(
        matches!(events[0], Ok(ToolCallEvent::ToolStart(ref name)) if name == "get_weather")
    );
    assert!(
        matches!(events[1], Ok(ToolCallEvent::Parameter { ref name, ref value })
        if name == "location" && value == "Tokyo")
    );
    assert!(matches!(events[2], Ok(ToolCallEvent::ToolEnd)));
}

#[test]
fn prose_is_not_delivered_on_the_byte_stream() {
    let mut stream = ToolCallStream::new("some prose <t><a>1</a></t> more".as_bytes());
    let items = drain(&mut stream);
    assert_eq!(items.len(), 3);
    assert!(matches!(items[0], Ok(ToolCallEvent::ToolStart(ref n)) if n == "t"));
    assert!(
        matches!(items[1], Ok(ToolCallEvent::Parameter { ref name, ref value })
        if name == "a" && value == "1")
    );
    assert!(matches!(items[2], Ok(ToolCallEvent::ToolEnd)));
}

#[test]
fn multibyte_characters_split_across_chunks_decode_whole() {
    let xml = "<天気><場所>東京</場所></天気>";
    let bytes = xml.as_bytes();
    let mut stream = ToolCallStream::new(b"");
    let mut items = Vec::new();
    for b in bytes {
        stream.push_data(&[*b]);
        items.extend(drain(&mut stream));
    }
    assert_eq!(items.len(), 3);
    assert!(matches!(items[0], Ok(ToolCallEvent::ToolStart(ref n)) if n == "天気"));
    assert!(
        matches!(items[1], Ok(ToolCallEvent::Parameter { ref name, ref value })
        if name == "場所" && value == "東京")
    );
    assert!(matches!(items[2], Ok(ToolCallEvent::ToolEnd)));
}

#[test]
fn parameters_come_in_insertion_order() {
    let mut stream = ToolCallStream::new("<t><a>1</a><b>2</b></t>".as_bytes());
    let items = drain(&mut stream);
    assert!(matches!(items[1], Ok(ToolCallEvent::Parameter { ref name, .. }) if name == "a"));
    assert!(matches!(items[2], Ok(ToolCallEvent::Parameter { ref name, .. }) if name == "b"));
    assert!(matches!(items[3], Ok(ToolCallEvent::ToolEnd)));
}

#[test]
fn invalid_byte_reports_encoding_error_and_resynchronizes() {
    let mut bytes = Vec::new();
    bytes.extend_from_slice(b"<t><a>x");
    bytes.push(0xff);
    bytes.extend_from_slice(b"y</a></t>");
    let mut stream = ToolCallStream::new(&bytes);
    let items = drain(&mut stream);
    assert!(
        matches!(items[1], Err(XmlError::Other(ref m)) if m == "invalid character encoding")
    );
    assert!(
        matches!(items[2], Ok(ToolCallEvent::Parameter { ref name, ref value })
        if name == "a" && value == "xy")
    );
}

#[test]
fn malformed_trailing_unit_errors_at_end_of_input() {
    // The first two bytes of a three-byte character, never completed.
    let mut stream = ToolCallStream::new(b"<t></t>");
    stream.push_data(&[0xe6, 0x9d]);
    let mut items = drain(&mut stream);
    items.extend(stream.finish());
    assert!(matches!(items[0], Ok(ToolCallEvent::ToolStart(ref n)) if n == "t"));
    assert!(matches!(items[1], Ok(ToolCallEvent::ToolEnd)));
    assert!(
        matches!(items[2], Err(XmlError::Other(ref m))
        if m == "invalid character encoding at end of input")
    );
    assert_eq!(items.len(), 3);
}

#[test]
fn finish_synthesizes_the_open_tool_end() {
    let mut stream = ToolCallStream::new(b"<t><a>1</a>");
    let mut items = drain(&mut stream);
    items.extend(stream.finish());
    assert!(matches!(items[0], Ok(ToolCallEvent::ToolStart(ref n)) if n == "t"));
    assert!(
        matches!(items[1], Ok(ToolCallEvent::Parameter { ref name, ref value })
        if name == "a" && value == "1")
    );
    assert!(matches!(items[2], Ok(ToolCallEvent::ToolEnd)));
    assert_eq!(items.len(), 3);
}

#[test]
fn parse_errors_surface_as_xml_errors() {
    let mut stream = ToolCallStream::new(b"<t><a>x</b></t>");
    let items = drain(&mut stream);
    assert!(matches!(items[0], Ok(ToolCallEvent::ToolStart(_))));
    match &items[1] {
        Err(XmlError::Xml(m)) => assert_eq!(m, "expected end tag a, found b"),
        other => panic!("expected an Xml error, got {:?}", other),
    }
    assert!(matches!(items[2], Ok(ToolCallEvent::ToolEnd)));
}
