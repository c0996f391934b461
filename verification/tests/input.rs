use koicore::parser::input::{
    apply_encoding_strategy, normalize_line_endings, DecodedInputSource, EncodingErrorStrategy, Input,
    StringInputSource,
    TextInputSource,
};

#[test]
fn test_input_line_continuation() {
    let content = "line1\\\n continued\nline2";
    let source = StringInputSource::new(content);
    let mut input = Input::new(source);

    let (lineno, text) = input.next_line().unwrap().unwrap();
    assert_eq!(lineno, 1);
    assert_eq!(text, "line1\\\n continued\n");
    assert_eq!(input.line_number, 3);

    let (lineno, text) = input.next_line().unwrap().unwrap();
    assert_eq!(lineno, 3);
    assert_eq!(text, "line2");

    assert!(input.next_line().unwrap().is_none());
}

#[test]
fn test_box_text_input_source() {
    let source = StringInputSource::new("line1\nline2");
    let mut boxed: Box<dyn TextInputSource> = Box::new(source);

    assert_eq!(boxed.source_name(), "<string>");
    assert_eq!(boxed.next_line().unwrap(), Some("line1\n".to_string()));
    assert_eq!(boxed.next_line().unwrap(), Some("line2".to_string()));
    assert_eq!(boxed.next_line().unwrap(), None);
}

#[test]
fn string_source_splits_after_line_breaks() {
    let mut source = StringInputSource::new("a\r\n\nb\n");
    assert_eq!(source.next_line().unwrap(), Some("a\r\n".to_string()));
    assert_eq!(source.next_line().unwrap(), Some("\n".to_string()));
    assert_eq!(source.next_line().unwrap(), Some("b\n".to_string()));
    assert_eq!(source.next_line().unwrap(), None);
    let mut empty = StringInputSource::new("");
    assert_eq!(empty.next_line().unwrap(), None);
}

#[test]
fn continuation_at_end_of_input() {
    let mut input = Input::new(StringInputSource::new("a\\\n"));
    let (lineno, text) = input.next_line().unwrap().unwrap();
    assert_eq!(lineno, 1);
    assert_eq!(text, "a\\\n");
    assert_eq!(input.line_number, 2);
    assert!(input.next_line().unwrap().is_none());
    assert_eq!(input.line_number, 2);
}

#[test]
fn encoding_strategies_and_line_endings() {
    let bad = "Hello \u{FFFD} World\r\n";
    assert_eq!(apply_encoding_strategy(bad, EncodingErrorStrategy::Replace), Some("Hello ? World\n".to_string()));
    assert_eq!(apply_encoding_strategy(bad, EncodingErrorStrategy::Ignore), Some("Hello  World\n".to_string()));
    assert_eq!(apply_encoding_strategy(bad, EncodingErrorStrategy::Strict), None);
    assert_eq!(apply_encoding_strategy("ok\r\n", EncodingErrorStrategy::Strict), Some("ok\n".to_string()));
    assert_eq!(normalize_line_endings("a\r\r\nb\r"), "a\r\nb\r");
}

#[test]
fn lines_put_back_together() {
    let content = "a\nbb\r\n\n last";
    let mut source = StringInputSource::new(content);
    let mut joined = String::new();
    while let Some(line) = source.next_line().unwrap() {
        assert!(!line.is_empty());
        joined.push_str(&line);
    }
    assert_eq!(joined, content);
}

#[test]
fn decoded_source_applies_encoding_and_strategy() {
    let bytes = b"a\r\nb\xff\n";
    let mut src = DecodedInputSource::from_bytes(
        "f.koi".to_string(),
        b"utf-8",
        bytes,
        EncodingErrorStrategy::Replace,
    )
    .unwrap();
    assert_eq!(src.source_name(), "f.koi");
    assert_eq!(src.next_line().unwrap(), Some("a\n".to_string()));
    assert_eq!(src.next_line().unwrap(), Some("b?\n".to_string()));
    assert_eq!(src.next_line().unwrap(), None);

    let mut strict =
        DecodedInputSource::from_bytes("f".to_string(), b"utf-8", bytes, EncodingErrorStrategy::Strict)
            .unwrap();
    assert_eq!(strict.next_line().unwrap(), Some("a\n".to_string()));
    let err = strict.next_line().unwrap_err();
    assert_eq!(err.kind(), std::io::ErrorKind::InvalidData);

    // "你好" in GBK
    let mut gbk = DecodedInputSource::from_bytes(
        "g".to_string(),
        b"gbk",
        &[0xC4, 0xE3, 0xBA, 0xC3],
        EncodingErrorStrategy::Strict,
    )
    .unwrap();
    assert_eq!(gbk.next_line().unwrap(), Some("你好".to_string()));

    assert!(DecodedInputSource::from_bytes("x".to_string(), b"no-such-encoding", b"", EncodingErrorStrategy::Strict).is_none());
}
