use koicore::parser::command_parser::{parse_command_line, Ctx};
use koicore::parser::error::{ErrorInfo, ParseError, ParserLineSource};
use koicore::parser::traceback::TracebackEntry;

#[test]
fn test_error_display() {
    let err = ParseError::syntax("test error".to_string());
    let display = err.to_string();
    assert!(display.contains("SyntaxError: test error"));

    let err = ParseError::unexpected_input("bad".to_string(), 1, 0, "good bad".to_string());
    let display = err.to_string();
    assert!(display.contains("UnexpectedInputError: 'bad'"));

    let err = ParseError::unexpected_eof("value".to_string(), 1, 0);
    let display = err.to_string();
    assert!(display.contains("UnexpectedEofError: 'value'"));

    let io_err = std::io::Error::new(std::io::ErrorKind::NotFound, "file not found");
    let err = ParseError::io(io_err);
    let display = err.to_string();
    assert!(display.contains("IOError: file not found"));
}

#[test]
fn test_error_methods() {
    let err = ParseError::syntax("msg".to_string());
    assert_eq!(err.message(), "msg");
    assert!(err.position().is_none());
    assert!(err.line().is_none());

    let err = ParseError::unexpected_input("bad".to_string(), 10, 5, "prefix bad".to_string());
    assert!(err.message().contains("Unexpected input"));
    assert_eq!(err.line(), Some(10));
    assert_eq!(err.position(), Some((10, 13)));
}

#[test]
fn test_error_with_source() {
    let mut err = ParseError::syntax_with_context("error".to_string(), 1, 1, "ctx".to_string());
    err.source = Some(ParserLineSource {
        filename: "test.koi".to_string(),
        lineno: 1,
        text: "line content".to_string(),
    });

    let display = err.to_string();
    assert!(display.contains("test.koi:1:1"));
    assert!(display.contains("line content"));
    assert!(display.contains("^"));
}

#[test]
fn test_error_with_non_ascii_source() {
    let mut err = ParseError::syntax_with_context("error".to_string(), 1, 5, "ctx".to_string());
    err.source = Some(ParserLineSource {
        filename: "test.koi".to_string(),
        lineno: 1,
        text: "你好世界test".to_string(),
    });

    let display = err.to_string();
    assert!(display.contains("你好世界test"));
    assert!(display.contains("^"));
}

#[test]
fn error_display_exact_layout() {
    let err = ParseError::syntax_with_context("bad".to_string(), 3, 2, "ctx".to_string())
        .with_source("f.koi".to_string(), 3, "abcdef".to_string());
    assert_eq!(
        err.to_string(),
        "SyntaxError: bad\n  -->   f.koi:3:2 (line 3, column 2)\n    │\n 3  │    abcdef\n    │     ^\n    ├─ ctx (2–3)\n"
    );
    assert_eq!(err.message(), "bad");
    let eof = ParseError::unexpected_eof("x".to_string(), 2, 7);
    assert_eq!(eof.message(), "Unexpected end of input, expected x");
    assert_eq!(eof.position(), Some((2, 7)));
}

#[test]
fn failure_traceback_points_at_failure() {
    // the failure is at offset 7 (line 2, column 2) of a text that starts at
    // column offset 1 on line 4
    let err = ParseError::from_failure(
        "Command parsing error".to_string(),
        "cmd a\n $",
        4,
        1,
        7,
        Ctx::Parameter,
    );
    assert!(matches!(err.error_info, ErrorInfo::SyntaxError { .. }));
    let tb = err.traceback.as_ref().unwrap();
    assert_eq!(tb.lineno, 5);
    assert_eq!(tb.column_range, (3, 4));
    assert_eq!(tb.context, "koicore.parameter");
    assert_eq!(err.position(), Some((5, 3)));
}

#[test]
fn traceback_tree_drawing() {
    let mut root = TracebackEntry::new(1, (1, 4), "root".to_string());
    root.children.push(TracebackEntry::new(1, (2, 3), "a".to_string()));
    root.children.push(TracebackEntry::new(1, (3, 4), "b".to_string()));
    assert_eq!(root.to_string(), "├─ root (1–4)\n│  ├─ a (2–3)\n│  └─ b (3–4)\n");
    assert_eq!(root.write_tree("  ", true), "  └─ root (1–4)\n     ├─ a (2–3)\n     └─ b (3–4)\n");
}

#[test]
fn test_parser_error_traceback() {
    for input in ["error e(", "error e() 1", "error e(1, 2 3)"] {
        let result = parse_command_line(input);
        assert!(result.is_err());
        let (pos, ctx) = result.unwrap_err();
        println!("Parser error: {:?} at {}", ctx, pos);
        let traceback = TracebackEntry::build_error_trace(input, 1, 0, pos, ctx);
        println!("Converted traceback: {:#?}", traceback);
    }
}

#[test]
fn unexpected_input_columns_count_bytes() {
    // "中 bad" is 7 bytes long, the rest "bad" 3
    let err = ParseError::unexpected_input("bad".to_string(), 1, 0, "中 bad".to_string());
    assert_eq!(err.position(), Some((1, 5)));
    assert_eq!(err.traceback.as_ref().unwrap().column_range, (5, 8));
}

#[test]
fn error_marker_under_multibyte_text() {
    // column 5 is the fifth character, the `t` after four CJK characters
    let err = ParseError::syntax_with_context("error".to_string(), 1, 5, "ctx".to_string())
        .with_source("test.koi".to_string(), 1, "你好世界test".to_string());
    assert_eq!(
        err.to_string(),
        "SyntaxError: error\n  -->   test.koi:1:5 (line 1, column 5)\n    │\n 1  │    你好世界test\n    │        ^\n    ├─ ctx (5–6)\n"
    );
}
