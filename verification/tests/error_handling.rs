use koicore::parser::{ErrorInfo, Parser, ParserConfig, StringInputSource};

#[test]
fn test_syntax_error_with_context() {
    // Test empty command line error
    let input = StringInputSource::new("#");
    let mut parser = Parser::new(input, ParserConfig::default());

    let result = parser.next_command();
    assert!(result.is_err());

    let error = result.unwrap_err();
    match &error.error_info {
        ErrorInfo::SyntaxError { message } => {
            let (line, column) = error.position().unwrap();
            assert_eq!(line, 1);
            assert_eq!(column, 0);
            assert_eq!(error.traceback.as_ref().unwrap().context, "");
            assert!(message.contains("Empty command line"));
        }
        _ => panic!("Expected SyntaxError, got {:?}", error),
    }
}

#[test]
fn test_unexpected_input_error() {
    // Test unexpected input error with precise column tracking
    let input = StringInputSource::new("#command $$$ invalid");
    let mut parser = Parser::new(input, ParserConfig::default());

    let result = parser.next_command();
    assert!(result.is_err());

    let error = result.unwrap_err();
    let (line, column) = error.position().unwrap();
    assert_eq!(line, 1);
    assert!(column > 0); // Should have precise column information
    assert!(error.source.as_ref().unwrap().text.contains("command $$$ invalid"));
    assert!(error.message().contains("Unexpected input"));
}

#[test]
fn test_error_display_formatting() {
    // Test that errors display with proper formatting and context
    let input = StringInputSource::new("#");
    let mut parser = Parser::new(input, ParserConfig::default());

    let result = parser.next_command();
    assert!(result.is_err());

    let error = result.unwrap_err();
    let error_string = error.to_string();

    // Error should contain line and column information
    assert!(error_string.contains("line 1"));
    assert!(error_string.contains("column 0"));
    assert!(error_string.contains("Empty command line"));
}
