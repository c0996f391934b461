use koicore::command::{self, Command, CompositeValue, Parameter, Value};
use koicore::parser::error::{ErrorInfo, ParseError};
use koicore::parser::input::StringInputSource;
use koicore::parser::{Parser, ParserConfig};
use koicore::writer::config::WriterConfig;
use koicore::writer::Writer;

#[test]
fn test_parser_config() {
    let config = ParserConfig::default();
    assert_eq!(config.command_threshold, 1);
    assert!(!config.skip_annotations);
    assert!(config.convert_number_command);
    assert!(!config.preserve_indent);
    assert!(!config.preserve_empty_lines);

    let config = ParserConfig::new(2, true, false, true, true);
    assert_eq!(config.command_threshold, 2);
    assert!(config.skip_annotations);
    assert!(!config.convert_number_command);
    assert!(config.preserve_indent);
    assert!(config.preserve_empty_lines);

    let config = ParserConfig::default()
        .with_command_threshold(3)
        .with_skip_annotations(true)
        .with_convert_number_command(false)
        .with_preserve_indent(true)
        .with_preserve_empty_lines(true);
    assert_eq!(config.command_threshold, 3);
    assert!(config.skip_annotations);
    assert!(!config.convert_number_command);
    assert!(config.preserve_indent);
    assert!(config.preserve_empty_lines);
}

#[test]
fn test_preserve_indent() {
    let input = StringInputSource::new("  indented text\nnormal text");
    let config = ParserConfig::default();
    let mut parser = Parser::new(input, config);
    let cmd = parser.next_command().unwrap().unwrap();
    assert_eq!(cmd.name(), "@text");
    assert_eq!(cmd.params()[0].to_string(), "\"indented text\"");

    let input = StringInputSource::new("  indented text\nnormal text");
    let config = ParserConfig::default().with_preserve_indent(true);
    let mut parser = Parser::new(input, config);
    let cmd = parser.next_command().unwrap().unwrap();
    assert_eq!(cmd.name(), "@text");
    assert_eq!(cmd.params()[0].to_string(), "\"  indented text\"");
}

#[test]
fn test_preserve_empty_lines() {
    let input = StringInputSource::new("text1\n\ntext2");
    let config = ParserConfig::default();
    let mut parser = Parser::new(input, config);
    let cmd1 = parser.next_command().unwrap().unwrap();
    assert_eq!(cmd1.name(), "@text");
    assert_eq!(cmd1.params()[0].to_string(), "text1");
    let cmd2 = parser.next_command().unwrap().unwrap();
    assert_eq!(cmd2.name(), "@text");
    assert_eq!(cmd2.params()[0].to_string(), "text2");

    let input = StringInputSource::new("text1\n\ntext2");
    let config = ParserConfig::default().with_preserve_empty_lines(true);
    let mut parser = Parser::new(input, config);
    let cmd1 = parser.next_command().unwrap().unwrap();
    assert_eq!(cmd1.name(), "@text");
    assert_eq!(cmd1.params()[0].to_string(), "text1");
    let cmd_empty = parser.next_command().unwrap().unwrap();
    assert_eq!(cmd_empty.name(), "@text");
    assert_eq!(cmd_empty.params()[0].to_string(), "\"\"");
    let cmd2 = parser.next_command().unwrap().unwrap();
    assert_eq!(cmd2.name(), "@text");
    assert_eq!(cmd2.params()[0].to_string(), "text2");
}

#[test]
fn test_preserve_indent_annotation() {
    let input = StringInputSource::new("##  annotation text");
    let config = ParserConfig::default();
    let mut parser = Parser::new(input, config);
    let cmd = parser.next_command().unwrap().unwrap();
    assert_eq!(cmd.name(), "@annotation");
    assert_eq!(cmd.params()[0].to_string(), "\"annotation text\"");

    let input = StringInputSource::new("##  annotation text");
    let config = ParserConfig::default().with_preserve_indent(true);
    let mut parser = Parser::new(input, config);
    let cmd = parser.next_command().unwrap().unwrap();
    assert_eq!(cmd.name(), "@annotation");
    assert_eq!(cmd.params()[0].to_string(), "\"##  annotation text\"");
}

#[test]
fn test_parser_process_with() {
    let input = StringInputSource::new("#cmd1\n#cmd2");
    let config = ParserConfig::default();
    let mut parser = Parser::new(input, config);

    let mut commands = Vec::new();
    let result: Result<bool, Box<ParseError>> = parser.process_with(|cmd| {
        commands.push(cmd.name().to_string());
        Ok(true)
    });

    assert!(result.is_ok());
    assert!(result.unwrap());
    assert_eq!(commands, vec!["cmd1", "cmd2"]);
}

#[test]
fn test_parser_process_with_early_stop() {
    let input = StringInputSource::new("#cmd1\n#cmd2");
    let config = ParserConfig::default();
    let mut parser = Parser::new(input, config);

    let mut commands = Vec::new();
    let result: Result<bool, Box<ParseError>> = parser.process_with(|cmd| {
        commands.push(cmd.name().to_string());
        Ok(false)
    });

    assert!(result.is_ok());
    assert!(!result.unwrap());
    assert_eq!(commands, vec!["cmd1"]);

    let next = parser.next_command().unwrap();
    assert!(next.is_some());
    assert_eq!(next.unwrap().name(), "cmd2");
}

#[test]
fn test_parser_current_line() {
    let input = StringInputSource::new("#cmd1\n#cmd2");
    let config = ParserConfig::default();
    let mut parser = Parser::new(input, config);

    assert_eq!(parser.current_line(), 1);
    parser.next_command().unwrap();
    assert_eq!(parser.current_line(), 2);
}

#[test]
fn test_early_stop() {
    let input = StringInputSource::new("#cmd1\n#cmd2\n#cmd3");
    let mut parser = Parser::new(input, ParserConfig::default());
    let mut count = 0;
    let reached_eof = parser
        .process_with(|_cmd| {
            count += 1;
            Ok::<bool, Box<ParseError>>(false)
        })
        .expect("Failed to process");
    assert_eq!(count, 1);
    assert!(!reached_eof, "Should have stopped early");
}

#[test]
fn test_parse_hello_world() {
    let input = StringInputSource::new("#hello world\nThis is a text.");
    let mut parser = Parser::new(input, ParserConfig::default());
    let cmd = parser.next_command().unwrap();
    assert_eq!(cmd, Some(command::Command::new("hello", vec!["world".into()])));
    let text = parser.next_command().unwrap();
    assert_eq!(text, Some(command::Command::new_text("This is a text.")));
}

#[test]
fn test_parse_example_with_empty_line() {
    let input = StringInputSource::new(" #");
    let mut parser = Parser::new(input, ParserConfig::default());
    let result = parser.next_command();
    println!("{:?}", result);
    assert!(result.is_err());
}

#[test]
fn test_parse_example_with_syntax_error() {
    for text in [
        "#error e(",
        "#error e() 1",
        "#error e(1, 2 3)",
        "#error 0xG",
        "#error e(\n    1, 2 3\n)",
        "  #error 0xG",
    ] {
        let input = StringInputSource::new(text);
        let mut parser = Parser::new(input, ParserConfig::default());
        let result = parser.next_command();
        assert!(result.is_err());
        let err = result.unwrap_err();
        println!("{}", err.to_string());
    }
}

#[test]
fn test_parser_edge_cases_unclosed() {
    let inputs = vec!["#cmd param(1, 2", "#cmd param(x: 1", "#cmd \"unclosed string", "#cmd param("];
    for input_str in inputs {
        let input = StringInputSource::new(input_str);
        let mut parser = Parser::new(input, ParserConfig::default());
        assert!(parser.next_command().is_err(), "Should fail for: {}", input_str);
    }
}

#[test]
fn test_parser_edge_cases_trailing_comma() {
    let input_str = "#cmd param(1, 2,)";
    let input = StringInputSource::new(input_str);
    let mut parser = Parser::new(input, ParserConfig::default());
    assert!(parser.next_command().is_err(), "Should fail for trailing comma");
}

#[test]
fn test_parser_duplicate_keys() {
    let input_str = "#cmd p(k:1, k:2)";
    let input = StringInputSource::new(input_str);
    let mut parser = Parser::new(input, ParserConfig::default());
    let cmd = parser.next_command().expect("Should parse duplicate keys").unwrap();

    if let command::Parameter::Composite(_, val) = &cmd.params[0] {
        if let command::CompositeValue::Dict(entries) = val {
            assert_eq!(entries.len(), 2);
            assert_eq!(entries[0].0, "k");
            assert_eq!(entries[1].0, "k");
        } else {
            panic!("Expected Dict");
        }
    } else {
        panic!("Expected Composite Parameter");
    }
}

#[test]
fn test_parser_empty_composite() {
    let input_str = "#cmd param()";
    let input = StringInputSource::new(input_str);
    let mut parser = Parser::new(input, ParserConfig::default());
    assert!(parser.next_command().is_err(), "Should fail for empty composite");
}

#[test]
fn test_parser_escape_sequences() {
    let input_str = r#"#cmd "line1\nline2" "\t" "\\" "\"" "\x41" "\u0042""#;
    let input = StringInputSource::new(input_str);
    let mut parser = Parser::new(input, ParserConfig::default());

    let cmd = parser.next_command().expect("Parsed escape sequences").unwrap();
    assert_eq!(cmd.params.len(), 6);
    let expected = ["line1\nline2", "\t", "\\", "\"", "A", "B"];
    for (i, want) in expected.iter().enumerate() {
        if let command::Parameter::Basic(command::Value::String(s)) = &cmd.params[i] {
            assert_eq!(s, want);
        } else {
            panic!("p{}", i);
        }
    }
}

#[test]
fn test_error_position_tracking() {
    let test_cases = vec![("#", "Empty command line"), ("#cmd $$$", "Unexpected input")];
    for (input_text, _expected_error_type) in test_cases {
        let input = StringInputSource::new(input_text);
        let mut parser = Parser::new(input, ParserConfig::default());
        let result = parser.next_command();
        if let Err(error) = result {
            let position = error.position();
            assert!(position.is_some(), "Error should provide position: {:?}", error);
            let (line, _column) = position.unwrap();
            assert_eq!(line, 1, "Error should be on line 1: {:?}", error);
        }
    }
}

#[test]
fn test_boolean_parsing_and_writing() {
    let input = "#test_bool p1(true) p2(false)";
    let source = StringInputSource::new(input);
    let config = ParserConfig::new(1, false, false, false, false);
    let mut parser = Parser::new(source, config);

    let cmd = parser.next_command().expect("Should parse command").expect("Should verify no error");
    assert_eq!(cmd.name, "test_bool");

    let p1_param = cmd.params.iter().find(|p| match p {
        Parameter::Composite(name, _) => name == "p1",
        _ => false,
    });
    if let Some(Parameter::Composite(_, val)) = p1_param {
        match val {
            CompositeValue::Single(Value::Bool(b)) => assert_eq!(*b, true),
            _ => panic!("p1 should be Single(Bool(true))"),
        }
    } else {
        panic!("p1 parameter not found or not composite");
    }

    let p2_param = cmd.params.iter().find(|p| match p {
        Parameter::Composite(name, _) => name == "p2",
        _ => false,
    });
    if let Some(Parameter::Composite(_, val)) = p2_param {
        match val {
            CompositeValue::Single(Value::Bool(b)) => assert_eq!(*b, false),
            _ => panic!("p2 should be Single(Bool(false))"),
        }
    } else {
        panic!("p2 parameter not found");
    }

    let input_list = "#test_list l(true, false)";
    let source = StringInputSource::new(input_list);
    let mut parser = Parser::new(source, ParserConfig::new(1, false, false, false, false));
    let cmd = parser.next_command().unwrap().unwrap();

    let writer_config = WriterConfig::default();
    let mut writer = Writer::new(writer_config);
    writer.write_command(&cmd);

    let output_str = writer.output();
    let output_str = output_str.replace("\r\n", "\n");
    assert!(output_str.contains("true"));
    assert!(output_str.contains("false"));
    assert!(output_str.contains("l("));
}

#[test]
fn parser_errors_carry_source_and_position() {
    let mut parser = Parser::new(StringInputSource::new("text\n#cmd $$$\n"), ParserConfig::default());
    let text = parser.next_command().unwrap().unwrap();
    assert_eq!(text, Command::new_text("text"));
    let err = parser.next_command().unwrap_err();
    assert!(matches!(err.error_info, ErrorInfo::UnexpectedInput { .. }));
    assert_eq!(err.message(), "Unexpected input: ' $$$'");
    let src = err.source.as_ref().unwrap();
    assert_eq!(src.filename, "<string>");
    assert_eq!(src.lineno, 2);
    assert_eq!(src.text, "#cmd $$$\n");
    // the rest " $$$" starts after byte 3 of "cmd $$$", which starts at column offset 1
    assert_eq!(err.position(), Some((2, 5)));

    let mut parser = Parser::new(StringInputSource::new("#"), ParserConfig::default());
    let err = parser.next_command().unwrap_err();
    assert_eq!(err.message(), "Empty command line");
    assert_eq!(err.position(), Some((1, 0)));

    let mut parser = Parser::new(StringInputSource::new("#cmd$x"), ParserConfig::default());
    let err = parser.next_command().unwrap_err();
    assert_eq!(err.message(), "Unexpected input: '$x'");
    assert_eq!(err.position(), Some((1, 5)));
}

#[test]
fn number_commands_and_thresholds() {
    let mut parser = Parser::new(StringInputSource::new("#114 a\n#-3\n"), ParserConfig::default());
    let cmd = parser.next_command().unwrap().unwrap();
    assert_eq!(cmd, Command::new_number(114, vec![Parameter::from("a")]));
    let cmd = parser.next_command().unwrap().unwrap();
    assert_eq!(cmd, Command::new_number(-3, vec![]));
    assert_eq!(parser.next_command().unwrap(), None);

    let config = ParserConfig::default().with_convert_number_command(false);
    let mut parser = Parser::new(StringInputSource::new("#7 x"), config);
    let cmd = parser.next_command().unwrap().unwrap();
    assert_eq!(cmd.name(), "7");

    let config = ParserConfig::default().with_command_threshold(2).with_skip_annotations(true);
    let mut parser = Parser::new(StringInputSource::new("#text\n##cmd\n###note\n"), config);
    assert_eq!(parser.next_command().unwrap().unwrap(), Command::new_text("#text"));
    assert_eq!(parser.next_command().unwrap().unwrap().name(), "cmd");
    assert_eq!(parser.next_command().unwrap(), None);
    assert_eq!(parser.current_line(), 4);
}

#[test]
fn parser_error_columns_count_bytes() {
    // the ideographic space before `#` is three bytes wide
    let mut parser = Parser::new(StringInputSource::new("\u{3000}#cmd$x"), ParserConfig::default());
    let err = parser.next_command().unwrap_err();
    assert_eq!(err.message(), "Unexpected input: '$x'");
    assert_eq!(err.position(), Some((1, 8)));

    // the rest " $$$" follows the 9 bytes of `cmd "中"`, 13 bytes in all
    let mut parser = Parser::new(StringInputSource::new("#cmd \"中\" $$$"), ParserConfig::default());
    let err = parser.next_command().unwrap_err();
    assert_eq!(err.message(), "Unexpected input: ' $$$'");
    assert_eq!(err.position(), Some((1, 11)));
    assert_eq!(err.traceback.as_ref().unwrap().column_range, (11, 15));

    // a parameter that fails after it has begun is a committed failure
    let mut parser = Parser::new(StringInputSource::new("#cmd \"中\" p(1"), ParserConfig::default());
    let err = parser.next_command().unwrap_err();
    assert_eq!(err.message(), "Command parsing error");
}
