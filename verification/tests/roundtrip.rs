use koicore::command::{Command, CompositeValue, Parameter, Value};
use koicore::parser::input::StringInputSource;
use koicore::parser::{Parser, ParserConfig};
use koicore::writer::config::{
    FormatterOptions, NumberFormat, ParamFormatSelector, ParamOptions, WriterConfig,
};
use koicore::writer::Writer;

fn parse_all(text: &str, config: ParserConfig) -> Vec<Command> {
    let mut parser = Parser::new(StringInputSource::new(text), config);
    let mut out = Vec::new();
    while let Some(c) = parser.next_command().unwrap() {
        out.push(c);
    }
    out
}

fn rich_command() -> Command {
    Command::new(
        "draw",
        vec![
            Parameter::from("Line"),
            Parameter::from(255),
            Parameter::from(-5),
            Parameter::Basic(Value::Float("1.5e3".to_string())),
            Parameter::from(true),
            Parameter::from("with \"quotes\", spaces\nand lines"),
            Parameter::Composite(
                "pos".to_string(),
                CompositeValue::Dict(vec![
                    ("x".to_string(), Value::Int(0)),
                    ("y".to_string(), Value::Float("-.25".to_string())),
                ]),
            ),
            Parameter::Composite(
                "color".to_string(),
                CompositeValue::List(vec![Value::Int(1), Value::Int(2), Value::String("x y".to_string())]),
            ),
            Parameter::Composite("single".to_string(), CompositeValue::Single(Value::Bool(false))),
        ],
    )
}

#[test]
fn written_command_parses_back() {
    let cmd = rich_command();
    let mut writer = Writer::new(WriterConfig::default());
    writer.write_command(&cmd);
    let text = writer.output();
    assert_eq!(parse_all(&text, ParserConfig::default()), vec![cmd]);
}

#[test]
fn written_command_parses_back_with_options() {
    let cmd = rich_command();
    let config = WriterConfig { command_threshold: 3, ..Default::default() };
    let mut writer = Writer::new(config);
    let mut params = ParamOptions::new();
    params.insert(
        ParamFormatSelector::Position(1),
        FormatterOptions { number_format: NumberFormat::Hex, ..Default::default() },
    );
    params.insert(
        ParamFormatSelector::Name("color".to_string()),
        FormatterOptions { number_format: NumberFormat::Binary, compact: true, ..Default::default() },
    );
    let opts = FormatterOptions {
        force_quotes_for_vars: true,
        newline_before: true,
        newline_after: true,
        use_tabs: true,
        ..Default::default()
    };
    writer.inc_indent();
    writer.write_command_with_options(&cmd, Some(&opts), Some(&params));
    writer.dec_indent();
    writer.write_command(&Command::new("end", vec![]));
    let text = writer.output();
    let config = ParserConfig::default().with_command_threshold(3);
    assert_eq!(parse_all(&text, config), vec![cmd, Command::new("end", vec![])]);
}

#[test]
fn bare_true_is_read_as_a_boolean() {
    // a string written bare as `true` cannot come back as a string
    let cmd = Command::new("c", vec![Parameter::from("true")]);
    let mut writer = Writer::new(WriterConfig::default());
    writer.write_command(&cmd);
    let parsed = parse_all(&writer.output(), ParserConfig::default());
    assert_eq!(parsed, vec![Command::new("c", vec![Parameter::from(true)])]);
}

#[test]
fn negative_hex_is_not_read_back() {
    // its two's complement bits do not fit in a signed 64-bit integer
    let cmd = Command::new("c", vec![Parameter::from(-1)]);
    let mut writer = Writer::new(WriterConfig::default());
    let opts = FormatterOptions { number_format: NumberFormat::Hex, ..Default::default() };
    writer.write_command_with_options(&cmd, Some(&opts), None);
    assert_eq!(writer.output(), "#c 0xffffffffffffffff\n");
    let mut parser = Parser::new(StringInputSource::new(&writer.output()), ParserConfig::default());
    assert!(parser.next_command().is_err());
}

fn first_command(generated: &str) -> Command {
    let input = StringInputSource::new(generated);
    let parser_config = ParserConfig::default();
    let mut parser = Parser::new(input, parser_config);
    let parsed = parser.next_command();
    assert!(parsed.is_ok(), "Failed to parse generated command: {}", generated);
    let parsed_command = parsed.unwrap();
    assert!(parsed_command.is_some(), "No command parsed from: {}", generated);
    parsed_command.unwrap()
}

#[test]
fn test_writer_parser_compatibility() {
    let test_cases = vec![
        Command::new(
            "test1",
            vec![Parameter::from("string"), Parameter::from(42), Parameter::Basic(Value::Float(3.14_f64.to_string()))],
        ),
        Command::new("test2", vec![Parameter::from("no_quotes"), Parameter::from(0xff)]),
        Command::new("test3", vec![Parameter::from("with spaces"), Parameter::from(1000)]),
    ];

    let config = WriterConfig::default();

    for command in test_cases {
        let mut writer = Writer::new(config.clone());
        writer.write_command(&command);
        let generated = writer.output();

        let parsed_command = first_command(&generated);
        assert_eq!(parsed_command.name(), command.name());
        assert_eq!(parsed_command.params.len(), command.params.len());
    }
}

#[test]
fn test_writer_parser_param_specific() {
    let command = Command::new(
        "param_test",
        vec![Parameter::from(42), Parameter::from(255), Parameter::from(100)],
    );

    let config = WriterConfig::default();
    let mut writer = Writer::new(config.clone());

    let mut param_options = ParamOptions::new();

    let mut hex_options = FormatterOptions::default();
    hex_options.number_format = NumberFormat::Hex;
    param_options.insert(ParamFormatSelector::Position(0), hex_options);

    let mut bin_options = FormatterOptions::default();
    bin_options.number_format = NumberFormat::Binary;
    param_options.insert(ParamFormatSelector::Position(1), bin_options);

    let mut oct_options = FormatterOptions::default();
    oct_options.number_format = NumberFormat::Octal;
    param_options.insert(ParamFormatSelector::Position(2), oct_options);

    writer.write_command_with_options(&command, None, Some(&param_options));
    let generated = writer.output();

    let parsed_command = first_command(&generated);
    assert_eq!(parsed_command.name(), command.name());
    assert_eq!(parsed_command.params.len(), command.params.len());
}

#[test]
fn test_writer_parser_newlines() {
    let command = Command::new(
        "newline_test",
        vec![Parameter::from("param1"), Parameter::from("param2"), Parameter::from("param3")],
    );

    let config = WriterConfig::default();
    let mut writer = Writer::new(config.clone());

    let mut param_options = ParamOptions::new();

    let mut newline_options = FormatterOptions::default();
    newline_options.newline_after_param = true;

    param_options.insert(ParamFormatSelector::Position(0), newline_options.clone());
    param_options.insert(ParamFormatSelector::Position(1), newline_options.clone());
    param_options.insert(ParamFormatSelector::Position(2), newline_options);

    writer.write_command_with_options(&command, None, Some(&param_options));
    let generated = writer.output();

    let parsed_command = first_command(&generated);
    assert_eq!(parsed_command.name(), command.name());
}

#[test]
fn test_writer_parser_compact() {
    let command = Command::new(
        "compact_test",
        vec![Parameter::from("string"), Parameter::from(42), Parameter::Basic(Value::Float(3.14_f64.to_string()))],
    );

    let config = WriterConfig::default();
    let mut writer = Writer::new(config.clone());

    let mut compact_options = FormatterOptions::default();
    compact_options.compact = true;
    writer.write_command_with_options(&command, Some(&compact_options), None);
    let generated = writer.output();

    let parsed_command = first_command(&generated);
    assert_eq!(parsed_command.name(), command.name());
    assert_eq!(parsed_command.params.len(), command.params.len());
}

#[test]
fn test_writer_parser_force_quotes() {
    let command = Command::new(
        "quote_test",
        vec![Parameter::from("valid_name"), Parameter::from("valid123"), Parameter::from("invalid-name")],
    );

    let config = WriterConfig::default();
    let mut writer = Writer::new(config.clone());

    let mut force_quote_options = FormatterOptions::default();
    force_quote_options.force_quotes_for_vars = true;
    writer.write_command_with_options(&command, Some(&force_quote_options), None);
    let generated = writer.output();

    let parsed_command = first_command(&generated);
    assert_eq!(parsed_command.name(), command.name());
    assert_eq!(parsed_command.params.len(), command.params.len());
}

fn written(command: &Command) -> String {
    let mut writer = Writer::new(WriterConfig::default());
    writer.write_command(command);
    writer.output()
}

#[test]
fn text_newlines_are_escaped_when_written() {
    assert_eq!(written(&Command::new_text("Hello\nWorld")), "Hello\\\nWorld\n");
    assert_eq!(written(&Command::new_text("Hello\\\nWorld")), "Hello\\\\\nWorld\n");
    assert_eq!(written(&Command::new_text("Hello\n")), "Hello\\\n\n");
    assert_eq!(written(&Command::new_annotation("note\nmore")), "## note\\\nmore\n");
}

#[test]
fn text_and_annotation_newlines_round_trip() {
    let contents = ["Hello\nWorld", "Hello\\\nWorld", "Hello\\\\\nWorld", "Hello"];
    for content in contents {
        let text = Command::new_text(content);
        assert_eq!(parse_all(&written(&text), ParserConfig::default()), vec![text]);
        let note = Command::new_annotation(content);
        assert_eq!(parse_all(&written(&note), ParserConfig::default()), vec![note]);
    }
    // a trailing line break is trimmed away, with no stray backslash
    assert_eq!(
        parse_all(&written(&Command::new_text("Hello\n")), ParserConfig::default()),
        vec![Command::new_text("Hello")]
    );
}

#[test]
fn text_newlines_round_trip_with_indentation_kept() {
    let config = ParserConfig::default().with_preserve_indent(true);
    let parsed = parse_all("  Hello\\\n  World\n", config);
    assert_eq!(parsed, vec![Command::new_text("  Hello\n  World")]);
}

#[test]
fn values_read_back_as_other_values_keep_name_and_count() {
    let command = Command::new(
        "cmd",
        vec![
            Parameter::from("true"),
            Parameter::Basic(Value::Float(1.0_f64.to_string())),
            Parameter::from("x"),
        ],
    );
    let parsed = parse_all(&written(&command), ParserConfig::default());
    assert_eq!(
        parsed,
        vec![Command::new(
            "cmd",
            vec![Parameter::Basic(Value::Bool(true)), Parameter::from(1), Parameter::from("x")]
        )]
    );
}
