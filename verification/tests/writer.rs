use koicore::command::{Command, Parameter};
use koicore::writer::config::{
    FormatterOptions, NumberFormat, ParamFormatSelector, ParamOptions, WriterConfig,
};
use koicore::writer::Writer;

#[test]
fn test_write_basic_command() {
    let cmd = Command::new("character", vec![Parameter::from("Alice"), Parameter::from("Hello, world!")]);
    let config = WriterConfig::default();
    let mut writer = Writer::new(config);
    writer.write_command(&cmd);
    let result = writer.output();
    assert_eq!(result, "#character Alice \"Hello, world!\"\n");
}

#[test]
fn test_write_text_command() {
    let cmd = Command::new_text("Hello, world!");
    let config = WriterConfig::default();
    let mut writer = Writer::new(config);
    writer.write_command(&cmd);
    let result = writer.output();
    assert_eq!(result, "Hello, world!\n");
}

#[test]
fn test_write_annotation_command() {
    let cmd = Command::new_annotation("This is an annotation");
    let config = WriterConfig::default();
    let mut writer = Writer::new(config);
    writer.write_command(&cmd);
    let result = writer.output();
    assert_eq!(result, "## This is an annotation\n");
}

#[test]
fn test_write_number_command() {
    let cmd = Command::new_number(123, vec![Parameter::from("extra")]);
    let config = WriterConfig::default();
    let mut writer = Writer::new(config);
    writer.write_command(&cmd);
    let result = writer.output();
    assert_eq!(result, "#123 extra\n");
}

#[test]
fn test_write_with_custom_options() {
    let cmd = Command::new("character", vec![Parameter::from("Alice")]);
    let config = WriterConfig::default();
    let mut writer = Writer::new(config);
    let custom_options = FormatterOptions {
        newline_before: true,
        newline_after: true,
        ..Default::default()
    };
    writer.write_command_with_options(&cmd, Some(&custom_options), None);
    let result = writer.output();
    assert_eq!(result, "\n#character Alice\n\n");
}

#[test]
fn test_write_with_force_quotes() {
    let cmd = Command::new("character", vec![Parameter::from("Alice"), Parameter::from("Bob")]);
    let config = WriterConfig {
        global_options: FormatterOptions {
            force_quotes_for_vars: true,
            ..Default::default()
        },
        ..Default::default()
    };
    let mut writer = Writer::new(config);
    writer.write_command(&cmd);
    let result = writer.output();
    assert_eq!(result, "#character \"Alice\" \"Bob\"\n");
}

#[test]
fn test_write_with_invalid_var_names() {
    let cmd = Command::new("character", vec![Parameter::from("123invalid"), Parameter::from("with spaces")]);
    let config = WriterConfig::default();
    let mut writer = Writer::new(config);
    writer.write_command(&cmd);
    let result = writer.output();
    assert_eq!(result, "#character \"123invalid\" \"with spaces\"\n");
}

#[test]
fn test_write_with_number_formats() {
    let cmd = Command::new("test", vec![Parameter::from(42), Parameter::from(255), Parameter::from(7)]);
    let mut param_options = ParamOptions::new();
    param_options.insert(
        ParamFormatSelector::Position(0),
        FormatterOptions { number_format: NumberFormat::Hex, ..Default::default() },
    );
    param_options.insert(
        ParamFormatSelector::Position(1),
        FormatterOptions { number_format: NumberFormat::Octal, ..Default::default() },
    );
    param_options.insert(
        ParamFormatSelector::Position(2),
        FormatterOptions { number_format: NumberFormat::Binary, ..Default::default() },
    );
    let config = WriterConfig::default();
    let mut writer = Writer::new(config);
    writer.write_command_with_options(&cmd, None, Some(&param_options));
    let result = writer.output();
    assert_eq!(result, "#test 0x2a 0o377 0b111\n");
}

#[test]
fn test_write_with_param_newlines() {
    let cmd = Command::new(
        "test",
        vec![Parameter::from("param1"), Parameter::from("param2"), Parameter::from("param3")],
    );
    let mut param_options = ParamOptions::new();
    param_options.insert(
        ParamFormatSelector::Position(0),
        FormatterOptions { newline_after_param: true, ..Default::default() },
    );
    param_options.insert(
        ParamFormatSelector::Position(2),
        FormatterOptions { newline_before_param: true, ..Default::default() },
    );
    let config = WriterConfig::default();
    let mut writer = Writer::new(config);
    writer.write_command_with_options(&cmd, None, Some(&param_options));
    let result = writer.output();
    assert_eq!(result, "#test param1\n    param2\n    param3\n");
}

#[test]
fn test_write_without_repeat_newlines() {
    let cmd = Command::new("test", vec![Parameter::from("param1"), Parameter::from("param2")]);
    let mut param_options = ParamOptions::new();
    param_options.insert(
        ParamFormatSelector::Position(0),
        FormatterOptions { newline_after_param: true, ..Default::default() },
    );
    param_options.insert(
        ParamFormatSelector::Position(1),
        FormatterOptions { newline_before_param: true, ..Default::default() },
    );
    let config = WriterConfig::default();
    let mut writer = Writer::new(config);
    writer.write_command_with_options(&cmd, None, Some(&param_options));
    let result = writer.output();
    assert_eq!(result, "#test param1\n    param2\n");
}

#[test]
fn test_write_with_composite_param_formatting() {
    let cmd = Command::new(
        "test",
        vec![Parameter::from("regular"), Parameter::from(("composite", 42)), Parameter::from("another")],
    );
    let mut param_options = ParamOptions::new();
    param_options.insert(
        ParamFormatSelector::Name("composite".to_string()),
        FormatterOptions { number_format: NumberFormat::Hex, ..Default::default() },
    );
    let config = WriterConfig::default();
    let mut writer = Writer::new(config);
    writer.write_command_with_options(&cmd, None, Some(&param_options));
    let result = writer.output();
    assert_eq!(result, "#test regular composite(0x2a) another\n");
}

#[test]
fn test_mutliline_command() {
    let cmd = Command::new(
        "test",
        vec![Parameter::from("regular"), Parameter::from(("composite", 42)), Parameter::from("another")],
    );
    let config = WriterConfig::default();
    let mut writer = Writer::new(config);
    writer.write_command(&cmd);
    writer.write_command(&cmd);
    let result = writer.output();
    assert_eq!(result, "#test regular composite(42) another\n#test regular composite(42) another\n");
}

#[test]
fn writer_indentation_and_newlines() {
    let mut writer = Writer::new(WriterConfig::default());
    assert_eq!(writer.get_indent(), 0);
    writer.dec_indent();
    assert_eq!(writer.get_indent(), 0);
    writer.inc_indent();
    writer.inc_indent();
    assert_eq!(writer.get_indent(), 2);
    writer.write_command(&Command::new("a", vec![]));
    writer.dec_indent();
    assert_eq!(writer.get_indent(), 1);
    // an empty line of the writer's own is not doubled by `newline_before`
    writer.newline();
    let opts = FormatterOptions { newline_before: true, use_tabs: true, ..Default::default() };
    writer.write_command_with_options(&Command::new("b", vec![]), Some(&opts), None);
    assert_eq!(writer.take_output(), "        #a\n\n\t#b\n");
    assert_eq!(writer.output(), "");
}

#[test]
fn writer_threshold_and_annotations() {
    let config = WriterConfig { command_threshold: 2, ..Default::default() };
    let mut writer = Writer::new(config);
    writer.write_command(&Command::new("cmd", vec![Parameter::from(true)]));
    writer.write_command(&Command::new_annotation("  ### already marked"));
    writer.write_command(&Command::new_annotation("note"));
    assert_eq!(writer.output(), "##cmd true\n  ### already marked\n### note\n");
}
