use koicore::command::{Command, CompositeValue, Parameter, Value};
use koicore::writer::config::{
    CommandOptions, FormatterOptions, NumberFormat, ParamFormatSelector, ParamOptions, WriterConfig,
};
use koicore::writer::generators::Generators;
use koicore::writer::Writer;

#[test]
fn test_get_effective_options() {
    let explicit_options = FormatterOptions { compact: true, ..Default::default() };
    let config = WriterConfig::default();

    let result = Generators::get_effective_options("test", Some(&explicit_options), &config);
    assert_eq!(result.indent, 4);
    assert_eq!(result.compact, true);

    let mut command_options = CommandOptions::new();
    let command_specific = FormatterOptions { newline_after: true, ..Default::default() };
    command_options.insert("custom_command".to_string(), command_specific.clone());

    let config = WriterConfig { command_options, ..Default::default() };

    let result = Generators::get_effective_options("custom_command", None, &config);
    assert_eq!(result.newline_after, true);

    let global_options = FormatterOptions { indent: 8, ..Default::default() };

    let config = WriterConfig { global_options: global_options.clone(), ..Default::default() };

    let result = Generators::get_effective_options("unknown_command", None, &config);
    assert_eq!(result.indent, 8);
    assert_eq!(result.number_format, NumberFormat::Decimal);
}

#[test]
fn test_merge_options() {
    let base_options = FormatterOptions {
        indent: 4,
        compact: false,
        newline_after: false,
        ..Default::default()
    };

    let override_options = FormatterOptions {
        compact: true,
        newline_after: true,
        ..Default::default()
    };

    let merged = Generators::merge_options(&base_options, &override_options);

    assert_eq!(merged.indent, base_options.indent);
    assert_eq!(merged.compact, override_options.compact);
    assert_eq!(merged.newline_after, override_options.newline_after);

    let override_with_hex = FormatterOptions { number_format: NumberFormat::Hex, ..Default::default() };

    let merged_hex = Generators::merge_options(&base_options, &override_with_hex);
    assert_eq!(merged_hex.number_format, NumberFormat::Hex);
}

#[test]
fn test_merge_options_with_override() {
    let base_options = FormatterOptions { indent: 4, use_tabs: true, ..Default::default() };

    let override_full = FormatterOptions { indent: 2, should_override: true, ..Default::default() };

    let merged = Generators::merge_options(&base_options, &override_full);
    assert_eq!(merged.indent, 2);
    assert_eq!(merged.use_tabs, false);
    assert_eq!(merged.should_override, true);

    let override_partial = FormatterOptions { indent: 8, should_override: false, ..Default::default() };

    let merged_partial = Generators::merge_options(&base_options, &override_partial);
    assert_eq!(merged_partial.indent, 8);
    assert_eq!(merged_partial.use_tabs, true);
}

#[test]
fn test_write_indent() {
    let mut options = FormatterOptions::default();
    options.indent = 4;
    let mut buffer = String::new();
    Generators::write_indent(&mut buffer, 2, &options);
    assert_eq!(buffer, "        ");

    let options = FormatterOptions { use_tabs: true, ..Default::default() };
    let mut buffer = String::new();
    Generators::write_indent(&mut buffer, 2, &options);
    assert_eq!(buffer, "\t\t");

    let options = FormatterOptions { compact: true, ..Default::default() };
    let mut buffer = String::new();
    Generators::write_indent(&mut buffer, 2, &options);
    assert_eq!(buffer, "");

    let options = FormatterOptions { indent: 2, ..Default::default() };
    let mut buffer = String::new();
    Generators::write_indent(&mut buffer, 3, &options);
    assert_eq!(buffer, "      ");
}

#[test]
fn test_get_param_name() {
    let basic_param = Parameter::from(42);
    let name = Generators::get_param_name(&basic_param);
    assert_eq!(name, None);

    let composite_param =
        Parameter::Composite("test_name".to_string(), CompositeValue::Single(Value::Int(42)));
    let name = Generators::get_param_name(&composite_param);
    assert_eq!(name, Some("test_name".to_string()));
}

#[test]
fn test_get_param_specific_options() {
    let default_options = FormatterOptions::default();

    let result = Generators::get_param_specific_options(0, None, &default_options, None);
    assert_eq!(result, default_options);

    let mut param_options = ParamOptions::new();

    let hex_opt = FormatterOptions { number_format: NumberFormat::Hex, ..Default::default() };
    param_options.insert(ParamFormatSelector::Position(0), hex_opt);

    let octal_opt = FormatterOptions { number_format: NumberFormat::Octal, ..Default::default() };
    param_options.insert(ParamFormatSelector::Position(1), octal_opt);

    let binary_opt = FormatterOptions { number_format: NumberFormat::Binary, ..Default::default() };
    param_options.insert(ParamFormatSelector::Position(2), binary_opt);

    let config = WriterConfig::default();
    let mut writer = Writer::new(config);

    let cmd = Command::new("dummy", vec![Parameter::from(1), Parameter::from(2), Parameter::from(3)]);

    writer.write_command_with_options(&cmd, None, Some(&param_options));

    let output_str = writer.output();
    assert!(!output_str.is_empty());

    let res0 = Generators::get_param_specific_options(0, None, &default_options, Some(&param_options));
    assert_eq!(res0, hex_opt);

    let res1 = Generators::get_param_specific_options(1, None, &default_options, Some(&param_options));
    assert_eq!(res1, octal_opt);

    let res2 = Generators::get_param_specific_options(2, None, &default_options, Some(&param_options));
    assert_eq!(res2, binary_opt);

    let name_options = FormatterOptions { number_format: NumberFormat::Decimal, ..Default::default() };
    param_options.insert(ParamFormatSelector::Name("test_name".to_string()), name_options);

    let result = Generators::get_param_specific_options(
        1,
        Some("test_name".to_string()),
        &default_options,
        Some(&param_options),
    );
    assert_eq!(result, name_options);

    let conflicting_pos_options = FormatterOptions { number_format: NumberFormat::Octal, ..Default::default() };
    param_options.insert(ParamFormatSelector::Position(2), conflicting_pos_options);

    let result = Generators::get_param_specific_options(
        2,
        Some("test_name".to_string()),
        &default_options,
        Some(&param_options),
    );
    assert_eq!(result, name_options);
}

#[test]
fn test_write_command_with_param_options() {
    let command = Command::new("test_command", vec![Parameter::from(42), Parameter::from("string")]);
    let config = WriterConfig::default();
    let options = FormatterOptions::default();

    let mut buffer = String::new();
    Generators::write_command_with_param_options(&mut buffer, &command, &config, &options, None, 0);
    assert_eq!(buffer, "#test_command 42 string");

    let command = Command::new_text("Hello, world!");
    let mut buffer = String::new();
    Generators::write_command_with_param_options(&mut buffer, &command, &config, &options, None, 0);
    assert_eq!(buffer, "Hello, world!");

    let command = Command::new_annotation("This is an annotation");
    let mut buffer = String::new();
    Generators::write_command_with_param_options(&mut buffer, &command, &config, &options, None, 0);
    assert_eq!(buffer, "## This is an annotation");

    let command = Command::new_number(123, vec![Parameter::from("extra")]);
    let mut buffer = String::new();
    Generators::write_command_with_param_options(&mut buffer, &command, &config, &options, None, 0);
    assert_eq!(buffer, "#123 extra");
}

#[test]
fn test_write_number_command_complex() {
    let cmd = Command::new_number(
        123,
        vec![Parameter::from("p1"), Parameter::from("p2"), Parameter::from("p3")],
    );

    let options = FormatterOptions { indent: 4, ..Default::default() };

    let mut param_options = ParamOptions::new();

    let nl_after = FormatterOptions { newline_after_param: true, ..Default::default() };
    param_options.insert(ParamFormatSelector::Position(0), nl_after);

    let nl_before = FormatterOptions { newline_before_param: true, ..Default::default() };
    param_options.insert(ParamFormatSelector::Position(2), nl_before);

    let config = WriterConfig::default();
    let mut writer = Writer::new(config);

    writer.write_command_with_options(&cmd, Some(&options), Some(&param_options));

    let result = writer.output();
    let expected = "#123 p1\n    p2 p3\n";
    assert_eq!(result, expected);
}

#[test]
fn merge_should_override_replaces_everything() {
    let base = FormatterOptions { compact: true, number_format: NumberFormat::Hex, ..Default::default() };
    let unset = FormatterOptions { indent: 0, number_format: NumberFormat::Unknown, ..Default::default() };
    let merged = Generators::merge_options(&base, &unset);
    assert_eq!(merged.indent, 4);
    assert_eq!(merged.number_format, NumberFormat::Hex);
    assert!(merged.compact);
    let config = WriterConfig { global_options: unset, ..Default::default() };
    let eff = Generators::get_effective_options("c", None, &config);
    assert_eq!(eff.indent, 4);
    assert_eq!(eff.number_format, NumberFormat::Decimal);
}

#[test]
fn special_commands_without_their_value_write_nothing() {
    let config = WriterConfig::default();
    let options = FormatterOptions::default();
    let mut buffer = String::new();
    let odd = Command::new("@number", vec![Parameter::from("x")]);
    Generators::write_command_with_param_options(&mut buffer, &odd, &config, &options, None, 0);
    let odd = Command::new("@text", vec![]);
    Generators::write_command_with_param_options(&mut buffer, &odd, &config, &options, None, 0);
    assert_eq!(buffer, "");
}
