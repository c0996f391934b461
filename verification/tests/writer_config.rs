use koicore::writer::config::{
    CommandOptions, FormatterOptions, NumberFormat, ParamFormatSelector, ParamOptions, WriterConfig,
};

#[test]
fn test_number_format_default() {
    let default = NumberFormat::default();
    assert_eq!(default, NumberFormat::Decimal);
}

#[test]
fn test_param_format_selector() {
    let pos_selector = ParamFormatSelector::Position(0);
    let name_selector = ParamFormatSelector::Name("test".to_string());
    assert_ne!(pos_selector, name_selector);
    let pos_selector2 = ParamFormatSelector::Position(0);
    assert_eq!(pos_selector, pos_selector2);
    let name_selector2 = ParamFormatSelector::Name("test".to_string());
    assert_eq!(name_selector, name_selector2);
}

#[test]
fn test_formatter_options_default() {
    let default = FormatterOptions::default();
    assert_eq!(default.indent, 4);
    assert_eq!(default.use_tabs, false);
    assert_eq!(default.newline_before, false);
    assert_eq!(default.newline_after, false);
    assert_eq!(default.compact, false);
    assert_eq!(default.force_quotes_for_vars, false);
    assert_eq!(default.number_format, NumberFormat::Decimal);
    assert_eq!(default.newline_before_param, false);
    assert_eq!(default.newline_after_param, false);
}

#[test]
fn test_writer_config_default() {
    let default = WriterConfig::default();
    assert_eq!(default.global_options.indent, 4);
    assert_eq!(default.global_options.compact, false);
    assert!(default.command_options.is_empty());
    assert_eq!(default.command_threshold, 1);
}

#[test]
fn test_writer_config_with_custom_command_options() {
    let mut command_options = CommandOptions::new();
    let custom_options = FormatterOptions {
        compact: true,
        newline_after: true,
        ..Default::default()
    };
    command_options.insert("custom_command".to_string(), custom_options.clone());
    let config = WriterConfig {
        command_options,
        ..Default::default()
    };
    assert_eq!(config.command_options.len(), 1);
    assert_eq!(config.command_options.get("custom_command"), Some(&custom_options));
}

#[test]
fn test_writer_config_with_custom_threshold() {
    let config = WriterConfig {
        command_threshold: 2,
        ..Default::default()
    };
    assert_eq!(config.command_threshold, 2);
}

#[test]
fn option_tables_replace_on_insert() {
    let mut table = CommandOptions::new();
    let a = FormatterOptions { indent: 2, ..Default::default() };
    let b = FormatterOptions { indent: 8, ..Default::default() };
    table.insert("x".to_string(), a);
    table.insert("y".to_string(), a);
    table.insert("x".to_string(), b);
    assert_eq!(table.len(), 2);
    assert_eq!(table.get("x"), Some(&b));
    assert_eq!(table.get("y"), Some(&a));
    assert_eq!(table.get("z"), None);

    let mut params = ParamOptions::new();
    assert!(params.is_empty());
    params.insert(ParamFormatSelector::Position(1), a);
    params.insert(ParamFormatSelector::Name("n".to_string()), b);
    params.insert(ParamFormatSelector::Position(1), b);
    assert_eq!(params.len(), 2);
    assert_eq!(params.get(&ParamFormatSelector::Position(1)), Some(&b));
    assert_eq!(params.get(&ParamFormatSelector::Position(0)), None);
    assert_eq!(params.get(&ParamFormatSelector::Name("n".to_string())), Some(&b));
    assert!(ParamFormatSelector::Name("n".to_string()).same(&ParamFormatSelector::Name("n".to_string())));
    assert!(!ParamFormatSelector::Position(3).same(&ParamFormatSelector::Name("n".to_string())));
}
