use koicore::command::{CompositeValue, Parameter, Value};
use koicore::writer::config::{FormatterOptions, NumberFormat};
use koicore::writer::formatters::Formatters;

#[test]
fn test_format_number() {
    let options = FormatterOptions::default();
    let result = Formatters::format_number(&42, &options);
    assert_eq!(result, "42");

    let options = FormatterOptions { number_format: NumberFormat::Hex, ..Default::default() };
    let result = Formatters::format_number(&255, &options);
    assert_eq!(result, "0xff");

    let options = FormatterOptions { number_format: NumberFormat::Octal, ..Default::default() };
    let result = Formatters::format_number(&63, &options);
    assert_eq!(result, "0o77");

    let options = FormatterOptions { number_format: NumberFormat::Binary, ..Default::default() };
    let result = Formatters::format_number(&7, &options);
    assert_eq!(result, "0b111");

    let options = FormatterOptions::default();
    let result = Formatters::format_number(&-42, &options);
    assert_eq!(result, "-42");

    let options = FormatterOptions { number_format: NumberFormat::Hex, ..Default::default() };
    let result = Formatters::format_number(&-255, &options);
    assert_eq!(result, "0xffffffffffffff01");
}

#[test]
fn test_is_valid_variable_name() {
    assert!(Formatters::is_valid_variable_name("valid_name"));
    assert!(Formatters::is_valid_variable_name("_valid"));
    assert!(Formatters::is_valid_variable_name("valid123"));
    assert!(Formatters::is_valid_variable_name("a"));
    assert!(Formatters::is_valid_variable_name("A"));

    assert!(!Formatters::is_valid_variable_name("123invalid"));
    assert!(!Formatters::is_valid_variable_name("invalid-name"));
    assert!(!Formatters::is_valid_variable_name("invalid name"));
    assert!(!Formatters::is_valid_variable_name("invalid.name"));
    assert!(!Formatters::is_valid_variable_name(""));
    assert!(!Formatters::is_valid_variable_name("!invalid"));
    assert!(!Formatters::is_valid_variable_name("invalid!"));
}

#[test]
fn test_format_string() {
    let options = FormatterOptions::default();
    let result = Formatters::format_string("valid_name", &options);
    assert_eq!(result, "valid_name");

    let result = Formatters::format_string("invalid-name", &options);
    assert_eq!(result, "\"invalid-name\"");

    let result = Formatters::format_string("with_spaces", &options);
    assert_eq!(result, "with_spaces");

    let options = FormatterOptions { force_quotes_for_vars: true, ..Default::default() };
    let result = Formatters::format_string("valid_name", &options);
    assert_eq!(result, "\"valid_name\"");
}

#[test]
fn test_format_composite_value() {
    let options = FormatterOptions::default();

    let single_value = CompositeValue::Single(Value::Int(42));
    let result = Formatters::format_composite_value(&single_value, &options);
    assert_eq!(result, "(42)");

    let list_value = CompositeValue::List(vec![
        Value::Int(1),
        Value::String("two".to_string()),
        Value::Int(3),
    ]);
    let result = Formatters::format_composite_value(&list_value, &options);
    assert_eq!(result, "(1, two, 3)");

    let options_compact = FormatterOptions { compact: true, ..Default::default() };
    let result = Formatters::format_composite_value(&list_value, &options_compact);
    assert_eq!(result, "(1,two,3)");

    let dict_entries = vec![
        ("key1".to_string(), Value::Int(1)),
        ("key2".to_string(), Value::String("value2".to_string())),
    ];
    let dict_value = CompositeValue::Dict(dict_entries);
    let result = Formatters::format_composite_value(&dict_value, &options);
    assert_eq!(result, "(key1: 1, key2: value2)");

    let result = Formatters::format_composite_value(&dict_value, &options_compact);
    assert_eq!(result, "(key1:1,key2:value2)");
}

#[test]
fn test_format_value() {
    let options = FormatterOptions::default();

    let result = Formatters::format_value(&Value::Int(42), &options);
    assert_eq!(result, "42");

    let result = Formatters::format_value(&Value::Float(3.14_f64.to_string()), &options);
    assert_eq!(result, "3.14");

    let result = Formatters::format_value(&Value::String("test".to_string()), &options);
    assert_eq!(result, "test");

    let result = Formatters::format_value(&Value::String("test-with-dash".to_string()), &options);
    assert_eq!(result, "\"test-with-dash\"");

    let result = Formatters::format_value(&Value::Int(-42), &options);
    assert_eq!(result, "-42");
}

#[test]
fn test_format_parameter() {
    let options = FormatterOptions::default();

    let basic_param = Parameter::from(42);
    let result = Formatters::format_parameter(&basic_param, &options);
    assert_eq!(result, "42");

    let basic_param = Parameter::from("test");
    let result = Formatters::format_parameter(&basic_param, &options);
    assert_eq!(result, "test");

    let composite_param =
        Parameter::Composite("test_name".to_string(), CompositeValue::Single(Value::Int(42)));
    let result = Formatters::format_parameter(&composite_param, &options);
    assert_eq!(result, "test_name(42)");

    let composite_param = Parameter::Composite(
        "list_param".to_string(),
        CompositeValue::List(vec![Value::Int(1), Value::Int(2), Value::Int(3)]),
    );
    let result = Formatters::format_parameter(&composite_param, &options);
    assert_eq!(result, "list_param(1, 2, 3)");

    let dict_entries = vec![("key".to_string(), Value::String("value".to_string()))];
    let composite_param =
        Parameter::Composite("dict_param".to_string(), CompositeValue::Dict(dict_entries));
    let result = Formatters::format_parameter(&composite_param, &options);
    assert_eq!(result, "dict_param(key: value)");
}

#[test]
fn test_format_value_with_number_formats() {
    let hex_options = FormatterOptions { number_format: NumberFormat::Hex, ..Default::default() };
    let result = Formatters::format_value(&Value::Int(255), &hex_options);
    assert_eq!(result, "0xff");

    let oct_options = FormatterOptions { number_format: NumberFormat::Octal, ..Default::default() };
    let result = Formatters::format_value(&Value::Int(63), &oct_options);
    assert_eq!(result, "0o77");

    let bin_options = FormatterOptions { number_format: NumberFormat::Binary, ..Default::default() };
    let result = Formatters::format_value(&Value::Int(7), &bin_options);
    assert_eq!(result, "0b111");
}

#[test]
fn number_format_edges() {
    let unknown = FormatterOptions { number_format: NumberFormat::Unknown, ..Default::default() };
    assert_eq!(Formatters::format_number(&-7, &unknown), "-7");
    let bin = FormatterOptions { number_format: NumberFormat::Binary, ..Default::default() };
    assert_eq!(Formatters::format_number(&0, &bin), "0b0");
    assert_eq!(Formatters::format_number(&i64::MIN, &FormatterOptions::default()), "-9223372036854775808");
    let oct = FormatterOptions { number_format: NumberFormat::Octal, ..Default::default() };
    assert_eq!(Formatters::format_number(&-1, &oct), "0o1777777777777777777777");
    assert_eq!(Formatters::format_value(&Value::Bool(true), &oct), "true");
    assert_eq!(Formatters::format_string("a\"b\\c\nd\re\tf", &oct), "\"a\\\"b\\\\c\\nd\\re\\tf\"");
}

#[test]
fn number_text_reads_back_in_its_base() {
    for n in [0i64, 7, 255, -1, i64::MIN, i64::MAX] {
        for (format, prefix, base) in [
            (NumberFormat::Hex, "0x", 16),
            (NumberFormat::Octal, "0o", 8),
            (NumberFormat::Binary, "0b", 2),
        ] {
            let mut options = FormatterOptions::default();
            options.number_format = format;
            let text = Formatters::format_number(&n, &options);
            let digits = text.strip_prefix(prefix).unwrap();
            assert!(digits == "0" || !digits.starts_with('0'));
            assert_eq!(u64::from_str_radix(digits, base).unwrap(), n as u64);
        }
        let text = Formatters::format_number(&n, &FormatterOptions::default());
        assert_eq!(text.parse::<i64>().unwrap(), n);
    }
}
