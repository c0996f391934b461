use koicore::command::{Command, CompositeValue, Parameter, Value};
use koicore::parser::command_parser::{
    parse_command_line, scan_basic, scan_float, scan_integer, scan_ident, Ctx,
};

fn chars(s: &str) -> Vec<char> {
    s.chars().collect()
}

fn basic(s: &str) -> Option<(Value, usize)> {
    scan_basic(&chars(s), 0)
}

/// The number a scanned float value stands for, with the length scanned.
fn float_of(v: Option<(Value, usize)>) -> Option<(f64, usize)> {
    match v {
        Some((Value::Float(t), n)) => Some((t.parse::<f64>().unwrap(), n)),
        _ => None,
    }
}

#[test]
fn test_parse_integer() {
    assert_eq!(scan_integer(&chars("123"), 0), Some((123, 3)));
    assert_eq!(scan_integer(&chars("-456"), 0), Some((-456, 4)));
    assert_eq!(scan_integer(&chars("0x1A"), 0), Some((26, 4)));
    assert_eq!(scan_integer(&chars("0b101"), 0), Some((5, 5)));
}

#[test]
fn test_parse_float() {
    assert_eq!(scan_float(&chars("1.23"), 0), Some(4));
    assert_eq!(float_of(basic("1.23")), Some((1.23, 4)));
    assert_eq!(float_of(basic("-4.56")), Some((-4.56, 5)));
    assert_eq!(float_of(basic("1e-2")), Some((0.01, 4)));
}

#[test]
fn test_parse_literal() {
    assert_eq!(scan_ident(&chars("hello"), 0), Some(5));
    assert_eq!(basic("hello"), Some((Value::String("hello".to_string()), 5)));
    assert_eq!(basic("_test_123"), Some((Value::String("_test_123".to_string()), 9)));
}

#[test]
fn test_parse_command_simple() {
    let result = parse_command_line("command");
    assert!(result.is_ok());
    let (remaining, cmd) = result.unwrap();
    assert_eq!(remaining, "");
    assert_eq!(cmd.name(), "command");
    assert_eq!(cmd.params().len(), 0);
}

#[test]
fn test_parse_command_with_params() {
    let result = parse_command_line("draw Line 2");
    println!("Result: {:?}", result);
    assert!(result.is_ok());
    let (remaining, cmd) = result.unwrap();
    assert_eq!(remaining, "");
    assert_eq!(cmd.name(), "draw");
    assert_eq!(cmd.params().len(), 2);
    assert_eq!(cmd.params()[0], Value::String("Line".to_string()).into());
    assert_eq!(cmd.params()[1], Value::from(2).into());
}

#[test]
fn test_parse_string_parameter() {
    let basic_result = basic("\"Hello World\"");
    println!("Basic value parse result: {:?}", basic_result);
    assert!(basic_result.is_some());

    let result = parse_command_line("say \"Hello World\"");
    println!("String parse result: {:?}", result);
    assert!(result.is_ok());
    let (remaining, cmd) = result.unwrap();
    assert_eq!(remaining, "");
    assert_eq!(cmd.name(), "say");
    assert_eq!(cmd.params().len(), 1);
    assert_eq!(cmd.params()[0], Parameter::from("Hello World"));

    let escape_result = basic("\"Hello\\nWorld\"");
    println!("Escape parse result: {:?}", escape_result);
    assert!(escape_result.is_some());
    if let Some((Value::String(s), _)) = escape_result {
        assert_eq!(s, "Hello\nWorld");
    }

    let unicode_result = basic("\"Emoji: \\U0001F602\"");
    println!("Unicode parse result: {:?}", unicode_result);
    assert!(unicode_result.is_some());
    if let Some((Value::String(s), _)) = unicode_result {
        assert_eq!(s, "Emoji: 😂");
    }

    let hex_result = basic("\"Hex: \\x41\"");
    println!("Hex parse result: {:?}", hex_result);
    assert!(hex_result.is_some());
    if let Some((Value::String(s), _)) = hex_result {
        assert_eq!(s, "Hex: A");
    }

    let octal_result = basic("\"Octal: \\101\"");
    println!("Octal parse result: {:?}", octal_result);
    assert!(octal_result.is_some());
    if let Some((Value::String(s), _)) = octal_result {
        assert_eq!(s, "Octal: A");
    }
}

#[test]
fn test_parse_composite_single() {
    let result = parse_command_line("draw thickness(2)");
    assert!(result.is_ok());
    let (remaining, cmd) = result.unwrap();
    assert_eq!(remaining, "");
    assert_eq!(cmd.name(), "draw");
    assert_eq!(cmd.params().len(), 1);
    match &cmd.params()[0] {
        Parameter::Composite(name, _) => assert_eq!(name, "thickness"),
        _ => panic!("Expected composite parameter"),
    }
}

#[test]
fn test_parse_composite_list() {
    let result = parse_command_line("draw color(255, 255, 255)");
    assert!(result.is_ok());
    let (remaining, cmd) = result.unwrap();
    assert_eq!(remaining, "");
    assert_eq!(cmd.name(), "draw");
    assert_eq!(cmd.params().len(), 1);
}

#[test]
fn test_parse_composite_dict() {
    let result = parse_command_line("draw pos(x: 10, y: 20)");
    assert!(result.is_ok());
    let (remaining, cmd) = result.unwrap();
    assert_eq!(remaining, "");
    assert_eq!(cmd.name(), "draw");
    assert_eq!(cmd.params().len(), 1);
}

#[test]
fn test_parse_mixed_parameters() {
    let result = parse_command_line("draw Line 2 pos(x: 0, y: 0) thickness(2) color(255, 255, 255)");
    assert!(result.is_ok());
    let (remaining, cmd) = result.unwrap();
    assert_eq!(remaining, "");
    assert_eq!(cmd.name(), "draw");
    assert_eq!(cmd.params().len(), 5);
    assert_eq!(cmd.params()[0], Value::String("Line".to_string()).into());
    assert_eq!(cmd.params()[1], Value::from(2).into());
    assert_eq!(
        cmd.params()[2],
        Parameter::Composite(
            "pos".to_string(),
            CompositeValue::Dict(vec![
                ("x".to_string(), Value::from(0)),
                ("y".to_string(), Value::from(0)),
            ])
        )
    );
    assert_eq!(
        cmd.params()[3],
        Parameter::Composite("thickness".to_string(), Value::from(2).into())
    );
    assert_eq!(
        cmd.params()[4],
        Parameter::Composite(
            "color".to_string(),
            CompositeValue::List(vec![Value::from(255), Value::from(255), Value::from(255)])
        )
    );
}

#[test]
fn test_parse_number_command() {
    let result = parse_command_line("114 arg1 arg2");
    assert!(result.is_ok());
    let (remaining, cmd) = result.unwrap();
    assert_eq!(remaining, "");
    assert_eq!(cmd.name(), "114");
    assert_eq!(cmd.params().len(), 2);
}

#[test]
fn test_parse_complex_example() {
    let result = parse_command_line(
        "draw Line 2 pos0(x: 0, y: 0) pos1(x: 16, y: 16) thickness(2) color(255, 255, 255)",
    );
    assert!(result.is_ok());
    let (remaining, cmd) = result.unwrap();
    assert_eq!(remaining, "");
    assert_eq!(cmd.name(), "draw");
    assert_eq!(cmd.params().len(), 6);
}

#[test]
fn test_escapes_newline() {
    let result = basic("\"Hello\\\nWorld\"");
    println!("Escape parse result: {:?}", result);
    assert!(result.is_some());
    if let Some((Value::String(s), _)) = result {
        assert_eq!(s, "HelloWorld");
    }

    let result = parse_command_line("draw Line\\\n2");
    println!("Command parse result: {:?}", result);
    assert!(result.is_ok());
    let (remaining, cmd) = result.unwrap();
    assert_eq!(remaining, "");
    assert_eq!(cmd.name(), "draw");
    assert_eq!(cmd.params().len(), 2);
    assert_eq!(cmd.params()[0], Value::String("Line".to_string()).into());
    assert_eq!(cmd.params()[1], Value::from(2).into());
}

#[test]
fn test_line_continuation_in_composite_params() {
    let result = parse_command_line("draw pos(x: 10,\\\ny: 20)");
    println!("Composite dict with line continuation: {:?}", result);
    assert!(result.is_ok());
    let (remaining, cmd) = result.unwrap();
    assert_eq!(remaining, "");
    assert_eq!(cmd.name(), "draw");
    assert_eq!(cmd.params().len(), 1);

    let result = parse_command_line("draw color(255,\\\n255,\\\n255)");
    println!("Composite list with line continuation: {:?}", result);
    assert!(result.is_ok());
    let (remaining, cmd) = result.unwrap();
    assert_eq!(remaining, "");
    assert_eq!(cmd.name(), "draw");
    assert_eq!(cmd.params().len(), 1);

    let result = parse_command_line("draw thickness(\\\n2)");
    println!("Composite single with line continuation: {:?}", result);
    assert!(result.is_ok());
    let (remaining, cmd) = result.unwrap();
    assert_eq!(remaining, "");
    assert_eq!(cmd.name(), "draw");
    assert_eq!(cmd.params().len(), 1);
}

#[test]
fn test_multiple_line_continuations() {
    let result = parse_command_line("draw \\\nLine \\\n2 \\\npos(x: 0,\\\ny: 0)");
    println!("Multiple line continuations: {:?}", result);
    assert!(result.is_ok());
    let (remaining, cmd) = result.unwrap();
    assert_eq!(remaining, "");
    assert_eq!(cmd.name(), "draw");
    assert_eq!(cmd.params().len(), 3);
}

#[test]
fn grammar_booleans_octal_and_failures() {
    assert_eq!(basic("true"), Some((Value::Bool(true), 4)));
    assert_eq!(basic("false"), Some((Value::Bool(false), 5)));
    assert_eq!(scan_integer(&chars("0o17"), 0), Some((15, 4)));
    assert_eq!(basic(".5e3"), Some((Value::Float(".5e3".to_string()), 4)));
    // a name that is neither an identifier nor a number
    assert_eq!(parse_command_line("$x").unwrap_err(), (0, Ctx::CommandName));
    // whitespace that no parameter follows ends the parameters
    let (rest, cmd) = parse_command_line("cmd $$$").unwrap();
    assert_eq!(rest, " $$$");
    assert_eq!(cmd, Command::new("cmd", vec![]));
    // an unclosed composite parameter
    assert_eq!(parse_command_line("cmd p(1, 2").unwrap_err(), (10, Ctx::CompositeEnd));
    // a missing value after a comma
    assert_eq!(parse_command_line("cmd p(1,)").unwrap_err(), (8, Ctx::CompositeValue));
    // the rest that is not parsed is handed back
    let (rest, cmd) = parse_command_line("cmd$x").unwrap();
    assert_eq!(rest, "$x");
    assert_eq!(cmd.name(), "cmd");
    // a hexadecimal integer too large for 64 bits is not one: only its
    // leading decimal zero is
    assert_eq!(scan_integer(&chars("0xFFFFFFFFFFFFFFFF"), 0), Some((0, 1)));
}
