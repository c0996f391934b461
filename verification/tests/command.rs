use koicore::command::{Command, CompositeValue, Parameter, Value};

#[test]
fn test_command_display() {
    let cmd = Command::new("hello", vec![Parameter::Basic("world".to_string().into())]);
    assert_eq!(cmd.to_string(), "hello world");
}

#[test]
fn test_command_display_text() {
    let cmd = Command::new_text("hello world");
    assert_eq!(cmd.to_string(), "@text \"hello world\"");
}

#[test]
fn test_command_display_annotation() {
    let cmd = Command::new_annotation("hello world".to_string().as_str());
    assert_eq!(cmd.to_string(), "@annotation \"hello world\"");
}

#[test]
fn test_convert_value() {
    let cv = Parameter::from(10);
    assert_eq!(cv.to_string(), "10");
    let cv = Parameter::from(("a", 10));
    assert_eq!(cv.to_string(), "a(10)");
}

#[test]
fn test_value_display_escaping() {
    let v = Value::String("quote \" and backslash \\".to_string());
    assert_eq!(v.to_string(), "\"quote \\\" and backslash \\\\\"");

    let v = Value::String("newline \n and tab \t".to_string());
    assert_eq!(v.to_string(), "\"newline \\n and tab \\t\"");
}

#[test]
fn test_float_display() {
    let v = Value::Float(1.23_f64.to_string());
    assert_eq!(v.to_string(), "1.23");
}

#[test]
fn test_composite_value_display() {
    let list = CompositeValue::List(vec![Value::Int(1), Value::Int(2), Value::Int(3)]);
    assert_eq!(list.to_string(), "1, 2, 3");

    let dict = CompositeValue::Dict(vec![
        ("key1".to_string(), Value::Int(1)),
        ("key2".to_string(), Value::String("value".to_string())),
    ]);
    assert_eq!(dict.to_string(), "key1: 1, key2: value");

    let single = CompositeValue::Single(Value::Int(42));
    assert_eq!(single.to_string(), "42");
}

#[test]
fn command_number_and_accessors() {
    let cmd = Command::new_number(114, vec![Parameter::from("arg")]);
    assert_eq!(cmd.name(), "@number");
    assert_eq!(cmd.params().len(), 2);
    assert_eq!(cmd.params()[0], Parameter::Basic(Value::Int(114)));
    assert_eq!(cmd.to_string(), "@number 114 arg");
}

#[test]
fn value_conversions() {
    assert_eq!(Value::from(7), Value::Int(7));
    assert_eq!(Value::from(true), Value::Bool(true));
    assert_eq!(Value::from("x"), Value::String("x".to_string()));
    assert_eq!(Value::from("y".to_string()), Value::String("y".to_string()));
    assert_eq!(CompositeValue::from(Value::Int(1)), CompositeValue::Single(Value::Int(1)));
    assert_eq!(CompositeValue::from(vec![Value::Int(1)]), CompositeValue::List(vec![Value::Int(1)]));
    assert_eq!(
        Parameter::from(("p".to_string(), CompositeValue::from(3))),
        Parameter::Composite("p".to_string(), CompositeValue::Single(Value::Int(3)))
    );
    assert_eq!(Parameter::from(false), Parameter::Basic(Value::Bool(false)));
}

#[test]
fn value_display_forms() {
    assert_eq!(Value::Int(-5).to_string(), "-5");
    assert_eq!(Value::Bool(false).to_string(), "false");
    assert_eq!(Value::String("ident_1".to_string()).to_string(), "ident_1");
    assert_eq!(Value::String("".to_string()).to_string(), "\"\"");
    let p = Parameter::Composite(
        "pos".to_string(),
        CompositeValue::Dict(vec![("x".to_string(), Value::Int(1))]),
    );
    assert_eq!(p.to_string(), "pos(x: 1)");
}
