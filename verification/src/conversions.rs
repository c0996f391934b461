//! Conversions of plain Rust values into KoiLang values and parameters.
//!
//! A `String` is not determined by its characters in specifications, so the
//! conversions from `&str` state what they build in the `ensures` of `from`
//! rather than through `from_spec`.

use vstd::prelude::*;
use vstd::std_specs::convert::FromSpecImpl;
use crate::command::{CompositeValue, Parameter, Value};
use crate::text::str_to_string;

verus! {

impl From<i64> for Value {
    fn from(v: i64) -> (res: Value) {
        Value::Int(v)
    }
}

impl FromSpecImpl<i64> for Value {
    open spec fn obeys_from_spec() -> bool {
        true
    }

    open spec fn from_spec(v: i64) -> Value {
        Value::Int(v)
    }
}

impl From<bool> for Value {
    fn from(v: bool) -> (res: Value) {
        Value::Bool(v)
    }
}

impl FromSpecImpl<bool> for Value {
    open spec fn obeys_from_spec() -> bool {
        true
    }

    open spec fn from_spec(v: bool) -> Value {
        Value::Bool(v)
    }
}

impl From<String> for Value {
    fn from(v: String) -> (res: Value) {
        Value::String(v)
    }
}

impl FromSpecImpl<String> for Value {
    open spec fn obeys_from_spec() -> bool {
        true
    }

    open spec fn from_spec(v: String) -> Value {
        Value::String(v)
    }
}

impl From<&str> for Value {
    fn from(v: &str) -> (res: Value)
        ensures
            res matches Value::String(s) && s@ == v@,
    {
        Value::String(str_to_string(v))
    }
}

impl FromSpecImpl<&str> for Value {
    open spec fn obeys_from_spec() -> bool {
        false
    }

    open spec fn from_spec(v: &str) -> Value {
        Value::String(choose|s: String| #![trigger s@] s@ == v@)
    }
}

impl From<Value> for CompositeValue {
    fn from(v: Value) -> (res: CompositeValue) {
        CompositeValue::Single(v)
    }
}

impl FromSpecImpl<Value> for CompositeValue {
    open spec fn obeys_from_spec() -> bool {
        true
    }

    open spec fn from_spec(v: Value) -> CompositeValue {
        CompositeValue::Single(v)
    }
}

impl From<i64> for CompositeValue {
    fn from(v: i64) -> (res: CompositeValue) {
        CompositeValue::Single(Value::Int(v))
    }
}

impl FromSpecImpl<i64> for CompositeValue {
    open spec fn obeys_from_spec() -> bool {
        true
    }

    open spec fn from_spec(v: i64) -> CompositeValue {
        CompositeValue::Single(Value::Int(v))
    }
}

impl From<Vec<Value>> for CompositeValue {
    fn from(v: Vec<Value>) -> (res: CompositeValue) {
        CompositeValue::List(v)
    }
}

impl FromSpecImpl<Vec<Value>> for CompositeValue {
    open spec fn obeys_from_spec() -> bool {
        true
    }

    open spec fn from_spec(v: Vec<Value>) -> CompositeValue {
        CompositeValue::List(v)
    }
}

impl From<Value> for Parameter {
    fn from(v: Value) -> (res: Parameter) {
        Parameter::Basic(v)
    }
}

impl FromSpecImpl<Value> for Parameter {
    open spec fn obeys_from_spec() -> bool {
        true
    }

    open spec fn from_spec(v: Value) -> Parameter {
        Parameter::Basic(v)
    }
}

impl From<i64> for Parameter {
    fn from(v: i64) -> (res: Parameter) {
        Parameter::Basic(Value::Int(v))
    }
}

impl FromSpecImpl<i64> for Parameter {
    open spec fn obeys_from_spec() -> bool {
        true
    }

    open spec fn from_spec(v: i64) -> Parameter {
        Parameter::Basic(Value::Int(v))
    }
}

impl From<bool> for Parameter {
    fn from(v: bool) -> (res: Parameter) {
        Parameter::Basic(Value::Bool(v))
    }
}

impl FromSpecImpl<bool> for Parameter {
    open spec fn obeys_from_spec() -> bool {
        true
    }

    open spec fn from_spec(v: bool) -> Parameter {
        Parameter::Basic(Value::Bool(v))
    }
}

impl From<String> for Parameter {
    fn from(v: String) -> (res: Parameter) {
        Parameter::Basic(Value::String(v))
    }
}

impl FromSpecImpl<String> for Parameter {
    open spec fn obeys_from_spec() -> bool {
        true
    }

    open spec fn from_spec(v: String) -> Parameter {
        Parameter::Basic(Value::String(v))
    }
}

impl From<&str> for Parameter {
    fn from(v: &str) -> (res: Parameter)
        ensures
            res matches Parameter::Basic(Value::String(s)) && s@ == v@,
    {
        Parameter::Basic(Value::String(str_to_string(v)))
    }
}

impl FromSpecImpl<&str> for Parameter {
    open spec fn obeys_from_spec() -> bool {
        false
    }

    open spec fn from_spec(v: &str) -> Parameter {
        Parameter::Basic(Value::String(choose|s: String| #![trigger s@] s@ == v@))
    }
}

impl From<(String, CompositeValue)> for Parameter {
    fn from(v: (String, CompositeValue)) -> (res: Parameter) {
        Parameter::Composite(v.0, v.1)
    }
}

impl FromSpecImpl<(String, CompositeValue)> for Parameter {
    open spec fn obeys_from_spec() -> bool {
        true
    }

    open spec fn from_spec(v: (String, CompositeValue)) -> Parameter {
        Parameter::Composite(v.0, v.1)
    }
}

impl From<(&str, i64)> for Parameter {
    fn from(v: (&str, i64)) -> (res: Parameter)
        ensures
            res matches Parameter::Composite(n, CompositeValue::Single(Value::Int(i))) && n@
                == v.0@ && i == v.1,
    {
        Parameter::Composite(str_to_string(v.0), CompositeValue::Single(Value::Int(v.1)))
    }
}

impl FromSpecImpl<(&str, i64)> for Parameter {
    open spec fn obeys_from_spec() -> bool {
        false
    }

    open spec fn from_spec(v: (&str, i64)) -> Parameter {
        Parameter::Composite(
            choose|s: String| #![trigger s@] s@ == v.0@,
            CompositeValue::Single(Value::Int(v.1)),
        )
    }
}

} // verus!
