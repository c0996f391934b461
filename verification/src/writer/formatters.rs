//! How values and parameters are written: numbers in the chosen base,
//! strings bare or quoted, composite values in parentheses.

use vstd::prelude::*;
use crate::command::{
    CompositeModel, CompositeValue, ParamModel, Parameter, Value, ValueModel, false_text,
    is_identifier, quoted, true_text, chars_are_identifier, push_quoted,
};
use crate::text::{
    chars_to_string, int_decimal, nat_digits, i64_decimal, push_chars, push_str, str_to_chars,
    u64_digits,
};
use crate::writer::config::{FormatterOptions, NumberFormat};

verus! {

/// The 64-bit two's complement bit pattern of `n`, as a natural number.
pub open spec fn twos_complement(n: i64) -> nat {
    if n < 0 {
        (n + 0x1_0000_0000_0000_0000) as nat
    } else {
        n as nat
    }
}

/// The text of an integer in a number format: decimal (also for an unset
/// format), or the two's complement bits in hexadecimal (`0x`), octal (`0o`)
/// or binary (`0b`) with lower-case digits.
pub open spec fn number_text(n: i64, f: NumberFormat) -> Seq<char> {
    match f {
        NumberFormat::Hex => seq!['0', 'x'] + nat_digits(twos_complement(n), 16),
        NumberFormat::Octal => seq!['0', 'o'] + nat_digits(twos_complement(n), 8),
        NumberFormat::Binary => seq!['0', 'b'] + nat_digits(twos_complement(n), 2),
        _ => int_decimal(n as int),
    }
}

/// The text of a string: bare when it is an identifier and quotes are not
/// forced, quoted and escaped otherwise.
pub open spec fn format_string_text(s: Seq<char>, o: FormatterOptions) -> Seq<char> {
    if o.force_quotes_for_vars || !is_identifier(s) {
        quoted(s)
    } else {
        s
    }
}

/// The text of a value.
pub open spec fn format_value_text(v: ValueModel, o: FormatterOptions) -> Seq<char> {
    match v {
        ValueModel::Int(i) => number_text(i, o.number_format),
        ValueModel::Float(t) => t,
        ValueModel::Bool(b) => if b {
            true_text()
        } else {
            false_text()
        },
        ValueModel::Str(s) => format_string_text(s, o),
    }
}

/// The separator between items of a composite value: `,` when compact,
/// `, ` otherwise.
pub open spec fn item_sep(o: FormatterOptions) -> Seq<char> {
    if o.compact {
        seq![',']
    } else {
        seq![',', ' ']
    }
}

/// The separator between a dictionary key and its value: `:` when compact,
/// `: ` otherwise.
pub open spec fn key_sep(o: FormatterOptions) -> Seq<char> {
    if o.compact {
        seq![':']
    } else {
        seq![':', ' ']
    }
}

/// The texts of values, separated.
pub open spec fn format_values_text(vs: Seq<ValueModel>, o: FormatterOptions) -> Seq<char>
    decreases vs.len(),
{
    if vs.len() == 0 {
        Seq::empty()
    } else if vs.len() == 1 {
        format_value_text(vs[0], o)
    } else {
        format_values_text(vs.drop_last(), o) + item_sep(o) + format_value_text(vs.last(), o)
    }
}

/// The text of one dictionary entry.
pub open spec fn format_entry_text(e: (Seq<char>, ValueModel), o: FormatterOptions) -> Seq<char> {
    e.0 + key_sep(o) + format_value_text(e.1, o)
}

/// The texts of dictionary entries, separated.
pub open spec fn format_entries_text(es: Seq<(Seq<char>, ValueModel)>, o: FormatterOptions) -> Seq<
    char,
>
    decreases es.len(),
{
    if es.len() == 0 {
        Seq::empty()
    } else if es.len() == 1 {
        format_entry_text(es[0], o)
    } else {
        format_entries_text(es.drop_last(), o) + item_sep(o) + format_entry_text(es.last(), o)
    }
}

/// The text of a composite value, in parentheses.
pub open spec fn format_composite_text(c: CompositeModel, o: FormatterOptions) -> Seq<char> {
    seq!['('] + match c {
        CompositeModel::Single(v) => format_value_text(v, o),
        CompositeModel::List(vs) => format_values_text(vs, o),
        CompositeModel::Dict(es) => format_entries_text(es, o),
    } + seq![')']
}

/// The text of a parameter.
pub open spec fn format_param_text(p: ParamModel, o: FormatterOptions) -> Seq<char> {
    match p {
        ParamModel::Basic(v) => format_value_text(v, o),
        ParamModel::Composite(n, c) => n + format_composite_text(c, o),
    }
}

/// Appends the text of an integer in a number format.
pub fn push_number(out: &mut Vec<char>, n: i64, f: NumberFormat)
    ensures
        final(out)@ == old(out)@ + number_text(n, f),
{
    let bits: u64 = if n < 0 {
        let m = (-(n + 1)) as u64;
        u64::MAX - m
    } else {
        n as u64
    };
    assert(bits as nat == twos_complement(n));
    match f {
        NumberFormat::Hex => {
            out.push('0');
            out.push('x');
            let d = u64_digits(bits, 16);
            push_chars(out, &d);
        },
        NumberFormat::Octal => {
            out.push('0');
            out.push('o');
            let d = u64_digits(bits, 8);
            push_chars(out, &d);
        },
        NumberFormat::Binary => {
            out.push('0');
            out.push('b');
            let d = u64_digits(bits, 2);
            push_chars(out, &d);
        },
        _ => {
            let d = i64_decimal(n);
            push_chars(out, &d);
        },
    }
}

/// Appends the text of a string.
pub fn push_format_string(out: &mut Vec<char>, s: &str, o: &FormatterOptions)
    ensures
        final(out)@ == old(out)@ + format_string_text(s@, *o),
{
    let cs = str_to_chars(s);
    if o.force_quotes_for_vars || !chars_are_identifier(&cs) {
        push_quoted(out, &cs);
    } else {
        push_chars(out, &cs);
    }
}

/// Appends the text of a value.
pub fn push_format_value(out: &mut Vec<char>, v: &Value, o: &FormatterOptions)
    ensures
        final(out)@ == old(out)@ + format_value_text(v@, *o),
{
    match v {
        Value::Int(i) => push_number(out, *i, o.number_format),
        Value::Float(t) => push_str(out, t.as_str()),
        Value::Bool(b) => {
            if *b {
                push_str(out, "true");
                proof {
                    reveal_strlit("true");
                }
            } else {
                push_str(out, "false");
                proof {
                    reveal_strlit("false");
                }
            }
        },
        Value::String(s) => push_format_string(out, s.as_str(), o),
    }
}

/// Appends the text of a composite value.
pub fn push_format_composite(out: &mut Vec<char>, c: &CompositeValue, o: &FormatterOptions)
    ensures
        final(out)@ == old(out)@ + format_composite_text(c@, *o),
{
    out.push('(');
    let ghost start = out@;
    match c {
        CompositeValue::Single(v) => {
            push_format_value(out, v, o);
        },
        CompositeValue::List(vs) => {
            let ghost m = vs@.map_values(|v: Value| v@);
            let mut i: usize = 0;
            while i < vs.len()
                invariant
                    0 <= i <= vs@.len(),
                    m == vs@.map_values(|v: Value| v@),
                    out@ == start + format_values_text(m.take(i as int), *o),
                decreases vs@.len() - i,
            {
                if i > 0 {
                    out.push(',');
                    if !o.compact {
                        out.push(' ');
                    }
                }
                push_format_value(out, &vs[i], o);
                proof {
                    assert(m.take(i + 1).drop_last() == m.take(i as int));
                    assert(m.take(i + 1).last() == vs@[i as int]@);
                    if i == 0 {
                        assert(m.take(i as int).len() == 0);
                    }
                }
                i = i + 1;
            }
            assert(m.take(vs@.len() as int) == m);
            assert(c@ == CompositeModel::List(m));
        },
        CompositeValue::Dict(es) => {
            let ghost m = es@.map_values(|e: (String, Value)| (e.0@, e.1@));
            let mut i: usize = 0;
            while i < es.len()
                invariant
                    0 <= i <= es@.len(),
                    m == es@.map_values(|e: (String, Value)| (e.0@, e.1@)),
                    out@ == start + format_entries_text(m.take(i as int), *o),
                decreases es@.len() - i,
            {
                if i > 0 {
                    out.push(',');
                    if !o.compact {
                        out.push(' ');
                    }
                }
                push_str(out, es[i].0.as_str());
                out.push(':');
                if !o.compact {
                    out.push(' ');
                }
                push_format_value(out, &es[i].1, o);
                proof {
                    assert(m.take(i + 1).drop_last() == m.take(i as int));
                    assert(m.take(i + 1).last() == (es@[i as int].0@, es@[i as int].1@));
                    if i == 0 {
                        assert(m.take(i as int).len() == 0);
                    }
                }
                i = i + 1;
            }
            assert(m.take(es@.len() as int) == m);
            assert(c@ == CompositeModel::Dict(m));
        },
    }
    out.push(')');
}

/// Appends the text of a parameter.
pub fn push_format_param(out: &mut Vec<char>, p: &Parameter, o: &FormatterOptions)
    ensures
        final(out)@ == old(out)@ + format_param_text(p@, *o),
{
    match p {
        Parameter::Basic(v) => push_format_value(out, v, o),
        Parameter::Composite(n, c) => {
            push_str(out, n.as_str());
            push_format_composite(out, c, o);
        },
    }
}

/// Formatting of values and parameters.
pub struct Formatters;

impl Formatters {
    /// The text of an integer in the number format of `options`.
    pub fn format_number(num: &i64, options: &FormatterOptions) -> (res: String)
        ensures
            res@ == number_text(*num, options.number_format),
    {
        let mut out: Vec<char> = Vec::new();
        push_number(&mut out, *num, options.number_format);
        chars_to_string(&out)
    }

    /// Whether `s` follows variable naming rules: a letter or `_`, then
    /// letters, digits or `_`.
    pub fn is_valid_variable_name(s: &str) -> (res: bool)
        ensures
            res == is_identifier(s@),
    {
        let cs = str_to_chars(s);
        chars_are_identifier(&cs)
    }

    /// The text of a string: quoted and escaped unless it is a variable name
    /// and quotes are not forced.
    pub fn format_string(s: &str, options: &FormatterOptions) -> (res: String)
        ensures
            res@ == format_string_text(s@, *options),
    {
        let mut out: Vec<char> = Vec::new();
        push_format_string(&mut out, s, options);
        chars_to_string(&out)
    }

    /// The text of a composite value, in parentheses.
    pub fn format_composite_value(value: &CompositeValue, options: &FormatterOptions) -> (res:
        String)
        ensures
            res@ == format_composite_text(value@, *options),
    {
        let mut out: Vec<char> = Vec::new();
        push_format_composite(&mut out, value, options);
        chars_to_string(&out)
    }

    /// The text of a value.
    pub fn format_value(value: &Value, options: &FormatterOptions) -> (res: String)
        ensures
            res@ == format_value_text(value@, *options),
    {
        let mut out: Vec<char> = Vec::new();
        push_format_value(&mut out, value, options);
        chars_to_string(&out)
    }

    /// The text of a parameter.
    pub fn format_parameter(param: &Parameter, options: &FormatterOptions) -> (res: String)
        ensures
            res@ == format_param_text(param@, *options),
    {
        let mut out: Vec<char> = Vec::new();
        push_format_param(&mut out, param, options);
        chars_to_string(&out)
    }
}

} // verus!
