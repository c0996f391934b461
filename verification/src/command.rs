//! Command structures for KoiLang.
//!
//! A KoiLang file is a sequence of commands. A command has a name and a list
//! of parameters; a parameter is either a basic value or a named composite
//! value (a single value, a list or a dictionary). Text lines and annotations
//! are represented as the special commands `@text` and `@annotation`, and
//! commands named by a number as `@number`.
//!
//! Floating-point parameters are kept as their decimal text, exactly as it
//! appears in the source (for example `1.5`, `.25` or `2e-3`).

use vstd::prelude::*;
use crate::text::{
    chars_to_string, i64_decimal, int_decimal, is_ident_char, is_ident_start,
    push_chars, push_str, str_to_chars, str_to_string,
};

verus! {

/// Basic value types supported by KoiLang.
#[derive(Debug, Clone, PartialEq)]
pub enum Value {
    /// Integer values (64-bit signed)
    Int(i64),
    /// Floating-point values, kept as their decimal text
    Float(String),
    /// Boolean values
    Bool(bool),
    /// String values
    String(String),
}

/// Composite value types that can contain multiple basic values.
#[derive(Debug, Clone, PartialEq)]
pub enum CompositeValue {
    /// Single basic value
    Single(Value),
    /// List of basic values
    List(Vec<Value>),
    /// Dictionary mapping names to values, in source order
    Dict(Vec<(String, Value)>),
}

/// Command parameter types.
#[derive(Debug, Clone, PartialEq)]
pub enum Parameter {
    /// Basic parameter containing only a value
    Basic(Value),
    /// Named composite parameter (e.g. `name(value)` or `name(a, b)`)
    Composite(String, CompositeValue),
}

/// A complete KoiLang command.
#[derive(Debug, Clone, PartialEq)]
pub struct Command {
    /// The command name (e.g. "character", "@text")
    pub name: String,
    /// List of command parameters
    pub params: Vec<Parameter>,
}

/// Mathematical model of a [`Value`].
pub enum ValueModel {
    Int(i64),
    Float(Seq<char>),
    Bool(bool),
    Str(Seq<char>),
}

/// Mathematical model of a [`CompositeValue`].
pub enum CompositeModel {
    Single(ValueModel),
    List(Seq<ValueModel>),
    Dict(Seq<(Seq<char>, ValueModel)>),
}

/// Mathematical model of a [`Parameter`].
pub enum ParamModel {
    Basic(ValueModel),
    Composite(Seq<char>, CompositeModel),
}

/// Mathematical model of a [`Command`].
pub struct CommandModel {
    pub name: Seq<char>,
    pub params: Seq<ParamModel>,
}

impl View for Value {
    type V = ValueModel;

    open spec fn view(&self) -> ValueModel {
        match self {
            Value::Int(i) => ValueModel::Int(*i),
            Value::Float(t) => ValueModel::Float(t@),
            Value::Bool(b) => ValueModel::Bool(*b),
            Value::String(s) => ValueModel::Str(s@),
        }
    }
}

/// The models of a sequence of values.
pub open spec fn values_model(v: Seq<Value>) -> Seq<ValueModel> {
    v.map_values(|x: Value| x@)
}

/// The models of a sequence of dictionary entries.
pub open spec fn entries_model(v: Seq<(String, Value)>) -> Seq<(Seq<char>, ValueModel)> {
    v.map_values(|e: (String, Value)| (e.0@, e.1@))
}

impl View for CompositeValue {
    type V = CompositeModel;

    open spec fn view(&self) -> CompositeModel {
        match self {
            CompositeValue::Single(v) => CompositeModel::Single(v@),
            CompositeValue::List(vs) => CompositeModel::List(values_model(vs@)),
            CompositeValue::Dict(es) => CompositeModel::Dict(entries_model(es@)),
        }
    }
}

impl View for Parameter {
    type V = ParamModel;

    open spec fn view(&self) -> ParamModel {
        match self {
            Parameter::Basic(v) => ParamModel::Basic(v@),
            Parameter::Composite(n, c) => ParamModel::Composite(n@, c@),
        }
    }
}

/// The models of a sequence of parameters.
pub open spec fn params_model(v: Seq<Parameter>) -> Seq<ParamModel> {
    v.map_values(|p: Parameter| p@)
}

impl View for Command {
    type V = CommandModel;

    open spec fn view(&self) -> CommandModel {
        CommandModel { name: self.name@, params: params_model(self.params@) }
    }
}

/// The name of text commands.
pub open spec fn text_name() -> Seq<char> {
    seq!['@', 't', 'e', 'x', 't']
}

/// The name of annotation commands.
pub open spec fn annotation_name() -> Seq<char> {
    seq!['@', 'a', 'n', 'n', 'o', 't', 'a', 't', 'i', 'o', 'n']
}

/// The name of number commands.
pub open spec fn number_name() -> Seq<char> {
    seq!['@', 'n', 'u', 'm', 'b', 'e', 'r']
}

/// The text `true`.
pub open spec fn true_text() -> Seq<char> {
    seq!['t', 'r', 'u', 'e']
}

/// The text `false`.
pub open spec fn false_text() -> Seq<char> {
    seq!['f', 'a', 'l', 's', 'e']
}

/// Whether `s` is an identifier: a letter or `_`, then letters, digits or `_`.
pub open spec fn is_identifier(s: Seq<char>) -> bool {
    &&& s.len() > 0
    &&& is_ident_start(s[0])
    &&& forall|i: int| 1 <= i < s.len() ==> is_ident_char(#[trigger] s[i])
}

/// The escaped form of one character inside a quoted string.
pub open spec fn escape_char(c: char) -> Seq<char> {
    if c == '"' {
        seq!['\\', '"']
    } else if c == '\\' {
        seq!['\\', '\\']
    } else if c == '\n' {
        seq!['\\', 'n']
    } else if c == '\r' {
        seq!['\\', 'r']
    } else if c == '\t' {
        seq!['\\', 't']
    } else {
        seq![c]
    }
}

/// The escaped form of a character sequence.
pub open spec fn escape_text(s: Seq<char>) -> Seq<char>
    decreases s.len(),
{
    if s.len() == 0 {
        Seq::empty()
    } else {
        escape_text(s.drop_last()) + escape_char(s.last())
    }
}

/// A string in double quotes, with `"`, `\`, newline, carriage return and tab escaped.
pub open spec fn quoted(s: Seq<char>) -> Seq<char> {
    seq!['"'] + escape_text(s) + seq!['"']
}

/// The display text of a string value: bare when it is an identifier, quoted otherwise.
pub open spec fn string_text(s: Seq<char>) -> Seq<char> {
    if is_identifier(s) {
        s
    } else {
        quoted(s)
    }
}

/// The display text of a value.
pub open spec fn value_text(v: ValueModel) -> Seq<char> {
    match v {
        ValueModel::Int(i) => int_decimal(i as int),
        ValueModel::Float(t) => t,
        ValueModel::Bool(b) => if b {
            true_text()
        } else {
            false_text()
        },
        ValueModel::Str(s) => string_text(s),
    }
}

/// The display texts of values, separated by `, `.
pub open spec fn values_text(vs: Seq<ValueModel>) -> Seq<char>
    decreases vs.len(),
{
    if vs.len() == 0 {
        Seq::empty()
    } else if vs.len() == 1 {
        value_text(vs[0])
    } else {
        values_text(vs.drop_last()) + seq![',', ' '] + value_text(vs.last())
    }
}

/// The display texts of dictionary entries (`key: value`), separated by `, `.
pub open spec fn entries_text(es: Seq<(Seq<char>, ValueModel)>) -> Seq<char>
    decreases es.len(),
{
    if es.len() == 0 {
        Seq::empty()
    } else if es.len() == 1 {
        es[0].0 + seq![':', ' '] + value_text(es[0].1)
    } else {
        entries_text(es.drop_last()) + seq![',', ' '] + es.last().0 + seq![':', ' '] + value_text(
            es.last().1,
        )
    }
}

/// The display text of a composite value.
pub open spec fn composite_text(c: CompositeModel) -> Seq<char> {
    match c {
        CompositeModel::Single(v) => value_text(v),
        CompositeModel::List(vs) => values_text(vs),
        CompositeModel::Dict(es) => entries_text(es),
    }
}

/// The display text of a parameter.
pub open spec fn param_text(p: ParamModel) -> Seq<char> {
    match p {
        ParamModel::Basic(v) => value_text(v),
        ParamModel::Composite(n, c) => n + seq!['('] + composite_text(c) + seq![')'],
    }
}

/// The display texts of parameters, each preceded by a space.
pub open spec fn params_text(ps: Seq<ParamModel>) -> Seq<char>
    decreases ps.len(),
{
    if ps.len() == 0 {
        Seq::empty()
    } else {
        params_text(ps.drop_last()) + seq![' '] + param_text(ps.last())
    }
}

/// The display text of a command: its name followed by its parameters.
pub open spec fn command_text(c: CommandModel) -> Seq<char> {
    c.name + params_text(c.params)
}

/// Whether a character sequence is an identifier.
pub fn chars_are_identifier(s: &Vec<char>) -> (res: bool)
    ensures
        res == is_identifier(s@),
{
    if s.len() == 0 {
        return false;
    }
    let c0 = s[0];
    if !(('a' <= c0 && c0 <= 'z') || ('A' <= c0 && c0 <= 'Z') || c0 == '_') {
        return false;
    }
    let mut i: usize = 1;
    while i < s.len()
        invariant
            1 <= i <= s@.len(),
            forall|k: int| 1 <= k < i ==> is_ident_char(#[trigger] s@[k]),
        decreases s@.len() - i,
    {
        let c = s[i];
        if !(('a' <= c && c <= 'z') || ('A' <= c && c <= 'Z') || ('0' <= c && c <= '9') || c
            == '_') {
            return false;
        }
        i = i + 1;
    }
    true
}

/// Appends the escaped form of `s` to `out`.
pub fn push_escaped(out: &mut Vec<char>, s: &Vec<char>)
    ensures
        final(out)@ == old(out)@ + escape_text(s@),
{
    let mut i: usize = 0;
    while i < s.len()
        invariant
            0 <= i <= s@.len(),
            out@ == old(out)@ + escape_text(s@.take(i as int)),
        decreases s@.len() - i,
    {
        let c = s[i];
        let ghost before = out@;
        if c == '"' {
            out.push('\\');
            out.push('"');
        } else if c == '\\' {
            out.push('\\');
            out.push('\\');
        } else if c == '\n' {
            out.push('\\');
            out.push('n');
        } else if c == '\r' {
            out.push('\\');
            out.push('r');
        } else if c == '\t' {
            out.push('\\');
            out.push('t');
        } else {
            out.push(c);
        }
        assert(out@ == before + escape_char(c));
        assert(s@.take(i as int + 1).drop_last() == s@.take(i as int));
        i = i + 1;
    }
    assert(s@.take(s@.len() as int) == s@);
}

/// Appends the quoted form of `s` to `out`.
pub fn push_quoted(out: &mut Vec<char>, s: &Vec<char>)
    ensures
        final(out)@ == old(out)@ + quoted(s@),
{
    out.push('"');
    push_escaped(out, s);
    out.push('"');
    assert(out@ == old(out)@ + quoted(s@));
}

/// Appends the display text of a string value to `out`.
pub fn push_string_text(out: &mut Vec<char>, s: &String)
    ensures
        final(out)@ == old(out)@ + string_text(s@),
{
    let cs = str_to_chars(s.as_str());
    if chars_are_identifier(&cs) {
        push_chars(out, &cs);
    } else {
        push_quoted(out, &cs);
    }
}

/// Appends the display text of a value to `out`.
pub fn push_value_text(out: &mut Vec<char>, v: &Value)
    ensures
        final(out)@ == old(out)@ + value_text(v@),
{
    match v {
        Value::Int(i) => {
            let d = i64_decimal(*i);
            push_chars(out, &d);
        },
        Value::Float(t) => {
            push_str(out, t.as_str());
        },
        Value::Bool(b) => {
            if *b {
                out.push('t');
                out.push('r');
                out.push('u');
                out.push('e');
            } else {
                out.push('f');
                out.push('a');
                out.push('l');
                out.push('s');
                out.push('e');
            }
            assert(out@ == old(out)@ + value_text(v@));
        },
        Value::String(s) => {
            push_string_text(out, s);
        },
    }
}

/// Appends the display text of a composite value to `out`.
pub fn push_composite_text(out: &mut Vec<char>, c: &CompositeValue)
    ensures
        final(out)@ == old(out)@ + composite_text(c@),
{
    match c {
        CompositeValue::Single(v) => {
            push_value_text(out, v);
        },
        CompositeValue::List(vs) => {
            let ghost m = values_model(vs@);
            let mut i: usize = 0;
            while i < vs.len()
                invariant
                    0 <= i <= vs@.len(),
                    m == values_model(vs@),
                    out@ == old(out)@ + values_text(m.take(i as int)),
                decreases vs@.len() - i,
            {
                let ghost before = out@;
                if i > 0 {
                    out.push(',');
                    out.push(' ');
                }
                push_value_text(out, &vs[i]);
                assert(m.take(i as int + 1).drop_last() == m.take(i as int));
                assert(m.take(i as int + 1).last() == vs@[i as int]@);
                if i == 0 {
                    assert(m.take(1).len() == 1);
                }
                i = i + 1;
            }
            assert(m.take(vs@.len() as int) == m);
        },
        CompositeValue::Dict(es) => {
            let ghost m = entries_model(es@);
            let mut i: usize = 0;
            while i < es.len()
                invariant
                    0 <= i <= es@.len(),
                    m == entries_model(es@),
                    out@ == old(out)@ + entries_text(m.take(i as int)),
                decreases es@.len() - i,
            {
                if i > 0 {
                    out.push(',');
                    out.push(' ');
                }
                let (k, v) = &es[i];
                push_str(out, k.as_str());
                out.push(':');
                out.push(' ');
                push_value_text(out, v);
                assert(m.take(i as int + 1).drop_last() == m.take(i as int));
                assert(m.take(i as int + 1).last() == (k@, v@));
                i = i + 1;
            }
            assert(m.take(es@.len() as int) == m);
        },
    }
}

/// Appends the display text of a parameter to `out`.
pub fn push_param_text(out: &mut Vec<char>, p: &Parameter)
    ensures
        final(out)@ == old(out)@ + param_text(p@),
{
    match p {
        Parameter::Basic(v) => {
            push_value_text(out, v);
        },
        Parameter::Composite(n, c) => {
            push_str(out, n.as_str());
            out.push('(');
            push_composite_text(out, c);
            out.push(')');
        },
    }
}

impl Value {
    /// The display text of this value: integers in decimal, floats as
    /// written, booleans as `true`/`false`, and strings bare when they are
    /// identifiers and quoted (with escapes) otherwise.
    pub fn to_string(&self) -> (res: String)
        ensures
            res@ == value_text(self@),
    {
        let mut out: Vec<char> = Vec::new();
        push_value_text(&mut out, self);
        chars_to_string(&out)
    }
}

impl CompositeValue {
    /// The display text of this composite value: list items and dictionary
    /// entries separated by `, `.
    pub fn to_string(&self) -> (res: String)
        ensures
            res@ == composite_text(self@),
    {
        let mut out: Vec<char> = Vec::new();
        push_composite_text(&mut out, self);
        chars_to_string(&out)
    }
}

impl Parameter {
    /// The display text of this parameter; a composite parameter is shown
    /// as `name(values)`.
    pub fn to_string(&self) -> (res: String)
        ensures
            res@ == param_text(self@),
    {
        let mut out: Vec<char> = Vec::new();
        push_param_text(&mut out, self);
        chars_to_string(&out)
    }
}

impl Command {
    /// Create a new command with the specified name and parameters.
    pub fn new(name: &str, params: Vec<Parameter>) -> (res: Command)
        ensures
            res.name@ == name@,
            res.params@ == params@,
    {
        Command { name: str_to_string(name), params }
    }

    /// Create a text command (`@text`) holding one string parameter.
    pub fn new_text(content: &str) -> (res: Command)
        ensures
            res@ == (CommandModel {
                name: text_name(),
                params: seq![ParamModel::Basic(ValueModel::Str(content@))],
            }),
    {
        let name = str_to_string("@text");
        proof {
            reveal_strlit("@text");
            assert(name@ =~= text_name());
        }
        let params = vec![Parameter::Basic(Value::String(str_to_string(content)))];
        let res = Command { name, params };
        assert(res@.params =~= seq![ParamModel::Basic(ValueModel::Str(content@))]);
        res
    }

    /// Create an annotation command (`@annotation`) holding one string parameter.
    pub fn new_annotation(content: &str) -> (res: Command)
        ensures
            res@ == (CommandModel {
                name: annotation_name(),
                params: seq![ParamModel::Basic(ValueModel::Str(content@))],
            }),
    {
        let name = str_to_string("@annotation");
        proof {
            reveal_strlit("@annotation");
            assert(name@ =~= annotation_name());
        }
        let params = vec![Parameter::Basic(Value::String(str_to_string(content)))];
        let res = Command { name, params };
        assert(res@.params =~= seq![ParamModel::Basic(ValueModel::Str(content@))]);
        res
    }

    /// Create a number command (`@number`): the number first, then `args`.
    pub fn new_number(value: i64, args: Vec<Parameter>) -> (res: Command)
        ensures
            res@ == (CommandModel {
                name: number_name(),
                params: seq![ParamModel::Basic(ValueModel::Int(value))] + params_model(args@),
            }),
    {
        let name = str_to_string("@number");
        proof {
            reveal_strlit("@number");
            assert(name@ =~= number_name());
        }
        let mut params = vec![Parameter::Basic(Value::Int(value))];
        let mut args = args;
        let ghost a = args@;
        params.append(&mut args);
        let res = Command { name, params };
        assert(res@.params =~= seq![ParamModel::Basic(ValueModel::Int(value))] + params_model(
            a,
        ));
        res
    }

    /// Get the command name.
    pub fn name(&self) -> (res: &str)
        ensures
            res@ == self.name@,
    {
        self.name.as_str()
    }

    /// Get the command parameters.
    pub fn params(&self) -> (res: &[Parameter])
        ensures
            res@ == self.params@,
    {
        self.params.as_slice()
    }

    /// The display text of this command: the name, then each parameter
    /// preceded by a space.
    pub fn to_string(&self) -> (res: String)
        ensures
            res@ == command_text(self@),
    {
        let mut out: Vec<char> = Vec::new();
        push_str(&mut out, self.name.as_str());
        let ghost m = params_model(self.params@);
        let mut i: usize = 0;
        while i < self.params.len()
            invariant
                0 <= i <= self.params@.len(),
                m == params_model(self.params@),
                out@ == self.name@ + params_text(m.take(i as int)),
            decreases self.params@.len() - i,
        {
            out.push(' ');
            push_param_text(&mut out, &self.params[i]);
            assert(m.take(i as int + 1).drop_last() == m.take(i as int));
            i = i + 1;
        }
        assert(m.take(self.params@.len() as int) == m);
        chars_to_string(&out)
    }
}

} // verus!
