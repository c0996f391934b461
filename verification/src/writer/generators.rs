//! Writing whole commands: option resolution, indentation, and the layout of
//! a command line with its parameters.

use vstd::prelude::*;
use crate::command::{
    params_model, Command, CommandModel, Parameter, ParamModel, Value, ValueModel, annotation_name, number_name,
    text_name,
};
use crate::parser::{skip_ws, skip_ws_exec};
use crate::text::{
    chars_to_string, int_decimal, i64_decimal, push_chars, push_repeat, push_str, str_eq,
    str_to_chars,
};
use crate::writer::config::{
    FormatterOptions, NumberFormat, ParamFormatSelector, ParamOptions, SelectorModel, WriterConfig,
    lookup,
};
use crate::writer::formatters::{format_param_text, push_format_param};

verus! {

/// `over` merged over `base`: `over` itself when it says it overrides;
/// otherwise `base` with the fields that `over` sets (a nonzero indent, a
/// switch that is on, a number format that is not `Unknown`) taken from
/// `over`.
pub open spec fn merge_spec(base: FormatterOptions, over: FormatterOptions) -> FormatterOptions {
    if over.should_override {
        over
    } else {
        FormatterOptions {
            indent: if over.indent != 0 {
                over.indent
            } else {
                base.indent
            },
            use_tabs: base.use_tabs || over.use_tabs,
            newline_before: base.newline_before || over.newline_before,
            newline_after: base.newline_after || over.newline_after,
            compact: base.compact || over.compact,
            force_quotes_for_vars: base.force_quotes_for_vars || over.force_quotes_for_vars,
            number_format: if over.number_format != NumberFormat::Unknown {
                over.number_format
            } else {
                base.number_format
            },
            newline_before_param: base.newline_before_param || over.newline_before_param,
            newline_after_param: base.newline_after_param || over.newline_after_param,
            should_override: base.should_override,
        }
    }
}

/// The options of the parameter at `position` (named `name` when it is a
/// composite parameter): those given for its name, else those for its
/// position, merged over `default`; `default` when none are given.
pub open spec fn param_options_for(
    position: usize,
    name: Option<Seq<char>>,
    default: FormatterOptions,
    map: Option<Seq<(SelectorModel, FormatterOptions)>>,
) -> FormatterOptions {
    match map {
        None => default,
        Some(m) => {
            if name is Some && lookup(m, SelectorModel::Name(name->0)) is Some {
                merge_spec(default, lookup(m, SelectorModel::Name(name->0))->0)
            } else if lookup(m, SelectorModel::Position(position)) is Some {
                merge_spec(default, lookup(m, SelectorModel::Position(position))->0)
            } else {
                default
            }
        },
    }
}

/// The options a command is written with: the global options, with the
/// options for its name merged over them, with the given options merged
/// over that; an indent of 0 becomes 4 and an unset number format becomes
/// decimal.
pub open spec fn effective_spec(
    name: Seq<char>,
    options: Option<FormatterOptions>,
    global: FormatterOptions,
    per_command: Seq<(Seq<char>, FormatterOptions)>,
) -> FormatterOptions {
    let g = match lookup(per_command, name) {
        Some(o) => merge_spec(global, o),
        None => global,
    };
    let r = match options {
        Some(o) => merge_spec(g, o),
        None => g,
    };
    let r2 = if r.indent == 0 {
        FormatterOptions { indent: 4, ..r }
    } else {
        r
    };
    if r2.number_format == NumberFormat::Unknown {
        FormatterOptions { number_format: NumberFormat::Decimal, ..r2 }
    } else {
        r2
    }
}

/// The indentation for a level: nothing when compact, a tab per level with
/// tabs, `indent` spaces per level otherwise.
pub open spec fn indent_text(level: int, o: FormatterOptions) -> Seq<char> {
    if o.compact {
        Seq::empty()
    } else if o.use_tabs {
        Seq::new(level as nat, |i: int| '\t')
    } else {
        Seq::new((level * o.indent) as nat, |i: int| ' ')
    }
}

/// `n` marks `#`.
pub open spec fn hashes(n: int) -> Seq<char> {
    Seq::new(n as nat, |i: int| '#')
}

/// The name of a composite parameter.
pub open spec fn param_name_spec(p: ParamModel) -> Option<Seq<char>> {
    match p {
        ParamModel::Composite(n, c) => Some(n),
        ParamModel::Basic(v) => None,
    }
}

/// The options of parameter `k` of `ps`.
pub open spec fn options_at(
    ps: Seq<ParamModel>,
    k: int,
    o: FormatterOptions,
    map: Option<Seq<(SelectorModel, FormatterOptions)>>,
) -> FormatterOptions {
    param_options_for(k as usize, param_name_spec(ps[k]), o, map)
}

/// What comes before parameter `k` (the first written being `start`): a line
/// break and the indentation one level deeper (the same level when compact)
/// when the previous parameter asks for a break after it or this one for a
/// break before it, a space otherwise.
pub open spec fn param_sep(
    ps: Seq<ParamModel>,
    start: int,
    k: int,
    o: FormatterOptions,
    map: Option<Seq<(SelectorModel, FormatterOptions)>>,
    level: int,
) -> Seq<char> {
    let brk = if k > start {
        options_at(ps, k - 1, o, map).newline_after_param || options_at(
            ps,
            k,
            o,
            map,
        ).newline_before_param
    } else {
        options_at(ps, k, o, map).newline_before_param
    };
    if brk {
        seq!['\n'] + indent_text(
            if o.compact {
                level
            } else {
                level + 1
            },
            o,
        )
    } else {
        seq![' ']
    }
}

/// Parameters `start..end` of `ps`, each after its separator.
pub open spec fn params_out(
    ps: Seq<ParamModel>,
    start: int,
    end: int,
    o: FormatterOptions,
    map: Option<Seq<(SelectorModel, FormatterOptions)>>,
    level: int,
) -> Seq<char>
    decreases end - start,
{
    if end <= start {
        Seq::empty()
    } else {
        params_out(ps, start, end - 1, o, map, level) + param_sep(ps, start, end - 1, o, map, level)
            + format_param_text(ps[end - 1], options_at(ps, end - 1, o, map))
    }
}

/// `t[i..]` with a backslash put before each line break.
pub open spec fn newlines_escaped_from(t: Seq<char>, i: int) -> Seq<char>
    decreases t.len() - i,
{
    if i < 0 || i >= t.len() {
        Seq::empty()
    } else {
        (if t[i] == '\n' {
            seq!['\\', '\n']
        } else {
            seq![t[i]]
        }) + newlines_escaped_from(t, i + 1)
    }
}

/// The written form of the content of a text or annotation command: a
/// backslash before each line break, so that the parser reads the content
/// as one line continued over several, and one more backslash after a
/// content that ends with a backslash.
pub open spec fn escape_text_newlines(t: Seq<char>) -> Seq<char> {
    newlines_escaped_from(t, 0) + (if t.len() > 0 && t.last() == '\\' {
        seq!['\\']
    } else {
        Seq::empty()
    })
}

/// Appends the written form of text or annotation content `t`.
fn push_escaped_text(out: &mut Vec<char>, t: &Vec<char>)
    ensures
        final(out)@ == old(out)@ + escape_text_newlines(t@),
{
    let mut i: usize = 0;
    while i < t.len()
        invariant
            0 <= i <= t@.len(),
            out@ + newlines_escaped_from(t@, i as int) == old(out)@ + newlines_escaped_from(t@, 0),
        decreases t@.len() - i,
    {
        let ghost o = out@;
        if t[i] == '\n' {
            out.push('\\');
            out.push('\n');
            assert(out@ == o + seq!['\\', '\n']);
        } else {
            out.push(t[i]);
            assert(out@ == o + seq![t@[i as int]]);
        }
        assert(newlines_escaped_from(t@, i as int) == (if t@[i as int] == '\n' {
            seq!['\\', '\n']
        } else {
            seq![t@[i as int]]
        }) + newlines_escaped_from(t@, i + 1));
        i = i + 1;
    }
    let ghost o = out@;
    if t.len() > 0 && t[t.len() - 1] == '\\' {
        out.push('\\');
    }
    assert(out@ == old(out)@ + escape_text_newlines(t@));
}

/// Whether `t`, without leading whitespace, starts with `h`.
pub open spec fn starts_after_ws(t: Seq<char>, h: Seq<char>) -> bool {
    let a = skip_ws(t, 0);
    a + h.len() <= t.len() && t.subrange(a, a + h.len()) == h
}

/// The text of a command (without indentation or line break): a text command
/// is its text, line breaks escaped; an annotation is its text, line breaks
/// escaped, after `threshold + 1` marks and a space, unless it already
/// starts with them; a number command is the number
/// after `threshold` marks, then its other parameters; another command is
/// its name after `threshold` marks, then its parameters. A text,
/// annotation or number command without its string or integer gives nothing.
pub open spec fn command_body(
    c: CommandModel,
    threshold: int,
    o: FormatterOptions,
    map: Option<Seq<(SelectorModel, FormatterOptions)>>,
    level: int,
) -> Seq<char> {
    let ps = c.params;
    let first = if ps.len() > 0 {
        Some(ps[0])
    } else {
        None
    };
    if c.name == text_name() {
        match first {
            Some(ParamModel::Basic(ValueModel::Str(t))) => escape_text_newlines(t),
            _ => Seq::empty(),
        }
    } else if c.name == annotation_name() {
        match first {
            Some(ParamModel::Basic(ValueModel::Str(t))) => if starts_after_ws(
                t,
                hashes(threshold + 1),
            ) {
                escape_text_newlines(t)
            } else {
                hashes(threshold + 1) + seq![' '] + escape_text_newlines(t)
            },
            _ => Seq::empty(),
        }
    } else if c.name == number_name() {
        match first {
            Some(ParamModel::Basic(ValueModel::Int(v))) => hashes(threshold) + int_decimal(v as int)
                + params_out(ps, 1, ps.len() as int, o, map, level),
            _ => Seq::empty(),
        }
    } else {
        hashes(threshold) + c.name + params_out(ps, 0, ps.len() as int, o, map, level)
    }
}

/// Whether indentation one level deeper than `level` fits in memory sizes.
pub open spec fn indent_fits(level: int, o: FormatterOptions) -> bool {
    level + 1 <= usize::MAX && (level + 1) * o.indent <= usize::MAX
}

/// Appends the characters of `v` to `out`.
fn append_chars(out: &mut String, v: &Vec<char>)
    ensures
        final(out)@ == old(out)@ + v@,
{
    let s = chars_to_string(v);
    out.append(s.as_str());
}

fn push_indent(out: &mut Vec<char>, level: usize, o: &FormatterOptions)
    requires
        o.compact || o.use_tabs || level * o.indent <= usize::MAX,
    ensures
        final(out)@ == old(out)@ + indent_text(level as int, *o),
{
    if o.compact {
        assert(old(out)@ + indent_text(level as int, *o) == old(out)@);
        return;
    }
    if o.use_tabs {
        push_repeat(out, '\t', level);
    } else {
        push_repeat(out, ' ', level * o.indent);
    }
}

/// Command writing.
pub struct Generators;

impl Generators {
    /// Appends the text of `command` to `out`: see [`command_body`], with the
    /// command threshold of `config`, the command's options `options`, the
    /// parameter options `param_options`, and indentation level
    /// `current_indent`.
    pub fn write_command_with_param_options(
        out: &mut String,
        command: &Command,
        config: &WriterConfig,
        options: &FormatterOptions,
        param_options: Option<&ParamOptions>,
        current_indent: usize,
    )
        requires
            config.command_threshold < usize::MAX,
            indent_fits(current_indent as int, *options),
        ensures
            final(out)@ == old(out)@ + command_body(
                command@,
                config.command_threshold as int,
                *options,
                match param_options {
                    Some(m) => Some(m.entries()),
                    None => None,
                },
                current_indent as int,
            ),
    {
        let mut v: Vec<char> = Vec::new();
        push_command_body(&mut v, command, config.command_threshold, options, param_options, current_indent);
        append_chars(out, &v);
    }

    /// The name of a composite parameter; `None` for a basic one.
    pub fn get_param_name(param: &Parameter) -> (res: Option<String>)
        ensures
            match param_name_spec(param@) {
                Some(n) => res matches Some(r) && r@ == n,
                None => res is None,
            },
    {
        match param {
            Parameter::Composite(name, _) => Some(name.clone()),
            _ => None,
        }
    }

    /// The options of the parameter at `position`, named `name` when it is a
    /// composite parameter: see [`param_options_for`].
    pub fn get_param_specific_options(
        position: usize,
        name: Option<String>,
        default_options: &FormatterOptions,
        param_options: Option<&ParamOptions>,
    ) -> (res: FormatterOptions)
        ensures
            res == param_options_for(
                position,
                match name {
                    Some(n) => Some(n@),
                    None => None,
                },
                *default_options,
                match param_options {
                    Some(m) => Some(m.entries()),
                    None => None,
                },
            ),
    {
        match param_options {
            Some(map) => {
                match name {
                    Some(n) => {
                        match map.get(&ParamFormatSelector::Name(n)) {
                            Some(o) => {
                                return Self::merge_options(default_options, o);
                            },
                            None => {},
                        }
                    },
                    None => {},
                }
                match map.get(&ParamFormatSelector::Position(position)) {
                    Some(o) => Self::merge_options(default_options, o),
                    None => *default_options,
                }
            },
            None => *default_options,
        }
    }

    /// `override_opt` merged over `base`: see [`merge_spec`].
    pub fn merge_options(base: &FormatterOptions, override_opt: &FormatterOptions) -> (res:
        FormatterOptions)
        ensures
            res == merge_spec(*base, *override_opt),
    {
        if override_opt.should_override {
            return *override_opt;
        }
        // each field set in the override replaces that of the base
        FormatterOptions {
            indent: if override_opt.indent != 0 {
                override_opt.indent
            } else {
                base.indent
            },
            use_tabs: base.use_tabs || override_opt.use_tabs,
            newline_before: base.newline_before || override_opt.newline_before,
            newline_after: base.newline_after || override_opt.newline_after,
            compact: base.compact || override_opt.compact,
            force_quotes_for_vars: base.force_quotes_for_vars || override_opt.force_quotes_for_vars,
            number_format: if override_opt.number_format != NumberFormat::Unknown {
                override_opt.number_format
            } else {
                base.number_format
            },
            newline_before_param: base.newline_before_param || override_opt.newline_before_param,
            newline_after_param: base.newline_after_param || override_opt.newline_after_param,
            should_override: base.should_override,
        }
    }

    /// Appends the indentation for level `current_indent` to `out`: see
    /// [`indent_text`].
    pub fn write_indent(out: &mut String, current_indent: usize, options: &FormatterOptions)
        requires
            options.compact || options.use_tabs || current_indent * options.indent <= usize::MAX,
        ensures
            final(out)@ == old(out)@ + indent_text(current_indent as int, *options),
    {
        let mut v: Vec<char> = Vec::new();
        push_indent(&mut v, current_indent, options);
        append_chars(out, &v);
    }

    /// The options command `command_name` is written with: see
    /// [`effective_spec`].
    pub fn get_effective_options(
        command_name: &str,
        options: Option<&FormatterOptions>,
        config: &WriterConfig,
    ) -> (res: FormatterOptions)
        ensures
            res == effective_spec(
                command_name@,
                match options {
                    Some(o) => Some(*o),
                    None => None,
                },
                config.global_options,
                config.command_options.entries(),
            ),
    {
        let global = match config.command_options.get(command_name) {
            Some(opt) => Self::merge_options(&config.global_options, opt),
            None => config.global_options,
        };
        let mut result = match options {
            Some(opt) => Self::merge_options(&global, opt),
            None => global,
        };
        if result.indent == 0 {
            result.indent = 4;
        }
        if result.number_format == NumberFormat::Unknown {
            result.number_format = NumberFormat::Decimal;
        }
        result
    }
}

/// Appends parameters `start..` of `ps`: see [`params_out`].
#[verifier::spinoff_prover]
#[verifier::rlimit(30)]
fn push_params(
    out: &mut Vec<char>,
    ps: &Vec<Parameter>,
    start: usize,
    o: &FormatterOptions,
    map: Option<&ParamOptions>,
    level: usize,
)
    requires
        start <= ps@.len(),
        indent_fits(level as int, *o),
    ensures
        final(out)@ == old(out)@ + params_out(
            params_model(ps@),
            start as int,
            ps@.len() as int,
            *o,
            match map {
                Some(m) => Some(m.entries()),
                None => None,
            },
            level as int,
        ),
{
    let ghost m = params_model(ps@);
    let ghost mm = match map {
        Some(x) => Some(x.entries()),
        None => None,
    };
    let mut k = start;
    while k < ps.len()
        invariant
            start <= k <= ps@.len(),
            m == params_model(ps@),
            mm == (match map {
                Some(x) => Some(x.entries()),
                None => None,
            }),
            indent_fits(level as int, *o),
            out@ == old(out)@ + params_out(m, start as int, k as int, *o, mm, level as int),
        decreases ps@.len() - k,
    {
        let cur = Generators::get_param_specific_options(
            k,
            Generators::get_param_name(&ps[k]),
            o,
            map,
        );
        assert(cur == options_at(m, k as int, *o, mm));
        let brk = if k > start {
            let prev = Generators::get_param_specific_options(
                k - 1,
                Generators::get_param_name(&ps[k - 1]),
                o,
                map,
            );
            assert(prev == options_at(m, k - 1, *o, mm));
            prev.newline_after_param || cur.newline_before_param
        } else {
            cur.newline_before_param
        };
        let ghost before = out@;
        if brk {
            out.push('\n');
            let lvl = if o.compact {
                level
            } else {
                level + 1
            };
            push_indent(out, lvl, o);
        } else {
            out.push(' ');
        }
        assert(out@ == before + param_sep(m, start as int, k as int, *o, mm, level as int));
        push_format_param(out, &ps[k], &cur);
        k = k + 1;
    }
}

/// Appends the text of a command: see [`command_body`].
fn push_command_body(
    out: &mut Vec<char>,
    command: &Command,
    threshold: usize,
    o: &FormatterOptions,
    map: Option<&ParamOptions>,
    level: usize,
)
    requires
        threshold < usize::MAX,
        indent_fits(level as int, *o),
    ensures
        final(out)@ == old(out)@ + command_body(
            command@,
            threshold as int,
            *o,
            match map {
                Some(m) => Some(m.entries()),
                None => None,
            },
            level as int,
        ),
{
    let ghost mm = match map {
        Some(x) => Some(x.entries()),
        None => None,
    };
    let ghost c = command@;
    proof {
        reveal_strlit("@text");
        reveal_strlit("@annotation");
        reveal_strlit("@number");
        assert("@text"@ == text_name());
        assert("@annotation"@ == annotation_name());
        assert("@number"@ == number_name());
    }
    if str_eq(command.name.as_str(), "@text") {
        if command.params.len() > 0 {
            match &command.params[0] {
                Parameter::Basic(Value::String(t)) => {
                    let tc = str_to_chars(t.as_str());
                    push_escaped_text(out, &tc);
                },
                _ => {
                    assert(command_body(c, threshold as int, *o, mm, level as int) == Seq::<
                        char,
                    >::empty());
                },
            }
        }
    } else if str_eq(command.name.as_str(), "@annotation") {
        if command.params.len() > 0 {
            match &command.params[0] {
                Parameter::Basic(Value::String(text)) => {
                    let t = str_to_chars(text.as_str());
                    let h = threshold + 1;
                    if starts_with_hashes(&t, h) {
                        push_escaped_text(out, &t);
                    } else {
                        push_repeat(out, '#', h);
                        out.push(' ');
                        push_escaped_text(out, &t);
                    }
                },
                _ => {
                    assert(command_body(c, threshold as int, *o, mm, level as int) == Seq::<
                        char,
                    >::empty());
                },
            }
        }
    } else if str_eq(command.name.as_str(), "@number") {
        if command.params.len() > 0 {
            match &command.params[0] {
                Parameter::Basic(Value::Int(v)) => {
                    push_repeat(out, '#', threshold);
                    let d = i64_decimal(*v);
                    push_chars(out, &d);
                    push_params(out, &command.params, 1, o, map, level);
                },
                _ => {
                    assert(command_body(c, threshold as int, *o, mm, level as int) == Seq::<
                        char,
                    >::empty());
                },
            }
        }
    } else {
        push_repeat(out, '#', threshold);
        push_str(out, command.name.as_str());
        push_params(out, &command.params, 0, o, map, level);
    }
}

/// Whether `t`, without leading whitespace, starts with `h` marks `#`.
fn starts_with_hashes(t: &Vec<char>, h: usize) -> (res: bool)
    ensures
        res == starts_after_ws(t@, hashes(h as int)),
{
    let a = skip_ws_exec(t, 0);
    if h > t.len() - a {
        return false;
    }
    let mut i: usize = 0;
    while i < h
        invariant
            a == skip_ws(t@, 0),
            a + h <= t@.len(),
            t@.len() <= usize::MAX,
            0 <= i <= h,
            forall|j: int| a <= j < a + i ==> t@[j] == '#',
        decreases h - i,
    {
        if t[a + i] != '#' {
            assert(t@.subrange(a as int, a + h)[i as int] != hashes(h as int)[i as int]);
            return false;
        }
        i = i + 1;
    }
    assert(t@.subrange(a as int, a + h) == hashes(h as int));
    true
}

// ----- Laws of option resolution -----

/// Options that ask to override replace the options they are merged over.
pub proof fn lemma_merge_override(base: FormatterOptions, over: FormatterOptions)
    requires
        over.should_override,
    ensures
        merge_spec(base, over) == over,
{
}

/// Options that set nothing (indent 0, every switch off, number format
/// unset, no override) leave the options they are merged over unchanged.
pub proof fn lemma_merge_unset(base: FormatterOptions, over: FormatterOptions)
    requires
        !over.should_override,
        over.indent == 0,
        !over.use_tabs,
        !over.newline_before,
        !over.newline_after,
        !over.compact,
        !over.force_quotes_for_vars,
        over.number_format == NumberFormat::Unknown,
        !over.newline_before_param,
        !over.newline_after_param,
    ensures
        merge_spec(base, over) == base,
{
}

/// Merging the same options a second time changes nothing.
pub proof fn lemma_merge_idempotent(base: FormatterOptions, over: FormatterOptions)
    ensures
        merge_spec(merge_spec(base, over), over) == merge_spec(base, over),
{
}

/// The options a command is written with always have a nonzero indent and a
/// known number format, whatever was configured.
pub proof fn lemma_effective_options_complete(
    name: Seq<char>,
    options: Option<FormatterOptions>,
    global: FormatterOptions,
    per_command: Seq<(Seq<char>, FormatterOptions)>,
)
    ensures
        effective_spec(name, options, global, per_command).indent != 0,
        effective_spec(name, options, global, per_command).number_format
            != NumberFormat::Unknown,
{
}

} // verus!
