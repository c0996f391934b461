//! The KoiLang parser.
//!
//! The parser reads a source line by line (joining backslash-newline
//! continuations) and turns each logical line into a command:
//!
//! - a line whose first non-blank characters are exactly `command_threshold`
//!   `#` marks is a command, written in the syntax of [`command_parser`];
//! - a line with fewer marks is text (`@text`);
//! - a line with more marks is an annotation (`@annotation`);
//! - blank lines are skipped unless they are to be kept as empty text.

pub mod command_parser;
pub mod traceback;
pub mod error;
pub mod input;

use vstd::prelude::*;
use crate::command::{
    Command, CommandModel, ParamModel, ValueModel, text_name, annotation_name, number_name,
};
use crate::text::{
    byte_len, byte_offset, byte_pos, char_is_whitespace, chars_to_string, is_whitespace,
    lemma_byte_len_bounds, lemma_byte_pos_bounds, str_to_chars, str_to_string,
};
use command_parser::{Scan, Step, command_line, lemma_command_line_bounds, scan_command_line};
pub use error::{ErrorInfo, ParseError, ParseResult};
pub use input::{StringInputSource, TextInputSource};
pub use traceback::TracebackEntry;
use error::cap;
use input::{Input, first_len, first_text, lemma_first_len_bounds};
use traceback::{line_col, context_name};

verus! {

/// How the parser interprets the lines of its input.
#[derive(Debug, Clone, PartialEq, Eq, Structural)]
pub struct ParserConfig {
    /// The number of `#` marks that make a line a command: fewer make text,
    /// more make an annotation
    pub command_threshold: usize,
    /// Whether annotation lines are skipped
    pub skip_annotations: bool,
    /// Whether a command named by an integer becomes an `@number` command
    pub convert_number_command: bool,
    /// Whether text and annotation lines keep their leading whitespace
    pub preserve_indent: bool,
    /// Whether blank lines become empty text commands
    pub preserve_empty_lines: bool,
}

impl Default for ParserConfig {
    /// Threshold 1, annotations kept, number commands converted, indentation
    /// and blank lines dropped.
    fn default() -> (res: Self)
        ensures
            res == (ParserConfig {
                command_threshold: 1,
                skip_annotations: false,
                convert_number_command: true,
                preserve_indent: false,
                preserve_empty_lines: false,
            }),
    {
        ParserConfig {
            command_threshold: 1,
            skip_annotations: false,
            convert_number_command: true,
            preserve_indent: false,
            preserve_empty_lines: false,
        }
    }
}

impl ParserConfig {
    /// A configuration with every setting given.
    pub fn new(
        threshold: usize,
        skip_annotations: bool,
        convert_number_command: bool,
        preserve_indent: bool,
        preserve_empty_lines: bool,
    ) -> (res: Self)
        ensures
            res == (ParserConfig {
                command_threshold: threshold,
                skip_annotations,
                convert_number_command,
                preserve_indent,
                preserve_empty_lines,
            }),
    {
        ParserConfig {
            command_threshold: threshold,
            skip_annotations,
            convert_number_command,
            preserve_indent,
            preserve_empty_lines,
        }
    }

    /// This configuration with another command threshold.
    pub fn with_command_threshold(self, threshold: usize) -> (res: Self)
        ensures
            res == (ParserConfig { command_threshold: threshold, ..self }),
    {
        let mut c = self;
        c.command_threshold = threshold;
        c
    }

    /// This configuration, skipping annotations or not.
    pub fn with_skip_annotations(self, skip: bool) -> (res: Self)
        ensures
            res == (ParserConfig { skip_annotations: skip, ..self }),
    {
        let mut c = self;
        c.skip_annotations = skip;
        c
    }

    /// This configuration, converting number commands or not.
    pub fn with_convert_number_command(self, convert: bool) -> (res: Self)
        ensures
            res == (ParserConfig { convert_number_command: convert, ..self }),
    {
        let mut c = self;
        c.convert_number_command = convert;
        c
    }

    /// This configuration, preserving indentation or not.
    pub fn with_preserve_indent(self, preserve: bool) -> (res: Self)
        ensures
            res == (ParserConfig { preserve_indent: preserve, ..self }),
    {
        let mut c = self;
        c.preserve_indent = preserve;
        c
    }

    /// This configuration, preserving empty lines or not.
    pub fn with_preserve_empty_lines(self, preserve: bool) -> (res: Self)
        ensures
            res == (ParserConfig { preserve_empty_lines: preserve, ..self }),
    {
        let mut c = self;
        c.preserve_empty_lines = preserve;
        c
    }
}

} // verus!

verus! {

// ----- Lines -----

/// The index of the first non-whitespace character of `s` at or after `i`.
pub open spec fn skip_ws(s: Seq<char>, i: int) -> int
    decreases s.len() - i,
{
    if 0 <= i < s.len() && is_whitespace(s[i]) {
        skip_ws(s, i + 1)
    } else {
        i
    }
}

/// The end of `s[..j]` without its trailing whitespace.
pub open spec fn trim_end_at(s: Seq<char>, j: int) -> int
    decreases j,
{
    if 0 < j <= s.len() && is_whitespace(s[j - 1]) {
        trim_end_at(s, j - 1)
    } else {
        j
    }
}

/// `s` without trailing whitespace.
pub open spec fn trim_end(s: Seq<char>) -> Seq<char> {
    s.subrange(0, trim_end_at(s, s.len() as int))
}

/// `s` without leading and trailing whitespace.
pub open spec fn trim(s: Seq<char>) -> Seq<char> {
    let a = skip_ws(s, 0);
    if a >= s.len() {
        Seq::empty()
    } else {
        s.subrange(a, trim_end_at(s, s.len() as int))
    }
}

/// The end of the run of `#` marks starting at `i`.
pub open spec fn hash_end(s: Seq<char>, i: int) -> int
    decreases s.len() - i,
{
    if 0 <= i < s.len() && s[i] == '#' {
        hash_end(s, i + 1)
    } else {
        i
    }
}

/// What a logical line is.
pub enum LineKind {
    /// Nothing is produced.
    Skip,
    /// A text command with this content.
    Text(Seq<char>),
    /// An annotation command with this content.
    Annotation(Seq<char>),
    /// A command line: the text after the `#` marks and the column (in
    /// bytes, from 0) where that text starts; for an empty text, the column
    /// of the first mark.
    Command(Seq<char>, int),
}

/// `s[i..]` with the backslash of each backslash-newline removed, scanning
/// from the left.
pub open spec fn unescaped_from(s: Seq<char>, i: int) -> Seq<char>
    decreases s.len() - i,
{
    if i < 0 || i >= s.len() {
        Seq::empty()
    } else if i + 1 < s.len() && s[i] == '\\' && s[i + 1] == '\n' {
        seq!['\n'] + unescaped_from(s, i + 2)
    } else {
        seq![s[i]] + unescaped_from(s, i + 1)
    }
}

/// The content of a text or annotation line with the writer's escapes
/// undone: the one backslash directly before each line break is removed.
pub open spec fn unescape_text_newlines(s: Seq<char>) -> Seq<char> {
    unescaped_from(s, 0)
}

/// The characters of `s` with the backslash of each backslash-newline removed.
fn unescape_chars(s: &Vec<char>) -> (r: Vec<char>)
    ensures
        r@ == unescape_text_newlines(s@),
{
    let mut out: Vec<char> = Vec::new();
    let mut i: usize = 0;
    while i < s.len()
        invariant
            0 <= i <= s@.len(),
            out@ + unescaped_from(s@, i as int) == unescaped_from(s@, 0),
        decreases s@.len() - i,
    {
        if s[i] == '\\' && i + 1 < s.len() && s[i + 1] == '\n' {
            out.push('\n');
            proof {
                assert(unescaped_from(s@, i as int) == seq!['\n'] + unescaped_from(s@, i + 2));
                assert(out@ + unescaped_from(s@, i + 2) == (out@.drop_last() + seq!['\n'])
                    + unescaped_from(s@, i + 2));
            }
            i = i + 2;
        } else {
            out.push(s[i]);
            proof {
                assert(unescaped_from(s@, i as int) == seq![s@[i as int]] + unescaped_from(
                    s@,
                    i + 1,
                ));
                assert(out@ + unescaped_from(s@, i + 1) == (out@.drop_last() + seq![s@[i as int]])
                    + unescaped_from(s@, i + 1));
            }
            i = i + 1;
        }
    }
    assert(out@ == unescaped_from(s@, 0));
    out
}

/// `s` from index `h` on, or nothing when it is shorter.
pub open spec fn skip_chars(s: Seq<char>, h: int) -> Seq<char> {
    if h <= s.len() {
        s.subrange(h, s.len() as int)
    } else {
        Seq::empty()
    }
}

/// How the configuration classifies a logical line: by the number of `#`
/// marks that start its trimmed text.
pub open spec fn classify_line(config: ParserConfig, line: Seq<char>) -> LineKind {
    let t = trim(line);
    if t.len() == 0 {
        if config.preserve_empty_lines {
            LineKind::Text(Seq::empty())
        } else {
            LineKind::Skip
        }
    } else {
        let h = hash_end(t, 0);
        if h < config.command_threshold {
            LineKind::Text(
                if config.preserve_indent {
                    trim_end(unescape_text_newlines(line))
                } else {
                    trim(unescape_text_newlines(line))
                },
            )
        } else if h > config.command_threshold {
            if config.skip_annotations {
                LineKind::Skip
            } else {
                LineKind::Annotation(
                    if config.preserve_indent {
                        trim_end(unescape_text_newlines(line))
                    } else {
                        trim(skip_chars(trim(unescape_text_newlines(line)), h))
                    },
                )
            }
        } else {
            LineKind::Command(
                t.subrange(h, t.len() as int),
                byte_pos(line, skip_ws(line, 0)) + if h < t.len() {
                    h
                } else {
                    0
                },
            )
        }
    }
}

/// The text command holding `t`.
pub open spec fn text_command(t: Seq<char>) -> CommandModel {
    CommandModel { name: text_name(), params: seq![ParamModel::Basic(ValueModel::Str(t))] }
}

/// The annotation command holding `t`.
pub open spec fn annotation_command(t: Seq<char>) -> CommandModel {
    CommandModel { name: annotation_name(), params: seq![ParamModel::Basic(ValueModel::Str(t))] }
}

/// A parsed command, turned into an `@number` command when its name is a
/// number and `convert` is set.
pub open spec fn converted_command(convert: bool, c: CommandModel, num: Option<i64>) -> CommandModel {
    match num {
        Some(n) => if convert {
            CommandModel {
                name: number_name(),
                params: seq![ParamModel::Basic(ValueModel::Int(n))] + c.params,
            }
        } else {
            c
        },
        None => c,
    }
}

/// `e` is a syntax error with message `m`.
pub open spec fn is_syntax_error(e: ParseError, m: Seq<char>) -> bool {
    e.error_info matches ErrorInfo::SyntaxError { message } && message@ == m
}

/// The traceback of `e` is one entry at `line` over columns `start..end`
/// with context `ctx`.
pub open spec fn has_trace(e: ParseError, line: usize, start: usize, end: usize, ctx: Seq<char>) -> bool {
    e.traceback matches Some(tb) && tb.lineno == line && tb.column_range == (start, end)
        && tb.context@ == ctx && tb.children@.len() == 0
}

/// The outcome of parsing the command text `text` found on line `lineno` at
/// column `column`, as [`Parser::parse_command_line`] gives it (the source of
/// an error aside): the command; or, for an empty text, a syntax error; for a
/// text only partly parsed, an unexpected-input error on its rest; for a
/// committed failure of the grammar, a syntax error whose traceback points at
/// the failure.
pub open spec fn command_outcome(
    convert: bool,
    text: Seq<char>,
    lineno: usize,
    column: usize,
    r: ParseResult<Option<Command>>,
) -> bool {
    if text.len() == 0 {
        &&& r matches Err(e)
        &&& is_syntax_error(*r->Err_0, "Empty command line"@)
        &&& has_trace(*r->Err_0, lineno, column, (column + 1) as usize, text)
    } else {
        match command_line(text) {
            Scan::Done((c, num), end) => if end == text.len() {
                r matches Ok(Some(rc)) && rc@ == converted_command(convert, c, num)
            } else {
                &&& r matches Err(e)
                &&& r->Err_0.error_info matches ErrorInfo::UnexpectedInput { remaining }
                    && remaining@ == text.subrange(end, text.len() as int)
                &&& has_trace(
                    *r->Err_0,
                    lineno,
                    (byte_pos(text, end) + 1 + column) as usize,
                    (byte_len(text) + 1 + column) as usize,
                    Seq::empty(),
                )
            },
            Scan::Cut(p, ctx) => {
                &&& r matches Err(e)
                &&& is_syntax_error(*r->Err_0, "Command parsing error"@)
                &&& has_trace(
                    *r->Err_0,
                    cap(lineno + line_col(text, byte_pos(text, p) as int).0 - 1),
                    cap(line_col(text, byte_pos(text, p) as int).1 + column),
                    cap(
                        line_col(text, byte_pos(text, p) as int).1 + (byte_len(text) - byte_pos(
                            text,
                            p,
                        )) + column,
                    ),
                    context_name(ctx),
                )
            },
            Scan::Miss => false,
        }
    }
}

/// The longest line, in characters, that the parser takes.
pub open spec fn max_line_len() -> int {
    usize::MAX as int / 8
}

/// The command that a logical line yields, if it yields one.
pub open spec fn line_command(config: ParserConfig, line: Seq<char>, c: CommandModel) -> bool {
    line.len() <= max_line_len() && match classify_line(config, line) {
        LineKind::Skip => false,
        LineKind::Text(t) => c == text_command(t),
        LineKind::Annotation(t) => c == annotation_command(t),
        LineKind::Command(text, col) => text.len() > 0 && (command_line(text) matches Scan::Done(
            (cm, num),
            end,
        ) && end == text.len() && c == converted_command(config.convert_number_command, cm, num)),
    }
}

/// What a logical line numbered `lineno` gives, as [`ParserConfig::process_line`]
/// returns it: nothing (`None`) for a skipped line, the text, annotation or
/// parsed command, or an error without source; a line longer than
/// [`max_line_len`] is refused.
pub open spec fn line_result(
    config: ParserConfig,
    lineno: usize,
    line: Seq<char>,
    res: Option<ParseResult<Option<Command>>>,
) -> bool {
    &&& line.len() > max_line_len() ==> (res matches Some(Err(e)) && is_syntax_error(
        *e,
        "Line too long"@,
    ))
    &&& line.len() <= max_line_len() ==> match classify_line(config, line) {
        LineKind::Skip => res is None,
        LineKind::Text(t) => res matches Some(Ok(Some(c))) && c@ == text_command(t),
        LineKind::Annotation(t) => res matches Some(Ok(Some(c))) && c@ == annotation_command(t),
        LineKind::Command(text, col) => res matches Some(r) && command_outcome(
            config.convert_number_command,
            text,
            lineno,
            col as usize,
            r,
        ),
    }
    &&& res matches Some(Err(e)) ==> e.source is None
}

/// Whether a logical line is passed over: it gives nothing.
pub open spec fn skipped(config: ParserConfig, line: Seq<char>) -> bool {
    line.len() <= max_line_len() && classify_line(config, line) is Skip
}

/// The number of physical lines at the start of `p` whose logical lines are
/// all passed over.
pub open spec fn skipped_len(config: ParserConfig, p: Seq<Seq<char>>) -> nat
    decreases p.len(),
{
    if p.len() == 0 {
        0
    } else if skipped(config, first_text(p)) {
        proof {
            lemma_first_len_bounds(p);
        }
        first_len(p) + skipped_len(config, p.skip(first_len(p) as int))
    } else {
        0
    }
}

/// Whether a logical line is passed over or gives a command.
pub open spec fn line_ok(config: ParserConfig, line: Seq<char>) -> bool {
    skipped(config, line) || exists|c: CommandModel| #[trigger] line_command(config, line, c)
}

/// Whether every logical line of `p` is passed over or gives a command.
pub open spec fn lines_ok(config: ParserConfig, p: Seq<Seq<char>>) -> bool
    decreases p.len(),
{
    if p.len() == 0 {
        true
    } else {
        proof {
            lemma_first_len_bounds(p);
        }
        line_ok(config, first_text(p)) && lines_ok(config, p.skip(first_len(p) as int))
    }
}

/// The lines passed over at the start are among the lines.
proof fn lemma_skipped_len_bound(config: ParserConfig, p: Seq<Seq<char>>)
    ensures
        skipped_len(config, p) <= p.len(),
    decreases p.len(),
{
    if p.len() > 0 && skipped(config, first_text(p)) {
        lemma_first_len_bounds(p);
        lemma_skipped_len_bound(config, p.skip(first_len(p) as int));
    }
}

/// The lines passed over at the start do not change whether all lines are
/// passed over or give a command.
proof fn lemma_lines_ok_after_skipped(config: ParserConfig, p: Seq<Seq<char>>)
    ensures
        lines_ok(config, p) == lines_ok(config, after_skipped(config, p)),
    decreases p.len(),
{
    if p.len() > 0 && skipped(config, first_text(p)) {
        lemma_first_len_bounds(p);
        let f = first_len(p) as int;
        lemma_lines_ok_after_skipped(config, p.skip(f));
        lemma_skipped_len_bound(config, p.skip(f));
        assert(after_skipped(config, p) == after_skipped(config, p.skip(f))) by {
            assert(p.skip(f).skip(skipped_len(config, p.skip(f)) as int) =~= p.skip(
                f + skipped_len(config, p.skip(f)),
            ));
        }
    } else {
        assert(p.skip(0) =~= p);
    }
}

/// A line whose outcome is a command gives that command.
proof fn lemma_result_command(config: ParserConfig, n: usize, line: Seq<char>, c: Command)
    requires
        line_result(config, n, line, Some(Ok(Some(c)))),
    ensures
        line_command(config, line, c@),
        line_ok(config, line),
{
    assert(line_command(config, line, c@));
}

/// Reading the pending lines `p`, the next of them numbered `ln`, yields the
/// commands `cs`, in order, and leaves `rest` pending: each command is what
/// the next logical line that is not passed over gives.
pub open spec fn yields(
    config: ParserConfig,
    ln: int,
    p: Seq<Seq<char>>,
    cs: Seq<Command>,
    rest: Seq<Seq<char>>,
) -> bool
    decreases cs.len(),
{
    if cs.len() == 0 {
        rest == p
    } else {
        let k = skipped_len(config, p);
        let q = after_skipped(config, p);
        &&& q.len() > 0
        &&& line_result(config, (ln + k) as usize, first_text(q), Some(Ok(Some(cs[0]))))
        &&& yields(config, ln + k + first_len(q), q.skip(first_len(q) as int), cs.drop_first(), rest)
    }
}

/// Reading one more command extends what was yielded.
proof fn lemma_yields_push(
    config: ParserConfig,
    ln: int,
    p: Seq<Seq<char>>,
    cs: Seq<Command>,
    r: Seq<Seq<char>>,
    c: Command,
    r2: Seq<Seq<char>>,
)
    requires
        yields(config, ln, p, cs, r),
        r.len() <= p.len(),
        ({
            let k = skipped_len(config, r);
            let q = after_skipped(config, r);
            &&& q.len() > 0
            &&& line_result(
                config,
                (ln + (p.len() - r.len()) + k) as usize,
                first_text(q),
                Some(Ok(Some(c))),
            )
            &&& r2 == q.skip(first_len(q) as int)
        }),
    ensures
        yields(config, ln, p, cs.push(c), r2),
    decreases cs.len(),
{
    if cs.len() == 0 {
        let k = skipped_len(config, p);
        let q = after_skipped(config, p);
        let f = first_len(q) as int;
        assert(r == p);
        assert(cs.push(c).drop_first() =~= Seq::<Command>::empty());
        assert(cs.push(c)[0] == c);
        assert(yields(config, ln + k + f, q.skip(f), Seq::<Command>::empty(), r2));
        assert(yields(config, ln + k + f, q.skip(f), cs.push(c).drop_first(), r2));
    } else {
        let k = skipped_len(config, p);
        let q = after_skipped(config, p);
        lemma_skipped_len_bound(config, p);
        lemma_first_len_bounds(q);
        let f = first_len(q) as int;
        lemma_yields_len(config, ln + k + f, q.skip(f), cs.drop_first(), r);
        lemma_yields_push(config, ln + k + f, q.skip(f), cs.drop_first(), r, c, r2);
        assert(cs.push(c).drop_first() =~= cs.drop_first().push(c));
        assert(cs.push(c)[0] == cs[0]);
        assert(q.skip(f).len() == p.len() - k - f);
        assert(yields(config, ln + k + f, q.skip(f), cs.push(c).drop_first(), r2));
    }
}

/// What is left after yielding is no longer than what was pending.
proof fn lemma_yields_len(
    config: ParserConfig,
    ln: int,
    p: Seq<Seq<char>>,
    cs: Seq<Command>,
    r: Seq<Seq<char>>,
)
    requires
        yields(config, ln, p, cs, r),
    ensures
        r.len() <= p.len(),
    decreases cs.len(),
{
    if cs.len() > 0 {
        let k = skipped_len(config, p);
        let q = after_skipped(config, p);
        lemma_skipped_len_bound(config, p);
        lemma_first_len_bounds(q);
        lemma_yields_len(config, ln + k + first_len(q), q.skip(first_len(q) as int), cs.drop_first(), r);
    }
}

/// The lines of `p` from its first logical line that is not passed over.
pub open spec fn after_skipped(config: ParserConfig, p: Seq<Seq<char>>) -> Seq<Seq<char>> {
    p.skip(skipped_len(config, p) as int)
}

pub(crate) fn skip_ws_exec(s: &Vec<char>, i: usize) -> (r: usize)
    requires
        i <= s@.len(),
    ensures
        r == skip_ws(s@, i as int),
        i <= r <= s@.len(),
        r < s@.len() ==> !is_whitespace(s@[r as int]),
        forall|k: int| i <= k < r ==> is_whitespace(#[trigger] s@[k]),
    decreases s@.len() - i,
{
    if i < s.len() && char_is_whitespace(s[i]) {
        skip_ws_exec(s, i + 1)
    } else {
        i
    }
}

fn trim_end_exec(s: &Vec<char>, j: usize) -> (r: usize)
    requires
        j <= s@.len(),
    ensures
        r == trim_end_at(s@, j as int),
        r <= j,
        r > 0 ==> !is_whitespace(s@[r - 1]),
    decreases j,
{
    if j > 0 && char_is_whitespace(s[j - 1]) {
        trim_end_exec(s, j - 1)
    } else {
        j
    }
}

fn hash_end_exec(s: &Vec<char>, i: usize) -> (r: usize)
    requires
        i <= s@.len(),
    ensures
        r == hash_end(s@, i as int),
        i <= r <= s@.len(),
    decreases s@.len() - i,
{
    if i < s.len() && s[i] == '#' {
        hash_end_exec(s, i + 1)
    } else {
        i
    }
}

proof fn lemma_trim_end_at_ge(s: Seq<char>, a: int, j: int)
    requires
        0 <= a < j <= s.len(),
        !is_whitespace(s[a]),
    ensures
        a < trim_end_at(s, j) <= j,
    decreases j,
{
    if is_whitespace(s[j - 1]) {
        lemma_trim_end_at_ge(s, a, j - 1);
    }
}

/// The characters of `s` without leading and trailing whitespace.
fn trim_chars(s: &Vec<char>) -> (r: Vec<char>)
    ensures
        r@ == trim(s@),
{
    let a = skip_ws_exec(s, 0);
    if a >= s.len() {
        return Vec::new();
    }
    let b = trim_end_exec(s, s.len());
    proof {
        lemma_trim_end_at_ge(s@, a as int, s@.len() as int);
    }
    command_parser::slice_chars(s, a, b)
}

impl ParserConfig {
    /// What a logical line yields under this configuration: nothing (`None`)
    /// for a skipped line, a text or annotation command, or the outcome of
    /// parsing a command line. A line of more than [`max_line_len`]
    /// characters is refused. Errors carry no source yet.
    pub fn process_line(&self, lineno: usize, line_text: &str) -> (res: Option<
        ParseResult<Option<Command>>,
    >)
        ensures
            line_result(*self, lineno, line_text@, res),
    {
        let s = str_to_chars(line_text);
        if s.len() > usize::MAX / 8 {
            return Some(Err(ParseError::syntax(str_to_string("Line too long"))));
        }
        let t = trim_chars(&s);
        if t.len() == 0 {
            if self.preserve_empty_lines {
                proof {
                    reveal_strlit("");
                    assert(""@ =~= Seq::<char>::empty());
                }
                return Some(Ok(Some(Command::new_text(""))));
            } else {
                return None;
            }
        }
        let h = hash_end_exec(&t, 0);
        if h < self.command_threshold {
            let u = unescape_chars(&s);
            let content = if self.preserve_indent {
                let b = trim_end_exec(&u, u.len());
                command_parser::slice_chars(&u, 0, b)
            } else {
                trim_chars(&u)
            };
            Some(Ok(Some(Command::new_text(chars_to_string(&content).as_str()))))
        } else if h > self.command_threshold {
            if self.skip_annotations {
                return None;
            }
            let u = unescape_chars(&s);
            let content = if self.preserve_indent {
                let b = trim_end_exec(&u, u.len());
                command_parser::slice_chars(&u, 0, b)
            } else {
                let tu = trim_chars(&u);
                let rest = if h <= tu.len() {
                    command_parser::slice_chars(&tu, h, tu.len())
                } else {
                    Vec::new()
                };
                trim_chars(&rest)
            };
            Some(Ok(Some(Command::new_annotation(chars_to_string(&content).as_str()))))
        } else {
            let a = skip_ws_exec(&s, 0);
            let text = command_parser::slice_chars(&t, h, t.len());
            proof {
                lemma_trim_len(s@);
                lemma_byte_len_bounds(s@);
                lemma_byte_pos_bounds(s@, a as int, s@.len() as int);
                lemma_byte_len_bounds(s@.subrange(0, a as int));
                lemma_byte_len_bounds(text@);
            }
            let column = byte_offset(&s, a) + if h < t.len() {
                h
            } else {
                0
            };
            Some(parse_command_text(self.convert_number_command, chars_to_string(&text), lineno, column))
        }
    }
}

proof fn lemma_trim_len(s: Seq<char>)
    ensures
        skip_ws(s, 0) + trim(s).len() <= s.len(),
        skip_ws(s, 0) <= s.len(),
{
    lemma_skip_ws_bounds(s, 0);
    let a = skip_ws(s, 0);
    if a < s.len() {
        lemma_trim_end_at_ge(s, a, s.len() as int);
    }
}

proof fn lemma_skip_ws_bounds(s: Seq<char>, i: int)
    requires
        0 <= i <= s.len(),
    ensures
        i <= skip_ws(s, i) <= s.len(),
        skip_ws(s, i) < s.len() ==> !is_whitespace(s[skip_ws(s, i)]),
    decreases s.len() - i,
{
    if i < s.len() && is_whitespace(s[i]) {
        lemma_skip_ws_bounds(s, i + 1);
    }
}

/// Parses the command text `command_text` found on line `lineno` at column
/// `column`; see [`command_outcome`].
fn parse_command_text(convert: bool, command_text: String, lineno: usize, column: usize) -> (res:
    ParseResult<Option<Command>>)
    requires
        column + byte_len(command_text@) + 16 <= usize::MAX,
    ensures
        command_outcome(convert, command_text@, lineno, column, res),
        res matches Err(e) ==> e.source is None,
{
    let s = str_to_chars(command_text.as_str());
    if s.len() == 0 {
        let m = str_to_string("Empty command line");
        return Err(ParseError::syntax_with_context(m, lineno, column, command_text));
    }
    proof {
        lemma_byte_len_bounds(s@);
        lemma_command_line_bounds(s@);
    }
    match scan_command_line(&s) {
        Step::Done((c, num), end) => parsed_command(convert, c, num, end, s, command_text, lineno, column),
        Step::Cut(p, ctx) => {
            let m = str_to_string("Command parsing error");
            Err(ParseError::from_failure(m, command_text.as_str(), lineno, column, p, ctx))
        },
        Step::Miss => {
            let m = str_to_string("Command parsing error");
            Err(ParseError::syntax(m))
        },
    }
}

/// The outcome for a command text whose grammar match ended at `end`.
fn parsed_command(
    convert: bool,
    c: Command,
    num: Option<i64>,
    end: usize,
    s: Vec<char>,
    command_text: String,
    lineno: usize,
    column: usize,
) -> (res: ParseResult<Option<Command>>)
    requires
        s@ == command_text@,
        s@.len() > 0,
        column + byte_len(command_text@) + 16 <= usize::MAX,
        command_line(s@) matches Scan::Done((cm, n), e) && cm == c@ && n == num && e == end,
        end <= s@.len(),
    ensures
        command_outcome(convert, command_text@, lineno, column, res),
        res matches Err(e) ==> e.source is None,
{
    if end == s.len() {
        match num {
            Some(n) => {
                if convert {
                    Ok(Some(Command::new_number(n, c.params)))
                } else {
                    Ok(Some(c))
                }
            },
            None => Ok(Some(c)),
        }
    } else {
        let rest = command_parser::slice_chars(&s, end, s.len());
        let r = chars_to_string(&rest);
        proof {
            lemma_byte_pos_bounds(s@, end as int, s@.len() as int);
            assert(r@ == s@.subrange(end as int, s@.len() as int));
        }
        Err(ParseError::unexpected_input(r, lineno, column, command_text))
    }
}

/// The core KoiLang parser: reads logical lines from a source and yields
/// the commands they hold, one at a time.
pub struct Parser<T: TextInputSource> {
    input: Input<T>,
    config: ParserConfig,
}

impl<T: TextInputSource> Parser<T> {
    /// The configuration of this parser.
    pub closed spec fn config(&self) -> ParserConfig {
        self.config
    }

    /// The number of the next physical line to read.
    pub closed spec fn line_number(&self) -> usize {
        self.input.line_number
    }

    /// The source this parser reads.
    pub closed spec fn source(&self) -> T {
        self.input.source
    }

    /// A parser over `input_source`, starting at line 1.
    pub fn new(input_source: T, config: ParserConfig) -> (res: Self)
        ensures
            res.config() == config,
            res.line_number() == 1,
            res.source() == input_source,
    {
        Parser { input: Input::new(input_source), config }
    }

    /// The next command of the input. The logical lines of the source that
    /// are passed over (blank or skipped lines) are read first; the result
    /// is then what [`ParserConfig::process_line`] gives for the next logical
    /// line (see [`line_result`]), numbered by its first physical line, or
    /// `None` when no line is left. An error carries the source name, the
    /// line number and the line; a read error of the source, or a line
    /// number that can no longer count, gives an IO error carrying the
    /// current line number and an empty line.
    #[verifier::spinoff_prover]
    pub fn next_command(&mut self) -> (res: ParseResult<Option<Command>>)
        ensures
            final(self).config() == old(self).config(),
            final(self).line_number() >= old(self).line_number(),
            old(self).line_number() == usize::MAX ==> (res matches Err(e) && e.error_info is IoError),
            res matches Ok(Some(_)) ==> final(self).line_number() > old(self).line_number(),
            res matches Err(e) ==> e.source is Some,
            old(self).source().obeys_model() ==> final(self).source().obeys_model(),
            old(self).source().obeys_model() ==> (res matches Ok(None) ==> ({
                let q = after_skipped(old(self).config(), old(self).source().pending());
                q.len() == 0 && final(self).source().pending() == q
            })),
            old(self).source().obeys_model() ==> (res matches Ok(Some(c)) ==> ({
                let p = old(self).source().pending();
                let k = skipped_len(old(self).config(), p);
                let q = after_skipped(old(self).config(), p);
                &&& q.len() > 0
                &&& line_result(
                    old(self).config(),
                    (old(self).line_number() + k) as usize,
                    first_text(q),
                    Some(Ok(Some(c))),
                )
                &&& final(self).source().pending() == q.skip(first_len(q) as int)
                &&& final(self).line_number() == old(self).line_number() + k + first_len(q)
            })),
            old(self).source().obeys_model() ==> (res matches Err(e) ==> (e.error_info is IoError || ({
                let p = old(self).source().pending();
                let k = skipped_len(old(self).config(), p);
                let q = after_skipped(old(self).config(), p);
                &&& q.len() > 0
                &&& final(self).source().pending() == q.skip(first_len(q) as int)
                &&& exists|b: Box<ParseError>|
                    #![trigger line_result(old(self).config(), (old(self).line_number() + k) as usize, first_text(q), Some(Err(b)))]
                    line_result(
                        old(self).config(),
                        (old(self).line_number() + k) as usize,
                        first_text(q),
                        Some(Err(b)),
                    ) && b.error_info == e.error_info && b.traceback == e.traceback
            }))),
    {
        let ghost p = self.input.source.pending();
        let ghost obeys = self.input.source.obeys_model();
        let ghost mut j: int = 0;
        proof {
            assert(p.skip(0) == p);
        }
        loop
            invariant
                self.config == old(self).config,
                self.input.line_number >= old(self).input.line_number,
                p == old(self).input.source.pending(),
                obeys == old(self).input.source.obeys_model(),
                obeys ==> self.input.source.obeys_model() && 0 <= j <= p.len()
                    && self.input.source.pending() == p.skip(j) && self.input.line_number == old(
                    self,
                ).input.line_number + j && skipped_len(self.config, p) == j + skipped_len(
                    self.config,
                    p.skip(j),
                ),
            decreases usize::MAX - self.input.line_number,
        {
            let ghost r = p.skip(j);
            match self.input.next_line() {
                Ok(Some((lineno, text))) => {
                    proof {
                        lemma_first_len_bounds(r);
                    }
                    match self.config.process_line(lineno, text.as_str()) {
                        None => {
                            proof {
                              if obeys {
                                let f = first_len(r) as int;
                                assert(skipped(self.config, first_text(r)));
                                assert(skipped_len(self.config, r) == f + skipped_len(
                                    self.config,
                                    r.skip(f),
                                ));
                                assert(r.skip(f) == p.skip(j + f));
                                j = j + f;
                              }
                            }
                        },
                        Some(Ok(c)) => {
                            proof {
                                assert(c is Some);
                                if obeys {
                                    assert(!skipped(self.config, first_text(r)));
                                    assert(skipped_len(self.config, r) == 0);
                                    assert(r.skip(0) == r);
                                }
                            }
                            return Ok(c);
                        },
                        Some(Err(e)) => {
                            let name = self.input.source.source_name();
                            let ghost e0 = e;
                            let err = e.with_source(name, lineno, text);
                            proof {
                              if obeys {
                                assert(!skipped(self.config, first_text(r)));
                                assert(skipped_len(self.config, r) == 0);
                                assert(r.skip(0) == r);
                                let k = skipped_len(self.config, p);
                                assert(k == j);
                                assert(after_skipped(old(self).config(), p) == r);
                                assert(self.input.source.pending() == r.skip(first_len(r) as int));
                                assert(lineno == old(self).line_number() + k);
                                assert(line_result(
                                    old(self).config(),
                                    (old(self).line_number() + k) as usize,
                                    first_text(after_skipped(old(self).config(), p)),
                                    Some(Err(e0)),
                                ) && e0.error_info == err.error_info && e0.traceback
                                    == err.traceback);
                                let q = after_skipped(old(self).config(), p);
                                assert(exists|b: Box<ParseError>|
                                    #![trigger line_result(old(self).config(), (old(self).line_number() + k) as usize, first_text(q), Some(Err(b)))]
                                    line_result(
                                        old(self).config(),
                                        (old(self).line_number() + k) as usize,
                                        first_text(q),
                                        Some(Err(b)),
                                    ) && b.error_info == err.error_info && b.traceback == err.traceback);
                                assert(q.len() > 0);
                                assert(old(self).source().pending() == p);
                                assert(self.source().pending() == q.skip(first_len(q) as int));
                              }
                              assert(err.source is Some);
                            }
                            return Err(err);
                        },
                    }
                },
                Ok(None) => {
                    proof {
                        if obeys {
                            assert(r.len() == 0);
                            assert(skipped_len(self.config, r) == 0);
                            assert(r.skip(0) == r);
                        }
                    }
                    return Ok(None);
                },
                Err(e) => {
                    let name = self.input.source.source_name();
                    let line = self.input.line_number;
                    return Err(ParseError::io(e).with_source(name, line, String::new()));
                },
            }
        }
    }

    /// Parses the text of a command line (after its `#` marks) found on line
    /// `lineno` at column `column`: see [`command_outcome`]. The result is
    /// never `Ok(None)`; errors carry no source.
    pub fn parse_command_line(&self, command_text: String, lineno: usize, column: usize) -> (res:
        ParseResult<Option<Command>>)
        requires
            column + byte_len(command_text@) + 16 <= usize::MAX,
        ensures
            command_outcome(self.config().convert_number_command, command_text@, lineno, column, res),
            res matches Err(e) ==> e.source is None,
    {
        parse_command_text(self.config.convert_number_command, command_text, lineno, column)
    }

    /// Hands each command to `handler`, in order, until the input ends
    /// (`Ok(true)`), the handler asks to stop by returning `Ok(false)`
    /// (`Ok(false)`, the lines after that command still pending), or an
    /// error occurs: the handler's error, or a parse error converted to `E`.
    #[verifier::spinoff_prover]
    #[verifier::rlimit(60)]
    pub fn process_with<F, E>(&mut self, handler: F) -> (res: Result<bool, E>) where
        F: FnMut(Command) -> Result<bool, E>,
        E: From<Box<ParseError>>,

        requires
            forall|c: Command| call_requires(handler, (c,)),
        ensures
            final(self).config() == old(self).config(),
            final(self).line_number() >= old(self).line_number(),
            old(self).source().obeys_model() ==> final(self).source().obeys_model(),
            old(self).source().obeys_model() ==> (res matches Ok(true) ==> ({
                &&& final(self).source().pending().len() == 0
                &&& lines_ok(old(self).config(), old(self).source().pending())
                &&& exists|cs: Seq<Command>, rest: Seq<Seq<char>>|
                    #![trigger yields(old(self).config(), old(self).line_number() as int, old(self).source().pending(), cs, rest)]
                    yields(
                        old(self).config(),
                        old(self).line_number() as int,
                        old(self).source().pending(),
                        cs,
                        rest,
                    ) && after_skipped(old(self).config(), rest).len() == 0 && forall|i: int|
                        0 <= i < cs.len() ==> call_ensures(handler, (#[trigger] cs[i],), Ok::<bool, E>(true))
            })),
            old(self).source().obeys_model() ==> (res matches Ok(false) ==> exists|cs: Seq<Command>|
                #![trigger yields(old(self).config(), old(self).line_number() as int, old(self).source().pending(), cs, final(self).source().pending())]
                cs.len() > 0 && yields(
                    old(self).config(),
                    old(self).line_number() as int,
                    old(self).source().pending(),
                    cs,
                    final(self).source().pending(),
                ) && (forall|i: int|
                    0 <= i < cs.len() - 1 ==> call_ensures(handler, (#[trigger] cs[i],), Ok::<bool, E>(true)))
                    && call_ensures(handler, (cs.last(),), Ok::<bool, E>(false))),
    {
        let mut h = handler;
        let ghost p0 = self.input.source.pending();
        let ghost ln0 = self.input.line_number as int;
        let ghost obeys = self.input.source.obeys_model();
        let ghost mut cs: Seq<Command> = Seq::empty();
        loop
            invariant
                self.config == old(self).config,
                self.input.line_number >= old(self).input.line_number,
                forall|c: Command| call_requires(h, (c,)),
                h == handler,
                p0 == old(self).input.source.pending(),
                ln0 == old(self).input.line_number,
                obeys == old(self).input.source.obeys_model(),
                obeys ==> ({
                    let cur = self.input.source.pending();
                    &&& self.input.source.obeys_model()
                    &&& (lines_ok(self.config, cur) ==> lines_ok(self.config, p0))
                    &&& yields(self.config, ln0, p0, cs, cur)
                    &&& cur.len() <= p0.len()
                    &&& self.input.line_number == ln0 + (p0.len() - cur.len())
                }),
                forall|i: int| 0 <= i < cs.len() ==> call_ensures(handler, (#[trigger] cs[i],), Ok::<bool, E>(true)),
            decreases usize::MAX - self.input.line_number,
        {
            let ghost cur = self.input.source.pending();
            let ghost ln = self.input.line_number;
            proof {
                lemma_lines_ok_after_skipped(self.config, cur);
                lemma_skipped_len_bound(self.config, cur);
            }
            match self.next_command() {
                Ok(Some(command)) => {
                    let ghost c = command;
                    proof {
                        if obeys {
                            let k = skipped_len(self.config, cur);
                            let q = after_skipped(self.config, cur);
                            lemma_first_len_bounds(q);
                            lemma_result_command(self.config, (ln + k) as usize, first_text(q), command);
                            assert(lines_ok(self.config, q) == (line_ok(self.config, first_text(q))
                                && lines_ok(self.config, q.skip(first_len(q) as int))));
                            lemma_yields_push(self.config, ln0, p0, cs, cur, command, self.input.source.pending());
                        }
                    }
                    let r = h(command);
                    proof {
                        assert(call_ensures(handler, (c,), r));
                    }
                    match r {
                        Ok(true) => {
                            proof {
                                assert(r == Ok::<bool, E>(true));
                                cs = cs.push(c);
                                assert forall|i: int| 0 <= i < cs.len() implies call_ensures(
                                    handler,
                                    (#[trigger] cs[i],),
                                    Ok::<bool, E>(true),
                                ) by {
                                    if i < cs.len() - 1 {
                                        assert(cs[i] == cs.drop_last()[i]);
                                    }
                                }
                            }
                        },
                        Ok(false) => {
                            proof {
                                assert(r == Ok::<bool, E>(false));
                                let cs2 = cs.push(c);
                                assert(cs2.last() == c);
                                assert forall|i: int| 0 <= i < cs2.len() - 1 implies call_ensures(
                                    handler,
                                    (#[trigger] cs2[i],),
                                    Ok::<bool, E>(true),
                                ) by {
                                    assert(cs2[i] == cs[i]);
                                }
                                if obeys {
                                    assert(yields(
                                        old(self).config(),
                                        old(self).line_number() as int,
                                        old(self).source().pending(),
                                        cs2,
                                        self.source().pending(),
                                    ));
                                }
                                assert(call_ensures(handler, (cs2.last(),), Ok::<bool, E>(false)));
                                assert(cs2.len() > 0);
                            }
                            return Ok(false);
                        },
                        Err(e) => {
                            return Err(e);
                        },
                    }
                },
                Ok(None) => {
                    proof {
                        if obeys {
                            let q = after_skipped(self.config, cur);
                            assert(q.len() == 0);
                            assert(lines_ok(self.config, q));
                            assert(lines_ok(self.config, cur));
                            assert(lines_ok(old(self).config(), old(self).source().pending()));
                            assert(self.source().pending().len() == 0);
                            assert(yields(
                                old(self).config(),
                                old(self).line_number() as int,
                                old(self).source().pending(),
                                cs,
                                cur,
                            ) && after_skipped(old(self).config(), cur).len() == 0 && forall|i: int|
                                0 <= i < cs.len() ==> call_ensures(handler, (#[trigger] cs[i],), Ok::<bool, E>(true)));
                        }
                    }
                    return Ok(true);
                },
                Err(e) => {
                    return Err(E::from(e));
                },
            }
        }
    }

    /// The number of the next physical line to read.
    pub fn current_line(&self) -> (res: usize)
        ensures
            res == self.line_number(),
    {
        self.input.line_number
    }
}

impl<T: TextInputSource> AsRef<T> for Parser<T> {
    /// The source this parser reads.
    fn as_ref(&self) -> (r: &T)
        ensures
            *r == self.source(),
    {
        &self.input.source
    }
}

impl<T: TextInputSource> AsMut<T> for Parser<T> {
    /// The source this parser reads, to change it.
    fn as_mut(&mut self) -> (r: &mut T)
        ensures
            *r == old(self).source(),
            final(self).source() == *final(r),
            final(self).config() == old(self).config(),
            final(self).line_number() == old(self).line_number(),
    {
        &mut self.input.source
    }
}

} // verus!
