//! Error types for KoiLang parsing.
//!
//! A [`ParseError`] combines what went wrong ([`ErrorInfo`]) with an optional
//! traceback of parsing contexts and optional information on the source line
//! (file name, line number and text). Positions count the bytes of the
//! UTF-8 encoding, from 1; the marker under the source line counts characters.

use vstd::prelude::*;
use crate::text::{
    byte_len, byte_pos, char_width_exec, chars_to_string, lemma_byte_len_bounds,
    lemma_byte_pos_bounds, lemma_byte_pos_step, nat_digits, push_chars, push_repeat, push_str,
    str_to_chars, usize_decimal,
};
use crate::parser::traceback::{TracebackEntry, tree_text, line_col, context_name};
use crate::parser::command_parser::Ctx;

verus! {

#[verifier::external_type_specification]
#[verifier::external_body]
pub struct ExIoError(std::io::Error);

/// Result type for parsing operations.
pub type ParseResult<T> = Result<T, Box<ParseError>>;

/// What went wrong, without positional data.
#[derive(Debug)]
pub enum ErrorInfo {
    /// The input does not follow the syntax rules.
    SyntaxError {
        /// Error message describing the syntax issue
        message: String,
    },
    /// The parser stopped before the end of the input.
    UnexpectedInput {
        /// Remaining unparsed input
        remaining: String,
    },
    /// The input ended before the expected structure was complete.
    UnexpectedEof {
        /// What was expected when the input ended
        expected: String,
    },
    /// Reading the input failed.
    IoError {
        /// The underlying IO error
        error: std::io::Error,
    },
}

/// Information about the source of a parsed line.
#[derive(Debug)]
pub struct ParserLineSource {
    /// Source name (e.g. a file path)
    pub filename: String,
    /// Line number in the source, starting from 1
    pub lineno: usize,
    /// The text of the line
    pub text: String,
}

/// A parsing error with its traceback and source location.
#[derive(Debug)]
pub struct ParseError {
    /// What went wrong
    pub error_info: ErrorInfo,
    /// Optional traceback of the parsing contexts
    pub traceback: Option<TracebackEntry>,
    /// Optional source information (file name, line number, text)
    pub source: Option<ParserLineSource>,
}

/// `x` as a `usize`, capped at `usize::MAX`.
pub open spec fn cap(x: int) -> usize {
    if x > usize::MAX {
        usize::MAX
    } else if x < 0 {
        0
    } else {
        x as usize
    }
}

/// The message of an error; `io_text` stands for the text of an IO error.
pub open spec fn message_text(info: ErrorInfo, io_text: Seq<char>) -> Seq<char> {
    match info {
        ErrorInfo::SyntaxError { message } => message@,
        ErrorInfo::UnexpectedInput { remaining } => seq![
            'U',
            'n',
            'e',
            'x',
            'p',
            'e',
            'c',
            't',
            'e',
            'd',
            ' ',
            'i',
            'n',
            'p',
            'u',
            't',
            ':',
            ' ',
            '\'',
        ] + remaining@ + seq!['\''],
        ErrorInfo::UnexpectedEof { expected } => unexpected_eof_prefix() + expected@,
        ErrorInfo::IoError { .. } => io_text,
    }
}

/// `Unexpected end of input, expected `.
pub open spec fn unexpected_eof_prefix() -> Seq<char> {
    seq![
        'U',
        'n',
        'e',
        'x',
        'p',
        'e',
        'c',
        't',
        'e',
        'd',
        ' ',
        'e',
        'n',
        'd',
        ' ',
        'o',
        'f',
        ' ',
        'i',
        'n',
        'p',
        'u',
        't',
        ',',
        ' ',
        'e',
        'x',
        'p',
        'e',
        'c',
        't',
        'e',
        'd',
        ' ',
    ]
}

/// The first line of the display of an error: its kind and message.
pub open spec fn kind_text(info: ErrorInfo, io_text: Seq<char>) -> Seq<char> {
    match info {
        ErrorInfo::SyntaxError { message } => "SyntaxError: "@ + message@,
        ErrorInfo::UnexpectedInput { remaining } => "UnexpectedInputError: '"@ + remaining@
            + seq!['\''],
        ErrorInfo::UnexpectedEof { expected } => "UnexpectedEofError: '"@ + expected@ + seq![
            '\'',
        ],
        ErrorInfo::IoError { .. } => "IOError: "@ + io_text,
    }
}

/// `n` spaces.
pub open spec fn spaces(n: nat) -> Seq<char> {
    Seq::new(n, |i: int| ' ')
}

/// `d` centred in a field of four characters (extra padding on the right).
pub open spec fn center4(d: Seq<char>) -> Seq<char> {
    if d.len() >= 4 {
        d
    } else {
        let pad = (4 - d.len()) as nat;
        spaces(pad / 2) + d + spaces((pad - pad / 2) as nat)
    }
}

/// The scan that places the error marker under the source text `t`: over
/// its characters from the `i`-th on, the start is the first index at or
/// after `a` (kept at 0 while it is 0) and the end the first index at or
/// after `b` (0 when none). The marker counts columns in characters.
pub open spec fn marker_scan(t: Seq<char>, a: int, b: int, i: int, cs: int) -> (int, int)
    decreases t.len() - i,
{
    if i < 0 || i >= t.len() {
        (cs, 0)
    } else {
        let cs2 = if i >= a && cs == 0 {
            i
        } else {
            cs
        };
        if i >= b {
            (cs2, i)
        } else {
            marker_scan(t, a, b, i + 1, cs2)
        }
    }
}

/// The start and end (in characters) of the marker under the source text
/// `t`, for the 1-based column range `(start, end)` counted in characters.
pub open spec fn marker_bounds(t: Seq<char>, start: int, end: int) -> (int, int) {
    let n = t.len() as int;
    let a = if start >= 1 {
        start - 1
    } else {
        0
    };
    let b = if end >= 1 {
        end - 1
    } else {
        0
    };
    let (cs, ce) = marker_scan(t, a, b, 0, 0);
    let ce2 = if ce == 0 || ce < cs {
        n
    } else {
        ce
    };
    (cs, ce2)
}

/// The location line of an error display:
/// `-->   file:line:column (line L, column C)`.
pub open spec fn location_head(src: ParserLineSource, tb: TracebackEntry) -> Seq<char> {
    "\n  -->   "@ + src.filename@ + seq![':'] + nat_digits(src.lineno as nat, 10) + seq![':']
        + nat_digits(tb.column_range.0 as nat, 10) + " (line "@ + nat_digits(src.lineno as nat, 10)
        + ", column "@ + nat_digits(tb.column_range.0 as nat, 10) + seq![')']
}

/// The source line of an error display, with its line number.
pub open spec fn location_source(src: ParserLineSource) -> Seq<char> {
    "\n    │"@ + seq!['\n'] + center4(nat_digits(src.lineno as nat, 10)) + "│    "@ + src.text@
}

/// The marker line of an error display: `^` under the columns of the error.
pub open spec fn location_marker(src: ParserLineSource, tb: TracebackEntry) -> Seq<char> {
    let (cs, ce) = marker_bounds(
        src.text@,
        tb.column_range.0 as int,
        tb.column_range.1 as int,
    );
    let width = if ce - cs > 1 {
        ce - cs
    } else {
        1
    };
    "\n    │"@ + spaces((cs + 4) as nat) + Seq::new(width as nat, |i: int| '^')
}

/// The source location block of the display of an error.
pub open spec fn location_text(src: ParserLineSource, tb: TracebackEntry) -> Seq<char> {
    location_head(src, tb) + location_source(src) + location_marker(src, tb)
}

/// The full display of an error; `io_text` stands for the text of an IO error.
pub open spec fn display_text(e: ParseError, io_text: Seq<char>) -> Seq<char> {
    kind_text(e.error_info, io_text) + (if e.source is Some && e.traceback is Some {
        location_text(e.source->0, e.traceback->0)
    } else {
        Seq::empty()
    }) + seq!['\n'] + (if e.traceback is Some && e.traceback->0.context@.len() > 0 {
        tree_text(e.traceback->0, "    "@, false)
    } else {
        Seq::empty()
    })
}

/// The text of an IO error (calls its `Display` implementation).
#[verifier::external_body]
fn io_error_text(error: &std::io::Error) -> String {
    error.to_string()
}

impl ParseError {
    /// A syntax error without position.
    pub fn syntax(message: String) -> (res: Box<Self>)
        ensures
            res.error_info matches ErrorInfo::SyntaxError { message: m } && m@ == message@,
            res.traceback is None,
            res.source is None,
    {
        Box::new(ParseError {
            error_info: ErrorInfo::SyntaxError { message },
            traceback: None,
            source: None,
        })
    }

    /// A syntax error at a line and column, with a context description.
    pub fn syntax_with_context(message: String, line: usize, column: usize, context: String) -> (res:
        Box<Self>)
        requires
            column < usize::MAX,
        ensures
            res.error_info matches ErrorInfo::SyntaxError { message: m } && m@ == message@,
            res.traceback matches Some(tb) && tb.lineno == line && tb.column_range == (
                column,
                (column + 1) as usize,
            ) && tb.context@ == context@ && tb.children@.len() == 0,
            res.source is None,
    {
        Box::new(ParseError {
            error_info: ErrorInfo::SyntaxError { message },
            traceback: Some(TracebackEntry::new(line, (column, column + 1), context)),
            source: None,
        })
    }

    /// An unexpected-input error: `remaining` is the unparsed end of `input`;
    /// the error starts at column `len(input) - len(remaining) + 1 + column_offset`
    /// and spans the remaining bytes (lengths in bytes).
    pub fn unexpected_input(remaining: String, line: usize, column_offset: usize, input: String) -> (res:
        Box<Self>)
        requires
            byte_len(remaining@) <= byte_len(input@),
            byte_len(input@) + 1 + column_offset <= usize::MAX,
        ensures
            res.error_info matches ErrorInfo::UnexpectedInput { remaining: r } && r@
                == remaining@,
            res.traceback matches Some(tb) && tb.lineno == line && tb.column_range == (
                (byte_len(input@) - byte_len(remaining@) + 1 + column_offset) as usize,
                (byte_len(input@) + 1 + column_offset) as usize,
            ) && tb.context@ == Seq::<char>::empty() && tb.children@.len() == 0,
            res.source is None,
    {
        let input_len = input.as_str().len();
        let rem_len = remaining.as_str().len();
        let column = input_len - rem_len + 1 + column_offset;
        let empty = str_to_string_empty();
        Box::new(ParseError {
            traceback: Some(TracebackEntry::new(line, (column, column + rem_len), empty)),
            error_info: ErrorInfo::UnexpectedInput { remaining },
            source: None,
        })
    }

    /// An unexpected end-of-input error at a column.
    pub fn unexpected_eof(expected: String, line: usize, column_offset: usize) -> (res: Box<Self>)
        ensures
            res.error_info matches ErrorInfo::UnexpectedEof { expected: x } && x@ == expected@,
            res.traceback matches Some(tb) && tb.lineno == line && tb.column_range == (
                column_offset,
                column_offset,
            ) && tb.context@ == Seq::<char>::empty() && tb.children@.len() == 0,
            res.source is None,
    {
        let empty = str_to_string_empty();
        Box::new(ParseError {
            error_info: ErrorInfo::UnexpectedEof { expected },
            traceback: Some(TracebackEntry::new(line, (column_offset, column_offset), empty)),
            source: None,
        })
    }

    /// A syntax error for a committed failure of grammar rule `ctx` at the
    /// `pos`-th character of the command text `original_input`, which
    /// starts on line `lineno` at column offset `column`; its traceback is
    /// [`TracebackEntry::build_error_trace`].
    pub fn from_failure(
        message: String,
        original_input: &str,
        lineno: usize,
        column: usize,
        pos: usize,
        ctx: Ctx,
    ) -> (res: Box<Self>)
        requires
            byte_len(original_input@) < usize::MAX,
            pos <= original_input@.len(),
        ensures
            res.error_info matches ErrorInfo::SyntaxError { message: m } && m@ == message@,
            res.traceback matches Some(tb) && tb.lineno == cap(
                lineno + line_col(original_input@, byte_pos(original_input@, pos as int) as int).0
                    - 1,
            ) && tb.column_range == (
                cap(
                    line_col(original_input@, byte_pos(original_input@, pos as int) as int).1
                        + column,
                ),
                cap(
                    line_col(original_input@, byte_pos(original_input@, pos as int) as int).1 + (
                    byte_len(original_input@) - byte_pos(original_input@, pos as int)) + column,
                ),
            ) && tb.context@ == context_name(ctx) && tb.children@.len() == 0,
            res.source is None,
    {
        let traceback = TracebackEntry::build_error_trace(original_input, lineno, column, pos, ctx);
        Box::new(ParseError {
            error_info: ErrorInfo::SyntaxError { message },
            traceback: Some(traceback),
            source: None,
        })
    }

    /// An IO error.
    pub fn io(error: std::io::Error) -> (res: Box<Self>)
        ensures
            res.error_info matches ErrorInfo::IoError { error: e } && e == error,
            res.traceback is None,
            res.source is None,
    {
        Box::new(ParseError { error_info: ErrorInfo::IoError { error }, traceback: None, source: None })
    }

    /// Attach source information (source name, line number and line text).
    pub fn with_source(self: Box<Self>, filename: String, lineno: usize, text: String) -> (res:
        Box<Self>)
        ensures
            res.error_info == self.error_info,
            res.traceback == self.traceback,
            res.source matches Some(src) && src.filename@ == filename@ && src.lineno == lineno
                && src.text@ == text@,
    {
        let mut e = self;
        e.source = Some(ParserLineSource { filename, lineno, text });
        e
    }

    /// The (line, column) of this error, when it has a traceback.
    pub fn position(&self) -> (res: Option<(usize, usize)>)
        ensures
            match self.traceback {
                Some(tb) => res == Some((tb.lineno, tb.column_range.0)),
                None => res is None,
            },
    {
        match &self.traceback {
            Some(tb) => Some((tb.lineno, tb.column_range.0)),
            None => None,
        }
    }

    /// The line number of this error, when it has a traceback.
    pub fn line(&self) -> (res: Option<usize>)
        ensures
            match self.traceback {
                Some(tb) => res == Some(tb.lineno),
                None => res is None,
            },
    {
        match &self.traceback {
            Some(tb) => Some(tb.lineno),
            None => None,
        }
    }

    /// The error message: the message of a syntax error,
    /// `Unexpected input: '<remaining>'`, `Unexpected end of input, expected
    /// <expected>`, or the text of an IO error.
    pub fn message(&self) -> (res: String)
        ensures
            !(self.error_info is IoError) ==> res@ == message_text(self.error_info, Seq::empty()),
    {
        match &self.error_info {
            ErrorInfo::SyntaxError { message } => message.clone(),
            ErrorInfo::UnexpectedInput { remaining } => {
                let mut out: Vec<char> = Vec::new();
                push_str(&mut out, "Unexpected input: '");
                push_str(&mut out, remaining.as_str());
                out.push('\'');
                proof {
                    reveal_strlit("Unexpected input: '");
                }
                assert(out@ =~= message_text(self.error_info, Seq::empty()));
                chars_to_string(&out)
            },
            ErrorInfo::UnexpectedEof { expected } => {
                let mut out: Vec<char> = Vec::new();
                push_str(&mut out, "Unexpected end of input, expected ");
                push_str(&mut out, expected.as_str());
                proof {
                    reveal_strlit("Unexpected end of input, expected ");
                }
                assert(out@ =~= message_text(self.error_info, Seq::empty()));
                chars_to_string(&out)
            },
            ErrorInfo::IoError { error } => io_error_text(error),
        }
    }

    /// The display of this error: its kind and message; then, when both the
    /// source and the traceback are known, the location `file:line:column`,
    /// the source line, and a marker under the columns of the error; then the
    /// traceback tree when it has a context.
    pub fn to_string(&self) -> (res: String)
        ensures
            !(self.error_info is IoError) ==> res@ == display_text(*self, Seq::empty()),
            self.error_info is IoError ==> exists|t: Seq<char>| res@ == display_text(*self, t),
    {
        let mut out: Vec<char> = Vec::new();
        let ghost mut io_text: Seq<char> = Seq::empty();
        match &self.error_info {
            ErrorInfo::SyntaxError { message } => {
                push_str(&mut out, "SyntaxError: ");
                push_str(&mut out, message.as_str());
            },
            ErrorInfo::UnexpectedInput { remaining } => {
                push_str(&mut out, "UnexpectedInputError: '");
                push_str(&mut out, remaining.as_str());
                out.push('\'');
            },
            ErrorInfo::UnexpectedEof { expected } => {
                push_str(&mut out, "UnexpectedEofError: '");
                push_str(&mut out, expected.as_str());
                out.push('\'');
            },
            ErrorInfo::IoError { error } => {
                push_str(&mut out, "IOError: ");
                let t = io_error_text(error);
                proof {
                    io_text = t@;
                }
                push_str(&mut out, t.as_str());
            },
        }
        assert(out@ =~= kind_text(self.error_info, io_text));
        let ghost k = out@;
        if let (Some(src), Some(tb)) = (&self.source, &self.traceback) {
            push_location(&mut out, src, tb);
        }
        let ghost loc = if self.source is Some && self.traceback is Some {
            location_text(self.source->0, self.traceback->0)
        } else {
            Seq::<char>::empty()
        };
        assert(out@ =~= k + loc);
        out.push('\n');
        let ghost l = out@;
        if let Some(tb) = &self.traceback {
            if !tb.context.as_str().is_empty() {
                let pre = str_to_chars("    ");
                tb.push_tree(&mut out, &pre, false);
            }
        }
        let ghost tr = if self.traceback is Some && self.traceback->0.context@.len() > 0 {
            tree_text(self.traceback->0, "    "@, false)
        } else {
            Seq::<char>::empty()
        };
        assert(out@ =~= l + tr);
        proof {
            assert(out@ =~= display_text(*self, io_text));
        }
        chars_to_string(&out)
    }
}

/// Computes [`marker_bounds`].
fn marker(t: &Vec<char>, start: usize, end: usize) -> (r: (usize, usize))
    ensures
        r.0 as int == marker_bounds(t@, start as int, end as int).0,
        r.1 as int == marker_bounds(t@, start as int, end as int).1,
        r.0 <= r.1 <= t@.len() || (t@.len() == 0 && r == (0usize, 0usize)),
{
    let n = t.len();
    let a = start.saturating_sub(1);
    let b = end.saturating_sub(1);
    let mut cs: usize = 0;
    let mut i: usize = 0;
    let ghost full = marker_scan(t@, a as int, b as int, 0, 0);
    assert(a as int == (if start >= 1 {
        start - 1
    } else {
        0
    }));
    assert(b as int == (if end >= 1 {
        end - 1
    } else {
        0
    }));
    while i < n
        invariant
            0 <= i <= n,
            n == t@.len(),
            cs <= i,
            cs == 0 || cs < i,
            full == marker_scan(t@, a as int, b as int, i as int, cs as int),
            full == marker_scan(t@, a as int, b as int, 0, 0),
            a as int == (if start >= 1 {
                start - 1
            } else {
                0
            }),
            b as int == (if end >= 1 {
                end - 1
            } else {
                0
            }),
        decreases n - i,
    {
        let ghost cs0 = cs;
        if i >= a && cs == 0 {
            cs = i;
        }
        assert(marker_scan(t@, a as int, b as int, i as int, cs0 as int) == (if i >= b {
            (cs as int, i as int)
        } else {
            marker_scan(t@, a as int, b as int, i as int + 1, cs as int)
        }));
        if i >= b {
            let ce = if i == 0 || i < cs {
                n
            } else {
                i
            };
            return (cs, ce);
        }
        i = i + 1;
    }
    (cs, n)
}

/// Appends `d` centred in a field of four characters.
fn push_center4(out: &mut Vec<char>, d: &Vec<char>)
    ensures
        final(out)@ == old(out)@ + center4(d@),
{
    if d.len() >= 4 {
        push_chars(out, d);
    } else {
        let pad = 4 - d.len();
        push_repeat(out, ' ', pad / 2);
        push_chars(out, d);
        push_repeat(out, ' ', pad - pad / 2);
        assert(out@ =~= old(out)@ + center4(d@));
    }
}

/// Appends the source location block of an error display.
fn push_location(out: &mut Vec<char>, src: &ParserLineSource, tb: &TracebackEntry)
    ensures
        final(out)@ == old(out)@ + location_text(*src, *tb),
{
    let ghost o = out@;
    let ln = usize_decimal(src.lineno);
    push_str(out, "\n  -->   ");
    push_str(out, src.filename.as_str());
    out.push(':');
    push_chars(out, &ln);
    out.push(':');
    let st = usize_decimal(tb.column_range.0);
    push_chars(out, &st);
    push_str(out, " (line ");
    push_chars(out, &ln);
    push_str(out, ", column ");
    push_chars(out, &st);
    out.push(')');
    assert(out@ =~= o + location_head(*src, *tb));
    let ghost o2 = out@;
    let text = str_to_chars(src.text.as_str());
    push_str(out, "\n    │");
    out.push('\n');
    push_center4(out, &ln);
    push_str(out, "│    ");
    push_chars(out, &text);
    assert(out@ =~= o2 + location_source(*src));
    let ghost o3 = out@;
    let (cs, ce) = marker(&text, tb.column_range.0, tb.column_range.1);
    let width = if ce - cs > 1 {
        ce - cs
    } else {
        1
    };
    push_str(out, "\n    │");
    push_repeat(out, ' ', 4);
    push_repeat(out, ' ', cs);
    assert(spaces(4) + spaces(cs as nat) =~= spaces((cs + 4) as nat));
    push_repeat(out, '^', width);
    assert(out@ =~= o3 + location_marker(*src, *tb));
    assert(out@ =~= o + location_text(*src, *tb));
}

/// An empty `String`.
fn str_to_string_empty() -> (res: String)
    ensures
        res@ == Seq::<char>::empty(),
{
    String::new()
}

} // verus!
