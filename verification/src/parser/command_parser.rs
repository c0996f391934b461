//! The KoiLang command-line grammar.
//!
//! ```text
//! command    := name (ws1 parameter)*
//! name       := identifier | decimal
//! parameter  := identifier '(' ws (dict | list) ws ')' | basic
//! dict       := entry (ws ',' entry)*        entry := ws identifier ws ':' ws basic
//! list       := ws basic (ws ',' ws basic)*
//! basic      := string | float | integer | identifier
//! integer    := '0x' hex+ | '0b' bin+ | '0o' oct+ | '-'? digit+
//! float      := '-'? (digit+ '.' digit* exp? | '.' digit+ exp? | digit+ exp)
//! ws         := (space | '\' newline)*
//! ```
//!
//! An identifier that is exactly `true` or `false` is a boolean; any other
//! identifier used as a value is a string. After `(` of a composite parameter,
//! after a `,` in a list, after `:` in a dictionary, after the name and after
//! the whitespace that precedes a parameter, the parse is committed: a failure
//! there fails the whole command (a *cut*), while a failure elsewhere lets an
//! alternative be tried (a *miss*).
//!
//! The specification functions below define the grammar over a sequence of
//! characters; the executable functions are proved to compute exactly them.

use vstd::prelude::*;
use crate::text::{
    digits_value, int_decimal, is_bin_digit, is_dec_digit, is_hex_digit, is_ident_char,
    is_ident_start, is_oct_digit, is_space, lemma_digits_value_mono, lemma_digits_value_nonneg,
    chars_to_string, i64_decimal, str_to_chars,
};
use crate::command::{
    CommandModel, CompositeModel, ParamModel, ValueModel, Value, CompositeValue, Parameter,
    Command, true_text, false_text, values_model, entries_model, params_model,
};

verus! {

/// Where a committed parse failed.
#[derive(Debug, Clone, Copy, PartialEq, Eq, Structural)]
pub enum Ctx {
    /// The command name is neither an identifier nor a decimal number.
    CommandName,
    /// A parameter was expected after whitespace.
    Parameter,
    /// A value was expected inside a composite parameter.
    CompositeValue,
    /// The closing `)` of a composite parameter was expected.
    CompositeEnd,
}

/// The outcome of a grammar rule in the specification: success with the
/// position after the match, a recoverable miss, or a committed failure at a
/// position.
pub enum Scan<T> {
    Done(T, int),
    Miss,
    Cut(int, Ctx),
}

/// The outcome of an executable grammar rule.
pub enum Step<T> {
    Done(T, usize),
    Miss,
    Cut(usize, Ctx),
}

/// An executable outcome agrees with a specified one under the model map `f`.
pub open spec fn agrees<T, M>(r: Step<T>, m: Scan<M>, f: spec_fn(T) -> M) -> bool {
    match m {
        Scan::Done(v, e) => r matches Step::Done(rv, re) && f(rv) == v && re as int == e,
        Scan::Miss => r is Miss,
        Scan::Cut(p, c) => r matches Step::Cut(rp, rc) && rp as int == p && rc == c,
    }
}

/// Prepends `acc` to the items of a successful list outcome.
pub open spec fn scan_prepend<T>(acc: Seq<T>, r: Scan<Seq<T>>) -> Scan<Seq<T>> {
    match r {
        Scan::Done(t, e) => Scan::Done(acc + t, e),
        Scan::Miss => Scan::Miss,
        Scan::Cut(p, c) => Scan::Cut(p, c),
    }
}

/// The input is short enough that positions a few characters past its end
/// still fit in `usize`.
pub open spec fn bounded(s: Seq<char>) -> bool {
    s.len() + 16 <= usize::MAX
}

/// Whether position `i` of `s` holds `c`.
pub open spec fn at(s: Seq<char>, i: int, c: char) -> bool {
    0 <= i < s.len() && s[i] == c
}

/// The end of the whitespace (spaces, tabs, line breaks, and backslash-newline
/// continuations) starting at `i`.
pub open spec fn ws_end(s: Seq<char>, i: int) -> int
    decreases s.len() - i,
{
    if 0 <= i < s.len() && is_space(s[i]) {
        ws_end(s, i + 1)
    } else if 0 <= i && i + 1 < s.len() && s[i] == '\\' && s[i + 1] == '\n' {
        ws_end(s, i + 2)
    } else {
        i
    }
}

/// Character classes scanned as runs.
#[derive(Debug, Clone, Copy, PartialEq, Eq, Structural)]
pub enum Class {
    Dec,
    Hex,
    Oct,
    Bin,
    Ident,
}

pub open spec fn in_class(c: char, cl: Class) -> bool {
    match cl {
        Class::Dec => is_dec_digit(c),
        Class::Hex => is_hex_digit(c),
        Class::Oct => is_oct_digit(c),
        Class::Bin => is_bin_digit(c),
        Class::Ident => is_ident_char(c),
    }
}

/// The end of the run of characters of class `cl` starting at `i`.
pub open spec fn run_end(s: Seq<char>, i: int, cl: Class) -> int
    decreases s.len() - i,
{
    if 0 <= i < s.len() && in_class(s[i], cl) {
        run_end(s, i + 1, cl)
    } else {
        i
    }
}

/// The end of the identifier starting at `i`, if one starts there.
pub open spec fn ident_end(s: Seq<char>, i: int) -> Option<int> {
    if 0 <= i < s.len() && is_ident_start(s[i]) {
        Some(run_end(s, i + 1, Class::Ident))
    } else {
        None
    }
}

/// A decimal integer, optionally negative, that fits in 64 bits.
pub open spec fn dec_int(s: Seq<char>, i: int) -> Option<(i64, int)> {
    let st = if at(s, i, '-') {
        i + 1
    } else {
        i
    };
    let e = run_end(s, st, Class::Dec);
    let m = digits_value(s, st, e, 10);
    let v = if at(s, i, '-') {
        -m
    } else {
        m
    };
    if e == st || !(i64::MIN <= v <= i64::MAX) {
        None
    } else {
        Some((v as i64, e))
    }
}

/// An integer written `0<letter><digits>` in the given base, at most `i64::MAX`.
pub open spec fn radix_int(s: Seq<char>, i: int, letter: char, cl: Class, base: int) -> Option<
    (i64, int),
> {
    if at(s, i, '0') && at(s, i + 1, letter) {
        let e = run_end(s, i + 2, cl);
        let v = digits_value(s, i + 2, e, base);
        if e == i + 2 || v > i64::MAX {
            None
        } else {
            Some((v as i64, e))
        }
    } else {
        None
    }
}

/// An integer: hexadecimal, binary, octal or decimal, tried in that order.
pub open spec fn integer(s: Seq<char>, i: int) -> Option<(i64, int)> {
    match radix_int(s, i, 'x', Class::Hex, 16) {
        Some(r) => Some(r),
        None => match radix_int(s, i, 'b', Class::Bin, 2) {
            Some(r) => Some(r),
            None => match radix_int(s, i, 'o', Class::Oct, 8) {
                Some(r) => Some(r),
                None => dec_int(s, i),
            },
        },
    }
}

/// The end of an exponent (`e` or `E`, optional sign, digits) at `q`.
pub open spec fn exponent(s: Seq<char>, q: int) -> Option<int> {
    if at(s, q, 'e') || at(s, q, 'E') {
        let r = if at(s, q + 1, '+') || at(s, q + 1, '-') {
            q + 2
        } else {
            q + 1
        };
        let t = run_end(s, r, Class::Dec);
        if t > r {
            Some(t)
        } else {
            None
        }
    } else {
        None
    }
}

/// `q` extended over an exponent when one follows.
pub open spec fn opt_exponent(s: Seq<char>, q: int) -> int {
    match exponent(s, q) {
        Some(t) => t,
        None => q,
    }
}

/// The end of a floating-point literal at `i`.
pub open spec fn float_end(s: Seq<char>, i: int) -> Option<int> {
    let p = if at(s, i, '-') {
        i + 1
    } else {
        i
    };
    let d = run_end(s, p, Class::Dec);
    if d > p && at(s, d, '.') {
        Some(opt_exponent(s, run_end(s, d + 1, Class::Dec)))
    } else if at(s, p, '.') && run_end(s, p + 1, Class::Dec) > p + 1 {
        Some(opt_exponent(s, run_end(s, p + 1, Class::Dec)))
    } else if d > p && exponent(s, d) is Some {
        exponent(s, d)
    } else {
        None
    }
}

/// A valid Unicode scalar value.
pub open spec fn valid_code(c: int) -> bool {
    0 <= c <= 0x10FFFF && !(0xD800 <= c <= 0xDFFF)
}

/// The escape sequence after a backslash, at `q`: the character it denotes
/// and the number of characters it spans.
pub open spec fn escape(s: Seq<char>, q: int) -> Option<(char, int)> {
    if !(0 <= q < s.len()) {
        None
    } else {
        let c = s[q];
        if c == 'n' {
            Some(('\n', 1))
        } else if c == 'r' {
            Some(('\r', 1))
        } else if c == 't' {
            Some(('\t', 1))
        } else if c == 'v' {
            Some(('\x0B', 1))
        } else if c == 'a' {
            Some(('\x07', 1))
        } else if c == 'b' {
            Some(('\x08', 1))
        } else if c == 'f' {
            Some(('\x0C', 1))
        } else if c == '\\' {
            Some(('\\', 1))
        } else if c == '"' {
            Some(('"', 1))
        } else if c == '\'' {
            Some(('\'', 1))
        } else if c == 'x' {
            if run_end(s, q + 1, Class::Hex) >= q + 3 {
                Some((digits_value(s, q + 1, q + 3, 16) as char, 3))
            } else {
                None
            }
        } else if c == 'u' {
            let v = digits_value(s, q + 1, q + 5, 16);
            if run_end(s, q + 1, Class::Hex) >= q + 5 && valid_code(v) {
                Some((v as char, 5))
            } else {
                None
            }
        } else if c == 'U' {
            let v = digits_value(s, q + 1, q + 9, 16);
            if run_end(s, q + 1, Class::Hex) >= q + 9 && valid_code(v) {
                Some((v as char, 9))
            } else {
                None
            }
        } else if is_oct_digit(c) {
            let e = run_end(s, q, Class::Oct);
            let n = if e - q > 3 {
                3
            } else {
                e - q
            };
            Some((digits_value(s, q, q + n, 8) as char, n))
        } else {
            None
        }
    }
}

/// Adds `acc` in front of the text of a successful string-body outcome.
pub open spec fn text_prepend(acc: Seq<char>, r: Option<(Seq<char>, int)>) -> Option<
    (Seq<char>, int),
> {
    match r {
        Some((t, e)) => Some((acc + t, e)),
        None => None,
    }
}

/// The contents of a quoted string from `p` (after the opening quote): the
/// decoded text and the position after the closing quote.
pub open spec fn str_body(s: Seq<char>, p: int) -> Option<(Seq<char>, int)>
    decreases s.len() - p,
{
    if !(0 <= p < s.len()) {
        None
    } else if s[p] == '"' {
        Some((Seq::empty(), p + 1))
    } else if s[p] == '\\' {
        if p + 1 < s.len() && s[p + 1] == '\n' {
            str_body(s, p + 2)
        } else {
            match escape(s, p + 1) {
                Some((c, n)) => if n >= 1 && p + 1 + n <= s.len() {
                    text_prepend(seq![c], str_body(s, p + 1 + n))
                } else {
                    None
                },
                None => None,
            }
        }
    } else {
        text_prepend(seq![s[p]], str_body(s, p + 1))
    }
}

/// A basic value at `i`: a string, a float, an integer or an identifier.
pub open spec fn basic(s: Seq<char>, i: int) -> Option<(ValueModel, int)> {
    if at(s, i, '"') {
        match str_body(s, i + 1) {
            Some((t, e)) => Some((ValueModel::Str(t), e)),
            None => None,
        }
    } else if float_end(s, i) is Some {
        Some((ValueModel::Float(s.subrange(i, float_end(s, i)->0)), float_end(s, i)->0))
    } else if integer(s, i) is Some {
        Some((ValueModel::Int((integer(s, i)->0).0), (integer(s, i)->0).1))
    } else if ident_end(s, i) is Some {
        let e = ident_end(s, i)->0;
        let t = s.subrange(i, e);
        if t == true_text() {
            Some((ValueModel::Bool(true), e))
        } else if t == false_text() {
            Some((ValueModel::Bool(false), e))
        } else {
            Some((ValueModel::Str(t), e))
        }
    } else {
        None
    }
}

/// The remaining list items after the item ending at `e`.
pub open spec fn list_tail(s: Seq<char>, e: int) -> Scan<Seq<ValueModel>>
    decreases s.len() - e,
{
    let w = ws_end(s, e);
    if at(s, w, ',') {
        let q = ws_end(s, w + 1);
        match basic(s, q) {
            None => Scan::Cut(q, Ctx::CompositeValue),
            Some((v, e2)) => if e < e2 <= s.len() {
                scan_prepend(seq![v], list_tail(s, e2))
            } else {
                Scan::Miss
            },
        }
    } else {
        Scan::Done(Seq::empty(), e)
    }
}

/// A comma-separated list of at least one value, starting at `p`.
pub open spec fn list(s: Seq<char>, p: int) -> Scan<Seq<ValueModel>> {
    let q = ws_end(s, p);
    match basic(s, q) {
        None => Scan::Cut(q, Ctx::CompositeValue),
        Some((v, e)) => scan_prepend(seq![v], list_tail(s, e)),
    }
}

/// One `key: value` dictionary entry, starting at `p`.
pub open spec fn dict_entry(s: Seq<char>, p: int) -> Scan<(Seq<char>, ValueModel)> {
    let q = ws_end(s, p);
    match ident_end(s, q) {
        None => Scan::Miss,
        Some(k) => {
            let w = ws_end(s, k);
            if at(s, w, ':') {
                let vq = ws_end(s, w + 1);
                match basic(s, vq) {
                    None => Scan::Cut(vq, Ctx::CompositeValue),
                    Some((v, e)) => Scan::Done((s.subrange(q, k), v), e),
                }
            } else {
                Scan::Miss
            }
        },
    }
}

/// The remaining dictionary entries after the entry ending at `e`.
pub open spec fn dict_tail(s: Seq<char>, e: int) -> Scan<Seq<(Seq<char>, ValueModel)>>
    decreases s.len() - e,
{
    let w = ws_end(s, e);
    if at(s, w, ',') {
        match dict_entry(s, w + 1) {
            Scan::Miss => Scan::Done(Seq::empty(), e),
            Scan::Cut(a, b) => Scan::Cut(a, b),
            Scan::Done(kv, e2) => if e < e2 <= s.len() {
                scan_prepend(seq![kv], dict_tail(s, e2))
            } else {
                Scan::Miss
            },
        }
    } else {
        Scan::Done(Seq::empty(), e)
    }
}

/// A comma-separated dictionary of at least one entry, starting at `p`.
pub open spec fn dict(s: Seq<char>, p: int) -> Scan<Seq<(Seq<char>, ValueModel)>> {
    match dict_entry(s, p) {
        Scan::Miss => Scan::Miss,
        Scan::Cut(a, b) => Scan::Cut(a, b),
        Scan::Done(kv, e) => scan_prepend(seq![kv], dict_tail(s, e)),
    }
}

/// The contents of a composite parameter, starting after `(` and whitespace:
/// a dictionary when one starts there, a list otherwise. A one-item list is a
/// single value.
pub open spec fn composite_body(s: Seq<char>, p: int) -> Scan<CompositeModel> {
    match dict(s, p) {
        Scan::Done(d, r) => Scan::Done(CompositeModel::Dict(d), r),
        Scan::Cut(a, b) => Scan::Cut(a, b),
        Scan::Miss => match list(s, p) {
            Scan::Done(vs, r) => Scan::Done(
                if vs.len() == 1 {
                    CompositeModel::Single(vs[0])
                } else {
                    CompositeModel::List(vs)
                },
                r,
            ),
            Scan::Cut(a, b) => Scan::Cut(a, b),
            Scan::Miss => Scan::Miss,
        },
    }
}

/// A composite parameter `name(...)` at `i`.
pub open spec fn composite(s: Seq<char>, i: int) -> Scan<ParamModel> {
    match ident_end(s, i) {
        None => Scan::Miss,
        Some(n) => if at(s, n, '(') {
            match composite_body(s, ws_end(s, n + 1)) {
                Scan::Done(cv, r) => {
                    let c = ws_end(s, r);
                    if at(s, c, ')') {
                        Scan::Done(ParamModel::Composite(s.subrange(i, n), cv), c + 1)
                    } else {
                        Scan::Cut(c, Ctx::CompositeEnd)
                    }
                },
                Scan::Cut(a, b) => Scan::Cut(a, b),
                Scan::Miss => Scan::Miss,
            }
        } else {
            Scan::Miss
        },
    }
}

/// A parameter at `i`: composite when one starts there, basic otherwise.
pub open spec fn param(s: Seq<char>, i: int) -> Scan<ParamModel> {
    match composite(s, i) {
        Scan::Done(p, e) => Scan::Done(p, e),
        Scan::Cut(a, b) => Scan::Cut(a, b),
        Scan::Miss => match basic(s, i) {
            Some((v, e)) => Scan::Done(ParamModel::Basic(v), e),
            None => Scan::Miss,
        },
    }
}

/// The parameters after position `p`, each preceded by whitespace. They end
/// before whitespace that no parameter follows; a parameter that fails
/// after it has begun is a committed failure.
pub open spec fn params_tail(s: Seq<char>, p: int) -> Scan<Seq<ParamModel>>
    decreases s.len() - p,
{
    let w = ws_end(s, p);
    if w <= p {
        Scan::Done(Seq::empty(), p)
    } else {
        match param(s, w) {
            Scan::Done(prm, e) => if p < e <= s.len() {
                scan_prepend(seq![prm], params_tail(s, e))
            } else {
                Scan::Miss
            },
            Scan::Miss => Scan::Done(Seq::empty(), p),
            Scan::Cut(a, b) => Scan::Cut(a, b),
        }
    }
}

/// The command name at the start: an identifier, or a decimal number shown
/// in its canonical decimal form together with its value.
pub open spec fn name(s: Seq<char>) -> Option<(Seq<char>, Option<i64>, int)> {
    match ident_end(s, 0) {
        Some(e) => Some((s.subrange(0, e), None, e)),
        None => match dec_int(s, 0) {
            Some((n, e)) => Some((int_decimal(n as int), Some(n), e)),
            None => None,
        },
    }
}

/// A command line: the command, the value of its name when the name is a
/// number, and the position where the match ended.
pub open spec fn command_line(s: Seq<char>) -> Scan<(CommandModel, Option<i64>)> {
    match name(s) {
        None => Scan::Cut(0, Ctx::CommandName),
        Some((nm, num, e)) => match params_tail(s, e) {
            Scan::Done(ps, end) => Scan::Done((CommandModel { name: nm, params: ps }, num), end),
            Scan::Cut(a, b) => Scan::Cut(a, b),
            Scan::Miss => Scan::Miss,
        },
    }
}

} // verus!

verus! {

// ----- Facts about the specification -----

pub proof fn lemma_ws_end_bounds(s: Seq<char>, i: int)
    requires
        0 <= i <= s.len(),
    ensures
        i <= ws_end(s, i) <= s.len(),
    decreases s.len() - i,
{
    if 0 <= i < s.len() && is_space(s[i]) {
        lemma_ws_end_bounds(s, i + 1);
    } else if 0 <= i && i + 1 < s.len() && s[i] == '\\' && s[i + 1] == '\n' {
        lemma_ws_end_bounds(s, i + 2);
    }
}

pub proof fn lemma_run_end_bounds(s: Seq<char>, i: int, cl: Class)
    requires
        0 <= i <= s.len(),
    ensures
        i <= run_end(s, i, cl) <= s.len(),
        forall|k: int| i <= k < run_end(s, i, cl) ==> in_class(#[trigger] s[k], cl),
        run_end(s, i, cl) < s.len() ==> !in_class(s[run_end(s, i, cl)], cl),
    decreases s.len() - i,
{
    if 0 <= i < s.len() && in_class(s[i], cl) {
        lemma_run_end_bounds(s, i + 1, cl);
    }
}

pub proof fn lemma_str_body_bounds(s: Seq<char>, p: int)
    requires
        0 <= p,
    ensures
        str_body(s, p) matches Some((t, e)) ==> p < e <= s.len(),
    decreases s.len() - p,
{
    if !(0 <= p < s.len()) {
    } else if s[p] == '"' {
    } else if s[p] == '\\' {
        if p + 1 < s.len() && s[p + 1] == '\n' {
            lemma_str_body_bounds(s, p + 2);
        } else {
            match escape(s, p + 1) {
                Some((c, n)) => {
                    if n >= 1 && p + 1 + n <= s.len() {
                        lemma_str_body_bounds(s, p + 1 + n);
                    }
                },
                None => {},
            }
        }
    } else {
        lemma_str_body_bounds(s, p + 1);
    }
}

pub proof fn lemma_integer_bounds(s: Seq<char>, i: int)
    requires
        0 <= i <= s.len(),
    ensures
        integer(s, i) matches Some((v, e)) ==> i < e <= s.len(),
{
    if at(s, i, '0') && i + 2 <= s.len() {
        lemma_run_end_bounds(s, i + 2, Class::Hex);
        lemma_run_end_bounds(s, i + 2, Class::Bin);
        lemma_run_end_bounds(s, i + 2, Class::Oct);
    }
    let st = if at(s, i, '-') {
        i + 1
    } else {
        i
    };
    lemma_run_end_bounds(s, st, Class::Dec);
}

pub proof fn lemma_float_bounds(s: Seq<char>, i: int)
    requires
        0 <= i <= s.len(),
    ensures
        float_end(s, i) matches Some(e) ==> i < e <= s.len(),
{
    let p = if at(s, i, '-') {
        i + 1
    } else {
        i
    };
    lemma_run_end_bounds(s, p, Class::Dec);
    let d = run_end(s, p, Class::Dec);
    if d < s.len() {
        lemma_run_end_bounds(s, d + 1, Class::Dec);
        let q = run_end(s, d + 1, Class::Dec);
        lemma_exponent_bounds(s, q);
        lemma_exponent_bounds(s, d);
    }
    if p < s.len() {
        lemma_run_end_bounds(s, p + 1, Class::Dec);
        lemma_exponent_bounds(s, run_end(s, p + 1, Class::Dec));
    }
    lemma_exponent_bounds(s, d);
}

pub proof fn lemma_exponent_bounds(s: Seq<char>, q: int)
    requires
        0 <= q <= s.len(),
    ensures
        exponent(s, q) matches Some(t) ==> q < t <= s.len(),
        q <= opt_exponent(s, q) <= s.len(),
{
    if at(s, q, 'e') || at(s, q, 'E') {
        let r = if at(s, q + 1, '+') || at(s, q + 1, '-') {
            q + 2
        } else {
            q + 1
        };
        lemma_run_end_bounds(s, r, Class::Dec);
    }
}

pub proof fn lemma_basic_bounds(s: Seq<char>, i: int)
    requires
        0 <= i <= s.len(),
    ensures
        basic(s, i) matches Some((v, e)) ==> i < e <= s.len(),
{
    lemma_str_body_bounds(s, i + 1);
    lemma_float_bounds(s, i);
    lemma_integer_bounds(s, i);
    if i < s.len() {
        lemma_run_end_bounds(s, i + 1, Class::Ident);
    }
}

} // verus!

verus! {

// ----- Executable scanners -----

/// Whether `c` belongs to class `cl`.
pub fn char_in_class(c: char, cl: Class) -> (r: bool)
    ensures
        r == in_class(c, cl),
{
    match cl {
        Class::Dec => '0' <= c && c <= '9',
        Class::Hex => ('0' <= c && c <= '9') || ('a' <= c && c <= 'f') || ('A' <= c && c <= 'F'),
        Class::Oct => '0' <= c && c <= '7',
        Class::Bin => c == '0' || c == '1',
        Class::Ident => ('a' <= c && c <= 'z') || ('A' <= c && c <= 'Z') || ('0' <= c && c <= '9')
            || c == '_',
    }
}

/// Whether position `i` of `s` holds `c`.
pub fn char_at(s: &Vec<char>, i: usize, c: char) -> (r: bool)
    ensures
        r == at(s@, i as int, c),
{
    i < s.len() && s[i] == c
}

/// Computes [`ws_end`].
pub fn scan_ws(s: &Vec<char>, i: usize) -> (r: usize)
    requires
        i <= s@.len(),
        bounded(s@),
    ensures
        r as int == ws_end(s@, i as int),
        i <= r <= s@.len(),
{
    let mut p = i;
    proof {
        lemma_ws_end_bounds(s@, i as int);
    }
    loop
        invariant
            i <= p <= s@.len(),
            bounded(s@),
            ws_end(s@, i as int) == ws_end(s@, p as int),
        decreases s@.len() - p,
    {
        if p < s.len() && (s[p] == ' ' || s[p] == '\t' || s[p] == '\r' || s[p] == '\n') {
            p = p + 1;
        } else if p + 1 < s.len() && s[p] == '\\' && s[p + 1] == '\n' {
            p = p + 2;
        } else {
            return p;
        }
    }
}

/// Computes [`run_end`].
pub fn scan_run(s: &Vec<char>, i: usize, cl: Class) -> (r: usize)
    requires
        i <= s@.len(),
        bounded(s@),
    ensures
        r as int == run_end(s@, i as int, cl),
        i <= r <= s@.len(),
{
    let mut p = i;
    proof {
        lemma_run_end_bounds(s@, i as int, cl);
    }
    while p < s.len() && char_in_class(s[p], cl)
        invariant
            i <= p <= s@.len(),
            run_end(s@, i as int, cl) == run_end(s@, p as int, cl),
        decreases s@.len() - p,
    {
        p = p + 1;
    }
    p
}

/// Computes [`ident_end`].
pub fn scan_ident(s: &Vec<char>, i: usize) -> (r: Option<usize>)
    requires
        i <= s@.len(),
        bounded(s@),
    ensures
        match ident_end(s@, i as int) {
            Some(e) => r == Some(e as usize) && i < e <= s@.len(),
            None => r is None,
        },
{
    if i < s.len() && (('a' <= s[i] && s[i] <= 'z') || ('A' <= s[i] && s[i] <= 'Z') || s[i]
        == '_') {
        Some(scan_run(s, i + 1, Class::Ident))
    } else {
        None
    }
}

/// The value of a digit character (0 for a non-digit).
pub fn char_digit_value(c: char) -> (r: u128)
    ensures
        r as int == crate::text::digit_value(c),
        r < 16,
{
    if '0' <= c && c <= '9' {
        (c as u32 - '0' as u32) as u128
    } else if 'a' <= c && c <= 'f' {
        (c as u32 - 'a' as u32 + 10) as u128
    } else if 'A' <= c && c <= 'F' {
        (c as u32 - 'A' as u32 + 10) as u128
    } else {
        0
    }
}

/// The value of `s[st..e]` in `base` when it is at most `limit`.
pub fn digits_up_to(s: &Vec<char>, st: usize, e: usize, base: u128, limit: u128) -> (r: Option<
    u128,
>)
    requires
        st <= e <= s@.len(),
        2 <= base <= 16,
        limit <= 0x1_0000_0000_0000_0000u128,
    ensures
        digits_value(s@, st as int, e as int, base as int) <= limit ==> r == Some(
            digits_value(s@, st as int, e as int, base as int) as u128,
        ),
        digits_value(s@, st as int, e as int, base as int) > limit ==> r is None,
{
    let mut acc: u128 = 0;
    let mut p = st;
    while p < e
        invariant
            st <= p <= e <= s@.len(),
            2 <= base <= 16,
            limit <= 0x1_0000_0000_0000_0000u128,
            acc as int == digits_value(s@, st as int, p as int, base as int),
            acc <= limit,
        decreases e - p,
    {
        let d = char_digit_value(s[p]);
        assert(acc * base + d <= 0x1_0000_0000_0000_0000u128 * 16 + 16) by (nonlinear_arith)
            requires
                acc <= 0x1_0000_0000_0000_0000u128,
                base <= 16,
                d < 16,
        ;
        let next = acc * base + d;
        assert(next as int == digits_value(s@, st as int, p as int + 1, base as int));
        if next > limit {
            proof {
                lemma_digits_value_mono(s@, st as int, p as int + 1, e as int, base as int);
            }
            return None;
        }
        acc = next;
        p = p + 1;
    }
    Some(acc)
}

/// Computes [`dec_int`].
pub fn scan_dec_int(s: &Vec<char>, i: usize) -> (r: Option<(i64, usize)>)
    requires
        i <= s@.len(),
        bounded(s@),
    ensures
        match dec_int(s@, i as int) {
            Some((v, e)) => r == Some((v, e as usize)) && i < e <= s@.len(),
            None => r is None,
        },
{
    let neg = char_at(s, i, '-');
    let st = if neg {
        i + 1
    } else {
        i
    };
    let e = scan_run(s, st, Class::Dec);
    if e == st {
        return None;
    }
    let limit: u128 = if neg {
        9223372036854775808u128
    } else {
        9223372036854775807u128
    };
    proof {
        lemma_digits_value_nonneg(s@, st as int, e as int, 10);
    }
    match digits_up_to(s, st, e, 10, limit) {
        None => None,
        Some(m) => {
            let v: i64 = if neg {
                if m == 9223372036854775808u128 {
                    i64::MIN
                } else {
                    -(m as i64)
                }
            } else {
                m as i64
            };
            Some((v, e))
        },
    }
}

/// Computes [`radix_int`].
pub fn scan_radix_int(s: &Vec<char>, i: usize, letter: char, cl: Class, base: u128) -> (r: Option<
    (i64, usize),
>)
    requires
        i <= s@.len(),
        bounded(s@),
        2 <= base <= 16,
    ensures
        match radix_int(s@, i as int, letter, cl, base as int) {
            Some((v, e)) => r == Some((v, e as usize)),
            None => r is None,
        },
{
    if char_at(s, i, '0') && char_at(s, i + 1, letter) {
        let e = scan_run(s, i + 2, cl);
        if e == i + 2 {
            return None;
        }
        proof {
            lemma_digits_value_nonneg(s@, i as int + 2, e as int, base as int);
        }
        match digits_up_to(s, i + 2, e, base, 9223372036854775807u128) {
            None => None,
            Some(v) => Some((v as i64, e)),
        }
    } else {
        None
    }
}

/// Computes [`integer`].
pub fn scan_integer(s: &Vec<char>, i: usize) -> (r: Option<(i64, usize)>)
    requires
        i <= s@.len(),
        bounded(s@),
    ensures
        match integer(s@, i as int) {
            Some((v, e)) => r == Some((v, e as usize)),
            None => r is None,
        },
{
    if let Some(r) = scan_radix_int(s, i, 'x', Class::Hex, 16) {
        return Some(r);
    }
    if let Some(r) = scan_radix_int(s, i, 'b', Class::Bin, 2) {
        return Some(r);
    }
    if let Some(r) = scan_radix_int(s, i, 'o', Class::Oct, 8) {
        return Some(r);
    }
    scan_dec_int(s, i)
}

/// Computes [`exponent`].
pub fn scan_exponent(s: &Vec<char>, q: usize) -> (r: Option<usize>)
    requires
        q <= s@.len(),
        bounded(s@),
    ensures
        match exponent(s@, q as int) {
            Some(t) => r == Some(t as usize),
            None => r is None,
        },
{
    if char_at(s, q, 'e') || char_at(s, q, 'E') {
        let r = if char_at(s, q + 1, '+') || char_at(s, q + 1, '-') {
            q + 2
        } else {
            q + 1
        };
        let t = scan_run(s, r, Class::Dec);
        if t > r {
            Some(t)
        } else {
            None
        }
    } else {
        None
    }
}

/// Computes [`float_end`].
pub fn scan_float(s: &Vec<char>, i: usize) -> (r: Option<usize>)
    requires
        i <= s@.len(),
        bounded(s@),
    ensures
        match float_end(s@, i as int) {
            Some(e) => r == Some(e as usize),
            None => r is None,
        },
{
    let p = if char_at(s, i, '-') {
        i + 1
    } else {
        i
    };
    let d = scan_run(s, p, Class::Dec);
    if d > p && char_at(s, d, '.') {
        let q = scan_run(s, d + 1, Class::Dec);
        match scan_exponent(s, q) {
            Some(t) => Some(t),
            None => Some(q),
        }
    } else if char_at(s, p, '.') && scan_run(s, p + 1, Class::Dec) > p + 1 {
        let q = scan_run(s, p + 1, Class::Dec);
        match scan_exponent(s, q) {
            Some(t) => Some(t),
            None => Some(q),
        }
    } else if d > p {
        scan_exponent(s, d)
    } else {
        None
    }
}

/// The character with a given code point, if it is a Unicode scalar value
/// (calls `char::from_u32`).
#[verifier::external_body]
fn char_from_code(code: u32) -> (r: Option<char>)
    ensures
        r is Some <==> valid_code(code as int),
        r matches Some(c) ==> c as int == code as int,
{
    char::from_u32(code)
}

} // verus!

verus! {

/// A run of `n` class characters has a value below `16^n` in base 16 for `n`
/// up to 3 in the cases used here.
proof fn lemma_two_hex_digits(s: Seq<char>, st: int)
    requires
        0 <= st,
        st + 2 <= s.len(),
    ensures
        0 <= digits_value(s, st, st + 2, 16) <= 255,
{
    reveal_with_fuel(digits_value, 3);
    assert(0 <= crate::text::digit_value(s[st]) < 16);
    assert(0 <= crate::text::digit_value(s[st + 1]) < 16);
}

proof fn lemma_octal_digits(s: Seq<char>, st: int, n: int)
    requires
        0 <= st,
        1 <= n <= 3,
        st + n <= s.len(),
        forall|k: int| st <= k < st + n ==> is_oct_digit(#[trigger] s[k]),
    ensures
        0 <= digits_value(s, st, st + n, 8) <= 511,
{
    reveal_with_fuel(digits_value, 4);
    assert(0 <= crate::text::digit_value(s[st]) < 8);
    if n >= 2 {
        assert(0 <= crate::text::digit_value(s[st + 1]) < 8);
    }
    if n >= 3 {
        assert(0 <= crate::text::digit_value(s[st + 2]) < 8);
    }
}

/// Computes [`escape`].
pub fn scan_escape(s: &Vec<char>, q: usize) -> (r: Option<(char, usize)>)
    requires
        q <= s@.len(),
        bounded(s@),
    ensures
        match escape(s@, q as int) {
            Some((c, n)) => r == Some((c, n as usize)),
            None => r is None,
        },
{
    if q >= s.len() {
        return None;
    }
    let c = s[q];
    if c == 'n' {
        Some(('\n', 1))
    } else if c == 'r' {
        Some(('\r', 1))
    } else if c == 't' {
        Some(('\t', 1))
    } else if c == 'v' {
        Some(('\x0B', 1))
    } else if c == 'a' {
        Some(('\x07', 1))
    } else if c == 'b' {
        Some(('\x08', 1))
    } else if c == 'f' {
        Some(('\x0C', 1))
    } else if c == '\\' {
        Some(('\\', 1))
    } else if c == '"' {
        Some(('"', 1))
    } else if c == '\'' {
        Some(('\'', 1))
    } else if c == 'x' {
        if scan_run(s, q + 1, Class::Hex) >= q + 3 {
            proof {
                lemma_two_hex_digits(s@, q as int + 1);
            }
            let v = digits_up_to(s, q + 1, q + 3, 16, 255);
            let v = v.unwrap();
            let ch = char_from_code(v as u32).unwrap();
            assert(ch == (digits_value(s@, q as int + 1, q as int + 3, 16) as char));
            Some((ch, 3))
        } else {
            None
        }
    } else if c == 'u' || c == 'U' {
        let n: usize = if c == 'u' {
            4
        } else {
            8
        };
        if scan_run(s, q + 1, Class::Hex) >= q + 1 + n {
            match digits_up_to(s, q + 1, q + 1 + n, 16, 0x10FFFF) {
                None => None,
                Some(v) => {
                    proof {
                        lemma_digits_value_nonneg(s@, q as int + 1, q as int + 1 + n, 16);
                    }
                    match char_from_code(v as u32) {
                        None => None,
                        Some(ch) => {
                            assert(ch == (digits_value(s@, q as int + 1, q as int + 1 + n, 16)
                                as char));
                            Some((ch, n + 1))
                        },
                    }
                },
            }
        } else {
            None
        }
    } else if '0' <= c && c <= '7' {
        let e = scan_run(s, q, Class::Oct);
        let n = if e - q > 3 {
            3
        } else {
            e - q
        };
        proof {
            lemma_run_end_bounds(s@, q as int, Class::Oct);
            lemma_octal_digits(s@, q as int, n as int);
        }
        let v = digits_up_to(s, q, q + n, 8, 511).unwrap();
        let ch = char_from_code(v as u32).unwrap();
        assert(ch == (digits_value(s@, q as int, q as int + n, 8) as char));
        Some((ch, n))
    } else {
        None
    }
}

} // verus!

verus! {

pub proof fn lemma_escape_bounds(s: Seq<char>, q: int)
    requires
        0 <= q,
    ensures
        escape(s, q) matches Some((c, n)) ==> 1 <= n <= 9 && q + n <= s.len(),
{
    if 0 <= q < s.len() {
        let c = s[q];
        if c == 'x' || c == 'u' || c == 'U' {
            lemma_run_end_bounds(s, q + 1, Class::Hex);
        }
        if is_oct_digit(c) {
            lemma_run_end_bounds(s, q, Class::Oct);
        }
    }
}

proof fn lemma_text_prepend_assoc(a: Seq<char>, b: Seq<char>, r: Option<(Seq<char>, int)>)
    ensures
        text_prepend(a, text_prepend(b, r)) == text_prepend(a + b, r),
{
    match r {
        Some((t, e)) => {
            assert(a + (b + t) =~= (a + b) + t);
        },
        None => {},
    }
}

/// The characters `s[i..e]`.
pub fn slice_chars(s: &Vec<char>, i: usize, e: usize) -> (r: Vec<char>)
    requires
        i <= e <= s@.len(),
    ensures
        r@ == s@.subrange(i as int, e as int),
{
    let mut r: Vec<char> = Vec::new();
    let mut p = i;
    while p < e
        invariant
            i <= p <= e <= s@.len(),
            r@ == s@.subrange(i as int, p as int),
        decreases e - p,
    {
        r.push(s[p]);
        assert(s@.subrange(i as int, p as int + 1) == s@.subrange(i as int, p as int).push(
            s@[p as int],
        ));
        p = p + 1;
    }
    r
}

/// Computes [`str_body`].
pub fn scan_str_body(s: &Vec<char>, p0: usize) -> (r: Option<(Vec<char>, usize)>)
    requires
        p0 <= s@.len(),
        bounded(s@),
    ensures
        match str_body(s@, p0 as int) {
            Some((t, e)) => r matches Some((rt, re)) && rt@ == t && re as int == e,
            None => r is None,
        },
{
    let mut acc: Vec<char> = Vec::new();
    let mut p = p0;
    assert(str_body(s@, p0 as int) == text_prepend(acc@, str_body(s@, p as int))) by {
        match str_body(s@, p0 as int) {
            Some((t, e)) => {
                assert(acc@ + t =~= t);
            },
            None => {},
        }
    }
    loop
        invariant
            p0 <= p <= s@.len(),
            bounded(s@),
            str_body(s@, p0 as int) == text_prepend(acc@, str_body(s@, p as int)),
        decreases s@.len() - p,
    {
        if p >= s.len() {
            return None;
        }
        let c = s[p];
        if c == '"' {
            assert(acc@ + Seq::<char>::empty() =~= acc@);
            return Some((acc, p + 1));
        }
        if c == '\\' {
            if p + 1 < s.len() && s[p + 1] == '\n' {
                p = p + 2;
            } else {
                proof {
                    lemma_escape_bounds(s@, p as int + 1);
                }
                match scan_escape(s, p + 1) {
                    None => {
                        return None;
                    },
                    Some((ch, n)) => {
                        proof {
                            lemma_text_prepend_assoc(acc@, seq![ch], str_body(s@, p + 1 + n));
                        }
                        acc.push(ch);
                        p = p + 1 + n;
                    },
                }
            }
        } else {
            proof {
                lemma_text_prepend_assoc(acc@, seq![c], str_body(s@, p + 1));
            }
            acc.push(c);
            p = p + 1;
        }
    }
}

/// Computes [`basic`].
pub fn scan_basic(s: &Vec<char>, i: usize) -> (r: Option<(Value, usize)>)
    requires
        i <= s@.len(),
        bounded(s@),
    ensures
        match basic(s@, i as int) {
            Some((v, e)) => r matches Some((rv, re)) && rv@ == v && re as int == e,
            None => r is None,
        },
{
    if char_at(s, i, '"') {
        return match scan_str_body(s, i + 1) {
            Some((t, e)) => Some((Value::String(chars_to_string(&t)), e)),
            None => None,
        };
    }
    proof {
        lemma_float_bounds(s@, i as int);
        lemma_integer_bounds(s@, i as int);
    }
    if let Some(e) = scan_float(s, i) {
        let t = slice_chars(s, i, e);
        return Some((Value::Float(chars_to_string(&t)), e));
    }
    if let Some((v, e)) = scan_integer(s, i) {
        return Some((Value::Int(v), e));
    }
    if let Some(e) = scan_ident(s, i) {
        let t = slice_chars(s, i, e);
        let tt = crate::text::str_to_chars("true");
        let ff = crate::text::str_to_chars("false");
        proof {
            reveal_strlit("true");
            reveal_strlit("false");
            assert(tt@ =~= true_text());
            assert(ff@ =~= false_text());
        }
        if crate::text::chars_eq(&t, &tt) {
            return Some((Value::Bool(true), e));
        }
        if crate::text::chars_eq(&t, &ff) {
            return Some((Value::Bool(false), e));
        }
        return Some((Value::String(chars_to_string(&t)), e));
    }
    None
}

} // verus!

verus! {

/// Computes [`list_tail`].
pub fn scan_list_tail(s: &Vec<char>, e: usize) -> (r: Step<Vec<Value>>)
    requires
        e <= s@.len(),
        bounded(s@),
    ensures
        agrees(r, list_tail(s@, e as int), |v: Vec<Value>| values_model(v@)),
    decreases s@.len() - e,
{
    let w = scan_ws(s, e);
    if char_at(s, w, ',') {
        let q = scan_ws(s, w + 1);
        match scan_basic(s, q) {
            None => Step::Cut(q, Ctx::CompositeValue),
            Some((v, e2)) => {
                proof {
                    lemma_basic_bounds(s@, q as int);
                }
                match scan_list_tail(s, e2) {
                    Step::Done(rest, end) => {
                        let mut rest = rest;
                        let ghost rm = values_model(rest@);
                        let mut out: Vec<Value> = Vec::new();
                        out.push(v);
                        out.append(&mut rest);
                        assert(values_model(out@) =~= seq![out@[0]@] + rm);
                        Step::Done(out, end)
                    },
                    Step::Miss => Step::Miss,
                    Step::Cut(a, b) => Step::Cut(a, b),
                }
            },
        }
    } else {
        let out = Vec::new();
        assert(values_model(out@) =~= Seq::<ValueModel>::empty());
        Step::Done(out, e)
    }
}

/// Computes [`list`].
pub fn scan_list(s: &Vec<char>, p: usize) -> (r: Step<Vec<Value>>)
    requires
        p <= s@.len(),
        bounded(s@),
    ensures
        agrees(r, list(s@, p as int), |v: Vec<Value>| values_model(v@)),
{
    let q = scan_ws(s, p);
    match scan_basic(s, q) {
        None => Step::Cut(q, Ctx::CompositeValue),
        Some((v, e)) => {
            proof {
                lemma_basic_bounds(s@, q as int);
            }
            match scan_list_tail(s, e) {
                Step::Done(rest, end) => {
                    let mut rest = rest;
                    let ghost rm = values_model(rest@);
                    let mut out: Vec<Value> = Vec::new();
                    out.push(v);
                    out.append(&mut rest);
                    assert(values_model(out@) =~= seq![out@[0]@] + rm);
                    Step::Done(out, end)
                },
                Step::Miss => Step::Miss,
                Step::Cut(a, b) => Step::Cut(a, b),
            }
        },
    }
}

/// Computes [`dict_entry`].
pub fn scan_dict_entry(s: &Vec<char>, p: usize) -> (r: Step<(String, Value)>)
    requires
        p <= s@.len(),
        bounded(s@),
    ensures
        agrees(r, dict_entry(s@, p as int), |kv: (String, Value)| (kv.0@, kv.1@)),
        r matches Step::Done(kv, e) ==> p < e <= s@.len(),
{
    let q = scan_ws(s, p);
    match scan_ident(s, q) {
        None => Step::Miss,
        Some(k) => {
            let w = scan_ws(s, k);
            if char_at(s, w, ':') {
                let vq = scan_ws(s, w + 1);
                match scan_basic(s, vq) {
                    None => Step::Cut(vq, Ctx::CompositeValue),
                    Some((v, e)) => {
                        proof {
                            lemma_basic_bounds(s@, vq as int);
                        }
                        let key = slice_chars(s, q, k);
                        Step::Done((chars_to_string(&key), v), e)
                    },
                }
            } else {
                Step::Miss
            }
        },
    }
}

/// Computes [`dict_tail`].
pub fn scan_dict_tail(s: &Vec<char>, e: usize) -> (r: Step<Vec<(String, Value)>>)
    requires
        e <= s@.len(),
        bounded(s@),
    ensures
        agrees(r, dict_tail(s@, e as int), |v: Vec<(String, Value)>| entries_model(v@)),
    decreases s@.len() - e,
{
    let w = scan_ws(s, e);
    if char_at(s, w, ',') {
        match scan_dict_entry(s, w + 1) {
            Step::Miss => {
                let out = Vec::new();
                assert(entries_model(out@) =~= Seq::<(Seq<char>, ValueModel)>::empty());
                Step::Done(out, e)
            },
            Step::Cut(a, b) => Step::Cut(a, b),
            Step::Done(kv, e2) => {
                match scan_dict_tail(s, e2) {
                    Step::Done(rest, end) => {
                        let mut rest = rest;
                        let ghost rm = entries_model(rest@);
                        let mut out: Vec<(String, Value)> = Vec::new();
                        out.push(kv);
                        out.append(&mut rest);
                        assert(entries_model(out@) =~= seq![(out@[0].0@, out@[0].1@)] + rm);
                        Step::Done(out, end)
                    },
                    Step::Miss => Step::Miss,
                    Step::Cut(a, b) => Step::Cut(a, b),
                }
            },
        }
    } else {
        let out = Vec::new();
        assert(entries_model(out@) =~= Seq::<(Seq<char>, ValueModel)>::empty());
        Step::Done(out, e)
    }
}

/// Computes [`dict`].
pub fn scan_dict(s: &Vec<char>, p: usize) -> (r: Step<Vec<(String, Value)>>)
    requires
        p <= s@.len(),
        bounded(s@),
    ensures
        agrees(r, dict(s@, p as int), |v: Vec<(String, Value)>| entries_model(v@)),
{
    match scan_dict_entry(s, p) {
        Step::Miss => Step::Miss,
        Step::Cut(a, b) => Step::Cut(a, b),
        Step::Done(kv, e) => {
            match scan_dict_tail(s, e) {
                Step::Done(rest, end) => {
                    let mut rest = rest;
                    let ghost rm = entries_model(rest@);
                    let mut out: Vec<(String, Value)> = Vec::new();
                    out.push(kv);
                    out.append(&mut rest);
                    assert(entries_model(out@) =~= seq![(out@[0].0@, out@[0].1@)] + rm);
                    Step::Done(out, end)
                },
                Step::Miss => Step::Miss,
                Step::Cut(a, b) => Step::Cut(a, b),
            }
        },
    }
}

} // verus!

verus! {

/// Computes [`composite_body`].
pub fn scan_composite_body(s: &Vec<char>, p: usize) -> (r: Step<CompositeValue>)
    requires
        p <= s@.len(),
        bounded(s@),
    ensures
        agrees(r, composite_body(s@, p as int), |c: CompositeValue| c@),
{
    match scan_dict(s, p) {
        Step::Done(d, r) => Step::Done(CompositeValue::Dict(d), r),
        Step::Cut(a, b) => Step::Cut(a, b),
        Step::Miss => match scan_list(s, p) {
            Step::Done(vs, r) => {
                if vs.len() == 1 {
                    let mut vs = vs;
                    let v = vs.remove(0);
                    Step::Done(CompositeValue::Single(v), r)
                } else {
                    Step::Done(CompositeValue::List(vs), r)
                }
            },
            Step::Cut(a, b) => Step::Cut(a, b),
            Step::Miss => Step::Miss,
        },
    }
}

pub proof fn lemma_list_tail_bounds(s: Seq<char>, e: int)
    requires
        0 <= e <= s.len(),
    ensures
        list_tail(s, e) matches Scan::Done(t, r) ==> e <= r <= s.len(),
        list_tail(s, e) matches Scan::Cut(a, b) ==> e <= a <= s.len(),
    decreases s.len() - e,
{
    lemma_ws_end_bounds(s, e);
    let w = ws_end(s, e);
    if at(s, w, ',') {
        lemma_ws_end_bounds(s, w + 1);
        let q = ws_end(s, w + 1);
        lemma_basic_bounds(s, q);
        match basic(s, q) {
            None => {},
            Some((v, e2)) => {
                if e < e2 <= s.len() {
                    lemma_list_tail_bounds(s, e2);
                }
            },
        }
    }
}

pub proof fn lemma_dict_tail_bounds(s: Seq<char>, e: int)
    requires
        0 <= e <= s.len(),
    ensures
        dict_tail(s, e) matches Scan::Done(t, r) ==> e <= r <= s.len(),
        dict_tail(s, e) matches Scan::Cut(a, b) ==> e <= a <= s.len(),
    decreases s.len() - e,
{
    lemma_ws_end_bounds(s, e);
    let w = ws_end(s, e);
    if at(s, w, ',') {
        lemma_dict_entry_bounds(s, w + 1);
        match dict_entry(s, w + 1) {
            Scan::Done(kv, e2) => {
                if e < e2 <= s.len() {
                    lemma_dict_tail_bounds(s, e2);
                }
            },
            _ => {},
        }
    }
}

pub proof fn lemma_dict_entry_bounds(s: Seq<char>, p: int)
    requires
        0 <= p <= s.len(),
    ensures
        dict_entry(s, p) matches Scan::Done(kv, e) ==> p < e <= s.len(),
        dict_entry(s, p) matches Scan::Cut(a, b) ==> p <= a <= s.len(),
{
    lemma_ws_end_bounds(s, p);
    let q = ws_end(s, p);
    match ident_end(s, q) {
        None => {},
        Some(k) => {
            lemma_run_end_bounds(s, q + 1, Class::Ident);
            lemma_ws_end_bounds(s, k);
            let w = ws_end(s, k);
            if at(s, w, ':') {
                lemma_ws_end_bounds(s, w + 1);
                lemma_basic_bounds(s, ws_end(s, w + 1));
            }
        },
    }
}

/// Bounds on where a composite body ends or fails.
pub proof fn lemma_composite_body_bounds(s: Seq<char>, p: int)
    requires
        0 <= p <= s.len(),
    ensures
        composite_body(s, p) matches Scan::Done(c, r) ==> p <= r <= s.len(),
        composite_body(s, p) matches Scan::Cut(a, b) ==> p <= a <= s.len(),
{
    lemma_dict_entry_bounds(s, p);
    match dict_entry(s, p) {
        Scan::Done(kv, e) => {
            lemma_dict_tail_bounds(s, e);
        },
        _ => {},
    }
    lemma_ws_end_bounds(s, p);
    let q = ws_end(s, p);
    lemma_basic_bounds(s, q);
    match basic(s, q) {
        Some((v, e)) => {
            lemma_list_tail_bounds(s, e);
        },
        None => {},
    }
}

/// Bounds on where a parameter ends or fails.
pub proof fn lemma_param_bounds(s: Seq<char>, i: int)
    requires
        0 <= i <= s.len(),
    ensures
        param(s, i) matches Scan::Done(prm, e) ==> i < e <= s.len(),
        param(s, i) matches Scan::Cut(a, b) ==> i <= a <= s.len(),
{
    lemma_basic_bounds(s, i);
    match ident_end(s, i) {
        None => {},
        Some(n) => {
            lemma_run_end_bounds(s, i + 1, Class::Ident);
            if at(s, n, '(') {
                lemma_ws_end_bounds(s, n + 1);
                let p = ws_end(s, n + 1);
                lemma_composite_body_bounds(s, p);
                match composite_body(s, p) {
                    Scan::Done(cv, r) => {
                        lemma_ws_end_bounds(s, r);
                    },
                    _ => {},
                }
            }
        },
    }
}

/// Computes [`composite`].
pub fn scan_composite(s: &Vec<char>, i: usize) -> (r: Step<Parameter>)
    requires
        i <= s@.len(),
        bounded(s@),
    ensures
        agrees(r, composite(s@, i as int), |p: Parameter| p@),
{
    match scan_ident(s, i) {
        None => Step::Miss,
        Some(n) => {
            if char_at(s, n, '(') {
                let p = scan_ws(s, n + 1);
                proof {
                    lemma_composite_body_bounds(s@, p as int);
                }
                match scan_composite_body(s, p) {
                    Step::Done(cv, r) => {
                        let c = scan_ws(s, r);
                        if char_at(s, c, ')') {
                            let nm = slice_chars(s, i, n);
                            Step::Done(Parameter::Composite(chars_to_string(&nm), cv), c + 1)
                        } else {
                            Step::Cut(c, Ctx::CompositeEnd)
                        }
                    },
                    Step::Cut(a, b) => Step::Cut(a, b),
                    Step::Miss => Step::Miss,
                }
            } else {
                Step::Miss
            }
        },
    }
}

/// Computes [`param`].
pub fn scan_param(s: &Vec<char>, i: usize) -> (r: Step<Parameter>)
    requires
        i <= s@.len(),
        bounded(s@),
    ensures
        agrees(r, param(s@, i as int), |p: Parameter| p@),
{
    match scan_composite(s, i) {
        Step::Done(p, e) => Step::Done(p, e),
        Step::Cut(a, b) => Step::Cut(a, b),
        Step::Miss => match scan_basic(s, i) {
            Some((v, e)) => Step::Done(Parameter::Basic(v), e),
            None => Step::Miss,
        },
    }
}

/// Computes [`params_tail`].
pub fn scan_params_tail(s: &Vec<char>, p: usize) -> (r: Step<Vec<Parameter>>)
    requires
        p <= s@.len(),
        bounded(s@),
    ensures
        agrees(r, params_tail(s@, p as int), |v: Vec<Parameter>| params_model(v@)),
    decreases s@.len() - p,
{
    let w = scan_ws(s, p);
    if w <= p {
        let out = Vec::new();
        assert(params_model(out@) =~= Seq::<ParamModel>::empty());
        return Step::Done(out, p);
    }
    proof {
        lemma_param_bounds(s@, w as int);
    }
    match scan_param(s, w) {
        Step::Done(prm, e) => {
            match scan_params_tail(s, e) {
                Step::Done(rest, end) => {
                    let mut rest = rest;
                    let ghost rm = params_model(rest@);
                    let mut out: Vec<Parameter> = Vec::new();
                    out.push(prm);
                    out.append(&mut rest);
                    assert(params_model(out@) =~= seq![out@[0]@] + rm);
                    Step::Done(out, end)
                },
                Step::Miss => Step::Miss,
                Step::Cut(a, b) => Step::Cut(a, b),
            }
        },
        Step::Miss => {
            let out = Vec::new();
            assert(params_model(out@) =~= Seq::<ParamModel>::empty());
            Step::Done(out, p)
        },
        Step::Cut(a, b) => Step::Cut(a, b),
    }
}

/// Computes [`name`].
pub fn scan_name(s: &Vec<char>) -> (r: Option<(Vec<char>, Option<i64>, usize)>)
    requires
        bounded(s@),
    ensures
        match name(s@) {
            Some((nm, num, e)) => r matches Some((rn, rnum, re)) && rn@ == nm && rnum == num
                && re as int == e && e <= s@.len(),
            None => r is None,
        },
{
    match scan_ident(s, 0) {
        Some(e) => Some((slice_chars(s, 0, e), None, e)),
        None => match scan_dec_int(s, 0) {
            Some((n, e)) => Some((i64_decimal(n), Some(n), e)),
            None => None,
        },
    }
}

/// Parses a command line given as characters: the command, the value of its
/// name when the name is a decimal number, and the position where the match
/// ended; or the position and rule of a committed failure.
pub fn scan_command_line(s: &Vec<char>) -> (r: Step<(Command, Option<i64>)>)
    requires
        bounded(s@),
    ensures
        agrees(r, command_line(s@), |x: (Command, Option<i64>)| (x.0@, x.1)),
{
    match scan_name(s) {
        None => Step::Cut(0, Ctx::CommandName),
        Some((nm, num, e)) => match scan_params_tail(s, e) {
            Step::Done(ps, end) => Step::Done(
                (Command { name: chars_to_string(&nm), params: ps }, num),
                end,
            ),
            Step::Cut(a, b) => Step::Cut(a, b),
            Step::Miss => Step::Miss,
        },
    }
}


/// Bounds on the parameters after `p`: they end within the input, and the
/// rule never misses (it succeeds or fails with a cut).
pub proof fn lemma_params_tail_bounds(s: Seq<char>, p: int)
    requires
        0 <= p <= s.len(),
    ensures
        !(params_tail(s, p) is Miss),
        params_tail(s, p) matches Scan::Done(ps, e) ==> p <= e <= s.len(),
        params_tail(s, p) matches Scan::Cut(a, b) ==> p <= a <= s.len(),
    decreases s.len() - p,
{
    lemma_ws_end_bounds(s, p);
    let w = ws_end(s, p);
    if w > p {
        lemma_param_bounds(s, w);
        match param(s, w) {
            Scan::Done(prm, e) => {
                lemma_params_tail_bounds(s, e);
            },
            _ => {},
        }
    }
}

/// A command line never misses: it is parsed, or it fails with a cut, within
/// the input.
pub proof fn lemma_command_line_bounds(s: Seq<char>)
    ensures
        !(command_line(s) is Miss),
        command_line(s) matches Scan::Done(c, e) ==> 0 <= e <= s.len(),
        command_line(s) matches Scan::Cut(a, b) ==> 0 <= a <= s.len(),
{
    match ident_end(s, 0) {
        Some(e) => {
            lemma_run_end_bounds(s, 1, Class::Ident);
        },
        None => {
            lemma_run_end_bounds(s, 0, Class::Dec);
            if s.len() > 0 {
                lemma_run_end_bounds(s, 1, Class::Dec);
            }
        },
    }
    match name(s) {
        Some((nm, num, e)) => {
            lemma_params_tail_bounds(s, e);
        },
        None => {},
    }
}

/// Parses a command line: the command and the unparsed rest of the input, or
/// the position (in characters) and rule of a committed failure. The name
/// of a command named by a number is that number in decimal.
pub fn parse_command_line(input: &str) -> (r: Result<(String, Command), (usize, Ctx)>)
    requires
        bounded(input@),
    ensures
        match command_line(input@) {
            Scan::Done((c, num), e) => r matches Ok((rest, rc)) && rc@ == c && rest@
                == input@.subrange(e, input@.len() as int),
            Scan::Cut(p, ctx) => r matches Err((rp, rc)) && rp as int == p && rc == ctx,
            Scan::Miss => false,
        },
{
    let s = str_to_chars(input);
    proof {
        lemma_command_line_bounds(s@);
    }
    match scan_command_line(&s) {
        Step::Done((c, num), e) => {
            let rest = slice_chars(&s, e, s.len());
            Ok((chars_to_string(&rest), c))
        },
        Step::Cut(p, ctx) => Err((p, ctx)),
        Step::Miss => Err((0, Ctx::CommandName)),
    }
}

} // verus!
