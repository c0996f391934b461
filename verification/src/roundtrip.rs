//! What the writer writes, the parser reads back.
//!
//! The main result, [`lemma_written_line_parses`], states that the line the
//! writer produces for a command (its indentation, its text and a line
//! break) is a line from which the parser yields that very command, for
//! every command the syntax can express that way: an identifier as name,
//! parameters on one line, strings that are not bare `true` or `false`,
//! non-negative integers when they are written in base 2, 8 or 16, floats
//! that are float literals, lists of at least two values and dictionaries
//! of at least one entry with identifier keys.

use vstd::prelude::*;
use crate::command::{
    CommandModel, CompositeModel, ParamModel, ValueModel, annotation_name, escape_char,
    escape_text, false_text, is_identifier, number_name, quoted, text_name, true_text,
};
use crate::parser::command_parser::{
    Class, Scan, at, basic, command_line, composite, dec_int, dict, dict_entry, dict_tail, escape,
    exponent, float_end, ident_end, in_class, integer, lemma_run_end_bounds, list, list_tail, name,
    opt_exponent, param, params_tail, radix_int, run_end, str_body, ws_end,
};
use crate::command::Command;
use crate::parser::{
    LineKind, ParserConfig, ParseResult, after_skipped, classify_line, hash_end, line_command,
    line_result, max_line_len, skip_ws, skipped, skipped_len, trim, trim_end_at,
};
use crate::text::{
    digit_char, digit_value, digits_value, int_decimal, is_dec_digit, is_ident_char,
    is_ident_start, is_space, is_whitespace, nat_digits,
};
use crate::writer::config::{FormatterOptions, NumberFormat, SelectorModel, lookup};
use crate::command::value_text;
use crate::writer::generators::{effective_spec, merge_spec};
use crate::writer::formatters::{
    format_entries_text, format_entry_text, format_param_text, format_value_text,
    format_values_text, item_sep, key_sep, number_text, twos_complement,
};
use crate::parser::{unescape_text_newlines, unescaped_from};
use crate::parser::input::{continues, first_len, first_text, line_end, lines_from, split_lines};
use crate::writer::command_output;
use crate::writer::generators::{
    escape_text_newlines, newlines_escaped_from, command_body, hashes, indent_text, options_at,
    param_name_spec, param_sep, params_out,
};

verus! {

// ----- Runs and whitespace -----

/// A run of characters of one class, ended by the end of the input or a
/// character outside the class.
pub proof fn lemma_run_end_exact(s: Seq<char>, i: int, j: int, cl: Class)
    requires
        0 <= i <= j <= s.len(),
        forall|k: int| i <= k < j ==> in_class(#[trigger] s[k], cl),
        j == s.len() || !in_class(s[j], cl),
    ensures
        run_end(s, i, cl) == j,
    decreases j - i,
{
    if i < j {
        lemma_run_end_exact(s, i + 1, j, cl);
    }
}

/// No whitespace at `i`.
pub proof fn lemma_ws_end_none(s: Seq<char>, i: int)
    requires
        0 <= i <= s.len(),
        i == s.len() || (!is_space(s[i]) && s[i] != '\\'),
    ensures
        ws_end(s, i) == i,
{
}

/// One space at `i`, then no whitespace.
pub proof fn lemma_ws_end_one(s: Seq<char>, i: int)
    requires
        0 <= i < s.len(),
        s[i] == ' ',
        i + 1 == s.len() || (!is_space(s[i + 1]) && s[i + 1] != '\\'),
    ensures
        ws_end(s, i) == i + 1,
{
    lemma_ws_end_none(s, i + 1);
}

// ----- Digits -----

/// The character class of the digits of a base.
pub open spec fn digit_class(base: nat) -> Class {
    if base == 16 {
        Class::Hex
    } else if base == 8 {
        Class::Oct
    } else if base == 2 {
        Class::Bin
    } else {
        Class::Dec
    }
}

/// The bases numbers are written in.
pub open spec fn writing_base(base: nat) -> bool {
    base == 2 || base == 8 || base == 10 || base == 16
}

/// The value of digits depends only on the digits.
pub proof fn lemma_digits_value_frame(s1: Seq<char>, st1: int, s2: Seq<char>, st2: int, n: int, base: int)
    requires
        n >= 0,
        forall|k: int| st1 <= k < st1 + n ==> #[trigger] s1[k] == s2[k - st1 + st2],
    ensures
        digits_value(s1, st1, st1 + n, base) == digits_value(s2, st2, st2 + n, base),
    decreases n,
{
    if n > 0 {
        lemma_digits_value_frame(s1, st1, s2, st2, n - 1, base);
        assert(s1[st1 + n - 1] == s2[st2 + n - 1]);
    }
}

/// The digits of `n` in a base are digits of that base, read back as `n`,
/// and start with `0` only for zero.
pub proof fn lemma_nat_digits(n: nat, base: nat)
    requires
        writing_base(base),
    ensures
        nat_digits(n, base).len() >= 1,
        forall|k: int|
            0 <= k < nat_digits(n, base).len() ==> in_class(
                #[trigger] nat_digits(n, base)[k],
                digit_class(base),
            ),
        digits_value(nat_digits(n, base), 0, nat_digits(n, base).len() as int, base as int) == n,
        nat_digits(n, base)[0] == '0' <==> n == 0,
        n == 0 ==> nat_digits(n, base) == seq!['0'],
    decreases n,
{
    let d = nat_digits(n, base);
    if n < base {
        assert(d == seq![digit_char(n as int)]);
        assert(digit_value(digit_char(n as int)) == n);
        assert(digits_value(d, 0, 0, base as int) == 0);
    } else {
        vstd::arithmetic::div_mod::lemma_div_decreases(n as int, base as int);
        let q = (n / base) as nat;
        let r = (n % base) as int;
        lemma_nat_digits(q, base);
        let p = nat_digits(q, base);
        assert(d == p.push(digit_char(r)));
        vstd::arithmetic::div_mod::lemma_fundamental_div_mod(n as int, base as int);
        assert(0 <= r < base);
        assert(digit_value(digit_char(r)) == r);
        lemma_digits_value_frame(d, 0, p, 0, p.len() as int, base as int);
        assert(digits_value(d, 0, d.len() as int, base as int) == digits_value(
            d,
            0,
            p.len() as int,
            base as int,
        ) * base + r);
        assert(q >= 1);
        assert(d[0] == p[0]);
        assert forall|k: int| 0 <= k < d.len() implies in_class(#[trigger] d[k], digit_class(base)) by {
            if k < p.len() {
                assert(d[k] == p[k]);
            }
        }
    }
}

/// The digits of `n` placed in `s` at `st`, followed by a character of
/// another class or by the end: the run of digits ends right after them and
/// reads `n`.
pub proof fn lemma_digits_in(s: Seq<char>, st: int, n: nat, base: nat)
    requires
        writing_base(base),
        0 <= st,
        st + nat_digits(n, base).len() <= s.len(),
        s.subrange(st, st + nat_digits(n, base).len()) == nat_digits(n, base),
        st + nat_digits(n, base).len() == s.len() || !in_class(
            s[st + nat_digits(n, base).len()],
            digit_class(base),
        ),
    ensures
        run_end(s, st, digit_class(base)) == st + nat_digits(n, base).len(),
        digits_value(s, st, st + nat_digits(n, base).len(), base as int) == n,
{
    let d = nat_digits(n, base);
    lemma_nat_digits(n, base);
    assert forall|k: int| st <= k < st + d.len() implies in_class(#[trigger] s[k], digit_class(base)) by {
        assert(s[k] == d[k - st]);
    }
    lemma_run_end_exact(s, st, st + d.len(), digit_class(base));
    assert forall|k: int| st <= k < st + d.len() implies #[trigger] s[k] == d[k - st + 0] by {
        assert(s.subrange(st, st + d.len())[k - st] == s[k]);
    }
    lemma_digits_value_frame(s, st, d, 0, d.len() as int, base as int);
}

// ----- Quoted strings -----

/// The escaped form of a sequence, from its first character.
pub proof fn lemma_escape_text_front(t: Seq<char>)
    requires
        t.len() > 0,
    ensures
        escape_text(t) == escape_char(t[0]) + escape_text(t.drop_first()),
    decreases t.len(),
{
    if t.len() == 1 {
        assert(t.drop_last() == Seq::<char>::empty());
        assert(t.drop_first() == Seq::<char>::empty());
        assert(escape_text(Seq::<char>::empty()) == Seq::<char>::empty());
        assert(t.last() == t[0]);
    } else {
        lemma_escape_text_front(t.drop_last());
        assert(t.drop_first().drop_last() == t.drop_last().drop_first());
        assert(t.drop_first().last() == t.last());
        assert(t.drop_last()[0] == t[0]);
    }
}

/// A quoted string's escaped text and closing quote at `p` read back as the
/// string.
pub proof fn lemma_str_body_quoted(s: Seq<char>, p: int, t: Seq<char>)
    requires
        0 <= p,
        p + escape_text(t).len() + 1 <= s.len(),
        s.subrange(p, p + escape_text(t).len() + 1) == escape_text(t) + seq!['"'],
    ensures
        str_body(s, p) == Some((t, p + escape_text(t).len() + 1)),
    decreases t.len(),
{
    let et = escape_text(t);
    if t.len() == 0 {
        assert(et == Seq::<char>::empty());
        assert(s[p] == s.subrange(p, p + 1)[0]);
    } else {
        lemma_escape_text_front(t);
        let c = t[0];
        let e = escape_char(c);
        let rest = t.drop_first();
        let er = escape_text(rest);
        assert(et == e + er);
        let n = e.len() as int;
        assert forall|k: int| 0 <= k < n implies s[p + k] == #[trigger] e[k] by {
            assert(s.subrange(p, p + et.len() + 1)[k] == s[p + k]);
            assert((et + seq!['"'])[k] == e[k]);
        }
        assert(s.subrange(p + n, p + n + er.len() + 1) == er + seq!['"']) by {
            assert forall|k: int| 0 <= k < er.len() + 1 implies s.subrange(
                p + n,
                p + n + er.len() + 1,
            )[k] == (er + seq!['"'])[k] by {
                assert(s.subrange(p, p + et.len() + 1)[n + k] == s[p + n + k]);
                assert((et + seq!['"'])[n + k] == (er + seq!['"'])[k]);
            }
        }
        lemma_str_body_quoted(s, p + n, rest);
        assert(seq![c] + rest == t);
        if c == '"' || c == '\\' || c == '\n' || c == '\r' || c == '\t' {
            assert(n == 2);
            assert(s[p] == '\\');
            assert(s[p + 1] == e[1]);
            assert(escape(s, p + 1) == Some((c, 1int)));
        } else {
            assert(n == 1);
            assert(s[p] == c);
        }
    }
}

// ----- Values -----

/// What may follow a value: the end, a space, a comma or `)`.
pub open spec fn value_stop(s: Seq<char>, j: int) -> bool {
    j == s.len() || (0 <= j < s.len() && (s[j] == ' ' || s[j] == ',' || s[j] == ')'))
}

/// `s` holds `t` at `i`.
pub open spec fn token_at(s: Seq<char>, i: int, t: Seq<char>) -> bool {
    0 <= i && i + t.len() <= s.len() && s.subrange(i, i + t.len()) == t
}

proof fn lemma_token_char(s: Seq<char>, i: int, t: Seq<char>, k: int)
    requires
        token_at(s, i, t),
        0 <= k < t.len(),
    ensures
        s[i + k] == t[k],
{
    assert(s.subrange(i, i + t.len())[k] == s[i + k]);
}

/// An identifier at `i`, followed by a character that is not an identifier
/// character or by the end, is read as an identifier (a boolean or a bare
/// string), and as nothing else.
pub proof fn lemma_word_at(s: Seq<char>, i: int, t: Seq<char>)
    requires
        is_identifier(t),
        token_at(s, i, t),
        i + t.len() == s.len() || !is_ident_char(s[i + t.len()]),
    ensures
        !at(s, i, '"'),
        float_end(s, i) is None,
        integer(s, i) is None,
        ident_end(s, i) == Some(i + t.len()),
        s.subrange(i, i + t.len()) == t,
{
    lemma_token_char(s, i, t, 0);
    lemma_run_end_exact(s, i, i, Class::Dec);
    assert forall|k: int| i + 1 <= k < i + t.len() implies in_class(#[trigger] s[k], Class::Ident) by {
        lemma_token_char(s, i, t, k - i);
    }
    lemma_run_end_exact(s, i + 1, i + t.len(), Class::Ident);
}

/// A quoted string at `i` is read as that string.
pub proof fn lemma_quoted_at(s: Seq<char>, i: int, t: Seq<char>)
    requires
        token_at(s, i, quoted(t)),
    ensures
        basic(s, i) == Some((ValueModel::Str(t), i + quoted(t).len())),
        ident_end(s, i) is None,
{
    let q = quoted(t);
    lemma_token_char(s, i, q, 0);
    assert(s.subrange(i + 1, i + 1 + escape_text(t).len() + 1) == escape_text(t) + seq!['"']) by {
        assert forall|k: int| 0 <= k < escape_text(t).len() + 1 implies s.subrange(
            i + 1,
            i + 1 + escape_text(t).len() + 1,
        )[k] == (escape_text(t) + seq!['"'])[k] by {
            lemma_token_char(s, i, q, k + 1);
        }
    }
    lemma_str_body_quoted(s, i + 1, t);
}

/// A decimal integer at `i`, followed by what may follow a value, is read
/// as that integer.
pub proof fn lemma_decimal_at(s: Seq<char>, i: int, n: i64)
    requires
        token_at(s, i, int_decimal(n as int)),
        value_stop(s, i + int_decimal(n as int).len()),
    ensures
        basic(s, i) == Some((ValueModel::Int(n), i + int_decimal(n as int).len())),
        ident_end(s, i) is None,
{
    let t = int_decimal(n as int);
    let m: nat = if n < 0 {
        (-n) as nat
    } else {
        n as nat
    };
    let d = nat_digits(m, 10);
    lemma_nat_digits(m, 10);
    let p = if n < 0 {
        i + 1
    } else {
        i
    };
    assert(t == if n < 0 {
        seq!['-'] + d
    } else {
        d
    });
    assert(p + d.len() == i + t.len());
    assert(s.subrange(p, p + d.len()) == d) by {
        assert forall|k: int| 0 <= k < d.len() implies s.subrange(p, p + d.len())[k] == d[k] by {
            lemma_token_char(s, i, t, p - i + k);
        }
    }
    lemma_digits_in(s, p, m, 10);
    lemma_token_char(s, i, t, 0);
    lemma_token_char(s, i, t, p - i);
    assert(at(s, i, '-') <==> n < 0);
    assert(!at(s, p + d.len(), '.'));
    assert(!at(s, p, '.'));
    assert(exponent(s, p + d.len()) is None);
    assert(float_end(s, i) is None);
    assert(radix_int(s, i, 'x', Class::Hex, 16) is None);
    assert(radix_int(s, i, 'b', Class::Bin, 2) is None);
    assert(radix_int(s, i, 'o', Class::Oct, 8) is None);
    assert(dec_int(s, i) == Some((n, i + t.len())));
}

/// A non-negative integer written `0<letter><digits>` in base 16, 8 or 2 at
/// `i`, followed by what may follow a value, is read as that integer.
pub proof fn lemma_radix_at(s: Seq<char>, i: int, n: i64, letter: char, base: nat)
    requires
        n >= 0,
        (letter == 'x' && base == 16) || (letter == 'o' && base == 8) || (letter == 'b' && base
            == 2),
        token_at(s, i, seq!['0', letter] + nat_digits(n as nat, base)),
        value_stop(s, i + 2 + nat_digits(n as nat, base).len()),
    ensures
        basic(s, i) == Some((ValueModel::Int(n), i + 2 + nat_digits(n as nat, base).len())),
        ident_end(s, i) is None,
{
    let d = nat_digits(n as nat, base);
    let t = seq!['0', letter] + d;
    lemma_nat_digits(n as nat, base);
    lemma_token_char(s, i, t, 0);
    lemma_token_char(s, i, t, 1);
    assert(s.subrange(i + 2, i + 2 + d.len()) == d) by {
        assert forall|k: int| 0 <= k < d.len() implies s.subrange(i + 2, i + 2 + d.len())[k]
            == d[k] by {
            lemma_token_char(s, i, t, 2 + k);
        }
    }
    lemma_digits_in(s, i + 2, n as nat, base);
    lemma_run_end_exact(s, i, i + 1, Class::Dec);
    assert(!at(s, i, '-'));
    assert(exponent(s, i + 1) is None);
    assert(float_end(s, i) is None);
    if letter == 'x' {
        assert(radix_int(s, i, 'x', Class::Hex, 16) == Some((n, i + 2 + d.len())));
    } else if letter == 'o' {
        assert(radix_int(s, i, 'x', Class::Hex, 16) is None);
        assert(radix_int(s, i, 'b', Class::Bin, 2) is None);
        assert(radix_int(s, i, 'o', Class::Oct, 8) == Some((n, i + 2 + d.len())));
    } else {
        assert(radix_int(s, i, 'x', Class::Hex, 16) is None);
        assert(radix_int(s, i, 'b', Class::Bin, 2) == Some((n, i + 2 + d.len())));
    }
}

// ----- Floats -----

/// `o` moved by `i`.
pub open spec fn shift(o: Option<int>, i: int) -> Option<int> {
    match o {
        Some(x) => Some(x + i),
        None => None,
    }
}

/// A run scanned in `s` at `i + k` ends where the run scanned in the token
/// `t` at `k` ends, moved by `i`.
proof fn lemma_run_end_shift(s: Seq<char>, i: int, t: Seq<char>, k: int, cl: Class)
    requires
        token_at(s, i, t),
        value_stop(s, i + t.len()),
        0 <= k <= t.len(),
    ensures
        run_end(s, i + k, cl) == i + run_end(t, k, cl),
    decreases t.len() - k,
{
    if k < t.len() {
        lemma_token_char(s, i, t, k);
        lemma_run_end_shift(s, i, t, k + 1, cl);
    }
}

proof fn lemma_at_shift(s: Seq<char>, i: int, t: Seq<char>, k: int, c: char)
    requires
        token_at(s, i, t),
        value_stop(s, i + t.len()),
        0 <= k <= t.len(),
        c != ' ' && c != ',' && c != ')',
    ensures
        at(s, i + k, c) == at(t, k, c),
{
    if k < t.len() {
        lemma_token_char(s, i, t, k);
    }
}

proof fn lemma_exponent_shift(s: Seq<char>, i: int, t: Seq<char>, q: int)
    requires
        token_at(s, i, t),
        value_stop(s, i + t.len()),
        0 <= q <= t.len(),
    ensures
        exponent(s, i + q) == shift(exponent(t, q), i),
{
    lemma_at_shift(s, i, t, q, 'e');
    lemma_at_shift(s, i, t, q, 'E');
    if at(t, q, 'e') || at(t, q, 'E') {
        lemma_at_shift(s, i, t, q + 1, '+');
        lemma_at_shift(s, i, t, q + 1, '-');
        let r = if at(t, q + 1, '+') || at(t, q + 1, '-') {
            q + 2
        } else {
            q + 1
        };
        lemma_run_end_shift(s, i, t, r, Class::Dec);
    }
}

proof fn lemma_opt_exponent_shift(s: Seq<char>, i: int, t: Seq<char>, q: int)
    requires
        token_at(s, i, t),
        value_stop(s, i + t.len()),
        0 <= q <= t.len(),
    ensures
        opt_exponent(s, i + q) == opt_exponent(t, q) + i,
{
    lemma_exponent_shift(s, i, t, q);
}

/// Where a float literal scanned in `s` at `i` ends: where the one scanned in
/// the token `t` ends, moved by `i`.
proof fn lemma_float_end_shift(s: Seq<char>, i: int, t: Seq<char>)
    requires
        token_at(s, i, t),
        value_stop(s, i + t.len()),
    ensures
        float_end(s, i) == shift(float_end(t, 0), i),
{
    lemma_at_shift(s, i, t, 0, '-');
    let p = if at(t, 0, '-') {
        1int
    } else {
        0int
    };
    lemma_run_end_shift(s, i, t, p, Class::Dec);
    lemma_run_end_bounds(t, p, Class::Dec);
    let d = run_end(t, p, Class::Dec);
    lemma_at_shift(s, i, t, d, '.');
    lemma_at_shift(s, i, t, p, '.');
    if d > p && at(t, d, '.') {
        lemma_run_end_shift(s, i, t, d + 1, Class::Dec);
        lemma_run_end_bounds(t, d + 1, Class::Dec);
        lemma_opt_exponent_shift(s, i, t, run_end(t, d + 1, Class::Dec));
    } else if at(t, p, '.') {
        lemma_run_end_shift(s, i, t, p + 1, Class::Dec);
        lemma_run_end_bounds(t, p + 1, Class::Dec);
        lemma_opt_exponent_shift(s, i, t, run_end(t, p + 1, Class::Dec));
    }
    lemma_exponent_shift(s, i, t, d);
}

proof fn lemma_exponent_last(t: Seq<char>, q: int)
    requires
        0 <= q <= t.len(),
        exponent(t, q) is Some,
    ensures
        q < exponent(t, q)->0 <= t.len(),
        is_dec_digit(t[exponent(t, q)->0 - 1]),
{
    let r = if at(t, q + 1, '+') || at(t, q + 1, '-') {
        q + 2
    } else {
        q + 1
    };
    lemma_run_end_bounds(t, r, Class::Dec);
    let e = run_end(t, r, Class::Dec);
    assert(in_class(t[e - 1], Class::Dec));
}

/// A float literal starts with `-`, a digit or `.`, and ends with a digit or
/// `.`.
pub proof fn lemma_float_shape(t: Seq<char>)
    requires
        float_end(t, 0) is Some,
    ensures
        0 < float_end(t, 0)->0 <= t.len(),
        t[0] == '-' || is_dec_digit(t[0]) || t[0] == '.',
        is_dec_digit(t[float_end(t, 0)->0 - 1]) || t[float_end(t, 0)->0 - 1] == '.',
{
    let p = if at(t, 0, '-') {
        1int
    } else {
        0int
    };
    lemma_run_end_bounds(t, p, Class::Dec);
    let d = run_end(t, p, Class::Dec);
    if d > p {
        assert(in_class(t[p], Class::Dec));
    }
    if d > p && at(t, d, '.') {
        lemma_run_end_bounds(t, d + 1, Class::Dec);
        let q = run_end(t, d + 1, Class::Dec);
        if exponent(t, q) is Some {
            lemma_exponent_last(t, q);
        } else if q > d + 1 {
            assert(in_class(t[q - 1], Class::Dec));
        }
    } else if at(t, p, '.') && run_end(t, p + 1, Class::Dec) > p + 1 {
        lemma_run_end_bounds(t, p + 1, Class::Dec);
        let q = run_end(t, p + 1, Class::Dec);
        assert(in_class(t[q - 1], Class::Dec));
        if exponent(t, q) is Some {
            lemma_exponent_last(t, q);
        }
    } else {
        lemma_exponent_last(t, d);
    }
}

/// A float literal at `i`, followed by what may follow a value, is read as
/// that float.
pub proof fn lemma_float_at(s: Seq<char>, i: int, t: Seq<char>)
    requires
        float_end(t, 0) == Some(t.len() as int),
        token_at(s, i, t),
        value_stop(s, i + t.len()),
    ensures
        basic(s, i) == Some((ValueModel::Float(t), i + t.len())),
        ident_end(s, i) is None,
{
    lemma_float_shape(t);
    lemma_float_end_shift(s, i, t);
    lemma_token_char(s, i, t, 0);
}

// ----- Values as written -----

/// A number format in base 16, 8 or 2.
pub open spec fn radix_format(f: NumberFormat) -> bool {
    f == NumberFormat::Hex || f == NumberFormat::Octal || f == NumberFormat::Binary
}

/// A value the parser reads back as itself when written with options `o`:
/// an integer unless it is negative and written in base 16, 8 or 2 (its bits
/// would be read as a larger number); a float whose text is a float literal;
/// a boolean; a string unless it is written bare as `true` or `false`.
pub open spec fn value_writable(v: ValueModel, o: FormatterOptions) -> bool {
    match v {
        ValueModel::Int(n) => n >= 0 || !radix_format(o.number_format),
        ValueModel::Float(t) => float_end(t, 0) == Some(t.len() as int),
        ValueModel::Bool(b) => true,
        ValueModel::Str(t) => !(is_identifier(t) && !o.force_quotes_for_vars && (t == true_text()
            || t == false_text())),
    }
}

/// Whether a value is written as an identifier.
pub open spec fn value_is_word(v: ValueModel, o: FormatterOptions) -> bool {
    match v {
        ValueModel::Bool(b) => true,
        ValueModel::Str(t) => is_identifier(t) && !o.force_quotes_for_vars,
        _ => false,
    }
}

/// A character that can start or end a written value.
pub open spec fn solid(c: char) -> bool {
    !is_whitespace(c) && !is_space(c) && c != '\\' && c != '(' && c != ',' && c != ')' && c
        != ':'
}

proof fn lemma_bool_words()
    ensures
        is_identifier(true_text()),
        is_identifier(false_text()),
{
    let t = true_text();
    let f = false_text();
    assert(forall|i: int| 1 <= i < t.len() ==> is_ident_char(#[trigger] t[i]));
    assert(forall|i: int| 1 <= i < f.len() ==> is_ident_char(#[trigger] f[i]));
}

/// A written value at `i`, followed by what may follow a value, is read
/// back as the value; it is scanned as an identifier exactly when it is
/// written as one, and it starts and ends with a solid character.
pub proof fn lemma_value_at(s: Seq<char>, i: int, v: ValueModel, o: FormatterOptions)
    requires
        value_writable(v, o),
        token_at(s, i, format_value_text(v, o)),
        value_stop(s, i + format_value_text(v, o).len()),
    ensures
        basic(s, i) == Some((v, i + format_value_text(v, o).len())),
        ident_end(s, i) == (if value_is_word(v, o) {
            Some(i + format_value_text(v, o).len())
        } else {
            None::<int>
        }),
        format_value_text(v, o).len() > 0,
        solid(format_value_text(v, o)[0]),
        solid(format_value_text(v, o)[format_value_text(v, o).len() - 1]),
{
    let vt = format_value_text(v, o);
    match v {
        ValueModel::Int(n) => {
            if radix_format(o.number_format) {
                let base: nat = if o.number_format == NumberFormat::Hex {
                    16
                } else if o.number_format == NumberFormat::Octal {
                    8
                } else {
                    2
                };
                let letter = if o.number_format == NumberFormat::Hex {
                    'x'
                } else if o.number_format == NumberFormat::Octal {
                    'o'
                } else {
                    'b'
                };
                assert(twos_complement(n) == n as nat);
                assert(vt == seq!['0', letter] + nat_digits(n as nat, base));
                lemma_nat_digits(n as nat, base);
                lemma_radix_at(s, i, n, letter, base);
                let d = nat_digits(n as nat, base);
                assert(vt[vt.len() - 1] == d[d.len() - 1]);
                assert(in_class(d[d.len() - 1], digit_class(base)));
            } else {
                assert(vt == int_decimal(n as int));
                lemma_decimal_at(s, i, n);
                let m: nat = if n < 0 {
                    (-n) as nat
                } else {
                    n as nat
                };
                let d = nat_digits(m, 10);
                lemma_nat_digits(m, 10);
                assert(vt[vt.len() - 1] == d[d.len() - 1]);
                assert(in_class(d[d.len() - 1], Class::Dec));
                if n >= 0 {
                    assert(in_class(d[0], Class::Dec));
                }
            }
        },
        ValueModel::Float(t) => {
            lemma_float_at(s, i, t);
            lemma_float_shape(t);
        },
        ValueModel::Bool(b) => {
            lemma_bool_words();
            lemma_word_at(s, i, vt);
            if !b {
                assert(vt != true_text());
            }
            assert(vt[vt.len() - 1] == 'e');
        },
        ValueModel::Str(t) => {
            if o.force_quotes_for_vars || !is_identifier(t) {
                assert(vt == quoted(t));
                lemma_quoted_at(s, i, t);
            } else {
                assert(vt == t);
                lemma_word_at(s, i, t);
                assert(is_ident_char(t[t.len() - 1])) by {
                    if t.len() > 1 {
                        assert(is_ident_char(t[t.len() - 1]));
                    }
                }
            }
        },
    }
}

// ----- Sequences of texts -----

/// `a` is a prefix of `b`.
pub open spec fn prefix_of(a: Seq<char>, b: Seq<char>) -> bool {
    a.len() <= b.len() && b.subrange(0, a.len() as int) == a
}

proof fn lemma_prefix_trans(a: Seq<char>, b: Seq<char>, c: Seq<char>)
    requires
        prefix_of(a, b),
        prefix_of(b, c),
    ensures
        prefix_of(a, c),
{
    assert(c.subrange(0, a.len() as int) == b.subrange(0, a.len() as int));
}

proof fn lemma_prefix_concat(a: Seq<char>, b: Seq<char>)
    ensures
        prefix_of(a, a + b),
{
    assert((a + b).subrange(0, a.len() as int) == a);
}

proof fn lemma_token_prefix(s: Seq<char>, p: int, a: Seq<char>, b: Seq<char>)
    requires
        token_at(s, p, b),
        prefix_of(a, b),
    ensures
        token_at(s, p, a),
{
    assert(s.subrange(p, p + a.len()) == b.subrange(0, a.len() as int));
}

proof fn lemma_token_concat(s: Seq<char>, p: int, a: Seq<char>, b: Seq<char>)
    requires
        token_at(s, p, a + b),
    ensures
        token_at(s, p, a),
        token_at(s, p + a.len(), b),
{
    let w = s.subrange(p, p + a.len() + b.len());
    assert(w == a + b);
    assert forall|k: int| 0 <= k < a.len() implies s.subrange(p, p + a.len())[k] == a[k] by {
        assert(w[k] == s[p + k]);
        assert((a + b)[k] == a[k]);
    }
    assert(s.subrange(p, p + a.len()) == a);
    assert forall|k: int| 0 <= k < b.len() implies s.subrange(p + a.len(), p + a.len() + b.len())[k]
        == b[k] by {
        assert(w[a.len() + k] == s[p + a.len() + k]);
        assert((a + b)[a.len() + k] == b[k]);
    }
    assert(s.subrange(p + a.len(), p + a.len() + b.len()) == b);
}

/// The written values of a list grow by a separator and a value at a time.
proof fn lemma_values_text_step(vs: Seq<ValueModel>, k: int, o: FormatterOptions)
    requires
        1 <= k < vs.len(),
    ensures
        format_values_text(vs.take(k + 1), o) == format_values_text(vs.take(k), o) + item_sep(o)
            + format_value_text(vs[k], o),
{
    assert(vs.take(k + 1).drop_last() == vs.take(k));
    assert(vs.take(k + 1).last() == vs[k]);
}

proof fn lemma_values_text_prefix(vs: Seq<ValueModel>, j: int, m: int, o: FormatterOptions)
    requires
        1 <= j <= m <= vs.len(),
    ensures
        prefix_of(format_values_text(vs.take(j), o), format_values_text(vs.take(m), o)),
    decreases m - j,
{
    if j < m {
        lemma_values_text_prefix(vs, j, m - 1, o);
        lemma_values_text_step(vs, m - 1, o);
        lemma_prefix_concat(
            format_values_text(vs.take(m - 1), o),
            item_sep(o) + format_value_text(vs[m - 1], o),
        );
        assert(format_values_text(vs.take(m - 1), o) + item_sep(o) + format_value_text(
            vs[m - 1],
            o,
        ) == format_values_text(vs.take(m - 1), o) + (item_sep(o) + format_value_text(
            vs[m - 1],
            o,
        )));
        lemma_prefix_trans(
            format_values_text(vs.take(j), o),
            format_values_text(vs.take(m - 1), o),
            format_values_text(vs.take(m), o),
        );
    } else {
        assert(format_values_text(vs.take(m), o).subrange(
            0,
            format_values_text(vs.take(m), o).len() as int,
        ) == format_values_text(vs.take(m), o));
    }
}

/// The written entries of a dictionary grow by a separator and an entry at a
/// time.
proof fn lemma_entries_text_step(es: Seq<(Seq<char>, ValueModel)>, k: int, o: FormatterOptions)
    requires
        1 <= k < es.len(),
    ensures
        format_entries_text(es.take(k + 1), o) == format_entries_text(es.take(k), o) + item_sep(o)
            + format_entry_text(es[k], o),
{
    assert(es.take(k + 1).drop_last() == es.take(k));
    assert(es.take(k + 1).last() == es[k]);
}

proof fn lemma_entries_text_prefix(es: Seq<(Seq<char>, ValueModel)>, j: int, m: int, o: FormatterOptions)
    requires
        1 <= j <= m <= es.len(),
    ensures
        prefix_of(format_entries_text(es.take(j), o), format_entries_text(es.take(m), o)),
    decreases m - j,
{
    if j < m {
        lemma_entries_text_prefix(es, j, m - 1, o);
        lemma_entries_text_step(es, m - 1, o);
        lemma_prefix_concat(
            format_entries_text(es.take(m - 1), o),
            item_sep(o) + format_entry_text(es[m - 1], o),
        );
        assert(format_entries_text(es.take(m - 1), o) + item_sep(o) + format_entry_text(
            es[m - 1],
            o,
        ) == format_entries_text(es.take(m - 1), o) + (item_sep(o) + format_entry_text(
            es[m - 1],
            o,
        )));
        lemma_prefix_trans(
            format_entries_text(es.take(j), o),
            format_entries_text(es.take(m - 1), o),
            format_entries_text(es.take(m), o),
        );
    } else {
        assert(format_entries_text(es.take(m), o).subrange(
            0,
            format_entries_text(es.take(m), o).len() as int,
        ) == format_entries_text(es.take(m), o));
    }
}

// ----- Lists -----

/// Every value of a list can be written.
pub open spec fn values_writable(vs: Seq<ValueModel>, o: FormatterOptions) -> bool {
    forall|j: int| 0 <= j < vs.len() ==> value_writable(#[trigger] vs[j], o)
}

/// The written list of `vs` sits at `p`, closed by `)`.
pub open spec fn list_at(s: Seq<char>, p: int, vs: Seq<ValueModel>, o: FormatterOptions) -> bool {
    &&& vs.len() >= 1
    &&& values_writable(vs, o)
    &&& token_at(s, p, format_values_text(vs, o))
    &&& p + format_values_text(vs, o).len() < s.len()
    &&& s[p + format_values_text(vs, o).len()] == ')'
}

/// The end of the written value `k` of a list that starts at `p`.
pub open spec fn value_end(p: int, vs: Seq<ValueModel>, o: FormatterOptions, k: int) -> int {
    p + format_values_text(vs.take(k + 1), o).len()
}

/// Value `k` of a written list, where it starts, and what follows it.
proof fn lemma_list_item(s: Seq<char>, p: int, vs: Seq<ValueModel>, o: FormatterOptions, k: int)
    requires
        list_at(s, p, vs, o),
        0 <= k < vs.len(),
    ensures
        token_at(s, value_end(p, vs, o, k) - format_value_text(vs[k], o).len(), format_value_text(vs[k], o)),
        value_stop(s, value_end(p, vs, o, k)),
        k + 1 < vs.len() ==> s[value_end(p, vs, o, k)] == ',',
        k + 1 == vs.len() ==> value_end(p, vs, o, k) == p + format_values_text(vs, o).len(),
        k >= 1 ==> token_at(s, value_end(p, vs, o, k - 1), item_sep(o)) && value_end(p, vs, o, k)
            - format_value_text(vs[k], o).len() == value_end(p, vs, o, k - 1) + item_sep(o).len(),
        k == 0 ==> value_end(p, vs, o, k) - format_value_text(vs[k], o).len() == p,
{
    let n = vs.len() as int;
    assert(vs.take(n) == vs);
    lemma_values_text_prefix(vs, k + 1, n, o);
    lemma_token_prefix(s, p, format_values_text(vs.take(k + 1), o), format_values_text(vs, o));
    if k == 0 {
        assert(vs.take(1).len() == 1);
        assert(format_values_text(vs.take(1), o) == format_value_text(vs[0], o));
    } else {
        lemma_values_text_step(vs, k, o);
        let a = format_values_text(vs.take(k), o);
        let b = item_sep(o);
        let c = format_value_text(vs[k], o);
        assert(a + b + c == a + (b + c));
        lemma_token_concat(s, p, a, b + c);
        lemma_token_concat(s, p + a.len(), b, c);
    }
    if k + 1 < n {
        lemma_values_text_step(vs, k + 1, o);
        lemma_values_text_prefix(vs, k + 2, n, o);
        let a = format_values_text(vs.take(k + 1), o);
        let b = item_sep(o) + format_value_text(vs[k + 1], o);
        assert(format_values_text(vs.take(k + 2), o) == a + b);
        lemma_token_prefix(s, p, a + b, format_values_text(vs, o));
        lemma_token_concat(s, p, a, b);
        lemma_token_char(s, p + a.len(), b, 0);
    }
}

/// After written value `k` of a list, the rest of the list is read back.
proof fn lemma_list_tail_at(s: Seq<char>, p: int, vs: Seq<ValueModel>, o: FormatterOptions, k: int)
    requires
        list_at(s, p, vs, o),
        0 <= k < vs.len(),
    ensures
        list_tail(s, value_end(p, vs, o, k)) == Scan::Done(
            vs.subrange(k + 1, vs.len() as int),
            p + format_values_text(vs, o).len(),
        ),
    decreases vs.len() - k,
{
    let n = vs.len() as int;
    let e = value_end(p, vs, o, k);
    lemma_list_item(s, p, vs, o, k);
    lemma_ws_end_none(s, e);
    if k + 1 == n {
        assert(vs.subrange(n, n) == Seq::<ValueModel>::empty());
    } else {
        lemma_list_item(s, p, vs, o, k + 1);
        let v = vs[k + 1];
        let vt = format_value_text(v, o);
        let q = e + item_sep(o).len();
        assert(values_writable(vs, o));
        assert(value_writable(vs[k + 1], o));
        lemma_value_at(s, q, v, o);
        lemma_token_char(s, q, vt, 0);
        if o.compact {
            lemma_ws_end_none(s, e + 1);
        } else {
            lemma_token_char(s, e, item_sep(o), 1);
            lemma_ws_end_one(s, e + 1);
        }
        lemma_list_tail_at(s, p, vs, o, k + 1);
        assert(seq![v] + vs.subrange(k + 2, n) == vs.subrange(k + 1, n));
    }
}

/// A written list at `p` is read back as a list, and not as a dictionary.
pub proof fn lemma_list_at(s: Seq<char>, p: int, vs: Seq<ValueModel>, o: FormatterOptions)
    requires
        list_at(s, p, vs, o),
    ensures
        list(s, p) == Scan::Done(vs, p + format_values_text(vs, o).len()),
        dict_entry(s, p) is Miss,
{
    let n = vs.len() as int;
    lemma_list_item(s, p, vs, o, 0);
    let v = vs[0];
    assert(value_writable(vs[0], o));
    lemma_value_at(s, p, v, o);
    lemma_token_char(s, p, format_value_text(v, o), 0);
    lemma_ws_end_none(s, p);
    lemma_list_tail_at(s, p, vs, o, 0);
    assert(seq![v] + vs.subrange(1, n) == vs);
    let e0 = value_end(p, vs, o, 0);
    lemma_ws_end_none(s, e0);
}

// ----- Dictionaries -----

/// Every entry of a dictionary can be written: an identifier key and a value
/// that can be written.
pub open spec fn entries_writable(es: Seq<(Seq<char>, ValueModel)>, o: FormatterOptions) -> bool {
    forall|j: int|
        0 <= j < es.len() ==> is_identifier(#[trigger] es[j].0) && value_writable(es[j].1, o)
}

/// The written dictionary of `es` sits at `p`, closed by `)`.
pub open spec fn dict_at(s: Seq<char>, p: int, es: Seq<(Seq<char>, ValueModel)>, o: FormatterOptions) -> bool {
    &&& es.len() >= 1
    &&& entries_writable(es, o)
    &&& token_at(s, p, format_entries_text(es, o))
    &&& p + format_entries_text(es, o).len() < s.len()
    &&& s[p + format_entries_text(es, o).len()] == ')'
}

/// The end of the written entry `k` of a dictionary that starts at `p`.
pub open spec fn entry_end(p: int, es: Seq<(Seq<char>, ValueModel)>, o: FormatterOptions, k: int) -> int {
    p + format_entries_text(es.take(k + 1), o).len()
}

/// Entry `k` of a written dictionary, where it starts, and what follows it.
proof fn lemma_dict_item(s: Seq<char>, p: int, es: Seq<(Seq<char>, ValueModel)>, o: FormatterOptions, k: int)
    requires
        dict_at(s, p, es, o),
        0 <= k < es.len(),
    ensures
        token_at(s, entry_end(p, es, o, k) - format_entry_text(es[k], o).len(), format_entry_text(es[k], o)),
        value_stop(s, entry_end(p, es, o, k)),
        k + 1 < es.len() ==> s[entry_end(p, es, o, k)] == ',',
        k + 1 == es.len() ==> entry_end(p, es, o, k) == p + format_entries_text(es, o).len(),
        k >= 1 ==> token_at(s, entry_end(p, es, o, k - 1), item_sep(o)) && entry_end(p, es, o, k)
            - format_entry_text(es[k], o).len() == entry_end(p, es, o, k - 1) + item_sep(o).len(),
        k == 0 ==> entry_end(p, es, o, k) - format_entry_text(es[k], o).len() == p,
{
    let n = es.len() as int;
    assert(es.take(n) == es);
    lemma_entries_text_prefix(es, k + 1, n, o);
    lemma_token_prefix(s, p, format_entries_text(es.take(k + 1), o), format_entries_text(es, o));
    if k == 0 {
        assert(es.take(1).len() == 1);
        assert(format_entries_text(es.take(1), o) == format_entry_text(es[0], o));
    } else {
        lemma_entries_text_step(es, k, o);
        let a = format_entries_text(es.take(k), o);
        let b = item_sep(o);
        let c = format_entry_text(es[k], o);
        assert(a + b + c == a + (b + c));
        lemma_token_concat(s, p, a, b + c);
        lemma_token_concat(s, p + a.len(), b, c);
    }
    if k + 1 < n {
        lemma_entries_text_step(es, k + 1, o);
        lemma_entries_text_prefix(es, k + 2, n, o);
        let a = format_entries_text(es.take(k + 1), o);
        let b = item_sep(o) + format_entry_text(es[k + 1], o);
        assert(format_entries_text(es.take(k + 2), o) == a + b);
        lemma_token_prefix(s, p, a + b, format_entries_text(es, o));
        lemma_token_concat(s, p, a, b);
        lemma_token_char(s, p + a.len(), b, 0);
    }
}

/// A written entry at `x`, reached from `p0` over whitespace, is read back.
proof fn lemma_entry_at(s: Seq<char>, p0: int, x: int, kv: (Seq<char>, ValueModel), o: FormatterOptions)
    requires
        0 <= p0 <= x,
        ws_end(s, p0) == x,
        is_identifier(kv.0),
        value_writable(kv.1, o),
        token_at(s, x, format_entry_text(kv, o)),
        value_stop(s, x + format_entry_text(kv, o).len()),
    ensures
        dict_entry(s, p0) == Scan::Done(kv, x + format_entry_text(kv, o).len()),
        solid(s[x]),
{
    let key = kv.0;
    let ks = key_sep(o);
    let vt = format_value_text(kv.1, o);
    assert(format_entry_text(kv, o) == key + (ks + vt));
    lemma_token_concat(s, x, key, ks + vt);
    lemma_token_concat(s, x + key.len(), ks, vt);
    let k = x + key.len();
    lemma_token_char(s, k, ks, 0);
    lemma_word_at(s, x, key);
    lemma_token_char(s, x, key, 0);
    lemma_ws_end_none(s, k);
    lemma_value_at(s, k + ks.len(), kv.1, o);
    lemma_token_char(s, k + ks.len(), vt, 0);
    if o.compact {
        lemma_ws_end_none(s, k + 1);
    } else {
        lemma_token_char(s, k, ks, 1);
        lemma_ws_end_one(s, k + 1);
    }
}

/// After written entry `k` of a dictionary, the rest of it is read back.
proof fn lemma_dict_tail_at(s: Seq<char>, p: int, es: Seq<(Seq<char>, ValueModel)>, o: FormatterOptions, k: int)
    requires
        dict_at(s, p, es, o),
        0 <= k < es.len(),
    ensures
        dict_tail(s, entry_end(p, es, o, k)) == Scan::Done(
            es.subrange(k + 1, es.len() as int),
            p + format_entries_text(es, o).len(),
        ),
    decreases es.len() - k,
{
    let n = es.len() as int;
    let e = entry_end(p, es, o, k);
    lemma_dict_item(s, p, es, o, k);
    lemma_ws_end_none(s, e);
    if k + 1 == n {
        assert(es.subrange(n, n) == Seq::<(Seq<char>, ValueModel)>::empty());
    } else {
        lemma_dict_item(s, p, es, o, k + 1);
        let kv = es[k + 1];
        let x = e + item_sep(o).len();
        assert(entries_writable(es, o));
        assert(is_identifier(es[k + 1].0) && value_writable(es[k + 1].1, o));
        let et = format_entry_text(kv, o);
        assert(format_entry_text(kv, o) == kv.0 + (key_sep(o) + format_value_text(kv.1, o)));
        lemma_token_concat(s, x, kv.0, key_sep(o) + format_value_text(kv.1, o));
        lemma_token_char(s, x, kv.0, 0);
        if o.compact {
            lemma_ws_end_none(s, e + 1);
        } else {
            lemma_token_char(s, e, item_sep(o), 1);
            lemma_ws_end_one(s, e + 1);
        }
        lemma_entry_at(s, e + 1, x, kv, o);
        lemma_dict_tail_at(s, p, es, o, k + 1);
        assert(seq![kv] + es.subrange(k + 2, n) == es.subrange(k + 1, n));
    }
}

/// A written dictionary at `p` is read back.
pub proof fn lemma_dict_at(s: Seq<char>, p: int, es: Seq<(Seq<char>, ValueModel)>, o: FormatterOptions)
    requires
        dict_at(s, p, es, o),
    ensures
        dict(s, p) == Scan::Done(es, p + format_entries_text(es, o).len()),
{
    let n = es.len() as int;
    lemma_dict_item(s, p, es, o, 0);
    let kv = es[0];
    assert(is_identifier(es[0].0) && value_writable(es[0].1, o));
    assert(format_entry_text(kv, o) == kv.0 + (key_sep(o) + format_value_text(kv.1, o)));
    lemma_token_concat(s, p, kv.0, key_sep(o) + format_value_text(kv.1, o));
    lemma_token_char(s, p, kv.0, 0);
    lemma_ws_end_none(s, p);
    lemma_entry_at(s, p, p, kv, o);
    lemma_dict_tail_at(s, p, es, o, 0);
    assert(seq![kv] + es.subrange(1, n) == es);
}

// ----- Parameters -----

/// A composite value that can be written and read back: a single value, a
/// list of at least two values, or a dictionary of at least one entry.
pub open spec fn composite_writable(c: CompositeModel, o: FormatterOptions) -> bool {
    match c {
        CompositeModel::Single(v) => value_writable(v, o),
        CompositeModel::List(vs) => vs.len() >= 2 && values_writable(vs, o),
        CompositeModel::Dict(es) => es.len() >= 1 && entries_writable(es, o),
    }
}

/// A parameter that can be written and read back.
pub open spec fn param_writable(p: ParamModel, o: FormatterOptions) -> bool {
    match p {
        ParamModel::Basic(v) => value_writable(v, o),
        ParamModel::Composite(n, c) => is_identifier(n) && composite_writable(c, o),
    }
}

/// What may follow a parameter: the end or a space.
pub open spec fn param_stop(s: Seq<char>, j: int) -> bool {
    j == s.len() || (0 <= j < s.len() && s[j] == ' ')
}

/// A written parameter at `i`, followed by the end or a space, is read back;
/// it starts with a character that is not whitespace or a backslash, and
/// ends with one that is not whitespace.
pub proof fn lemma_param_at(s: Seq<char>, i: int, p: ParamModel, o: FormatterOptions)
    requires
        param_writable(p, o),
        token_at(s, i, format_param_text(p, o)),
        param_stop(s, i + format_param_text(p, o).len()),
    ensures
        param(s, i) == Scan::Done(p, i + format_param_text(p, o).len()),
        format_param_text(p, o).len() > 0,
        !is_space(format_param_text(p, o)[0]) && format_param_text(p, o)[0] != '\\',
        !is_whitespace(format_param_text(p, o)[format_param_text(p, o).len() - 1]),
        format_param_text(p, o)[format_param_text(p, o).len() - 1] != '\\',
{
    let pt = format_param_text(p, o);
    match p {
        ParamModel::Basic(v) => {
            lemma_value_at(s, i, v, o);
        },
        ParamModel::Composite(n, c) => {
            let inner = match c {
                CompositeModel::Single(v) => format_value_text(v, o),
                CompositeModel::List(vs) => format_values_text(vs, o),
                CompositeModel::Dict(es) => format_entries_text(es, o),
            };
            assert(pt == n + (seq!['('] + inner + seq![')']));
            lemma_token_concat(s, i, n, seq!['('] + inner + seq![')']);
            let ne = i + n.len();
            assert(seq!['('] + inner + seq![')'] == seq!['('] + (inner + seq![')']));
            lemma_token_concat(s, ne, seq!['('], inner + seq![')']);
            lemma_token_concat(s, ne + 1, inner, seq![')']);
            lemma_token_char(s, ne, seq!['('], 0);
            let r = ne + 1 + inner.len();
            lemma_token_char(s, r, seq![')'], 0);
            lemma_word_at(s, i, n);
            lemma_token_char(s, i, n, 0);
            assert(pt[pt.len() - 1] == ')');
            lemma_ws_end_none(s, r);
            match c {
                CompositeModel::Single(v) => {
                    let vs = seq![v];
                    assert(format_values_text(vs, o) == format_value_text(v, o));
                    assert(values_writable(vs, o));
                    lemma_list_item(s, ne + 1, vs, o, 0);
                    lemma_value_at(s, ne + 1, v, o);
                    lemma_token_char(s, ne + 1, format_value_text(v, o), 0);
                    lemma_ws_end_none(s, ne + 1);
                    lemma_list_at(s, ne + 1, vs, o);
                },
                CompositeModel::List(vs) => {
                    lemma_list_item(s, ne + 1, vs, o, 0);
                    assert(value_writable(vs[0], o));
                    lemma_value_at(s, ne + 1, vs[0], o);
                    lemma_token_char(s, ne + 1, format_value_text(vs[0], o), 0);
                    lemma_ws_end_none(s, ne + 1);
                    lemma_list_at(s, ne + 1, vs, o);
                },
                CompositeModel::Dict(es) => {
                    lemma_dict_item(s, ne + 1, es, o, 0);
                    assert(is_identifier(es[0].0) && value_writable(es[0].1, o));
                    let kv = es[0];
                    assert(format_entry_text(kv, o) == kv.0 + (key_sep(o) + format_value_text(
                        kv.1,
                        o,
                    )));
                    lemma_token_concat(s, ne + 1, kv.0, key_sep(o) + format_value_text(kv.1, o));
                    lemma_token_char(s, ne + 1, kv.0, 0);
                    lemma_ws_end_none(s, ne + 1);
                    lemma_dict_at(s, ne + 1, es, o);
                },
            }
        },
    }
}

/// Every parameter of `ps` can be written with its options.
pub open spec fn params_writable(
    ps: Seq<ParamModel>,
    o: FormatterOptions,
    map: Option<Seq<(SelectorModel, FormatterOptions)>>,
) -> bool {
    forall|k: int| 0 <= k < ps.len() ==> param_writable(#[trigger] ps[k], options_at(ps, k, o, map))
}

/// No parameter of `ps` starts a new line: none asks for a break before
/// it, and none but the last for a break after it.
pub open spec fn no_breaks(
    ps: Seq<ParamModel>,
    o: FormatterOptions,
    map: Option<Seq<(SelectorModel, FormatterOptions)>>,
) -> bool {
    &&& forall|k: int|
        0 <= k < ps.len() ==> !(#[trigger] options_at(ps, k, o, map)).newline_before_param
    &&& forall|k: int|
        0 <= k < ps.len() - 1 ==> !(#[trigger] options_at(ps, k, o, map)).newline_after_param
}

proof fn lemma_params_out_step(
    ps: Seq<ParamModel>,
    k: int,
    o: FormatterOptions,
    map: Option<Seq<(SelectorModel, FormatterOptions)>>,
    level: int,
)
    requires
        0 <= k < ps.len(),
        no_breaks(ps, o, map),
    ensures
        params_out(ps, 0, k + 1, o, map, level) == params_out(ps, 0, k, o, map, level) + seq![' ']
            + format_param_text(ps[k], options_at(ps, k, o, map)),
{
    let ok = options_at(ps, k, o, map);
    assert(!ok.newline_before_param);
    if k > 0 {
        assert(!options_at(ps, k - 1, o, map).newline_after_param);
    }
    assert(param_sep(ps, 0, k, o, map, level) == seq![' ']);
}

proof fn lemma_params_out_prefix(
    ps: Seq<ParamModel>,
    j: int,
    m: int,
    o: FormatterOptions,
    map: Option<Seq<(SelectorModel, FormatterOptions)>>,
    level: int,
)
    requires
        0 <= j <= m <= ps.len(),
        no_breaks(ps, o, map),
    ensures
        prefix_of(params_out(ps, 0, j, o, map, level), params_out(ps, 0, m, o, map, level)),
    decreases m - j,
{
    if j < m {
        lemma_params_out_prefix(ps, j, m - 1, o, map, level);
        lemma_params_out_step(ps, m - 1, o, map, level);
        let a = params_out(ps, 0, m - 1, o, map, level);
        let b = seq![' '] + format_param_text(ps[m - 1], options_at(ps, m - 1, o, map));
        assert(params_out(ps, 0, m, o, map, level) == a + b);
        lemma_prefix_concat(a, b);
        lemma_prefix_trans(params_out(ps, 0, j, o, map, level), a, a + b);
    } else {
        let a = params_out(ps, 0, m, o, map, level);
        assert(a.subrange(0, a.len() as int) == a);
    }
}

/// After the first `k` written parameters comes the end of the input or a
/// space.
proof fn lemma_param_followed(
    s: Seq<char>,
    base: int,
    ps: Seq<ParamModel>,
    o: FormatterOptions,
    map: Option<Seq<(SelectorModel, FormatterOptions)>>,
    level: int,
    k: int,
)
    requires
        0 <= base,
        token_at(s, base, params_out(ps, 0, ps.len() as int, o, map, level)),
        base + params_out(ps, 0, ps.len() as int, o, map, level).len() == s.len(),
        no_breaks(ps, o, map),
        0 <= k <= ps.len(),
    ensures
        param_stop(s, base + params_out(ps, 0, k, o, map, level).len()),
{
    let n = ps.len() as int;
    lemma_params_out_prefix(ps, k, n, o, map, level);
    if k < n {
        lemma_params_out_step(ps, k, o, map, level);
        lemma_params_out_prefix(ps, k + 1, n, o, map, level);
        let a2 = params_out(ps, 0, k, o, map, level);
        let b2 = seq![' '] + format_param_text(ps[k], options_at(ps, k, o, map));
        assert(params_out(ps, 0, k + 1, o, map, level) == a2 + b2);
        lemma_token_prefix(s, base, a2 + b2, params_out(ps, 0, n, o, map, level));
        lemma_token_concat(s, base, a2, b2);
        lemma_token_char(s, base + a2.len(), b2, 0);
    }
}

/// The written parameters from `k` on, each after a space, are read back up
/// to the end of the input.
#[verifier::spinoff_prover]
#[verifier::rlimit(30)]
proof fn lemma_params_tail_at(
    s: Seq<char>,
    base: int,
    ps: Seq<ParamModel>,
    o: FormatterOptions,
    map: Option<Seq<(SelectorModel, FormatterOptions)>>,
    level: int,
    k: int,
)
    requires
        0 <= base,
        token_at(s, base, params_out(ps, 0, ps.len() as int, o, map, level)),
        base + params_out(ps, 0, ps.len() as int, o, map, level).len() == s.len(),
        params_writable(ps, o, map),
        no_breaks(ps, o, map),
        0 <= k <= ps.len(),
    ensures
        params_tail(s, base + params_out(ps, 0, k, o, map, level).len()) == Scan::Done(
            ps.subrange(k, ps.len() as int),
            s.len() as int,
        ),
    decreases ps.len() - k,
{
    let n = ps.len() as int;
    let pk = base + params_out(ps, 0, k, o, map, level).len();
    lemma_params_out_prefix(ps, k, n, o, map, level);
    if k == n {
        assert(ps.subrange(n, n) == Seq::<ParamModel>::empty());
    } else {
        lemma_params_out_step(ps, k, o, map, level);
        lemma_params_out_prefix(ps, k + 1, n, o, map, level);
        let a = params_out(ps, 0, k, o, map, level);
        let pt = format_param_text(ps[k], options_at(ps, k, o, map));
        let b = seq![' '] + pt;
        assert(params_out(ps, 0, k + 1, o, map, level) == a + b);
        lemma_token_prefix(s, base, a + b, params_out(ps, 0, n, o, map, level));
        lemma_token_concat(s, base, a, b);
        lemma_token_concat(s, pk, seq![' '], pt);
        lemma_token_char(s, pk, seq![' '], 0);
        lemma_param_followed(s, base, ps, o, map, level, k + 1);
        assert(param_writable(ps[k], options_at(ps, k, o, map)));
        lemma_param_at(s, pk + 1, ps[k], options_at(ps, k, o, map));
        lemma_token_char(s, pk + 1, pt, 0);
        lemma_ws_end_one(s, pk);
        lemma_params_tail_at(s, base, ps, o, map, level, k + 1);
        assert(seq![ps[k]] + ps.subrange(k + 1, n) == ps.subrange(k, n));
    }
}

// ----- Commands and lines -----

/// A command that the writer writes on one line and the parser reads back:
/// an identifier as name, parameters that can be written with their
/// options, and no parameter on a line of its own.
pub open spec fn command_writable(
    c: CommandModel,
    o: FormatterOptions,
    map: Option<Seq<(SelectorModel, FormatterOptions)>>,
) -> bool {
    &&& is_identifier(c.name)
    &&& params_writable(c.params, o, map)
    &&& no_breaks(c.params, o, map)
}

/// A command name at the start of `s`, followed by a space or the end.
proof fn lemma_name_at(s: Seq<char>, nm: Seq<char>)
    requires
        is_identifier(nm),
        token_at(s, 0, nm),
        nm.len() == s.len() || s[nm.len() as int] == ' ',
    ensures
        name(s) == Some((nm, None::<i64>, nm.len() as int)),
{
    lemma_word_at(s, 0, nm);
}

/// The written parameters of a command end with a character that is not
/// whitespace.
proof fn lemma_params_last(
    ps: Seq<ParamModel>,
    o: FormatterOptions,
    map: Option<Seq<(SelectorModel, FormatterOptions)>>,
    level: int,
)
    requires
        ps.len() > 0,
        params_writable(ps, o, map),
        no_breaks(ps, o, map),
    ensures
        params_out(ps, 0, ps.len() as int, o, map, level).len() > 0,
        !is_whitespace(params_out(ps, 0, ps.len() as int, o, map, level).last()),
        params_out(ps, 0, ps.len() as int, o, map, level).last() != '\\',
{
    let n = ps.len() as int;
    lemma_params_out_step(ps, n - 1, o, map, level);
    let pt = format_param_text(ps[n - 1], options_at(ps, n - 1, o, map));
    let a = params_out(ps, 0, n - 1, o, map, level);
    let t = a + seq![' '] + pt;
    assert(param_writable(ps[n - 1], options_at(ps, n - 1, o, map)));
    assert(token_at(pt, 0, pt)) by {
        assert(pt.subrange(0, pt.len() as int) == pt);
    }
    lemma_param_at(pt, 0, ps[n - 1], options_at(ps, n - 1, o, map));
    assert(t.last() == pt.last());
}

/// The text of a command after its `#` marks is read back as the command.
pub proof fn lemma_command_text_parses(
    c: CommandModel,
    o: FormatterOptions,
    map: Option<Seq<(SelectorModel, FormatterOptions)>>,
    level: int,
)
    requires
        command_writable(c, o, map),
    ensures
        command_line(c.name + params_out(c.params, 0, c.params.len() as int, o, map, level))
            == Scan::Done(
            (c, None::<i64>),
            (c.name + params_out(c.params, 0, c.params.len() as int, o, map, level)).len() as int,
        ),
{
    let ps = c.params;
    let n = ps.len() as int;
    let po = params_out(ps, 0, n, o, map, level);
    let s = c.name + po;
    assert(token_at(s, 0, c.name + po)) by {
        assert(s.subrange(0, s.len() as int) == s);
    }
    lemma_token_concat(s, 0, c.name, po);
    assert(params_out(ps, 0, 0, o, map, level) == Seq::<char>::empty());
    if n > 0 {
        assert(s[c.name.len() as int] == ' ') by {
            lemma_params_out_step(ps, 0, o, map, level);
            lemma_params_out_prefix(ps, 1, n, o, map, level);
            let b = seq![' '] + format_param_text(ps[0], options_at(ps, 0, o, map));
            assert(params_out(ps, 0, 1, o, map, level) == b);
            lemma_token_prefix(s, c.name.len() as int, b, po);
            lemma_token_char(s, c.name.len() as int, b, 0);
        }
    }
    lemma_name_at(s, c.name);
    lemma_params_tail_at(s, c.name.len() as int, ps, o, map, level, 0);
    assert(ps.subrange(0, n) == ps);
}

/// The text of a command after its `#` marks ends with a character that is
/// not whitespace.
pub proof fn lemma_command_text_last(
    c: CommandModel,
    o: FormatterOptions,
    map: Option<Seq<(SelectorModel, FormatterOptions)>>,
    level: int,
)
    requires
        command_writable(c, o, map),
    ensures
        !is_whitespace(
            (c.name + params_out(c.params, 0, c.params.len() as int, o, map, level)).last(),
        ),
        (c.name + params_out(c.params, 0, c.params.len() as int, o, map, level)).last() != '\\',
{
    let po = params_out(c.params, 0, c.params.len() as int, o, map, level);
    if c.params.len() > 0 {
        lemma_params_last(c.params, o, map, level);
        assert((c.name + po).last() == po.last());
    } else {
        assert(po == Seq::<char>::empty());
        assert(c.name + po == c.name);
        assert(is_ident_char(c.name[c.name.len() - 1])) by {
            if c.name.len() > 1 {
                assert(is_ident_char(c.name[c.name.len() - 1]));
            }
        }
    }
}

/// A run of whitespace from `i` to `j`, then a character that is not
/// whitespace.
proof fn lemma_skip_ws_exact(s: Seq<char>, i: int, j: int)
    requires
        0 <= i <= j < s.len(),
        forall|k: int| i <= k < j ==> is_whitespace(#[trigger] s[k]),
        !is_whitespace(s[j]),
    ensures
        skip_ws(s, i) == j,
    decreases j - i,
{
    if i < j {
        lemma_skip_ws_exact(s, i + 1, j);
    }
}

/// A run of `#` from `i` to `j`, then another character.
proof fn lemma_hash_end_exact(s: Seq<char>, i: int, j: int)
    requires
        0 <= i <= j < s.len(),
        forall|k: int| i <= k < j ==> #[trigger] s[k] == '#',
        s[j] != '#',
    ensures
        hash_end(s, i) == j,
    decreases j - i,
{
    if i < j {
        lemma_hash_end_exact(s, i + 1, j);
    }
}

/// A line of indentation, a text that starts and ends with characters that
/// are not whitespace, and a line break, trims to the text.
proof fn lemma_trim_line(ind: Seq<char>, body: Seq<char>)
    requires
        forall|k: int| 0 <= k < ind.len() ==> is_whitespace(#[trigger] ind[k]),
        body.len() > 0,
        !is_whitespace(body[0]),
        !is_whitespace(body.last()),
    ensures
        trim(ind + body + seq!['\n']) == body,
        skip_ws(ind + body + seq!['\n'], 0) == ind.len(),
{
    let line = ind + body + seq!['\n'];
    assert forall|k: int| 0 <= k < ind.len() implies is_whitespace(#[trigger] line[k]) by {
        assert(line[k] == ind[k]);
    }
    assert(line[ind.len() as int] == body[0]);
    lemma_skip_ws_exact(line, 0, ind.len() as int);
    let len = line.len() as int;
    assert(line[len - 1] == '\n');
    assert(line[len - 2] == body.last());
    assert(trim_end_at(line, len - 1) == len - 1);
    assert(trim_end_at(line, len) == len - 1);
    assert(line.subrange(ind.len() as int, len - 1) == body);
}

/// The indentation of the writer is whitespace.
proof fn lemma_indent_is_ws(level: int, o: FormatterOptions)
    ensures
        forall|k: int|
            0 <= k < indent_text(level, o).len() ==> is_whitespace(#[trigger] indent_text(level, o)[k]),
{
}

/// The text of a regular command: its marks, its name, its parameters.
proof fn lemma_body_regular(
    c: CommandModel,
    threshold: int,
    o: FormatterOptions,
    map: Option<Seq<(SelectorModel, FormatterOptions)>>,
    level: int,
)
    requires
        is_identifier(c.name),
    ensures
        command_body(c, threshold, o, map, level) == hashes(threshold) + (c.name + params_out(
            c.params,
            0,
            c.params.len() as int,
            o,
            map,
            level,
        )),
{
    assert(c.name != text_name()) by {
        assert(!is_ident_start(text_name()[0]));
    }
    assert(c.name != annotation_name()) by {
        assert(!is_ident_start(annotation_name()[0]));
    }
    assert(c.name != number_name()) by {
        assert(!is_ident_start(number_name()[0]));
    }
}

/// The line the writer produces for a command (its indentation, its text
/// and a line break) is a line from which the parser, with the same command
/// threshold, yields that very command, whatever its other settings.
#[verifier::spinoff_prover]
#[verifier::rlimit(30)]
pub proof fn lemma_written_line_parses(
    c: CommandModel,
    threshold: usize,
    level: int,
    o: FormatterOptions,
    map: Option<Seq<(SelectorModel, FormatterOptions)>>,
    pconfig: ParserConfig,
)
    requires
        command_writable(c, o, map),
        pconfig.command_threshold == threshold,
        level >= 0,
        (indent_text(level, o) + command_body(c, threshold as int, o, map, level) + seq!['\n']).len()
            <= max_line_len(),
    ensures
        line_command(
            pconfig,
            indent_text(level, o) + command_body(c, threshold as int, o, map, level) + seq!['\n'],
            c,
        ),
        forall|n: usize, r: Option<ParseResult<Option<Command>>>|
            #[trigger] line_result(
                pconfig,
                n,
                indent_text(level, o) + command_body(c, threshold as int, o, map, level) + seq!['\n'],
                r,
            ) ==> (r matches Some(Ok(Some(c2))) && c2@ == c),
{
    let ind = indent_text(level, o);
    let h = hashes(threshold as int);
    let text = c.name + params_out(c.params, 0, c.params.len() as int, o, map, level);
    let body = command_body(c, threshold as int, o, map, level);
    lemma_body_regular(c, threshold as int, o, map, level);
    assert(body == h + text);
    lemma_command_text_parses(c, o, map, level);
    lemma_command_text_last(c, o, map, level);
    assert(text[0] == c.name[0]);
    assert(!is_whitespace(body[0])) by {
        if threshold > 0 {
            assert(body[0] == '#');
        } else {
            assert(body[0] == text[0]);
        }
    }
    assert(body.last() == text.last());
    lemma_indent_is_ws(level, o);
    lemma_trim_line(ind, body);
    let line = ind + body + seq!['\n'];
    assert forall|k: int| 0 <= k < threshold implies #[trigger] body[k] == '#' by {}
    assert(body[threshold as int] == c.name[0]);
    lemma_hash_end_exact(body, 0, threshold as int);
    assert(body.subrange(threshold as int, body.len() as int) == text);
    assert(classify_line(pconfig, line) matches LineKind::Command(t, _) && t == text);
}

// ----- One line -----

/// `s` holds no line break.
pub open spec fn one_line(s: Seq<char>) -> bool {
    forall|k: int| 0 <= k < s.len() ==> #[trigger] s[k] != '\n'
}

proof fn lemma_one_line_concat(a: Seq<char>, b: Seq<char>)
    requires
        one_line(a),
        one_line(b),
    ensures
        one_line(a + b),
{
    assert forall|k: int| 0 <= k < (a + b).len() implies #[trigger] (a + b)[k] != '\n' by {
        if k < a.len() {
            assert((a + b)[k] == a[k]);
        } else {
            assert((a + b)[k] == b[k - a.len()]);
        }
    }
}

proof fn lemma_escape_one_line(t: Seq<char>)
    ensures
        one_line(escape_text(t)),
    decreases t.len(),
{
    if t.len() > 0 {
        lemma_escape_one_line(t.drop_last());
        lemma_one_line_concat(escape_text(t.drop_last()), escape_char(t.last()));
    }
}

/// A character of a float literal.
pub open spec fn float_char(c: char) -> bool {
    is_dec_digit(c) || c == '-' || c == '+' || c == '.' || c == 'e' || c == 'E'
}

proof fn lemma_exponent_chars(t: Seq<char>, q: int)
    requires
        0 <= q <= t.len(),
        exponent(t, q) is Some,
    ensures
        forall|k: int| q <= k < exponent(t, q)->0 ==> float_char(#[trigger] t[k]),
{
    let r = if at(t, q + 1, '+') || at(t, q + 1, '-') {
        q + 2
    } else {
        q + 1
    };
    lemma_run_end_bounds(t, r, Class::Dec);
}

/// The characters of a float literal are digits, signs, points and
/// exponent marks.
proof fn lemma_float_chars(t: Seq<char>)
    requires
        float_end(t, 0) is Some,
    ensures
        forall|k: int| 0 <= k < float_end(t, 0)->0 ==> float_char(#[trigger] t[k]),
{
    lemma_float_shape(t);
    let p = if at(t, 0, '-') {
        1int
    } else {
        0int
    };
    lemma_run_end_bounds(t, p, Class::Dec);
    let d = run_end(t, p, Class::Dec);
    if d > p && at(t, d, '.') {
        lemma_run_end_bounds(t, d + 1, Class::Dec);
        let q = run_end(t, d + 1, Class::Dec);
        if exponent(t, q) is Some {
            lemma_exponent_chars(t, q);
        }
    } else if at(t, p, '.') && run_end(t, p + 1, Class::Dec) > p + 1 {
        lemma_run_end_bounds(t, p + 1, Class::Dec);
        let q = run_end(t, p + 1, Class::Dec);
        if exponent(t, q) is Some {
            lemma_exponent_chars(t, q);
        }
    } else {
        lemma_exponent_chars(t, d);
    }
}

proof fn lemma_value_one_line(v: ValueModel, o: FormatterOptions)
    requires
        value_writable(v, o),
    ensures
        one_line(format_value_text(v, o)),
{
    let vt = format_value_text(v, o);
    match v {
        ValueModel::Int(n) => {
            if radix_format(o.number_format) {
                let base: nat = if o.number_format == NumberFormat::Hex {
                    16
                } else if o.number_format == NumberFormat::Octal {
                    8
                } else {
                    2
                };
                lemma_nat_digits(twos_complement(n), base);
                let d = nat_digits(twos_complement(n), base);
                assert forall|k: int| 0 <= k < vt.len() implies #[trigger] vt[k] != '\n' by {
                    if k >= 2 {
                        assert(vt[k] == d[k - 2]);
                        assert(in_class(d[k - 2], digit_class(base)));
                    }
                }
            } else {
                let m: nat = if n < 0 {
                    (-n) as nat
                } else {
                    n as nat
                };
                lemma_nat_digits(m, 10);
                let d = nat_digits(m, 10);
                assert forall|k: int| 0 <= k < vt.len() implies #[trigger] vt[k] != '\n' by {
                    if n < 0 {
                        if k >= 1 {
                            assert(vt[k] == d[k - 1]);
                            assert(in_class(d[k - 1], Class::Dec));
                        }
                    } else {
                        assert(vt[k] == d[k]);
                        assert(in_class(d[k], Class::Dec));
                    }
                }
            }
        },
        ValueModel::Float(t) => {
            lemma_float_chars(t);
        },
        ValueModel::Bool(b) => {},
        ValueModel::Str(t) => {
            if o.force_quotes_for_vars || !is_identifier(t) {
                lemma_escape_one_line(t);
                lemma_one_line_concat(seq!['"'], escape_text(t));
                lemma_one_line_concat(seq!['"'] + escape_text(t), seq!['"']);
            } else {
                assert forall|k: int| 0 <= k < t.len() implies #[trigger] t[k] != '\n' by {
                    if k > 0 {
                        assert(is_ident_char(t[k]));
                    }
                }
            }
        },
    }
}

proof fn lemma_values_one_line(vs: Seq<ValueModel>, o: FormatterOptions)
    requires
        values_writable(vs, o),
    ensures
        one_line(format_values_text(vs, o)),
    decreases vs.len(),
{
    if vs.len() == 1 {
        assert(value_writable(vs[0], o));
        lemma_value_one_line(vs[0], o);
    } else if vs.len() > 1 {
        assert(values_writable(vs.drop_last(), o)) by {
            assert forall|j: int| 0 <= j < vs.drop_last().len() implies value_writable(
                #[trigger] vs.drop_last()[j],
                o,
            ) by {
                assert(vs.drop_last()[j] == vs[j]);
            }
        }
        lemma_values_one_line(vs.drop_last(), o);
        assert(value_writable(vs[vs.len() - 1], o));
        lemma_value_one_line(vs.last(), o);
        lemma_one_line_concat(format_values_text(vs.drop_last(), o), item_sep(o));
        lemma_one_line_concat(
            format_values_text(vs.drop_last(), o) + item_sep(o),
            format_value_text(vs.last(), o),
        );
    }
}

proof fn lemma_entry_one_line(e: (Seq<char>, ValueModel), o: FormatterOptions)
    requires
        is_identifier(e.0),
        value_writable(e.1, o),
    ensures
        one_line(format_entry_text(e, o)),
{
    assert forall|k: int| 0 <= k < e.0.len() implies #[trigger] e.0[k] != '\n' by {
        if k > 0 {
            assert(is_ident_char(e.0[k]));
        }
    }
    lemma_value_one_line(e.1, o);
    lemma_one_line_concat(e.0, key_sep(o));
    lemma_one_line_concat(e.0 + key_sep(o), format_value_text(e.1, o));
}

#[verifier::spinoff_prover]
proof fn lemma_entries_one_line(es: Seq<(Seq<char>, ValueModel)>, o: FormatterOptions)
    requires
        entries_writable(es, o),
    ensures
        one_line(format_entries_text(es, o)),
    decreases es.len(),
{
    if es.len() == 1 {
        assert(is_identifier(es[0].0) && value_writable(es[0].1, o));
        lemma_entry_one_line(es[0], o);
    } else if es.len() > 1 {
        assert(entries_writable(es.drop_last(), o)) by {
            assert forall|j: int| 0 <= j < es.drop_last().len() implies is_identifier(
                #[trigger] es.drop_last()[j].0,
            ) && value_writable(es.drop_last()[j].1, o) by {
                assert(es.drop_last()[j] == es[j]);
            }
        }
        let j = es.len() - 1;
        assert(is_identifier(es[j].0) && value_writable(es[j].1, o));
        lemma_entries_one_line(es.drop_last(), o);
        lemma_entry_one_line(es[j], o);
        lemma_one_line_concat(format_entries_text(es.drop_last(), o), item_sep(o));
        lemma_one_line_concat(
            format_entries_text(es.drop_last(), o) + item_sep(o),
            format_entry_text(es.last(), o),
        );
    }
}

proof fn lemma_param_one_line(p: ParamModel, o: FormatterOptions)
    requires
        param_writable(p, o),
    ensures
        one_line(format_param_text(p, o)),
{
    match p {
        ParamModel::Basic(v) => lemma_value_one_line(v, o),
        ParamModel::Composite(n, c) => {
            let inner = match c {
                CompositeModel::Single(v) => format_value_text(v, o),
                CompositeModel::List(vs) => format_values_text(vs, o),
                CompositeModel::Dict(es) => format_entries_text(es, o),
            };
            match c {
                CompositeModel::Single(v) => lemma_value_one_line(v, o),
                CompositeModel::List(vs) => lemma_values_one_line(vs, o),
                CompositeModel::Dict(es) => lemma_entries_one_line(es, o),
            }
            assert forall|k: int| 0 <= k < n.len() implies #[trigger] n[k] != '\n' by {
                if k > 0 {
                    assert(is_ident_char(n[k]));
                }
            }
            lemma_one_line_concat(seq!['('], inner);
            lemma_one_line_concat(seq!['('] + inner, seq![')']);
            lemma_one_line_concat(n, seq!['('] + inner + seq![')']);
            assert(format_param_text(p, o) == n + (seq!['('] + inner + seq![')']));
        },
    }
}

proof fn lemma_params_one_line(
    ps: Seq<ParamModel>,
    k: int,
    o: FormatterOptions,
    map: Option<Seq<(SelectorModel, FormatterOptions)>>,
    level: int,
)
    requires
        0 <= k <= ps.len(),
        params_writable(ps, o, map),
        no_breaks(ps, o, map),
    ensures
        one_line(params_out(ps, 0, k, o, map, level)),
    decreases k,
{
    if k > 0 {
        lemma_params_one_line(ps, k - 1, o, map, level);
        lemma_params_out_step(ps, k - 1, o, map, level);
        assert(param_writable(ps[k - 1], options_at(ps, k - 1, o, map)));
        lemma_param_one_line(ps[k - 1], options_at(ps, k - 1, o, map));
        lemma_one_line_concat(params_out(ps, 0, k - 1, o, map, level), seq![' ']);
        lemma_one_line_concat(
            params_out(ps, 0, k - 1, o, map, level) + seq![' '],
            format_param_text(ps[k - 1], options_at(ps, k - 1, o, map)),
        );
    }
}

// ----- Lines of the output -----

proof fn lemma_line_end_exact(s: Seq<char>, i: int, j: int)
    requires
        0 <= i <= j < s.len(),
        forall|k: int| i <= k < j ==> #[trigger] s[k] != '\n',
        s[j] == '\n',
    ensures
        line_end(s, i) == j + 1,
    decreases j - i,
{
    if i < j {
        lemma_line_end_exact(s, i + 1, j);
    }
}

/// A line with its line break at `i` is the first line from `i`.
proof fn lemma_lines_from_line(s: Seq<char>, i: int, a: Seq<char>)
    requires
        token_at(s, i, a),
        a.len() >= 1,
        a.last() == '\n',
        one_line(a.drop_last()),
    ensures
        lines_from(s, i) == seq![a] + lines_from(s, i + a.len()),
{
    assert forall|k: int| i <= k < i + a.len() - 1 implies #[trigger] s[k] != '\n' by {
        lemma_token_char(s, i, a, k - i);
        assert(a.drop_last()[k - i] == a[k - i]);
    }
    lemma_token_char(s, i, a, a.len() - 1);
    lemma_line_end_exact(s, i, i + a.len() - 1);
}

/// The blank line.
pub open spec fn blank_line() -> Seq<char> {
    seq!['\n']
}

/// A blank line does not continue, and is skipped, or read as empty text
/// when empty lines are kept.
pub proof fn lemma_blank_line(config: ParserConfig)
    ensures
        !continues(blank_line()),
        classify_line(config, blank_line()) == if config.preserve_empty_lines {
            LineKind::Text(Seq::empty())
        } else {
            LineKind::Skip
        },
{
    let b = blank_line();
    assert(skip_ws(b, 1) == 1);
    assert(skip_ws(b, 0) == 1);
}

/// The line the writer writes for a command.
pub open spec fn written_line(
    c: CommandModel,
    threshold: int,
    level: int,
    o: FormatterOptions,
    map: Option<Seq<(SelectorModel, FormatterOptions)>>,
) -> Seq<char> {
    indent_text(level, o) + command_body(c, threshold, o, map, level) + seq!['\n']
}

/// The text the writer adds for a command that can be written and read
/// back splits into the blank lines asked for before and after it and the
/// command's own line, which does not continue onto the next.
pub proof fn lemma_output_lines(
    last_was_newline: bool,
    level: int,
    threshold: usize,
    o: FormatterOptions,
    c: CommandModel,
    map: Option<Seq<(SelectorModel, FormatterOptions)>>,
)
    requires
        command_writable(c, o, map),
        level >= 0,
    ensures
        split_lines(command_output(last_was_newline, level, threshold as int, o, c, map)) == (if o.newline_before
            && !last_was_newline {
            seq![blank_line()]
        } else {
            Seq::empty()
        }) + seq![written_line(c, threshold as int, level, o, map)] + (if o.newline_after {
            seq![blank_line()]
        } else {
            Seq::empty()
        }),
        !continues(written_line(c, threshold as int, level, o, map)),
{
    let ind = indent_text(level, o);
    let text = c.name + params_out(c.params, 0, c.params.len() as int, o, map, level);
    let body = command_body(c, threshold as int, o, map, level);
    lemma_body_regular(c, threshold as int, o, map, level);
    let line = written_line(c, threshold as int, level, o, map);
    // the command's line has its only line break at its end
    lemma_params_one_line(c.params, c.params.len() as int, o, map, level);
    assert forall|k: int| 0 <= k < c.name.len() implies #[trigger] c.name[k] != '\n' by {
        if k > 0 {
            assert(is_ident_char(c.name[k]));
        }
    }
    lemma_one_line_concat(c.name, params_out(c.params, 0, c.params.len() as int, o, map, level));
    assert(one_line(hashes(threshold as int)));
    lemma_one_line_concat(hashes(threshold as int), text);
    lemma_indent_is_ws(level, o);
    assert(one_line(ind)) by {
        assert forall|k: int| 0 <= k < ind.len() implies #[trigger] ind[k] != '\n' by {
            assert(is_whitespace(ind[k]));
            assert(ind[k] == ' ' || ind[k] == '\t');
        }
    }
    lemma_one_line_concat(ind, body);
    assert(line.drop_last() == ind + body);
    // it does not continue
    lemma_command_text_last(c, o, map, level);
    assert(line[line.len() - 2] == text.last());
    // the lines of the output
    let pre: Seq<char> = if o.newline_before && !last_was_newline {
        seq!['\n']
    } else {
        Seq::empty()
    };
    let post: Seq<char> = if o.newline_after {
        seq!['\n']
    } else {
        Seq::empty()
    };
    let out = command_output(last_was_newline, level, threshold as int, o, c, map);
    assert(out == pre + line + post);
    assert(token_at(out, pre.len() as int, line)) by {
        assert(out.subrange(pre.len() as int, (pre.len() + line.len()) as int) == line);
    }
    lemma_lines_from_line(out, pre.len() as int, line);
    let after: int = (pre.len() + line.len()) as int;
    if o.newline_after {
        assert(token_at(out, after, blank_line())) by {
            assert(out.subrange(after, after + 1) == blank_line());
        }
        assert(blank_line().drop_last() == Seq::<char>::empty());
        lemma_lines_from_line(out, after, blank_line());
        assert(lines_from(out, after + 1) == Seq::<Seq<char>>::empty());
    } else {
        assert(lines_from(out, after) == Seq::<Seq<char>>::empty());
    }
    if o.newline_before && !last_was_newline {
        assert(token_at(out, 0, blank_line())) by {
            assert(out.subrange(0, 1) == blank_line());
        }
        assert(blank_line().drop_last() == Seq::<char>::empty());
        lemma_lines_from_line(out, 0, blank_line());
    }
}

/// What the writer writes for a command, read back line by line with the
/// same command threshold and blank lines skipped: no line continues onto
/// the next, its blank lines yield nothing, and its own line yields the
/// command.
pub proof fn lemma_written_command_read_back(
    last_was_newline: bool,
    level: int,
    threshold: usize,
    o: FormatterOptions,
    c: CommandModel,
    map: Option<Seq<(SelectorModel, FormatterOptions)>>,
    pconfig: ParserConfig,
)
    requires
        command_writable(c, o, map),
        level >= 0,
        pconfig.command_threshold == threshold,
        !pconfig.preserve_empty_lines,
        written_line(c, threshold as int, level, o, map).len() <= max_line_len(),
    ensures
        forall|k: int|
            0 <= k < split_lines(command_output(last_was_newline, level, threshold as int, o, c, map)).len()
                ==> !continues(
                #[trigger] split_lines(command_output(last_was_newline, level, threshold as int, o, c, map))[k],
            ),
        forall|k: int, n: usize, r: Option<ParseResult<Option<Command>>>|
            0 <= k < split_lines(command_output(last_was_newline, level, threshold as int, o, c, map)).len()
                && #[trigger] line_result(
                pconfig,
                n,
                split_lines(command_output(last_was_newline, level, threshold as int, o, c, map))[k],
                r,
            ) ==> (split_lines(command_output(last_was_newline, level, threshold as int, o, c, map))[k]
                == blank_line() && r is None) || (r matches Some(Ok(Some(c2))) && c2@ == c),
{
    lemma_output_lines(last_was_newline, level, threshold, o, c, map);
    lemma_blank_line(pconfig);
    lemma_written_line_parses(c, threshold, level, o, map, pconfig);
    let lines = split_lines(command_output(last_was_newline, level, threshold as int, o, c, map));
    assert forall|k: int, n: usize, r: Option<ParseResult<Option<Command>>>|
        0 <= k < lines.len() && #[trigger] line_result(pconfig, n, lines[k], r) implies (lines[k]
        == blank_line() && r is None) || (r matches Some(Ok(Some(c2))) && c2@ == c) by {
        if lines[k] != blank_line() {
            assert(lines[k] == written_line(c, threshold as int, level, o, map));
        }
    }
}

/// Lines that start with one line that does not continue: that line is the
/// first logical line.
proof fn lemma_first_of_plain(p: Seq<Seq<char>>)
    requires
        p.len() > 0,
        !continues(p[0]),
    ensures
        first_len(p) == 1,
        first_text(p) == p[0],
{
    assert(p.take(1) =~= seq![p[0]]);
    assert(seq![p[0]].drop_first() =~= Seq::<Seq<char>>::empty());
    assert(seq![p[0]].flatten() == p[0] + Seq::<Seq<char>>::empty().flatten());
    assert(p[0] + Seq::<char>::empty() =~= p[0]);
}

/// A sequence of at most one blank line is passed over entirely.
proof fn lemma_blanks_skipped(pconfig: ParserConfig, p: Seq<Seq<char>>)
    requires
        !pconfig.preserve_empty_lines,
        p.len() == 0 || p == seq![blank_line()],
    ensures
        after_skipped(pconfig, p).len() == 0,
{
    lemma_blank_line(pconfig);
    if p.len() > 0 {
        lemma_first_of_plain(p);
        assert(skipped(pconfig, first_text(p)));
        assert(p.skip(1).len() == 0);
        assert(skipped_len(pconfig, p) == 1 + skipped_len(pconfig, p.skip(1)));
        assert(p.skip(1 as int).len() == 0);
    } else {
        assert(p.skip(0).len() == 0);
    }
}

/// What the writer writes for a command, read by the parser from a source
/// holding exactly that text with the same command threshold and blank
/// lines skipped: the blank lines before it are passed over, the next
/// logical line is the command's own line, which gives that very command,
/// and nothing but passed-over lines follows it.
pub proof fn lemma_parser_reads_written_command(
    last_was_newline: bool,
    level: int,
    threshold: usize,
    o: FormatterOptions,
    c: CommandModel,
    map: Option<Seq<(SelectorModel, FormatterOptions)>>,
    pconfig: ParserConfig,
)
    requires
        command_writable(c, o, map),
        level >= 0,
        pconfig.command_threshold == threshold,
        !pconfig.preserve_empty_lines,
        written_line(c, threshold as int, level, o, map).len() <= max_line_len(),
    ensures
        ({
            let p = split_lines(command_output(last_was_newline, level, threshold as int, o, c, map));
            let q = after_skipped(pconfig, p);
            &&& q.len() > 0
            &&& first_text(q) == written_line(c, threshold as int, level, o, map)
            &&& after_skipped(pconfig, q.skip(first_len(q) as int)).len() == 0
            &&& forall|n: usize, r: Option<ParseResult<Option<Command>>>|
                #[trigger] line_result(pconfig, n, first_text(q), r) ==> (r matches Some(
                    Ok(Some(c2)),
                ) && c2@ == c)
        }),
{
    lemma_output_lines(last_was_newline, level, threshold, o, c, map);
    lemma_blank_line(pconfig);
    lemma_written_line_parses(c, threshold, level, o, map, pconfig);
    let line = written_line(c, threshold as int, level, o, map);
    let pre: Seq<Seq<char>> = if o.newline_before && !last_was_newline {
        seq![blank_line()]
    } else {
        Seq::empty()
    };
    let post: Seq<Seq<char>> = if o.newline_after {
        seq![blank_line()]
    } else {
        Seq::empty()
    };
    let p = split_lines(command_output(last_was_newline, level, threshold as int, o, c, map));
    assert(p == pre + seq![line] + post);
    let rest = seq![line] + post;
    // the command's line is not passed over
    assert(!skipped(pconfig, line)) by {
        assert(classify_line(pconfig, line) is Command);
    }
    lemma_first_of_plain(rest);
    assert(skipped_len(pconfig, rest) == 0);
    assert(rest.skip(0) == rest);
    if pre.len() > 0 {
        lemma_first_of_plain(p);
        assert(first_text(p) == blank_line());
        assert(p.skip(1) == rest);
        assert(skipped_len(pconfig, p) == 1);
        assert(after_skipped(pconfig, p) == rest);
    } else {
        assert(p == rest);
        assert(after_skipped(pconfig, p) == rest);
    }
    assert(rest.skip(1) == post);
    lemma_blanks_skipped(pconfig, post);
}

// ----- Line breaks in text content -----

proof fn lemma_escaped_shift(t: Seq<char>, i: int)
    requires
        0 <= i <= t.len(),
    ensures
        newlines_escaped_from(t, i) == newlines_escaped_from(t.skip(i), 0),
    decreases t.len() - i,
{
    if i < t.len() {
        lemma_escaped_shift(t, i + 1);
        lemma_escaped_shift(t.skip(i), 1);
        assert(t.skip(i).skip(1) =~= t.skip(i + 1));
    } else {
        assert(t.skip(i).len() == 0);
    }
}

proof fn lemma_unescaped_shift(s: Seq<char>, i: int)
    requires
        0 <= i <= s.len(),
    ensures
        unescaped_from(s, i) == unescaped_from(s.skip(i), 0),
    decreases s.len() - i,
{
    if i < s.len() {
        lemma_unescaped_shift(s, i + 1);
        lemma_unescaped_shift(s.skip(i), 1);
        assert(s.skip(i).skip(1) =~= s.skip(i + 1));
        if i + 1 < s.len() {
            lemma_unescaped_shift(s, i + 2);
            lemma_unescaped_shift(s.skip(i), 2);
            assert(s.skip(i).skip(2) =~= s.skip(i + 2));
        }
    } else {
        assert(s.skip(i).len() == 0);
    }
}

/// The written form of `t` without its closing backslash.
spec fn escaped_body(t: Seq<char>) -> Seq<char> {
    newlines_escaped_from(t, 0)
}

/// The closing backslash of a content that ends with a backslash.
spec fn closing(t: Seq<char>) -> Seq<char> {
    if t.len() > 0 && t.last() == '\\' {
        seq!['\\']
    } else {
        Seq::empty()
    }
}

proof fn lemma_escape_round_trip(t: Seq<char>)
    ensures
        unescape_text_newlines(escaped_body(t) + closing(t) + seq!['\n']) == t + seq!['\n'],
    decreases t.len(),
{
    let s = escaped_body(t) + closing(t) + seq!['\n'];
    if t.len() == 0 {
        assert(s =~= seq!['\n']);
        assert(unescaped_from(s, 1) == Seq::<char>::empty());
        assert(t + seq!['\n'] =~= seq!['\n']);
    } else {
        let x = t[0];
        let u = t.drop_first();
        lemma_escaped_shift(t, 1);
        assert(t.skip(1) =~= u);
        let enc: Seq<char> = if x == '\n' {
            seq!['\\', '\n']
        } else {
            seq![x]
        };
        assert(escaped_body(t) == enc + escaped_body(u));
        let r = escaped_body(u) + closing(t) + seq!['\n'];
        assert(s =~= enc + r);
        if u.len() > 0 {
            assert(closing(t) == closing(u)) by {
                assert(t.last() == u.last());
            }
            lemma_escape_round_trip(u);
        }
        // the text after the first character cannot start with a line break
        assert(x == '\\' ==> r[0] != '\n') by {
            if u.len() > 0 {
                let e0: Seq<char> = if u[0] == '\n' {
                    seq!['\\', '\n']
                } else {
                    seq![u[0]]
                };
                assert(escaped_body(u) == e0 + newlines_escaped_from(u, 1));
                assert(escaped_body(u)[0] == e0[0]);
                assert(escaped_body(u)[0] != '\n');
                assert(r[0] == escaped_body(u)[0]);
            } else {
                assert(escaped_body(u) =~= Seq::<char>::empty());
                if x == '\\' {
                    assert(r[0] == '\\');
                }
            }
        }
        if x == '\n' {
            lemma_unescaped_shift(s, 2);
            assert(s.skip(2) =~= r);
            assert(unescaped_from(s, 0) == seq!['\n'] + unescaped_from(s, 2));
            if u.len() == 0 {
                assert(r =~= seq!['\n']);
                assert(unescaped_from(r, 1) == Seq::<char>::empty());
            }
            assert(unescaped_from(r, 0) == u + seq!['\n']);
            assert(t + seq!['\n'] =~= seq!['\n'] + (u + seq!['\n']));
        } else {
            lemma_unescaped_shift(s, 1);
            assert(s.skip(1) =~= r);
            assert(unescaped_from(s, 0) == seq![x] + unescaped_from(s, 1));
            if u.len() == 0 {
                if x == '\\' {
                    assert(r =~= seq!['\\', '\n']);
                    lemma_unescaped_shift(r, 2);
                    assert(r.skip(2).len() == 0);
                    assert(unescaped_from(r, 0) == seq!['\n'] + unescaped_from(r, 2));
                } else {
                    assert(r =~= seq!['\n']);
                    assert(unescaped_from(r, 1) == Seq::<char>::empty());
                }
            }
            assert(unescaped_from(r, 0) == u + seq!['\n']);
            assert(t + seq!['\n'] =~= seq![x] + (u + seq!['\n']));
        }
    }
}

/// The content of a text or annotation command, written with its line
/// breaks escaped and followed by the line break that ends the written line,
/// is given back, with that line break, when the parser undoes the escapes.
pub proof fn lemma_text_escape_round_trip(t: Seq<char>)
    ensures
        unescape_text_newlines(escape_text_newlines(t) + seq!['\n']) == t + seq!['\n'],
{
    lemma_escape_round_trip(t);
    assert(escape_text_newlines(t) == escaped_body(t) + closing(t));
}

// ----- Numbers -----

/// The base of a number format: 16, 8 or 2 for the radix formats, 10
/// otherwise.
pub open spec fn format_base(f: NumberFormat) -> nat {
    match f {
        NumberFormat::Hex => 16,
        NumberFormat::Octal => 8,
        NumberFormat::Binary => 2,
        _ => 10,
    }
}

/// The prefix of a number format: `0x`, `0o` or `0b`, none for decimal.
pub open spec fn format_prefix(f: NumberFormat) -> Seq<char> {
    match f {
        NumberFormat::Hex => seq!['0', 'x'],
        NumberFormat::Octal => seq!['0', 'o'],
        NumberFormat::Binary => seq!['0', 'b'],
        _ => Seq::empty(),
    }
}

/// The text of a number in a format reads back in the format's base: it is
/// the prefix, a minus sign for a negative decimal, and a nonempty run of
/// digits of the base, without leading zeros unless the run is `0`, whose
/// value is the number (its magnitude for decimal, its 64-bit two's
/// complement for the radix formats).
pub proof fn lemma_number_text_reads_back(n: i64, f: NumberFormat)
    ensures
        ({
            let b = format_base(f);
            let sign: Seq<char> = if b == 10 && n < 0 {
                seq!['-']
            } else {
                Seq::empty()
            };
            let v: nat = if b == 10 {
                if n < 0 {
                    (-n) as nat
                } else {
                    n as nat
                }
            } else {
                twos_complement(n)
            };
            let d = nat_digits(v, b);
            &&& number_text(n, f) == format_prefix(f) + sign + d
            &&& d.len() >= 1
            &&& forall|k: int| 0 <= k < d.len() ==> in_class(#[trigger] d[k], digit_class(b))
            &&& (d[0] == '0' <==> v == 0)
            &&& digits_value(d, 0, d.len() as int, b as int) == v
        }),
{
    let b = format_base(f);
    let v: nat = if b == 10 {
        if n < 0 {
            (-n) as nat
        } else {
            n as nat
        }
    } else {
        twos_complement(n)
    };
    lemma_nat_digits(v, b);
    if b == 10 {
        assert(format_prefix(f) =~= Seq::<char>::empty());
        if n < 0 {
            assert(number_text(n, f) =~= format_prefix(f) + seq!['-'] + nat_digits(v, b));
        } else {
            assert(number_text(n, f) =~= format_prefix(f) + Seq::<char>::empty() + nat_digits(v, b));
        }
    } else {
        assert(number_text(n, f) =~= format_prefix(f) + Seq::<char>::empty() + nat_digits(v, b));
    }
}

// ----- Values that read back as other values -----

/// A string written bare that reads back as a boolean: `true` or `false`
/// without forced quotes.
pub open spec fn bare_bool_word(t: Seq<char>, o: FormatterOptions) -> bool {
    is_identifier(t) && !o.force_quotes_for_vars && (t == true_text() || t == false_text())
}

/// A float text that is a decimal integer in canonical form.
pub open spec fn int_text(t: Seq<char>) -> bool {
    exists|n: i64| #[trigger] int_decimal(n as int) == t
}

/// What the parser reads back for a basic value written with options `o`:
/// a bare `true` or `false` string reads as the boolean, a float whose
/// text is a decimal integer (written in decimal) as that integer, any
/// other value as itself.
pub open spec fn read_value(v: ValueModel, o: FormatterOptions) -> ValueModel {
    match v {
        ValueModel::Str(t) => if bare_bool_word(t, o) {
            ValueModel::Bool(t == true_text())
        } else {
            v
        },
        ValueModel::Float(t) => if !radix_format(o.number_format) && int_text(t) {
            ValueModel::Int(choose|n: i64| #[trigger] int_decimal(n as int) == t)
        } else {
            v
        },
        _ => v,
    }
}

/// A basic value that the parser reads back, as itself or as another value.
pub open spec fn value_readable(v: ValueModel, o: FormatterOptions) -> bool {
    ||| value_writable(v, o)
    ||| (v matches ValueModel::Str(t) && bare_bool_word(t, o))
    ||| (v matches ValueModel::Float(t) && !radix_format(o.number_format) && int_text(t))
}

/// What the parser reads back for a parameter written with options `o`.
pub open spec fn read_param(p: ParamModel, o: FormatterOptions) -> ParamModel {
    match p {
        ParamModel::Basic(v) => ParamModel::Basic(read_value(v, o)),
        _ => p,
    }
}

/// The parameters as the parser reads them back.
pub open spec fn read_params(
    ps: Seq<ParamModel>,
    o: FormatterOptions,
    map: Option<Seq<(SelectorModel, FormatterOptions)>>,
) -> Seq<ParamModel> {
    Seq::new(ps.len(), |k: int| read_param(ps[k], options_at(ps, k, o, map)))
}

/// Parameters each read back, as itself or as another parameter.
pub open spec fn params_readable(
    ps: Seq<ParamModel>,
    o: FormatterOptions,
    map: Option<Seq<(SelectorModel, FormatterOptions)>>,
) -> bool {
    forall|k: int|
        0 <= k < ps.len() ==> match #[trigger] ps[k] {
            ParamModel::Basic(v) => value_readable(v, options_at(ps, k, o, map)),
            _ => param_writable(ps[k], options_at(ps, k, o, map)),
        }
}

/// A readable value reads back as a writable value with the same text.
proof fn lemma_read_value(v: ValueModel, o: FormatterOptions)
    requires
        value_readable(v, o),
    ensures
        value_writable(read_value(v, o), o),
        format_value_text(read_value(v, o), o) == format_value_text(v, o),
{
    match v {
        ValueModel::Str(t) => {
            if bare_bool_word(t, o) {
                lemma_bool_words();
            }
        },
        ValueModel::Float(t) => {
            if !radix_format(o.number_format) && int_text(t) {
                let n = choose|n: i64| #[trigger] int_decimal(n as int) == t;
                assert(int_decimal(n as int) == t);
                assert(number_text(n, o.number_format) == int_decimal(n as int));
            }
        },
        _ => {},
    }
}

/// Parameters read back have the same options and the same text.
proof fn lemma_read_params_out(
    ps: Seq<ParamModel>,
    e: int,
    o: FormatterOptions,
    map: Option<Seq<(SelectorModel, FormatterOptions)>>,
    level: int,
)
    requires
        params_readable(ps, o, map),
        0 <= e <= ps.len(),
    ensures
        params_out(ps, 0, e, o, map, level) == params_out(read_params(ps, o, map), 0, e, o, map, level),
        forall|k: int|
            0 <= k < ps.len() ==> options_at(read_params(ps, o, map), k, o, map) == #[trigger] options_at(
                ps,
                k,
                o,
                map,
            ),
    decreases e,
{
    let rs = read_params(ps, o, map);
    assert forall|k: int| 0 <= k < ps.len() implies options_at(rs, k, o, map) == #[trigger] options_at(
        ps,
        k,
        o,
        map,
    ) by {
        assert(param_name_spec(rs[k]) == param_name_spec(ps[k]));
    }
    if e > 0 {
        lemma_read_params_out(ps, e - 1, o, map, level);
        let k = e - 1;
        assert(param_sep(rs, 0, k, o, map, level) == param_sep(ps, 0, k, o, map, level));
        match ps[k] {
            ParamModel::Basic(v) => {
                lemma_read_value(v, options_at(ps, k, o, map));
            },
            _ => {},
        }
        assert(format_param_text(rs[k], options_at(rs, k, o, map)) == format_param_text(
            ps[k],
            options_at(ps, k, o, map),
        ));
    }
}

/// The command as the parser reads it back.
pub open spec fn read_command(
    c: CommandModel,
    o: FormatterOptions,
    map: Option<Seq<(SelectorModel, FormatterOptions)>>,
) -> CommandModel {
    CommandModel { name: c.name, params: read_params(c.params, o, map) }
}

/// Parameter `k` read back can be written and read back as itself, with the
/// same options.
proof fn lemma_read_param_writable(
    ps: Seq<ParamModel>,
    k: int,
    o: FormatterOptions,
    map: Option<Seq<(SelectorModel, FormatterOptions)>>,
)
    requires
        0 <= k < ps.len(),
        match ps[k] {
            ParamModel::Basic(v) => value_readable(v, options_at(ps, k, o, map)),
            _ => param_writable(ps[k], options_at(ps, k, o, map)),
        },
    ensures
        options_at(read_params(ps, o, map), k, o, map) == options_at(ps, k, o, map),
        param_writable(read_params(ps, o, map)[k], options_at(ps, k, o, map)),
{
    let ok = options_at(ps, k, o, map);
    let rs = read_params(ps, o, map);
    assert(rs[k] == read_param(ps[k], ok));
    assert(param_name_spec(rs[k]) == param_name_spec(ps[k]));
    match ps[k] {
        ParamModel::Basic(v) => {
            lemma_read_value(v, ok);
        },
        _ => {},
    }
}

/// The command read back from readable parameters can be written and read
/// back as itself.
proof fn lemma_read_command_writable(
    c: CommandModel,
    o: FormatterOptions,
    map: Option<Seq<(SelectorModel, FormatterOptions)>>,
)
    requires
        is_identifier(c.name),
        params_readable(c.params, o, map),
        no_breaks(c.params, o, map),
    ensures
        command_writable(read_command(c, o, map), o, map),
{
    let ps = c.params;
    let rs = read_params(ps, o, map);
    assert forall|k: int| 0 <= k < rs.len() implies options_at(rs, k, o, map) == #[trigger] options_at(
        ps,
        k,
        o,
        map,
    ) && param_writable(rs[k], options_at(rs, k, o, map)) by {
        lemma_read_param_writable(ps, k, o, map);
    }
    assert(params_writable(rs, o, map));
    assert(no_breaks(rs, o, map));
}

/// What the writer writes for a command whose parameters read back, perhaps
/// as other values (a bare `true` or `false` string as a boolean, a float
/// whose text is an integer as that integer), given to the parser as its
/// source's lines: the parser yields a command with the same name and the
/// same number of parameters, namely the command read back, and nothing
/// else.
#[verifier::spinoff_prover]
#[verifier::rlimit(30)]
pub proof fn lemma_parser_reads_written_command_loosely(
    last_was_newline: bool,
    level: int,
    threshold: usize,
    o: FormatterOptions,
    c: CommandModel,
    map: Option<Seq<(SelectorModel, FormatterOptions)>>,
    pconfig: ParserConfig,
)
    requires
        is_identifier(c.name),
        params_readable(c.params, o, map),
        no_breaks(c.params, o, map),
        level >= 0,
        pconfig.command_threshold == threshold,
        !pconfig.preserve_empty_lines,
        written_line(c, threshold as int, level, o, map).len() <= max_line_len(),
    ensures
        ({
            let p = split_lines(command_output(last_was_newline, level, threshold as int, o, c, map));
            let q = after_skipped(pconfig, p);
            &&& q.len() > 0
            &&& after_skipped(pconfig, q.skip(first_len(q) as int)).len() == 0
            &&& forall|n: usize, r: Option<ParseResult<Option<Command>>>|
                #[trigger] line_result(pconfig, n, first_text(q), r) ==> (r matches Some(
                    Ok(Some(c2)),
                ) && c2@ == read_command(c, o, map) && c2@.name == c.name && c2@.params.len()
                    == c.params.len())
        }),
{
    let rc = read_command(c, o, map);
    let n = c.params.len() as int;
    lemma_read_params_out(c.params, n, o, map, level);
    assert(command_body(rc, threshold as int, o, map, level) == command_body(
        c,
        threshold as int,
        o,
        map,
        level,
    )) by {
        assert(c.name != text_name()) by {
            assert(!is_ident_start(text_name()[0]));
        }
        assert(c.name != annotation_name()) by {
            assert(!is_ident_start(annotation_name()[0]));
        }
        assert(c.name != number_name()) by {
            assert(!is_ident_start(number_name()[0]));
        }
    }
    assert(command_output(last_was_newline, level, threshold as int, o, rc, map) == command_output(
        last_was_newline,
        level,
        threshold as int,
        o,
        c,
        map,
    ));
    assert(written_line(rc, threshold as int, level, o, map) == written_line(
        c,
        threshold as int,
        level,
        o,
        map,
    ));
    lemma_read_command_writable(c, o, map);
    lemma_parser_reads_written_command(last_was_newline, level, threshold, o, rc, map, pconfig);
}

// ----- Laws on single operations -----

/// A float whose exponent is introduced by an uppercase `E` is one float
/// literal, exactly as with a lowercase `e`: for digits `d` (at least one),
/// fraction digits `f` and exponent digits `x` (at least one), both `d.fEx`
/// and `d.fex` are read whole, each as the float with its text.
pub proof fn lemma_float_exponent_either_case(d: Seq<char>, f: Seq<char>, x: Seq<char>)
    requires
        d.len() > 0,
        x.len() > 0,
        forall|k: int| 0 <= k < d.len() ==> is_dec_digit(#[trigger] d[k]),
        forall|k: int| 0 <= k < f.len() ==> is_dec_digit(#[trigger] f[k]),
        forall|k: int| 0 <= k < x.len() ==> is_dec_digit(#[trigger] x[k]),
    ensures
        float_end(d + seq!['.'] + f + seq!['E'] + x, 0) == Some(
            (d + seq!['.'] + f + seq!['E'] + x).len() as int,
        ),
        float_end(d + seq!['.'] + f + seq!['e'] + x, 0) == Some(
            (d + seq!['.'] + f + seq!['e'] + x).len() as int,
        ),
        basic(d + seq!['.'] + f + seq!['E'] + x, 0) == Some(
            (
                ValueModel::Float(d + seq!['.'] + f + seq!['E'] + x),
                (d + seq!['.'] + f + seq!['E'] + x).len() as int,
            ),
        ),
{
    lemma_float_exponent_letter(d, f, x, 'E');
    lemma_float_exponent_letter(d, f, x, 'e');
    let t = d + seq!['.'] + f + seq!['E'] + x;
    assert(t.subrange(0, t.len() as int) == t);
    lemma_float_at(t, 0, t);
}

proof fn lemma_float_exponent_letter(d: Seq<char>, f: Seq<char>, x: Seq<char>, e: char)
    requires
        d.len() > 0,
        x.len() > 0,
        e == 'E' || e == 'e',
        forall|k: int| 0 <= k < d.len() ==> is_dec_digit(#[trigger] d[k]),
        forall|k: int| 0 <= k < f.len() ==> is_dec_digit(#[trigger] f[k]),
        forall|k: int| 0 <= k < x.len() ==> is_dec_digit(#[trigger] x[k]),
    ensures
        float_end(d + seq!['.'] + f + seq![e] + x, 0) == Some(
            (d + seq!['.'] + f + seq![e] + x).len() as int,
        ),
{
    let t = d + seq!['.'] + f + seq![e] + x;
    let a = d.len() as int;
    let b = a + 1 + f.len();
    let n = t.len() as int;
    assert forall|k: int| 0 <= k < a implies in_class(#[trigger] t[k], Class::Dec) by {
        assert(t[k] == d[k]);
    }
    assert(t[a] == '.');
    lemma_run_end_exact(t, 0, a, Class::Dec);
    assert forall|k: int| a + 1 <= k < b implies in_class(#[trigger] t[k], Class::Dec) by {
        assert(t[k] == f[k - a - 1]);
    }
    assert(t[b] == e);
    lemma_run_end_exact(t, a + 1, b, Class::Dec);
    assert forall|k: int| b + 1 <= k < n implies in_class(#[trigger] t[k], Class::Dec) by {
        assert(t[k] == x[k - b - 1]);
    }
    assert(t[b + 1] == x[0]);
    lemma_run_end_exact(t, b + 1, n, Class::Dec);
    assert(!at(t, 0, '-'));
    assert(exponent(t, b) == Some(n));
}

/// The display text of a boolean is read back by the grammar as that same
/// boolean, so distinct booleans display differently.
pub proof fn lemma_bool_display_reads_back(b: bool)
    ensures
        basic(value_text(ValueModel::Bool(b)), 0) == Some(
            (ValueModel::Bool(b), value_text(ValueModel::Bool(b)).len() as int),
        ),
        value_text(ValueModel::Bool(true)) != value_text(ValueModel::Bool(false)),
{
    let o: FormatterOptions = vstd::pervasive::arbitrary();
    let t = value_text(ValueModel::Bool(b));
    assert(t == format_value_text(ValueModel::Bool(b), o));
    assert(t.subrange(0, t.len() as int) == t);
    lemma_value_at(t, 0, ValueModel::Bool(b), o);
    let tt = value_text(ValueModel::Bool(true));
    let ff = value_text(ValueModel::Bool(false));
    assert(tt == format_value_text(ValueModel::Bool(true), o));
    assert(tt.subrange(0, tt.len() as int) == tt);
    lemma_value_at(tt, 0, ValueModel::Bool(true), o);
    assert(ff == format_value_text(ValueModel::Bool(false), o));
    assert(ff.subrange(0, ff.len() as int) == ff);
    lemma_value_at(ff, 0, ValueModel::Bool(false), o);
}

/// Explicit options that set nothing change nothing: with them the
/// effective options are those without them, per-command options included.
pub proof fn lemma_effective_keeps_command_options(
    name: Seq<char>,
    o: FormatterOptions,
    global: FormatterOptions,
    per_command: Seq<(Seq<char>, FormatterOptions)>,
)
    ensures
        (!o.should_override && o.indent == 0 && !o.use_tabs && !o.newline_before
            && !o.newline_after && !o.compact && !o.force_quotes_for_vars && o.number_format
            == NumberFormat::Unknown && !o.newline_before_param && !o.newline_after_param)
            ==> effective_spec(name, Some(o), global, per_command) == effective_spec(
            name,
            None,
            global,
            per_command,
        ),
{
}

/// A field that explicit options leave unset keeps the value that the
/// per-command options `c` of the command name give it; a switch those
/// options turn on stays on.
pub proof fn lemma_effective_field_from_command(
    name: Seq<char>,
    o: FormatterOptions,
    c: FormatterOptions,
    global: FormatterOptions,
    per_command: Seq<(Seq<char>, FormatterOptions)>,
)
    requires
        lookup(per_command, name) == Some(c),
        !c.should_override,
        !o.should_override,
    ensures
        ({
            let r = effective_spec(name, Some(o), global, per_command);
            &&& (o.number_format == NumberFormat::Unknown && c.number_format
                != NumberFormat::Unknown ==> r.number_format == c.number_format)
            &&& (o.indent == 0 && c.indent != 0 ==> r.indent == c.indent)
            &&& (c.compact ==> r.compact)
            &&& (c.use_tabs ==> r.use_tabs)
            &&& (c.force_quotes_for_vars ==> r.force_quotes_for_vars)
            &&& (c.newline_before ==> r.newline_before)
            &&& (c.newline_after ==> r.newline_after)
            &&& (c.newline_before_param ==> r.newline_before_param)
            &&& (c.newline_after_param ==> r.newline_after_param)
        }),
{
}

/// A written `@number` command's text, after its marks, starts with the
/// command's integer, sign included, as the grammar reads a command name:
/// the name read is that integer's decimal text, with that integer as its
/// value.
pub proof fn lemma_number_command_name_reads_back(
    c: CommandModel,
    v: i64,
    threshold: int,
    o: FormatterOptions,
    map: Option<Seq<(SelectorModel, FormatterOptions)>>,
    level: int,
)
    requires
        c.name == number_name(),
        c.params.len() > 0,
        c.params[0] == ParamModel::Basic(ValueModel::Int(v)),
        threshold >= 0,
    ensures
        ({
            let body = command_body(c, threshold, o, map, level);
            &&& threshold <= body.len()
            &&& body.subrange(0, threshold) == hashes(threshold)
            &&& name(body.subrange(threshold, body.len() as int)) == Some(
                (int_decimal(v as int), Some(v), int_decimal(v as int).len() as int),
            )
        }),
{
    let ps = c.params;
    let rest = int_decimal(v as int) + params_out(ps, 1, ps.len() as int, o, map, level);
    let body = command_body(c, threshold, o, map, level);
    assert(body == hashes(threshold) + rest);
    assert(body.subrange(0, threshold) == hashes(threshold));
    assert(body.subrange(threshold, body.len() as int) == rest);
    let t = int_decimal(v as int);
    let tail = params_out(ps, 1, ps.len() as int, o, map, level);
    assert(rest.subrange(0, t.len() as int) == t);
    if ps.len() > 1 {
        lemma_params_out_first(ps, 1, ps.len() as int, o, map, level);
        assert(rest[t.len() as int] == tail[0]);
    } else {
        assert(tail == Seq::<char>::empty());
        assert(rest.len() == t.len());
    }
    lemma_number_name(rest, v);
}

/// Parameters written from `start` on begin with the separator of the
/// first: a space or a line break.
proof fn lemma_params_out_first(
    ps: Seq<ParamModel>,
    start: int,
    end: int,
    o: FormatterOptions,
    map: Option<Seq<(SelectorModel, FormatterOptions)>>,
    level: int,
)
    requires
        start < end,
    ensures
        params_out(ps, start, end, o, map, level).len() > 0,
        params_out(ps, start, end, o, map, level)[0] == ' ' || params_out(
            ps,
            start,
            end,
            o,
            map,
            level,
        )[0] == '\n',
    decreases end - start,
{
    let sep = param_sep(ps, start, end - 1, o, map, level);
    assert(sep.len() > 0 && (sep[0] == ' ' || sep[0] == '\n'));
    if end - 1 > start {
        lemma_params_out_first(ps, start, end - 1, o, map, level);
    } else {
        assert(params_out(ps, start, end - 1, o, map, level) == Seq::<char>::empty());
    }
}

/// A decimal integer at the start of `s`, followed by nothing, a space or a
/// line break, is read as a command name with that integer as its value.
proof fn lemma_number_name(s: Seq<char>, n: i64)
    requires
        int_decimal(n as int).len() <= s.len(),
        s.subrange(0, int_decimal(n as int).len() as int) == int_decimal(n as int),
        int_decimal(n as int).len() == s.len() || s[int_decimal(n as int).len() as int] == ' '
            || s[int_decimal(n as int).len() as int] == '\n',
    ensures
        name(s) == Some((int_decimal(n as int), Some(n), int_decimal(n as int).len() as int)),
{
    let t = int_decimal(n as int);
    let m: nat = if n < 0 {
        (-n) as nat
    } else {
        n as nat
    };
    let d = nat_digits(m, 10);
    lemma_nat_digits(m, 10);
    let p: int = if n < 0 {
        1
    } else {
        0
    };
    assert(t == if n < 0 {
        seq!['-'] + d
    } else {
        d
    });
    assert(p + d.len() == t.len());
    assert(token_at(s, 0, t));
    assert(s.subrange(p, p + d.len()) == d) by {
        assert forall|k: int| 0 <= k < d.len() implies s.subrange(p, p + d.len())[k] == d[k] by {
            lemma_token_char(s, 0, t, p + k);
        }
    }
    lemma_digits_in(s, p, m, 10);
    lemma_token_char(s, 0, t, 0);
    assert(at(s, 0, '-') <==> n < 0);
    assert(!is_ident_start(s[0]));
    assert(ident_end(s, 0) is None);
    assert(dec_int(s, 0) == Some((n, t.len() as int)));
}

/// An annotation line whose marks are followed by a space gives, when its
/// indentation is not kept, the text after the marks and the space: a
/// content that does not start with `#` keeps no mark, whatever the number
/// of marks beyond the threshold.
#[verifier::spinoff_prover]
#[verifier::rlimit(40)]
pub proof fn lemma_annotation_content(config: ParserConfig, m: int, t: Seq<char>)
    requires
        !config.preserve_indent,
        !config.skip_annotations,
        m > config.command_threshold,
        t.len() > 0,
        !is_whitespace(t[0]),
        !is_whitespace(t.last()),
        t[0] != '#',
        forall|k: int| 0 <= k < t.len() ==> #[trigger] t[k] != '\n',
    ensures
        classify_line(config, hashes(m) + seq![' '] + t) == LineKind::Annotation(t),
{
    let line = hashes(m) + seq![' '] + t;
    let n = line.len() as int;
    assert forall|k: int| 0 <= k < n implies #[trigger] line[k] != '\n' by {
        if k >= m + 1 {
            assert(line[k] == t[k - m - 1]);
        }
    }
    lemma_unescape_plain(line, 0);
    assert(line.subrange(0, n) == line);
    assert(unescape_text_newlines(line) == line);
    // the line is its own trimmed text
    assert(line[0] == '#');
    assert(skip_ws(line, 0) == 0);
    assert(line[n - 1] == t.last());
    assert(trim_end_at(line, n) == n);
    assert(trim(line) == line);
    // the marks
    assert forall|k: int| 0 <= k < m implies #[trigger] line[k] == '#' by {}
    assert(line[m] == ' ');
    lemma_hash_end_exact(line, 0, m);
    // the content after the marks
    let rest = line.subrange(m, n);
    assert(rest == seq![' '] + t);
    assert(rest[0] == ' ');
    assert(rest[1] == t[0]);
    lemma_skip_ws_exact(rest, 0, 1);
    assert(rest[rest.len() - 1] == t.last());
    assert(trim_end_at(rest, rest.len() as int) == rest.len());
    assert(rest.subrange(1, rest.len() as int) == t);
    assert(trim(rest) == t);
}

proof fn lemma_unescape_plain(s: Seq<char>, i: int)
    requires
        0 <= i <= s.len(),
        forall|k: int| 0 <= k < s.len() ==> #[trigger] s[k] != '\n',
    ensures
        unescaped_from(s, i) == s.subrange(i, s.len() as int),
    decreases s.len() - i,
{
    if i < s.len() {
        lemma_unescape_plain(s, i + 1);
        assert(s.subrange(i, s.len() as int) == seq![s[i]] + s.subrange(i + 1, s.len() as int));
    } else {
        assert(s.subrange(i, s.len() as int) == Seq::<char>::empty());
    }
}

} // verus!
