//! Character-level helpers shared by the parser and the writer: character
//! classes, conversions between strings and character vectors, and the
//! digit representation of integers in bases 2, 8, 10 and 16.

use vstd::prelude::*;
use vstd::std_specs::iter::IteratorSpec;

verus! {

/// The number of bytes of the UTF-8 encoding of `c`.
pub open spec fn char_width(c: char) -> nat {
    let n = c as u32;
    if n <= 0x7F {
        1
    } else if n <= 0x7FF {
        2
    } else if n <= 0xFFFF {
        3
    } else {
        4
    }
}

/// The number of bytes of the UTF-8 encoding of `s`.
pub open spec fn byte_len(s: Seq<char>) -> nat {
    vstd::utf8::encode_utf8(s).len()
}

/// The byte offset at which the `i`-th character of `s` starts.
pub open spec fn byte_pos(s: Seq<char>, i: int) -> nat {
    byte_len(s.subrange(0, i))
}

/// A character's UTF-8 encoding is `char_width` bytes long.
pub proof fn lemma_char_width(c: char)
    ensures
        vstd::utf8::encode_scalar(c as u32).len() == char_width(c),
        1 <= char_width(c) <= 4,
{
    vstd::utf8::char_is_scalar(c);
}

/// The encoding of a concatenation is the concatenation of the encodings.
pub proof fn lemma_byte_len_concat(a: Seq<char>, b: Seq<char>)
    ensures
        byte_len(a + b) == byte_len(a) + byte_len(b),
    decreases a.len(),
{
    if a.len() == 0 {
        assert(a + b =~= b);
    } else {
        lemma_byte_len_concat(a.drop_first(), b);
        assert((a + b).drop_first() =~= a.drop_first() + b);
        assert((a + b)[0] == a[0]);
    }
}

/// One character more adds its width.
pub proof fn lemma_byte_pos_step(s: Seq<char>, i: int)
    requires
        0 <= i < s.len(),
    ensures
        byte_pos(s, i + 1) == byte_pos(s, i) + char_width(s[i]),
{
    assert(s.subrange(0, i + 1) =~= s.subrange(0, i) + seq![s[i]]);
    lemma_byte_len_concat(s.subrange(0, i), seq![s[i]]);
    lemma_char_width(s[i]);
    assert(seq![s[i]].drop_first() =~= Seq::<char>::empty());
    assert(byte_len(Seq::<char>::empty()) == 0);
    assert(byte_len(seq![s[i]]) == char_width(s[i]));
}

/// A text has at least one and at most four bytes per character.
pub proof fn lemma_byte_len_bounds(s: Seq<char>)
    ensures
        s.len() <= byte_len(s) <= 4 * s.len(),
    decreases s.len(),
{
    if s.len() > 0 {
        lemma_byte_len_bounds(s.drop_first());
        lemma_char_width(s[0]);
    }
}

/// Byte offsets grow with the character index, up to the byte length.
pub proof fn lemma_byte_pos_bounds(s: Seq<char>, i: int, j: int)
    requires
        0 <= i <= j <= s.len(),
    ensures
        byte_pos(s, i) + (j - i) <= byte_pos(s, j) <= byte_len(s),
        byte_pos(s, s.len() as int) == byte_len(s),
        byte_pos(s, j) == byte_pos(s, i) + byte_len(s.subrange(i, j)),
{
    assert(s.subrange(0, s.len() as int) =~= s);
    assert(s.subrange(0, j) =~= s.subrange(0, i) + s.subrange(i, j));
    lemma_byte_len_concat(s.subrange(0, i), s.subrange(i, j));
    lemma_byte_len_bounds(s.subrange(i, j));
    assert(s =~= s.subrange(0, j) + s.subrange(j, s.len() as int));
    lemma_byte_len_concat(s.subrange(0, j), s.subrange(j, s.len() as int));
}

/// The number of bytes of the UTF-8 encoding of `c`.
pub fn char_width_exec(c: char) -> (w: usize)
    ensures
        w == char_width(c),
{
    let n = c as u32;
    if n <= 0x7F {
        1
    } else if n <= 0x7FF {
        2
    } else if n <= 0xFFFF {
        3
    } else {
        4
    }
}

/// The byte offset at which the `i`-th character of `s` starts.
pub fn byte_offset(s: &Vec<char>, i: usize) -> (r: usize)
    requires
        i <= s@.len(),
        byte_len(s@) <= usize::MAX,
    ensures
        r == byte_pos(s@, i as int),
{
    let mut k: usize = 0;
    let mut b: usize = 0;
    while k < i
        invariant
            0 <= k <= i <= s@.len(),
            byte_len(s@) <= usize::MAX,
            b == byte_pos(s@, k as int),
        decreases i - k,
    {
        proof {
            lemma_byte_pos_step(s@, k as int);
            lemma_byte_pos_bounds(s@, k as int + 1, s@.len() as int);
        }
        b = b + char_width_exec(s[k]);
        k = k + 1;
    }
    b
}

/// ASCII decimal digit.
pub open spec fn is_dec_digit(c: char) -> bool {
    '0' <= c && c <= '9'
}

/// ASCII hexadecimal digit (either case).
pub open spec fn is_hex_digit(c: char) -> bool {
    ('0' <= c && c <= '9') || ('a' <= c && c <= 'f') || ('A' <= c && c <= 'F')
}

/// ASCII octal digit.
pub open spec fn is_oct_digit(c: char) -> bool {
    '0' <= c && c <= '7'
}

/// Binary digit.
pub open spec fn is_bin_digit(c: char) -> bool {
    c == '0' || c == '1'
}

/// ASCII letter.
pub open spec fn is_ascii_alpha(c: char) -> bool {
    ('a' <= c && c <= 'z') || ('A' <= c && c <= 'Z')
}

/// First character of an identifier: an ASCII letter or `_`.
pub open spec fn is_ident_start(c: char) -> bool {
    is_ascii_alpha(c) || c == '_'
}

/// Later character of an identifier: an ASCII letter, digit or `_`.
pub open spec fn is_ident_char(c: char) -> bool {
    is_ascii_alpha(c) || is_dec_digit(c) || c == '_'
}

/// The whitespace characters of the command syntax.
pub open spec fn is_space(c: char) -> bool {
    c == ' ' || c == '\t' || c == '\r' || c == '\n'
}

/// A character with the Unicode `White_Space` property, as `char::is_whitespace`
/// tells.
pub open spec fn is_whitespace(c: char) -> bool {
    let n = c as u32;
    (0x9 <= n <= 0xD) || n == 0x20 || n == 0x85 || n == 0xA0 || n == 0x1680 || (0x2000 <= n
        <= 0x200A) || n == 0x2028 || n == 0x2029 || n == 0x202F || n == 0x205F || n == 0x3000
}

/// Whether `c` is a Unicode whitespace character.
pub fn char_is_whitespace(c: char) -> (r: bool)
    ensures
        r == is_whitespace(c),
{
    let n = c as u32;
    (0x9 <= n && n <= 0xD) || n == 0x20 || n == 0x85 || n == 0xA0 || n == 0x1680 || (0x2000 <= n
        && n <= 0x200A) || n == 0x2028 || n == 0x2029 || n == 0x202F || n == 0x205F || n == 0x3000
}

/// The numeric value of a digit character in bases up to 16.
pub open spec fn digit_value(c: char) -> int {
    if '0' <= c && c <= '9' {
        c as int - '0' as int
    } else if 'a' <= c && c <= 'f' {
        c as int - 'a' as int + 10
    } else if 'A' <= c && c <= 'F' {
        c as int - 'A' as int + 10
    } else {
        0
    }
}

/// The lower-case digit character for a digit value below 16.
pub open spec fn digit_char(d: int) -> char {
    if d < 10 {
        (d + '0' as int) as char
    } else {
        (d - 10 + 'a' as int) as char
    }
}

/// The digits of `n` in `base`, most significant first, without leading zeros
/// (a single `0` for zero).
pub open spec fn nat_digits(n: nat, base: nat) -> Seq<char>
    decreases n,
{
    if base < 2 || n < base {
        seq![digit_char(n as int)]
    } else {
        proof {
            vstd::arithmetic::div_mod::lemma_div_decreases(n as int, base as int);
        }
        nat_digits(n / base, base).push(digit_char((n % base) as int))
    }
}

/// The decimal text of an integer, with a leading `-` when negative.
pub open spec fn int_decimal(n: int) -> Seq<char> {
    if n < 0 {
        seq!['-'] + nat_digits((-n) as nat, 10)
    } else {
        nat_digits(n as nat, 10)
    }
}

/// The value of the digits `s[start..end]` read in `base`.
pub open spec fn digits_value(s: Seq<char>, start: int, end: int, base: int) -> int
    decreases end - start,
{
    if end <= start {
        0
    } else {
        digits_value(s, start, end - 1, base) * base + digit_value(s[end - 1])
    }
}

pub proof fn lemma_digits_value_nonneg(s: Seq<char>, start: int, end: int, base: int)
    requires
        base >= 2,
    ensures
        digits_value(s, start, end, base) >= 0,
    decreases end - start,
{
    if end > start {
        lemma_digits_value_nonneg(s, start, end - 1, base);
        assert(digit_value(s[end - 1]) >= 0);
        assert(digits_value(s, start, end - 1, base) * base >= 0) by (nonlinear_arith)
            requires
                digits_value(s, start, end - 1, base) >= 0,
                base >= 2,
        ;
    }
}

/// Reading one more digit never decreases the value read so far.
pub proof fn lemma_digits_value_grows(s: Seq<char>, start: int, end: int, base: int)
    requires
        base >= 2,
        start < end,
    ensures
        digits_value(s, start, end, base) >= digits_value(s, start, end - 1, base),
{
    lemma_digits_value_nonneg(s, start, end - 1, base);
    let v = digits_value(s, start, end - 1, base);
    assert(v * base >= v) by (nonlinear_arith)
        requires
            v >= 0,
            base >= 2,
    ;
}

/// The value read over a longer run is at least the value over its prefix.
pub proof fn lemma_digits_value_mono(s: Seq<char>, start: int, mid: int, end: int, base: int)
    requires
        base >= 2,
        start <= mid <= end,
    ensures
        digits_value(s, start, end, base) >= digits_value(s, start, mid, base),
    decreases end - mid,
{
    if mid < end {
        lemma_digits_value_grows(s, start, end, base);
        lemma_digits_value_mono(s, start, mid, end - 1, base);
    }
}

/// Converts a string slice into the sequence of its characters.
pub fn str_to_chars(s: &str) -> (res: Vec<char>)
    ensures
        res@ == s@,
{
    let mut res: Vec<char> = Vec::new();
    for c in iter: s.chars()
        invariant
            iter.seq() == s@,
            res@ == s@.take(iter.index() as int),
    {
        res.push(c);
    }
    assert(res@ == s@);
    res
}

/// Appends the characters of `s` to `out`.
pub fn push_str(out: &mut Vec<char>, s: &str)
    ensures
        final(out)@ == old(out)@ + s@,
{
    let cs = str_to_chars(s);
    let mut i: usize = 0;
    while i < cs.len()
        invariant
            0 <= i <= cs@.len(),
            cs@ == s@,
            out@ == old(out)@ + cs@.take(i as int),
        decreases cs@.len() - i,
    {
        out.push(cs[i]);
        assert(cs@.take(i as int + 1) == cs@.take(i as int).push(cs@[i as int]));
        i = i + 1;
    }
    assert(cs@.take(cs@.len() as int) == cs@);
}

/// Appends all characters of `src` to `out`.
pub fn push_chars(out: &mut Vec<char>, src: &Vec<char>)
    ensures
        final(out)@ == old(out)@ + src@,
{
    let mut i: usize = 0;
    while i < src.len()
        invariant
            0 <= i <= src@.len(),
            out@ == old(out)@ + src@.take(i as int),
        decreases src@.len() - i,
    {
        out.push(src[i]);
        assert(src@.take(i as int + 1) == src@.take(i as int).push(src@[i as int]));
        i = i + 1;
    }
    assert(src@.take(src@.len() as int) == src@);
}

/// Appends `n` copies of `c` to `out`.
pub fn push_repeat(out: &mut Vec<char>, c: char, n: usize)
    ensures
        final(out)@ == old(out)@ + Seq::new(n as nat, |i: int| c),
{
    let mut i: usize = 0;
    while i < n
        invariant
            0 <= i <= n,
            out@ == old(out)@ + Seq::new(i as nat, |k: int| c),
        decreases n - i,
    {
        out.push(c);
        assert(Seq::new((i + 1) as nat, |k: int| c) == Seq::new(i as nat, |k: int| c).push(c));
        i = i + 1;
    }
}

/// Builds a `String` holding exactly the characters of `v`.
#[verifier::external_body]
pub(crate) fn chars_to_string(v: &Vec<char>) -> (res: String)
    ensures
        res@ == v@,
{
    String::from_iter(v.iter())
}

/// Builds a `String` holding exactly the characters of a string slice.
pub fn str_to_string(s: &str) -> (res: String)
    ensures
        res@ == s@,
{
    s.to_owned()
}

/// Whether two strings hold the same characters.
pub fn str_eq(a: &str, b: &str) -> (res: bool)
    ensures
        res == (a@ == b@),
{
    let x = str_to_chars(a);
    let y = str_to_chars(b);
    chars_eq(&x, &y)
}

/// Whether two character vectors are equal.
pub fn chars_eq(x: &Vec<char>, y: &Vec<char>) -> (res: bool)
    ensures
        res == (x@ == y@),
{
    if x.len() != y.len() {
        return false;
    }
    let mut i: usize = 0;
    while i < x.len()
        invariant
            0 <= i <= x@.len(),
            x@.len() == y@.len(),
            forall|k: int| 0 <= k < i ==> x@[k] == y@[k],
        decreases x@.len() - i,
    {
        if x[i] != y[i] {
            return false;
        }
        i = i + 1;
    }
    assert(x@ =~= y@);
    true
}

/// The character for a digit value below 16.
pub fn digit_to_char(d: u64) -> (c: char)
    requires
        d < 16,
    ensures
        c == digit_char(d as int),
{
    let table: [char; 16] = [
        '0',
        '1',
        '2',
        '3',
        '4',
        '5',
        '6',
        '7',
        '8',
        '9',
        'a',
        'b',
        'c',
        'd',
        'e',
        'f',
    ];
    let c = table[d as usize];
    assert(c == digit_char(d as int)) by {
        assert(table@[d as int] == c);
    }
    c
}

/// The digits of `n` in `base`, most significant first.
pub fn u64_digits(n: u64, base: u64) -> (res: Vec<char>)
    requires
        2 <= base <= 16,
    ensures
        res@ == nat_digits(n as nat, base as nat),
    decreases n,
{
    if n < base {
        let mut v: Vec<char> = Vec::new();
        v.push(digit_to_char(n));
        assert(v@ == seq![digit_char(n as int)]);
        v
    } else {
        proof {
            vstd::arithmetic::div_mod::lemma_div_decreases(n as int, base as int);
        }
        let mut v = u64_digits(n / base, base);
        v.push(digit_to_char(n % base));
        v
    }
}

/// The decimal text of a signed 64-bit integer.
pub fn i64_decimal(n: i64) -> (res: Vec<char>)
    ensures
        res@ == int_decimal(n as int),
{
    if n < 0 {
        let mag: u64 = if n == i64::MIN {
            9223372036854775808u64
        } else {
            (-n) as u64
        };
        let digits = u64_digits(mag, 10);
        let mut v: Vec<char> = Vec::new();
        v.push('-');
        push_chars(&mut v, &digits);
        v
    } else {
        u64_digits(n as u64, 10)
    }
}

/// The decimal text of an unsigned size.
pub fn usize_decimal(n: usize) -> (res: Vec<char>)
    ensures
        res@ == nat_digits(n as nat, 10),
{
    u64_digits(n as u64, 10)
}

} // verus!
