//! Input sources for KoiLang parsing.
//!
//! A [`TextInputSource`] hands out lines one at a time; [`StringInputSource`]
//! splits a string into lines. [`Input`] joins lines that end with a backslash-newline
//! continuation into one logical line and counts physical lines.

use vstd::prelude::*;
use crate::text::{chars_to_string, push_str, str_to_chars, str_to_string};

verus! {

/// How a decoded line treats characters that could not be decoded, which the
/// decoder shows as the replacement character U+FFFD.
#[derive(Debug, Clone, Copy, PartialEq, Eq, Structural)]
pub enum EncodingErrorStrategy {
    /// Refuse the line
    Strict,
    /// Show each undecodable character as `?`
    Replace,
    /// Drop undecodable characters
    Ignore,
}

/// `s[i..]` with every `\r\n` replaced by `\n`, scanning from the left.
pub open spec fn crlf_from(s: Seq<char>, i: int) -> Seq<char>
    decreases s.len() - i,
{
    if i < 0 || i >= s.len() {
        Seq::empty()
    } else if i + 1 < s.len() && s[i] == '\r' && s[i + 1] == '\n' {
        seq!['\n'] + crlf_from(s, i + 2)
    } else {
        seq![s[i]] + crlf_from(s, i + 1)
    }
}

/// `s` with every `\r\n` replaced by `\n`.
pub open spec fn crlf_to_lf(s: Seq<char>) -> Seq<char> {
    crlf_from(s, 0)
}

/// `s[i..]` with every replacement character U+FFFD replaced by `rep`.
pub open spec fn replace_bad_from(s: Seq<char>, i: int, rep: Seq<char>) -> Seq<char>
    decreases s.len() - i,
{
    if i < 0 || i >= s.len() {
        Seq::empty()
    } else {
        (if s[i] == '\u{FFFD}' {
            rep
        } else {
            seq![s[i]]
        }) + replace_bad_from(s, i + 1, rep)
    }
}

/// The text of a decoded line under a strategy, before line endings are
/// normalized: undecodable characters become `?`, vanish, or stay.
pub open spec fn strategy_text(s: Seq<char>, strategy: EncodingErrorStrategy) -> Seq<char> {
    match strategy {
        EncodingErrorStrategy::Replace => replace_bad_from(s, 0, seq!['?']),
        EncodingErrorStrategy::Ignore => replace_bad_from(s, 0, Seq::empty()),
        EncodingErrorStrategy::Strict => s,
    }
}

/// `line` with every `\r\n` replaced by `\n`.
pub fn normalize_line_endings(line: &str) -> (res: String)
    ensures
        res@ == crlf_to_lf(line@),
{
    let s = str_to_chars(line);
    let mut out: Vec<char> = Vec::new();
    let mut i: usize = 0;
    while i < s.len()
        invariant
            0 <= i <= s@.len(),
            out@ + crlf_from(s@, i as int) == crlf_from(s@, 0),
        decreases s@.len() - i,
    {
        if s[i] == '\r' && i + 1 < s.len() && s[i + 1] == '\n' {
            out.push('\n');
            proof {
                assert(crlf_from(s@, i as int) == seq!['\n'] + crlf_from(s@, i + 2));
                assert(out@ + crlf_from(s@, i + 2) == (out@.drop_last() + seq!['\n']) + crlf_from(
                    s@,
                    i + 2,
                ));
            }
            i = i + 2;
        } else {
            out.push(s[i]);
            proof {
                assert(crlf_from(s@, i as int) == seq![s@[i as int]] + crlf_from(s@, i + 1));
                assert(out@ + crlf_from(s@, i + 1) == (out@.drop_last() + seq![s@[i as int]])
                    + crlf_from(s@, i + 1));
            }
            i = i + 1;
        }
    }
    assert(out@ == crlf_from(s@, 0));
    chars_to_string(&out)
}

/// Applies an encoding strategy to a decoded line, then normalizes its line
/// endings. In strict mode a line holding a replacement character is refused
/// (`None`).
pub fn apply_encoding_strategy(line: &str, strategy: EncodingErrorStrategy) -> (res: Option<String>)
    ensures
        res is None <==> (strategy == EncodingErrorStrategy::Strict && line@.contains('\u{FFFD}')),
        res matches Some(t) ==> t@ == crlf_to_lf(strategy_text(line@, strategy)),
{
    let s = str_to_chars(line);
    let mut out: Vec<char> = Vec::new();
    let ghost rep: Seq<char> = match strategy {
        EncodingErrorStrategy::Replace => seq!['?'],
        _ => Seq::empty(),
    };
    let mut has_bad = false;
    let mut i: usize = 0;
    while i < s.len()
        invariant
            0 <= i <= s@.len(),
            s@ == line@,
            rep == (match strategy {
                EncodingErrorStrategy::Replace => seq!['?'],
                _ => Seq::<char>::empty(),
            }),
            out@ + replace_bad_from(s@, i as int, rep) == replace_bad_from(s@, 0, rep),
            has_bad <==> exists|k: int| 0 <= k < i && s@[k] == '\u{FFFD}',
        decreases s@.len() - i,
    {
        let c = s[i];
        proof {
            assert(replace_bad_from(s@, i as int, rep) == (if c == '\u{FFFD}' {
                rep
            } else {
                seq![c]
            }) + replace_bad_from(s@, i + 1, rep));
        }
        let ghost before = out@;
        if c == '\u{FFFD}' {
            has_bad = true;
            if strategy == EncodingErrorStrategy::Replace {
                out.push('?');
            }
        } else {
            out.push(c);
        }
        proof {
            assert(out@ == before + (if c == '\u{FFFD}' {
                rep
            } else {
                seq![c]
            }));
            assert(out@ + replace_bad_from(s@, i + 1, rep) == before + replace_bad_from(
                s@,
                i as int,
                rep,
            ));
        }
        i = i + 1;
    }
    proof {
        assert(line@.contains('\u{FFFD}') <==> has_bad);
    }
    if has_bad && strategy == EncodingErrorStrategy::Strict {
        return None;
    }
    let cleaned = if has_bad {
        chars_to_string(&out)
    } else {
        proof {
            lemma_replace_bad_clean(s@, 0, rep);
        }
        str_to_string(line)
    };
    assert(cleaned@ == strategy_text(line@, strategy)) by {
        if has_bad {
            assert(out@ == replace_bad_from(s@, 0, rep));
        } else {
            lemma_replace_bad_clean(s@, 0, seq!['?']);
            lemma_replace_bad_clean(s@, 0, Seq::empty());
        }
    }
    Some(normalize_line_endings(cleaned.as_str()))
}

/// Without replacement characters, replacing them changes nothing.
proof fn lemma_replace_bad_clean(s: Seq<char>, i: int, rep: Seq<char>)
    requires
        0 <= i <= s.len(),
        forall|k: int| i <= k < s.len() ==> s[k] != '\u{FFFD}',
    ensures
        replace_bad_from(s, i, rep) == s.subrange(i, s.len() as int),
    decreases s.len() - i,
{
    if i < s.len() {
        lemma_replace_bad_clean(s, i + 1, rep);
        assert(s.subrange(i, s.len() as int) == seq![s[i]] + s.subrange(i + 1, s.len() as int));
    } else {
        assert(s.subrange(i, s.len() as int) == Seq::<char>::empty());
    }
}

/// A source of text lines for the parser, such as a file, a string or a
/// stream. A source may describe itself by a model: the sequence of lines
/// it has still to hand out.
pub trait TextInputSource {
    /// Whether this source follows its model. A source that does not
    /// describe its lines does not, and nothing is claimed of it.
    closed spec fn obeys_model(&self) -> bool {
        false
    }

    /// The lines this source has still to hand out, in order (meaningful
    /// for a source that follows its model).
    closed spec fn pending(&self) -> Seq<Seq<char>> {
        arbitrary()
    }

    /// The next line, with its line break; `None` at the end of the input.
    /// For a source that follows its model, a line handed out is the first
    /// pending one, which is then gone, and `None` comes only when nothing
    /// is pending; the source goes on following its model. A read error
    /// leaves the pending lines open.
    fn next_line(&mut self) -> (res: Result<Option<String>, std::io::Error>)
        ensures
            old(self).obeys_model() ==> final(self).obeys_model(),
            old(self).obeys_model() ==> (res matches Ok(Some(l)) ==> old(self).pending().len() > 0
                && l@ == old(self).pending()[0] && final(self).pending() == old(
                self,
            ).pending().drop_first()),
            old(self).obeys_model() ==> (res matches Ok(None) ==> old(self).pending().len() == 0
                && final(self).pending() == old(self).pending()),
    ;

    /// The name of the source (e.g. a file name) for error reports;
    /// `<string>` unless the source says otherwise.
    fn source_name(&self) -> (res: String)
        default_ensures
            res@ == "<string>"@,
    {
        str_to_string("<string>")
    }
}

/// A boxed source is the source it holds.
impl<T: TextInputSource + ?Sized> TextInputSource for Box<T> {
    open spec fn obeys_model(&self) -> bool {
        (**self).obeys_model()
    }

    open spec fn pending(&self) -> Seq<Seq<char>> {
        (**self).pending()
    }

    fn next_line(&mut self) -> (res: Result<Option<String>, std::io::Error>) {
        (**self).next_line()
    }

    fn source_name(&self) -> String {
        (**self).source_name()
    }
}

/// Whether `label` names an encoding (what `encoding_rs::Encoding::for_label`
/// finds).
pub uninterp spec fn known_label(label: Seq<u8>) -> bool;

/// The text that the encoding named by `label` decodes `bytes` to, with
/// undecodable bytes shown as U+FFFD (what `encoding_rs::Encoding::decode`
/// gives, byte order mark sniffing included).
pub uninterp spec fn decoded_text(label: Seq<u8>, bytes: Seq<u8>) -> Seq<char>;

/// Looks up the encoding named by `label` (calls
/// `encoding_rs::Encoding::for_label`) and decodes `bytes` with it (calls
/// `Encoding::decode`): `None` for a label that names no encoding. The
/// decoded text is named, not stated: it is a function of the label and
/// the bytes.
#[verifier::external_body]
fn decode_bytes(label: &[u8], bytes: &[u8]) -> (res: Option<String>)
    ensures
        res is Some <==> known_label(label@),
        res matches Some(t) ==> t@ == decoded_text(label@, bytes@),
{
    match encoding_rs::Encoding::for_label(label) {
        Some(encoding) => Some(encoding.decode(bytes).0.into_owned()),
        None => None,
    }
}

/// An error of kind `InvalidData` carrying `message` (calls
/// `std::io::Error::new`).
#[verifier::external_body]
fn invalid_data_error(message: &str) -> std::io::Error {
    std::io::Error::new(std::io::ErrorKind::InvalidData, message.to_string())
}

/// The line handed out for a decoded line under `strategy`.
pub open spec fn strategy_line(line: Seq<char>, strategy: EncodingErrorStrategy) -> Seq<char> {
    crlf_to_lf(strategy_text(line, strategy))
}

/// An input source over the lines of a decoded text, with a strategy for
/// characters that could not be decoded: in strict mode a line holding one
/// is refused with an `InvalidData` error.
pub struct DecodedInputSource {
    lines: StringInputSource,
    strategy: EncodingErrorStrategy,
    name: String,
}

impl DecodedInputSource {
    /// The strategy of this source.
    pub closed spec fn strategy(&self) -> EncodingErrorStrategy {
        self.strategy
    }

    /// The decoded lines not handed out yet, before the strategy.
    pub closed spec fn raw_pending(&self) -> Seq<Seq<char>> {
        self.lines.remaining()
    }

    /// The name given to this source.
    pub closed spec fn name(&self) -> Seq<char> {
        self.name@
    }

    /// A source named `name` over `bytes` decoded with the encoding named by
    /// `label`; `None` when the label names no encoding.
    pub fn from_bytes(name: String, label: &[u8], bytes: &[u8], strategy: EncodingErrorStrategy) -> (res:
        Option<Self>)
        ensures
            res is Some <==> known_label(label@),
            res matches Some(src) ==> src.raw_pending() == split_lines(decoded_text(label@, bytes@))
                && src.strategy() == strategy && src.name() == name@,
    {
        match decode_bytes(label, bytes) {
            Some(text) => Some(
                DecodedInputSource { lines: StringInputSource::new(text.as_str()), strategy, name },
            ),
            None => None,
        }
    }
}

impl TextInputSource for DecodedInputSource {
    open spec fn obeys_model(&self) -> bool {
        true
    }

    /// The pending lines, each after the strategy.
    open spec fn pending(&self) -> Seq<Seq<char>> {
        self.raw_pending().map_values(|l: Seq<char>| strategy_line(l, self.strategy()))
    }

    /// The next decoded line after the strategy; in strict mode a line holding
    /// an undecodable character gives an `InvalidData` error and is passed.
    fn next_line(&mut self) -> (res: Result<Option<String>, std::io::Error>)
        ensures
            res is Err ==> old(self).raw_pending().len() > 0 && old(self).strategy()
                == EncodingErrorStrategy::Strict && old(self).raw_pending()[0].contains('\u{FFFD}')
                && final(self).raw_pending() == old(self).raw_pending().drop_first(),
            final(self).strategy() == old(self).strategy(),
            final(self).name() == old(self).name(),
    {
        match self.lines.next_line() {
            Ok(Some(line)) => match apply_encoding_strategy(line.as_str(), self.strategy) {
                Some(clean) => Ok(Some(clean)),
                None => Err(invalid_data_error("Invalid encoding detected in strict mode")),
            },
            Ok(None) => Ok(None),
            Err(e) => Err(e),
        }
    }

    /// The name given to this source.
    fn source_name(&self) -> (res: String)
        ensures
            res@ == self.name(),
    {
        self.name.clone()
    }
}

/// The index after the first line break at or after `i`, or the end of `s`.
pub open spec fn line_end(s: Seq<char>, i: int) -> int
    decreases s.len() - i,
{
    if i < 0 || i >= s.len() {
        s.len() as int
    } else if s[i] == '\n' {
        i + 1
    } else {
        line_end(s, i + 1)
    }
}

pub proof fn lemma_line_end_bounds(s: Seq<char>, i: int)
    requires
        0 <= i < s.len(),
    ensures
        i < line_end(s, i) <= s.len(),
    decreases s.len() - i,
{
    if s[i] != '\n' {
        if i + 1 < s.len() {
            lemma_line_end_bounds(s, i + 1);
        } else {
            assert(line_end(s, i + 1) == s.len());
        }
    }
}

/// The lines of `s[i..]`, each with its line break; the last may lack one.
pub open spec fn lines_from(s: Seq<char>, i: int) -> Seq<Seq<char>>
    decreases s.len() - i,
{
    if i < 0 || i >= s.len() {
        Seq::empty()
    } else {
        let e = line_end(s, i);
        proof {
            lemma_line_end_bounds(s, i);
        }
        seq![s.subrange(i, e)] + lines_from(s, e)
    }
}

/// The lines of `s`, each with its line break; the last may lack one.
pub open spec fn split_lines(s: Seq<char>) -> Seq<Seq<char>> {
    lines_from(s, 0)
}

/// Without a line break in `s[i..k]`, the line that starts at `i` ends where
/// the one at `k` does.
proof fn lemma_line_end_skip(s: Seq<char>, i: int, k: int)
    requires
        0 <= i <= k <= s.len(),
        forall|j: int| i <= j < k ==> s[j] != '\n',
    ensures
        line_end(s, i) == line_end(s, k),
    decreases k - i,
{
    if i < k {
        lemma_line_end_skip(s, i + 1, k);
    }
}

/// An input source that hands out the lines of a string.
pub struct StringInputSource {
    lines: Vec<String>,
    next: usize,
}

impl StringInputSource {
    /// The lines not handed out yet.
    pub closed spec fn remaining(&self) -> Seq<Seq<char>> {
        if self.next <= self.lines@.len() {
            self.lines@.subrange(self.next as int, self.lines@.len() as int).map_values(
                |l: String| l@,
            )
        } else {
            Seq::empty()
        }
    }

    /// A source over the lines of `content`, split after each `\n`.
    pub fn new(content: &str) -> (res: Self)
        ensures
            res.remaining() == split_lines(content@),
    {
        let s = str_to_chars(content);
        let mut lines: Vec<String> = Vec::new();
        let mut cur: Vec<char> = Vec::new();
        let mut start: usize = 0;
        let mut i: usize = 0;
        while i < s.len()
            invariant
                0 <= start <= i <= s@.len(),
                s@ == content@,
                cur@ == s@.subrange(start as int, i as int),
                forall|j: int| start <= j < i ==> s@[j] != '\n',
                lines@.map_values(|l: String| l@) + lines_from(s@, start as int) == lines_from(
                    s@,
                    0,
                ),
            decreases s@.len() - i,
        {
            let c = s[i];
            cur.push(c);
            assert(cur@ == s@.subrange(start as int, i + 1));
            if c == '\n' {
                proof {
                    lemma_line_end_skip(s@, start as int, i as int);
                    assert(line_end(s@, start as int) == i + 1);
                    assert(lines_from(s@, start as int) == seq![s@.subrange(start as int, i + 1)]
                        + lines_from(s@, i + 1));
                }
                let ghost before = lines@.map_values(|l: String| l@);
                let line = chars_to_string(&cur);
                lines.push(line);
                proof {
                    assert(lines@.map_values(|l: String| l@) == before.push(
                        s@.subrange(start as int, i + 1),
                    ));
                }
                cur = Vec::new();
                start = i + 1;
            }
            i = i + 1;
        }
        if start < s.len() {
            proof {
                lemma_line_end_skip(s@, start as int, s@.len() as int);
                assert(lines_from(s@, start as int) == seq![
                    s@.subrange(start as int, s@.len() as int),
                ] + lines_from(s@, s@.len() as int));
            }
            let ghost before = lines@.map_values(|l: String| l@);
            lines.push(chars_to_string(&cur));
            proof {
                assert(lines@.map_values(|l: String| l@) == before.push(
                    s@.subrange(start as int, s@.len() as int),
                ));
            }
        }
        let res = StringInputSource { lines, next: 0 };
        assert(res.lines@.subrange(0, res.lines@.len() as int) == res.lines@);
        res
    }
}

impl TextInputSource for StringInputSource {
    open spec fn obeys_model(&self) -> bool {
        true
    }

    open spec fn pending(&self) -> Seq<Seq<char>> {
        self.remaining()
    }

    fn next_line(&mut self) -> (res: Result<Option<String>, std::io::Error>)
        ensures
            old(self).remaining().len() == 0 ==> (res matches Ok(None) && final(self).remaining()
                == old(self).remaining()),
            old(self).remaining().len() > 0 ==> (res matches Ok(Some(l)) && l@ == old(
                self,
            ).remaining()[0] && final(self).remaining() == old(self).remaining().drop_first()),
    {
        if self.next < self.lines.len() {
            let line = self.lines[self.next].clone();
            self.next = self.next + 1;
            proof {
                assert(self.remaining() == old(self).remaining().drop_first());
            }
            Ok(Some(line))
        } else {
            Ok(None)
        }
    }
}

/// Whether a line ends with a backslash-newline continuation.
pub open spec fn continues(line: Seq<char>) -> bool {
    line.len() >= 2 && line[line.len() - 2] == '\\' && line[line.len() - 1] == '\n'
}

/// The number of physical lines in the first logical line of `p`: up to and
/// including the first that does not end with a continuation, or all of
/// them.
pub open spec fn first_len(p: Seq<Seq<char>>) -> nat
    decreases p.len(),
{
    if p.len() == 0 {
        0
    } else if !continues(p[0]) || p.len() == 1 {
        1
    } else {
        1 + first_len(p.drop_first())
    }
}

/// The first logical line of `p`: its first `first_len(p)` lines joined.
pub open spec fn first_text(p: Seq<Seq<char>>) -> Seq<char> {
    p.take(first_len(p) as int).flatten()
}

/// A nonempty sequence of lines has a first logical line of at least one line.
pub proof fn lemma_first_len_bounds(p: Seq<Seq<char>>)
    ensures
        p.len() > 0 ==> 1 <= first_len(p) <= p.len(),
        p.len() == 0 ==> first_len(p) == 0,
    decreases p.len(),
{
    if p.len() > 1 && continues(p[0]) {
        lemma_first_len_bounds(p.drop_first());
    }
}

/// The first logical line has `m` lines when the first `m - 1` continue and
/// the `m`-th does not, or is the last.
proof fn lemma_first_len_is(p: Seq<Seq<char>>, m: int)
    requires
        0 < m <= p.len(),
        forall|i: int| 0 <= i < m - 1 ==> continues(#[trigger] p[i]),
        m == p.len() || !continues(p[m - 1]),
    ensures
        first_len(p) == m,
    decreases m,
{
    if m > 1 {
        assert(continues(p[0]));
        let q = p.drop_first();
        assert forall|i: int| 0 <= i < m - 2 implies continues(#[trigger] q[i]) by {
            assert(q[i] == p[i + 1]);
        }
        if m < p.len() {
            assert(q[m - 2] == p[m - 1]);
        }
        lemma_first_len_is(q, m - 1);
    }
}

/// Whether `line` ends with a backslash-newline continuation.
pub fn ends_with_continuation(line: &str) -> (res: bool)
    ensures
        res == continues(line@),
{
    let s = str_to_chars(line);
    let n = s.len();
    n >= 2 && s[n - 2] == '\\' && s[n - 1] == '\n'
}

/// An error of kind `Other` carrying `message` (calls
/// `std::io::Error::other`).
#[verifier::external_body]
fn other_io_error(message: &str) -> std::io::Error {
    std::io::Error::other(message.to_string())
}

/// Lines from a source, joined over backslash-newline continuations, with the
/// number of the next physical line.
pub struct Input<T: TextInputSource> {
    /// The underlying source
    pub source: T,
    /// The number of the next physical line, starting from 1
    pub line_number: usize,
}

impl<T: TextInputSource> Input<T> {
    /// Lines of `source`, starting at line 1.
    pub fn new(source: T) -> (res: Self)
        ensures
            res.source == source,
            res.line_number == 1,
    {
        Input { source, line_number: 1 }
    }

    /// The next logical line and the number of its first physical line: the
    /// first pending lines of the source joined, up to and including the
    /// first that does not end with a backslash-newline continuation (or up
    /// to the end); `None` when nothing is pending. The line number advances
    /// by the number of physical lines read. When the line number can no
    /// longer count a line, the result is an error and the source is not
    /// read. A read error of the source is passed on.
    pub fn next_line(&mut self) -> (res: Result<Option<(usize, String)>, std::io::Error>)
        ensures
            final(self).line_number >= old(self).line_number,
            old(self).line_number == usize::MAX ==> res is Err && final(self).source
                == old(self).source,
            res matches Ok(None) ==> final(self).line_number == old(self).line_number,
            res matches Ok(Some((n, text))) ==> n == old(self).line_number
                && final(self).line_number > old(self).line_number,
            old(self).source.obeys_model() ==> final(self).source.obeys_model(),
            old(self).source.obeys_model() ==> (res matches Ok(None) ==> old(
                self,
            ).source.pending().len() == 0 && final(self).source.pending() == old(
                self,
            ).source.pending()),
            old(self).source.obeys_model() ==> (res matches Ok(Some((n, text))) ==> ({
                let p = old(self).source.pending();
                &&& p.len() > 0
                &&& text@ == first_text(p)
                &&& final(self).line_number == old(self).line_number + first_len(p)
                &&& final(self).source.pending() == p.skip(first_len(p) as int)
            })),
            old(self).source.obeys_model() ==> (res is Err ==> ({
                let p = old(self).source.pending();
                let j = final(self).line_number - old(self).line_number;
                &&& j <= p.len()
                &&& forall|i: int| 0 <= i < j ==> continues(#[trigger] p[i])
            })),
    {
        let start = self.line_number;
        let mut cache: Vec<char> = Vec::new();
        let ghost p = self.source.pending();
        let ghost obeys = self.source.obeys_model();
        let ghost mut read: Seq<Seq<char>> = Seq::empty();
        loop
            invariant
                start == old(self).line_number,
                p == old(self).source.pending(),
                obeys == old(self).source.obeys_model(),
                self.line_number == start + read.len(),
                cache@ == read.flatten(),
                read.len() > 0 ==> cache@.len() >= 2,
                read.len() == 0 ==> self.source == old(self).source,
                forall|i: int| 0 <= i < read.len() ==> continues(#[trigger] read[i]),
                obeys ==> self.source.obeys_model() && read.len() <= p.len() && read == p.take(
                    read.len() as int,
                ) && self.source.pending() == p.skip(read.len() as int),
            decreases usize::MAX - self.line_number,
        {
            if self.line_number == usize::MAX {
                proof {
                    if obeys {
                        let j = read.len() as int;
                        assert forall|i: int| 0 <= i < j implies continues(#[trigger] p[i]) by {
                            assert(p[i] == read[i]);
                        }
                    }
                }
                return Err(other_io_error("line number overflow"));
            }
            let ghost before = self.source.pending();
            let ghost j = read.len() as int;
            match self.source.next_line() {
                Ok(Some(line)) => {
                    proof {
                        read.lemma_flatten_push(line@);
                        if obeys {
                            assert(line@ == p[j]);
                            assert(p.take(j + 1) == p.take(j).push(p[j]));
                            assert(before.drop_first() == p.skip(j + 1));
                        }
                        read = read.push(line@);
                    }
                    self.line_number = self.line_number + 1;
                    push_str(&mut cache, line.as_str());
                    if !ends_with_continuation(line.as_str()) {
                        let text = chars_to_string(&cache);
                        proof {
                            if obeys {
                                assert forall|i: int| 0 <= i < j implies continues(
                                    #[trigger] p[i],
                                ) by {
                                    assert(p[i] == read[i]);
                                }
                                lemma_first_len_is(p, j + 1);
                                assert(p.take(j + 1) == read);
                            }
                        }
                        return Ok(Some((start, text)));
                    }
                },
                Ok(None) => {
                    if cache.len() == 0 {
                        proof {
                            if read.len() > 0 {
                                assert(false);
                            }
                            assert(p.skip(0) == p);
                        }
                        return Ok(None);
                    } else {
                        let text = chars_to_string(&cache);
                        proof {
                            if obeys {
                                assert(p.len() == j);
                                assert forall|i: int| 0 <= i < j - 1 implies continues(
                                    #[trigger] p[i],
                                ) by {
                                    assert(p[i] == read[i]);
                                }
                                lemma_first_len_is(p, j);
                                assert(p.take(j) == read);
                            }
                        }
                        return Ok(Some((start, text)));
                    }
                },
                Err(e) => {
                    proof {
                        if obeys {
                            assert forall|i: int| 0 <= i < j implies continues(#[trigger] p[i]) by {
                                assert(p[i] == read[i]);
                            }
                        }
                    }
                    return Err(e);
                },
            }
        }
    }
}

// ----- Laws of the input sources -----

proof fn lemma_line_end_facts(s: Seq<char>, i: int)
    requires
        0 <= i < s.len(),
    ensures
        i < line_end(s, i) <= s.len(),
        forall|j: int| i <= j < line_end(s, i) - 1 ==> s[j] != '\n',
        line_end(s, i) < s.len() ==> s[line_end(s, i) - 1] == '\n',
    decreases s.len() - i,
{
    lemma_line_end_bounds(s, i);
    if s[i] != '\n' && i + 1 < s.len() {
        lemma_line_end_facts(s, i + 1);
    }
}

proof fn lemma_lines_from(s: Seq<char>, i: int)
    requires
        0 <= i <= s.len(),
    ensures
        lines_from(s, i).flatten() == s.subrange(i, s.len() as int),
        forall|k: int| 0 <= k < lines_from(s, i).len() ==> #[trigger] lines_from(s, i)[k].len() > 0,
        forall|k: int|
            0 <= k < lines_from(s, i).len() - 1 ==> #[trigger] lines_from(s, i)[k].last() == '\n',
        forall|k: int, j: int|
            0 <= k < lines_from(s, i).len() && 0 <= j < lines_from(s, i)[k].len() - 1
                ==> #[trigger] lines_from(s, i)[k][j] != '\n',
    decreases s.len() - i,
{
    if i < s.len() {
        let e = line_end(s, i);
        lemma_line_end_facts(s, i);
        lemma_lines_from(s, e);
        let first = s.subrange(i, e);
        let rest = lines_from(s, e);
        let all = lines_from(s, i);
        assert(all == seq![first] + rest);
        assert(all.drop_first() == rest);
        assert(all.flatten() == first + rest.flatten());
        assert(s.subrange(i, s.len() as int) == first + s.subrange(e, s.len() as int));
        assert forall|k: int| 0 <= k < all.len() - 1 implies #[trigger] all[k].last() == '\n' by {
            if k == 0 {
                assert(e < s.len()) by {
                    if e == s.len() {
                        assert(rest.len() == 0);
                    }
                }
            } else {
                assert(all[k] == rest[k - 1]);
            }
        }
        assert forall|k: int, j: int|
            0 <= k < all.len() && 0 <= j < all[k].len() - 1 implies #[trigger] all[k][j] != '\n' by {
            if k > 0 {
                assert(all[k] == rest[k - 1]);
            }
        }
        assert forall|k: int| 0 <= k < all.len() implies #[trigger] all[k].len() > 0 by {
            if k > 0 {
                assert(all[k] == rest[k - 1]);
            }
        }
    } else {
        assert(s.subrange(i, s.len() as int) == Seq::<char>::empty());
    }
}

/// The lines of a string, put back together, give the string; no line is
/// empty, every line but the last ends with a line break, and no line has a
/// line break before its end. `StringInputSource::new(content)` starts with
/// exactly these lines pending and hands them out in order, so the lines it
/// hands out, joined, give `content`.
pub proof fn lemma_split_lines(s: Seq<char>)
    ensures
        split_lines(s).flatten() == s,
        forall|k: int| 0 <= k < split_lines(s).len() ==> #[trigger] split_lines(s)[k].len() > 0,
        forall|k: int|
            0 <= k < split_lines(s).len() - 1 ==> #[trigger] split_lines(s)[k].last() == '\n',
        forall|k: int, j: int|
            0 <= k < split_lines(s).len() && 0 <= j < split_lines(s)[k].len() - 1
                ==> #[trigger] split_lines(s)[k][j] != '\n',
{
    lemma_lines_from(s, 0);
    assert(s.subrange(0, s.len() as int) == s);
}

proof fn lemma_replace_bad_clean_of(s: Seq<char>, i: int, rep: Seq<char>)
    requires
        0 <= i <= s.len(),
        !rep.contains('\u{FFFD}'),
    ensures
        !replace_bad_from(s, i, rep).contains('\u{FFFD}'),
    decreases s.len() - i,
{
    if i < s.len() {
        lemma_replace_bad_clean_of(s, i + 1, rep);
        let head = if s[i] == '\u{FFFD}' {
            rep
        } else {
            seq![s[i]]
        };
        let tail = replace_bad_from(s, i + 1, rep);
        assert forall|k: int| 0 <= k < (head + tail).len() implies (head + tail)[k] != '\u{FFFD}' by {
            if k < head.len() {
                if s[i] == '\u{FFFD}' {
                    assert(rep[k] != '\u{FFFD}');
                }
            } else {
                assert((head + tail)[k] == tail[k - head.len()]);
            }
        }
    }
}

proof fn lemma_crlf_keeps_absent(s: Seq<char>, i: int, x: char)
    requires
        0 <= i <= s.len(),
        x != '\n',
        forall|k: int| i <= k < s.len() ==> s[k] != x,
    ensures
        !crlf_from(s, i).contains(x),
    decreases s.len() - i,
{
    if i < s.len() {
        if i + 1 < s.len() && s[i] == '\r' && s[i + 1] == '\n' {
            lemma_crlf_keeps_absent(s, i + 2, x);
            let tail = crlf_from(s, i + 2);
            assert forall|k: int| 0 <= k < (seq!['\n'] + tail).len() implies (seq!['\n']
                + tail)[k] != x by {
                if k > 0 {
                    assert((seq!['\n'] + tail)[k] == tail[k - 1]);
                }
            }
        } else {
            lemma_crlf_keeps_absent(s, i + 1, x);
            let tail = crlf_from(s, i + 1);
            assert forall|k: int| 0 <= k < (seq![s[i]] + tail).len() implies (seq![s[i]] + tail)[k]
                != x by {
                if k > 0 {
                    assert((seq![s[i]] + tail)[k] == tail[k - 1]);
                }
            }
        }
    }
}

/// Outside strict mode, a decoded line never holds a replacement character.
pub proof fn lemma_strategy_removes_bad(line: Seq<char>, strategy: EncodingErrorStrategy)
    requires
        strategy != EncodingErrorStrategy::Strict,
    ensures
        !crlf_to_lf(strategy_text(line, strategy)).contains('\u{FFFD}'),
{
    let rep: Seq<char> = if strategy == EncodingErrorStrategy::Replace {
        seq!['?']
    } else {
        Seq::empty()
    };
    assert(!rep.contains('\u{FFFD}')) by {
        if strategy == EncodingErrorStrategy::Replace {
            assert(rep[0] != '\u{FFFD}');
        }
    }
    lemma_replace_bad_clean_of(line, 0, rep);
    let t = strategy_text(line, strategy);
    assert(t == replace_bad_from(line, 0, rep));
    lemma_crlf_keeps_absent(t, 0, '\u{FFFD}');
}

} // verus!
