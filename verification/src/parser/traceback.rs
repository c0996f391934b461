//! Error tracebacks for the parser: a tree of parsing contexts with the lines
//! and column ranges where they applied, and a helper that maps byte
//! offsets in a multi-line input to line and column numbers. Offsets and
//! columns count the bytes of the UTF-8 encoding.

use vstd::prelude::*;
use crate::text::{
    byte_len, byte_offset, byte_pos, char_width_exec, chars_to_string, lemma_byte_pos_bounds,
    lemma_byte_pos_step, nat_digits, push_chars, str_to_chars, str_to_string, usize_decimal,
};
use crate::parser::command_parser::Ctx;
use crate::parser::error::cap;

verus! {

/// One point of a traceback: where a parsing context applied, and the nested
/// contexts below it.
#[derive(Debug, Eq, PartialEq)]
pub struct TracebackEntry {
    /// Line number where this traceback point occurred
    pub lineno: usize,
    /// Column range (start, end) where this traceback point occurred
    pub column_range: (usize, usize),
    /// Context description
    pub context: String,
    /// Nested traceback points
    pub children: Vec<TracebackEntry>,
}

/// The connector drawn before an entry: `└─ ` for the last child, `├─ ` otherwise.
pub open spec fn connector(is_last: bool) -> Seq<char> {
    if is_last {
        seq!['└', '─', ' ']
    } else {
        seq!['├', '─', ' ']
    }
}

/// The prefix added for the children of an entry.
pub open spec fn child_prefix(is_last: bool) -> Seq<char> {
    if is_last {
        seq![' ', ' ', ' ']
    } else {
        seq!['│', ' ', ' ']
    }
}

/// The line drawn for one entry: prefix, connector, context and `(start–end)`.
pub open spec fn tree_line(e: TracebackEntry, prefix: Seq<char>, is_last: bool) -> Seq<char> {
    prefix + connector(is_last) + e.context@ + seq![' ', '('] + nat_digits(
        e.column_range.0 as nat,
        10,
    ) + seq!['–'] + nat_digits(e.column_range.1 as nat, 10) + seq![')', '\n']
}

/// The drawing of an entry and, below it, of its children.
pub open spec fn tree_text(e: TracebackEntry, prefix: Seq<char>, is_last: bool) -> Seq<char>
    decreases e, e.children@.len() + 2,
{
    tree_line(e, prefix, is_last) + children_text(e, prefix + child_prefix(is_last), 0)
}

/// The drawings of the children of `e` from the `i`-th on.
pub open spec fn children_text(e: TracebackEntry, prefix: Seq<char>, i: int) -> Seq<char>
    decreases e, e.children@.len() - i + 1,
{
    if 0 <= i < e.children@.len() {
        tree_text(e.children@[i], prefix, i == e.children@.len() - 1) + children_text(
            e,
            prefix,
            i + 1,
        )
    } else {
        Seq::empty()
    }
}

impl TracebackEntry {
    /// Create a traceback entry without children.
    pub fn new(lineno: usize, column_range: (usize, usize), context: String) -> (res: Self)
        ensures
            res.lineno == lineno,
            res.column_range == column_range,
            res.context@ == context@,
            res.children@.len() == 0,
    {
        TracebackEntry { lineno, column_range, context, children: Vec::new() }
    }

    /// Appends the drawing of this entry and its children to `out`.
    pub fn push_tree(&self, out: &mut Vec<char>, prefix: &Vec<char>, is_last: bool)
        ensures
            final(out)@ == old(out)@ + tree_text(*self, prefix@, is_last),
        decreases *self, self.children@.len() + 2,
    {
        push_chars(out, prefix);
        if is_last {
            out.push('└');
        } else {
            out.push('├');
        }
        out.push('─');
        out.push(' ');
        crate::text::push_str(out, self.context.as_str());
        out.push(' ');
        out.push('(');
        let a = usize_decimal(self.column_range.0);
        push_chars(out, &a);
        out.push('–');
        let b = usize_decimal(self.column_range.1);
        push_chars(out, &b);
        out.push(')');
        out.push('\n');
        assert(out@ == old(out)@ + tree_line(*self, prefix@, is_last));
        let mut child_pre = prefix.clone();
        if is_last {
            child_pre.push(' ');
        } else {
            child_pre.push('│');
        }
        child_pre.push(' ');
        child_pre.push(' ');
        assert(child_pre@ == prefix@ + child_prefix(is_last));
        let ghost base = out@;
        let total = self.children.len();
        let mut i: usize = 0;
        while i < total
            invariant
                0 <= i <= total,
                total == self.children@.len(),
                child_pre@ == prefix@ + child_prefix(is_last),
                base + children_text(*self, child_pre@, 0) == out@ + children_text(
                    *self,
                    child_pre@,
                    i as int,
                ),
            decreases total - i,
        {
            let ghost mid = out@;
            self.children[i].push_tree(out, &child_pre, i + 1 == total);
            assert(children_text(*self, child_pre@, i as int) == tree_text(
                self.children@[i as int],
                child_pre@,
                i as int == total - 1,
            ) + children_text(*self, child_pre@, i as int + 1));
            assert(mid + children_text(*self, child_pre@, i as int) == out@ + children_text(
                *self,
                child_pre@,
                i as int + 1,
            ));
            i = i + 1;
        }
        assert(children_text(*self, child_pre@, total as int) == Seq::<char>::empty());
        assert(out@ == old(out)@ + tree_text(*self, prefix@, is_last));
    }

    /// The drawing of this entry and its children, each line starting with
    /// `prefix` and the tree connectors.
    pub fn write_tree(&self, prefix: &str, is_last: bool) -> (res: String)
        ensures
            res@ == tree_text(*self, prefix@, is_last),
    {
        let mut out: Vec<char> = Vec::new();
        let p = str_to_chars(prefix);
        self.push_tree(&mut out, &p, is_last);
        chars_to_string(&out)
    }

    /// The drawing of this traceback as a tree.
    pub fn to_string(&self) -> (res: String)
        ensures
            res@ == tree_text(*self, Seq::empty(), false),
    {
        let out = self.write_tree("", false);
        proof {
            reveal_strlit("");
        }
        out
    }
}

/// The line number (1-based) of a byte offset, given the sorted offsets
/// of the line breaks: one more than the number of breaks before the offset.
pub open spec fn breaks_before(newlines: Seq<usize>, offset: int) -> int
    decreases newlines.len(),
{
    if newlines.len() == 0 {
        0
    } else if newlines.last() < offset {
        breaks_before(newlines.drop_last(), offset) + 1
    } else {
        breaks_before(newlines.drop_last(), offset)
    }
}

/// Whether a sequence of offsets is strictly increasing.
pub open spec fn strictly_sorted(v: Seq<usize>) -> bool {
    forall|a: int, b: int| 0 <= a < b < v.len() ==> v[a] < v[b]
}

/// Helper structure for line number lookups in a multi-line input.
pub struct LineIndex {
    /// Byte offsets of the line breaks, in increasing order
    pub newlines: Vec<usize>,
    /// Number of bytes of the input
    pub len: usize,
}

/// The byte offsets of the `\n` characters of `s[..n]`.
pub open spec fn newline_offsets(s: Seq<char>, n: int) -> Seq<usize>
    decreases n,
{
    if n <= 0 {
        Seq::empty()
    } else if s[n - 1] == '\n' {
        newline_offsets(s, n - 1).push(byte_pos(s, n - 1) as usize)
    } else {
        newline_offsets(s, n - 1)
    }
}

proof fn lemma_newline_offsets_sorted(s: Seq<char>, n: int)
    requires
        0 <= n <= s.len(),
        byte_len(s) <= usize::MAX,
    ensures
        strictly_sorted(newline_offsets(s, n)),
        forall|k: int|
            0 <= k < newline_offsets(s, n).len() ==> newline_offsets(s, n)[k] < byte_pos(s, n),
        newline_offsets(s, n).len() <= n,
    decreases n,
{
    if n > 0 {
        lemma_newline_offsets_sorted(s, n - 1);
        lemma_byte_pos_step(s, n - 1);
        lemma_byte_pos_bounds(s, n - 1, s.len() as int);
    }
}

/// Splitting a sorted sequence at a point: the breaks before an offset are
/// those of the prefix that are below it.
proof fn lemma_breaks_before_split(v: Seq<usize>, offset: int, k: int)
    requires
        strictly_sorted(v),
        0 <= k <= v.len(),
        forall|a: int| 0 <= a < k ==> v[a] < offset,
        forall|a: int| k <= a < v.len() ==> v[a] >= offset,
    ensures
        breaks_before(v, offset) == k,
    decreases v.len(),
{
    if v.len() > 0 {
        if k == v.len() {
            lemma_breaks_before_split(v.drop_last(), offset, k - 1);
        } else {
            lemma_breaks_before_split(v.drop_last(), offset, k);
        }
    }
}

impl LineIndex {
    /// The well-formedness of an index: sorted break offsets within the input.
    pub open spec fn wf(&self) -> bool {
        &&& strictly_sorted(self.newlines@)
        &&& self.newlines@.len() <= self.len < usize::MAX
        &&& forall|k: int| 0 <= k < self.newlines@.len() ==> self.newlines@[k] < self.len
    }

    /// Index the line breaks of `input`.
    pub fn new(input: &str) -> (res: Self)
        requires
            byte_len(input@) < usize::MAX,
        ensures
            res.wf(),
            res.newlines@ == newline_offsets(input@, input@.len() as int),
            res.len == byte_len(input@),
    {
        let s = str_to_chars(input);
        let mut newlines: Vec<usize> = Vec::new();
        let mut i: usize = 0;
        let mut b: usize = 0;
        while i < s.len()
            invariant
                0 <= i <= s@.len(),
                s@ == input@,
                byte_len(s@) < usize::MAX,
                b == byte_pos(s@, i as int),
                newlines@ == newline_offsets(s@, i as int),
            decreases s@.len() - i,
        {
            proof {
                lemma_byte_pos_step(s@, i as int);
                lemma_byte_pos_bounds(s@, i as int + 1, s@.len() as int);
            }
            if s[i] == '\n' {
                newlines.push(b);
            }
            b = b + char_width_exec(s[i]);
            i = i + 1;
        }
        proof {
            lemma_newline_offsets_sorted(s@, s@.len() as int);
            lemma_byte_pos_bounds(s@, 0, s@.len() as int);
        }
        LineIndex { newlines, len: b }
    }

    /// The (line, column) of a byte offset, both 1-based. An offset on a
    /// line break belongs to the line it ends. An empty input is (1, 1).
    pub fn get_location(&self, offset: usize) -> (res: (usize, usize))
        requires
            self.wf(),
            offset <= self.len,
        ensures
            self.len == 0 ==> res == (1usize, 1usize),
            self.len > 0 ==> res.0 == breaks_before(self.newlines@, offset as int) + 1,
            self.len > 0 && res.0 == 1 ==> res.1 == offset + 1,
            self.len > 0 && res.0 > 1 ==> res.1 == offset - self.newlines@[res.0 - 2] as int,
    {
        if self.len == 0 {
            return (1, 1);
        }
        // binary search for the first break at or after the offset
        let mut lo: usize = 0;
        let mut hi: usize = self.newlines.len();
        while lo < hi
            invariant
                0 <= lo <= hi <= self.newlines@.len(),
                self.wf(),
                offset <= self.len,
                forall|a: int| 0 <= a < lo ==> self.newlines@[a] < offset,
                forall|a: int| hi <= a < self.newlines@.len() ==> self.newlines@[a] >= offset,
            decreases hi - lo,
        {
            let mid = lo + (hi - lo) / 2;
            if self.newlines[mid] < offset {
                lo = mid + 1;
            } else {
                hi = mid;
            }
        }
        proof {
            lemma_breaks_before_split(self.newlines@, offset as int, lo as int);
        }
        let line_number = lo + 1;
        let line_start = if line_number == 1 {
            0
        } else {
            self.newlines[line_number - 2] + 1
        };
        (line_number, offset - line_start + 1)
    }
}

/// The name of the grammar rule in which a committed failure happened.
pub open spec fn context_name(c: Ctx) -> Seq<char> {
    match c {
        Ctx::CommandName => "koicore.command_name"@,
        Ctx::Parameter => "koicore.parameter"@,
        Ctx::CompositeValue => "koicore.basic_value"@,
        Ctx::CompositeEnd => "koicore.composite_parameter"@,
    }
}

/// The 1-based (line, column) of byte offset `pos` in `s`, the column in
/// bytes: lines are separated by `\n`, and an empty input is (1, 1).
pub open spec fn line_col(s: Seq<char>, pos: int) -> (int, int) {
    if s.len() == 0 {
        (1, 1)
    } else {
        let nl = newline_offsets(s, s.len() as int);
        let line = breaks_before(nl, pos) + 1;
        (
            line,
            if line == 1 {
                pos + 1
            } else {
                pos - nl[line - 2]
            },
        )
    }
}

fn context_string(c: Ctx) -> (res: String)
    ensures
        res@ == context_name(c),
{
    match c {
        Ctx::CommandName => str_to_string("koicore.command_name"),
        Ctx::Parameter => str_to_string("koicore.parameter"),
        Ctx::CompositeValue => str_to_string("koicore.basic_value"),
        Ctx::CompositeEnd => str_to_string("koicore.composite_parameter"),
    }
}

impl TracebackEntry {
    /// The traceback of a committed failure of rule `ctx` at the `pos`-th
    /// character of `input`, a command text that starts on line `line` at
    /// column offset `column_offset`: the line of the failure, and the
    /// columns (in bytes) from the failure to the end of the input. Sums past
    /// `usize::MAX` are capped.
    pub fn build_error_trace(input: &str, line: usize, column_offset: usize, pos: usize, ctx: Ctx) -> (res:
        Self)
        requires
            byte_len(input@) < usize::MAX,
            pos <= input@.len(),
        ensures
            res.lineno == cap(line + line_col(input@, byte_pos(input@, pos as int) as int).0 - 1),
            res.column_range == (
                cap(line_col(input@, byte_pos(input@, pos as int) as int).1 + column_offset),
                cap(
                    line_col(input@, byte_pos(input@, pos as int) as int).1 + (byte_len(input@)
                        - byte_pos(input@, pos as int)) + column_offset,
                ),
            ),
            res.context@ == context_name(ctx),
            res.children@.len() == 0,
    {
        let index = LineIndex::new(input);
        let s = str_to_chars(input);
        let bpos = byte_offset(&s, pos);
        proof {
            lemma_byte_pos_bounds(s@, pos as int, s@.len() as int);
        }
        let (rel_line, rel_column) = index.get_location(bpos);
        proof {
            if index.len > 0 {
                lemma_breaks_before_bound(index.newlines@, bpos as int);
            }
        }
        let lineno = line.saturating_add(rel_line - 1);
        let start = rel_column.saturating_add(column_offset);
        let end = rel_column.saturating_add(index.len - bpos).saturating_add(column_offset);
        TracebackEntry::new(lineno, (start, end), context_string(ctx))
    }
}

proof fn lemma_breaks_before_bound(v: Seq<usize>, offset: int)
    ensures
        0 <= breaks_before(v, offset) <= v.len(),
    decreases v.len(),
{
    if v.len() > 0 {
        lemma_breaks_before_bound(v.drop_last(), offset);
    }
}

} // verus!
