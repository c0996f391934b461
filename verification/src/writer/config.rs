//! Configuration of the KoiLang writer: number formats, formatting options,
//! per-command and per-parameter option tables.

use vstd::prelude::*;
use crate::text::str_eq;

verus! {

/// How integers are written.
#[derive(Debug, Clone, Copy, PartialEq, Eq, Structural)]
pub enum NumberFormat {
    /// Not set: options merged over others leave the format alone, and the
    /// writer falls back to decimal
    Unknown,
    /// Decimal (the default)
    Decimal,
    /// Hexadecimal, `0x` prefix
    Hex,
    /// Octal, `0o` prefix
    Octal,
    /// Binary, `0b` prefix
    Binary,
}

impl Default for NumberFormat {
    fn default() -> (res: Self)
        ensures
            res == NumberFormat::Decimal,
    {
        NumberFormat::Decimal
    }
}

/// Selects a parameter for parameter-specific options.
#[derive(Debug, Clone, PartialEq, Eq, Hash)]
pub enum ParamFormatSelector {
    /// The parameter at this position (from 0)
    Position(usize),
    /// The composite parameter with this name
    Name(String),
}

/// The model of a parameter selector.
pub enum SelectorModel {
    Position(usize),
    Name(Seq<char>),
}

impl View for ParamFormatSelector {
    type V = SelectorModel;

    open spec fn view(&self) -> SelectorModel {
        match self {
            ParamFormatSelector::Position(p) => SelectorModel::Position(*p),
            ParamFormatSelector::Name(n) => SelectorModel::Name(n@),
        }
    }
}

impl ParamFormatSelector {
    /// Whether two selectors select the same parameters.
    pub fn same(&self, other: &ParamFormatSelector) -> (res: bool)
        ensures
            res == (self@ == other@),
    {
        match (self, other) {
            (ParamFormatSelector::Position(a), ParamFormatSelector::Position(b)) => *a == *b,
            (ParamFormatSelector::Name(a), ParamFormatSelector::Name(b)) => str_eq(
                a.as_str(),
                b.as_str(),
            ),
            _ => false,
        }
    }
}

/// Formatting options of the writer.
#[derive(Debug, Clone, Copy, PartialEq, Eq, Structural)]
pub struct FormatterOptions {
    /// Number of spaces per indentation level
    pub indent: usize,
    /// Whether indentation uses tabs instead of spaces
    pub use_tabs: bool,
    /// Whether an empty line comes before the command
    pub newline_before: bool,
    /// Whether an empty line comes after the command
    pub newline_after: bool,
    /// Whether to leave out optional whitespace
    pub compact: bool,
    /// Whether strings are quoted even when they are identifiers
    pub force_quotes_for_vars: bool,
    /// How integers are written
    pub number_format: NumberFormat,
    /// Whether a parameter starts on a new line
    pub newline_before_param: bool,
    /// Whether the parameter after this one starts on a new line
    pub newline_after_param: bool,
    /// Whether these options replace the options they are merged over
    /// instead of overriding their set fields
    pub should_override: bool,
}

/// The default formatting options.
pub open spec fn default_options() -> FormatterOptions {
    FormatterOptions {
        indent: 4,
        use_tabs: false,
        newline_before: false,
        newline_after: false,
        compact: false,
        force_quotes_for_vars: false,
        number_format: NumberFormat::Decimal,
        newline_before_param: false,
        newline_after_param: false,
        should_override: false,
    }
}

impl Default for FormatterOptions {
    /// Indentation of 4 spaces, decimal numbers, every switch off.
    fn default() -> (res: Self)
        ensures
            res == default_options(),
    {
        FormatterOptions {
            indent: 4,
            use_tabs: false,
            newline_before: false,
            newline_after: false,
            compact: false,
            force_quotes_for_vars: false,
            number_format: NumberFormat::Decimal,
            newline_before_param: false,
            newline_after_param: false,
            should_override: false,
        }
    }
}

/// The options of the first entry of `m[i..]` with key `k`.
pub open spec fn lookup_from<K>(m: Seq<(K, FormatterOptions)>, i: int, k: K) -> Option<
    FormatterOptions,
>
    decreases m.len() - i,
{
    if i < 0 || i >= m.len() {
        None
    } else if m[i].0 == k {
        Some(m[i].1)
    } else {
        lookup_from(m, i + 1, k)
    }
}

/// The options of the first entry of `m` with key `k`.
pub open spec fn lookup<K>(m: Seq<(K, FormatterOptions)>, k: K) -> Option<FormatterOptions> {
    lookup_from(m, 0, k)
}

/// Looking up past an entry with another key.
proof fn lemma_lookup_update<K>(m: Seq<(K, FormatterOptions)>, i: int, j: int, v: (K, FormatterOptions), k: K)
    requires
        0 <= i <= j < m.len(),
        m[j].0 == v.0,
        forall|a: int| i <= a < j ==> m[a].0 != v.0,
    ensures
        lookup_from(m.update(j, v), i, k) == (if k == v.0 {
            Some(v.1)
        } else {
            lookup_from(m, i, k)
        }),
    decreases m.len() - i,
{
    let u = m.update(j, v);
    if i < j {
        assert(u[i] == m[i]);
        lemma_lookup_update(m, i + 1, j, v, k);
    } else {
        assert(u[j] == v);
        if k != v.0 {
            assert forall|a: int| j + 1 <= a < m.len() implies m[a] == u[a] by {}
            lemma_lookup_same(m, u, j + 1);
            assert(lookup_from(u, j + 1, k) == lookup_from(m, j + 1, k));
        }
    }
}

/// Lookups agree on sequences that agree from `i` on.
proof fn lemma_lookup_same<K>(m1: Seq<(K, FormatterOptions)>, m2: Seq<(K, FormatterOptions)>, i: int)
    requires
        m1.len() == m2.len(),
        0 <= i,
        forall|a: int| i <= a < m1.len() ==> m1[a] == m2[a],
    ensures
        forall|k: K| lookup_from(m1, i, k) == lookup_from(m2, i, k),
    decreases m1.len() - i,
{
    if i < m1.len() {
        lemma_lookup_same(m1, m2, i + 1);
        assert forall|k: K| lookup_from(m1, i, k) == lookup_from(m2, i, k) by {
            assert(m1[i] == m2[i]);
            assert(lookup_from(m1, i + 1, k) == lookup_from(m2, i + 1, k));
        }
    }
}

/// Looking up in a sequence with an entry pushed at its end.
proof fn lemma_lookup_push<K>(m: Seq<(K, FormatterOptions)>, i: int, v: (K, FormatterOptions), k: K)
    requires
        0 <= i <= m.len(),
        forall|a: int| i <= a < m.len() ==> m[a].0 != v.0,
    ensures
        lookup_from(m.push(v), i, k) == (if lookup_from(m, i, k) is Some {
            lookup_from(m, i, k)
        } else if k == v.0 {
            Some(v.1)
        } else {
            None
        }),
    decreases m.len() - i,
{
    if i < m.len() {
        assert(m.push(v)[i] == m[i]);
        lemma_lookup_push(m, i + 1, v, k);
    } else {
        assert(m.push(v)[i] == v);
        assert(lookup_from(m.push(v), i + 1, k) is None);
        assert(lookup_from(m, i, k) is None);
    }
}

/// Whether `m[i..]` has an entry with key `k`.
proof fn lemma_lookup_none<K>(m: Seq<(K, FormatterOptions)>, i: int, k: K)
    requires
        0 <= i <= m.len(),
    ensures
        lookup_from(m, i, k) is None <==> forall|a: int| i <= a < m.len() ==> m[a].0 != k,
        lookup_from(m, i, k) is Some <==> exists|a: int| i <= a < m.len() && m[a].0 == k,
    decreases m.len() - i,
{
    if i < m.len() {
        lemma_lookup_none(m, i + 1, k);
        if m[i].0 == k {
            assert(exists|a: int| i <= a < m.len() && m[a].0 == k);
        }
    }
}

/// Formatting options for particular commands, by command name.
#[derive(Debug, Clone)]
pub struct CommandOptions {
    entries: Vec<(String, FormatterOptions)>,
}

impl CommandOptions {
    /// The entries, in the order their names were first inserted.
    pub closed spec fn entries(&self) -> Seq<(Seq<char>, FormatterOptions)> {
        self.entries@.map_values(|e: (String, FormatterOptions)| (e.0@, e.1))
    }

    /// An empty table.
    pub fn new() -> (res: Self)
        ensures
            res.entries().len() == 0,
    {
        CommandOptions { entries: Vec::new() }
    }

    /// Sets the options of command `name`, replacing those it had.
    pub fn insert(&mut self, name: String, options: FormatterOptions)
        ensures
            forall|k: Seq<char>| #[trigger]
                lookup(final(self).entries(), k) == (if k == name@ {
                    Some(options)
                } else {
                    lookup(old(self).entries(), k)
                }),
            final(self).entries().len() == old(self).entries().len() + (if lookup(
                old(self).entries(),
                name@,
            ) is None {
                1int
            } else {
                0int
            }),
    {
        let ghost m = self.entries();
        let mut i: usize = 0;
        while i < self.entries.len()
            invariant
                0 <= i <= self.entries@.len(),
                m == self.entries(),
                self.entries@ == old(self).entries@,
                forall|a: int| 0 <= a < i ==> m[a].0 != name@,
            decreases self.entries@.len() - i,
        {
            if str_eq(self.entries[i].0.as_str(), name.as_str()) {
                let ghost v = (name@, options);
                assert(m[i as int].0 == name@);
                self.entries.set(i, (name, options));
                proof {
                    assert(self.entries() == m.update(i as int, v));
                    assert forall|k: Seq<char>| #[trigger]
                        lookup(self.entries(), k) == (if k == name@ {
                            Some(options)
                        } else {
                            lookup(m, k)
                        }) by {
                        lemma_lookup_update(m, 0, i as int, v, k);
                    }
                    lemma_lookup_none(m, 0, name@);
                }
                return;
            }
            i = i + 1;
        }
        let ghost v = (name@, options);
        self.entries.push((name, options));
        proof {
            assert(self.entries() == m.push(v));
            assert forall|k: Seq<char>| #[trigger]
                lookup(self.entries(), k) == (if k == name@ {
                    Some(options)
                } else {
                    lookup(m, k)
                }) by {
                lemma_lookup_push(m, 0, v, k);
                lemma_lookup_none(m, 0, k);
            }
            lemma_lookup_none(m, 0, name@);
        }
    }

    /// The options of command `name`, if it has some.
    pub fn get(&self, name: &str) -> (res: Option<&FormatterOptions>)
        ensures
            match lookup(self.entries(), name@) {
                Some(o) => res matches Some(r) && *r == o,
                None => res is None,
            },
    {
        let ghost m = self.entries();
        let mut i: usize = 0;
        while i < self.entries.len()
            invariant
                0 <= i <= self.entries@.len(),
                m == self.entries(),
                lookup(m, name@) == lookup_from(m, i as int, name@),
            decreases self.entries@.len() - i,
        {
            if str_eq(self.entries[i].0.as_str(), name) {
                return Some(&self.entries[i].1);
            }
            i = i + 1;
        }
        None
    }

    /// The number of commands with options.
    pub fn len(&self) -> (res: usize)
        ensures
            res == self.entries().len(),
    {
        self.entries.len()
    }

    /// Whether no command has options.
    pub fn is_empty(&self) -> (res: bool)
        ensures
            res == (self.entries().len() == 0),
    {
        self.entries.len() == 0
    }
}

/// Formatting options for particular parameters, by position or name.
#[derive(Debug, Clone)]
pub struct ParamOptions {
    entries: Vec<(ParamFormatSelector, FormatterOptions)>,
}

impl ParamOptions {
    /// The entries, in the order their selectors were first inserted.
    pub closed spec fn entries(&self) -> Seq<(SelectorModel, FormatterOptions)> {
        self.entries@.map_values(|e: (ParamFormatSelector, FormatterOptions)| (e.0@, e.1))
    }

    /// An empty table.
    pub fn new() -> (res: Self)
        ensures
            res.entries().len() == 0,
    {
        ParamOptions { entries: Vec::new() }
    }

    /// Sets the options of the parameters `selector` selects, replacing those
    /// it had.
    pub fn insert(&mut self, selector: ParamFormatSelector, options: FormatterOptions)
        ensures
            forall|k: SelectorModel| #[trigger]
                lookup(final(self).entries(), k) == (if k == selector@ {
                    Some(options)
                } else {
                    lookup(old(self).entries(), k)
                }),
            final(self).entries().len() == old(self).entries().len() + (if lookup(
                old(self).entries(),
                selector@,
            ) is None {
                1int
            } else {
                0int
            }),
    {
        let ghost m = self.entries();
        let mut i: usize = 0;
        while i < self.entries.len()
            invariant
                0 <= i <= self.entries@.len(),
                m == self.entries(),
                self.entries@ == old(self).entries@,
                forall|a: int| 0 <= a < i ==> m[a].0 != selector@,
            decreases self.entries@.len() - i,
        {
            if self.entries[i].0.same(&selector) {
                let ghost v = (selector@, options);
                assert(m[i as int].0 == selector@);
                self.entries.set(i, (selector, options));
                proof {
                    assert(self.entries() == m.update(i as int, v));
                    assert forall|k: SelectorModel| #[trigger]
                        lookup(self.entries(), k) == (if k == v.0 {
                            Some(options)
                        } else {
                            lookup(m, k)
                        }) by {
                        lemma_lookup_update(m, 0, i as int, v, k);
                    }
                    lemma_lookup_none(m, 0, v.0);
                }
                return;
            }
            i = i + 1;
        }
        let ghost v = (selector@, options);
        self.entries.push((selector, options));
        proof {
            assert(self.entries() == m.push(v));
            assert forall|k: SelectorModel| #[trigger]
                lookup(self.entries(), k) == (if k == v.0 {
                    Some(options)
                } else {
                    lookup(m, k)
                }) by {
                lemma_lookup_push(m, 0, v, k);
                lemma_lookup_none(m, 0, k);
            }
            lemma_lookup_none(m, 0, v.0);
        }
    }

    /// The options of the parameters `selector` selects, if it has some.
    pub fn get(&self, selector: &ParamFormatSelector) -> (res: Option<&FormatterOptions>)
        ensures
            match lookup(self.entries(), selector@) {
                Some(o) => res matches Some(r) && *r == o,
                None => res is None,
            },
    {
        let ghost m = self.entries();
        let mut i: usize = 0;
        while i < self.entries.len()
            invariant
                0 <= i <= self.entries@.len(),
                m == self.entries(),
                lookup(m, selector@) == lookup_from(m, i as int, selector@),
            decreases self.entries@.len() - i,
        {
            if self.entries[i].0.same(selector) {
                return Some(&self.entries[i].1);
            }
            i = i + 1;
        }
        None
    }

    /// The number of selectors with options.
    pub fn len(&self) -> (res: usize)
        ensures
            res == self.entries().len(),
    {
        self.entries.len()
    }

    /// Whether no selector has options.
    pub fn is_empty(&self) -> (res: bool)
        ensures
            res == (self.entries().len() == 0),
    {
        self.entries.len() == 0
    }
}

/// Configuration of the writer.
#[derive(Debug, Clone)]
pub struct WriterConfig {
    /// Options for every command
    pub global_options: FormatterOptions,
    /// Options for particular commands, merged over the global ones
    pub command_options: CommandOptions,
    /// The number of `#` marks before a command
    pub command_threshold: usize,
}

impl Default for WriterConfig {
    /// Default options, no command-specific options, threshold 1.
    fn default() -> (res: Self)
        ensures
            res.global_options == default_options(),
            res.command_options.entries().len() == 0,
            res.command_threshold == 1,
    {
        WriterConfig {
            global_options: FormatterOptions::default(),
            command_options: CommandOptions::new(),
            command_threshold: 1,
        }
    }
}

} // verus!
