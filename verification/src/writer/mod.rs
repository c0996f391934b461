//! The KoiLang writer: turns commands back into KoiLang text, with
//! configurable formatting.
//!
//! A [`Writer`] keeps the text it has written; the caller hands it on to
//! wherever it goes.

pub mod config;
pub mod formatters;
pub mod generators;

use vstd::prelude::*;
use crate::command::Command;
use crate::text::chars_to_string;
pub use config::{FormatterOptions, NumberFormat, ParamFormatSelector, ParamOptions, WriterConfig};
use generators::{Generators, command_body, effective_spec, indent_fits, indent_text};

verus! {

/// The text [`Writer::write_command_with_options`] adds for a command: a
/// line break first when the options ask for one and the previous output did
/// not end with an empty line, the indentation, the command, a line break,
/// and one more when the options ask for one.
pub open spec fn command_output(
    last_was_newline: bool,
    level: int,
    threshold: int,
    eff: FormatterOptions,
    c: crate::command::CommandModel,
    map: Option<Seq<(config::SelectorModel, FormatterOptions)>>,
) -> Seq<char> {
    (if eff.newline_before && !last_was_newline {
        seq!['\n']
    } else {
        Seq::empty()
    }) + indent_text(level, eff) + command_body(c, threshold, eff, map, level) + seq!['\n'] + (
    if eff.newline_after {
        seq!['\n']
    } else {
        Seq::empty()
    })
}

/// A KoiLang writer: the text written so far, the configuration, the
/// indentation level, and whether the output ends with an empty line of its
/// own making.
pub struct Writer {
    output: Vec<char>,
    config: WriterConfig,
    current_indent: usize,
    last_was_newline: bool,
}

impl Writer {
    /// The text written so far.
    pub closed spec fn written(&self) -> Seq<char> {
        self.output@
    }

    /// The configuration.
    pub closed spec fn config(&self) -> WriterConfig {
        self.config
    }

    /// The indentation level.
    pub closed spec fn indent_level(&self) -> usize {
        self.current_indent
    }

    /// Whether the last thing written was a line break of [`Writer::newline`].
    pub closed spec fn ends_with_newline(&self) -> bool {
        self.last_was_newline
    }

    /// A writer with nothing written, at indentation level 0.
    pub fn new(config: WriterConfig) -> (res: Self)
        ensures
            res.written() == Seq::<char>::empty(),
            res.config() == config,
            res.indent_level() == 0,
            !res.ends_with_newline(),
    {
        Writer { output: Vec::new(), config, current_indent: 0, last_was_newline: false }
    }

    /// Writes a command with the options of the configuration.
    pub fn write_command(&mut self, command: &Command)
        requires
            old(self).config().command_threshold < usize::MAX,
            indent_fits(
                old(self).indent_level() as int,
                effective_spec(
                    command.name@,
                    None,
                    old(self).config().global_options,
                    old(self).config().command_options.entries(),
                ),
            ),
        ensures
            final(self).written() == old(self).written() + command_output(
                old(self).ends_with_newline(),
                old(self).indent_level() as int,
                old(self).config().command_threshold as int,
                effective_spec(
                    command.name@,
                    None,
                    old(self).config().global_options,
                    old(self).config().command_options.entries(),
                ),
                command@,
                None,
            ),
            final(self).config() == old(self).config(),
            final(self).indent_level() == old(self).indent_level(),
            final(self).ends_with_newline() == effective_spec(
                command.name@,
                None,
                old(self).config().global_options,
                old(self).config().command_options.entries(),
            ).newline_after,
    {
        self.write_command_with_options(command, None, None)
    }

    /// Writes a command with `options` merged over the configured ones and
    /// with parameter-specific options: see [`command_output`] and
    /// [`effective_spec`].
    pub fn write_command_with_options(
        &mut self,
        command: &Command,
        options: Option<&FormatterOptions>,
        param_options: Option<&ParamOptions>,
    )
        requires
            old(self).config().command_threshold < usize::MAX,
            indent_fits(
                old(self).indent_level() as int,
                effective_spec(
                    command.name@,
                    match options {
                        Some(o) => Some(*o),
                        None => None,
                    },
                    old(self).config().global_options,
                    old(self).config().command_options.entries(),
                ),
            ),
        ensures
            final(self).written() == old(self).written() + command_output(
                old(self).ends_with_newline(),
                old(self).indent_level() as int,
                old(self).config().command_threshold as int,
                effective_spec(
                    command.name@,
                    match options {
                        Some(o) => Some(*o),
                        None => None,
                    },
                    old(self).config().global_options,
                    old(self).config().command_options.entries(),
                ),
                command@,
                match param_options {
                    Some(m) => Some(m.entries()),
                    None => None,
                },
            ),
            final(self).config() == old(self).config(),
            final(self).indent_level() == old(self).indent_level(),
            final(self).ends_with_newline() == effective_spec(
                command.name@,
                match options {
                    Some(o) => Some(*o),
                    None => None,
                },
                old(self).config().global_options,
                old(self).config().command_options.entries(),
            ).newline_after,
    {
        let eff = Generators::get_effective_options(command.name.as_str(), options, &self.config);
        if eff.newline_before && !self.last_was_newline {
            self.output.push('\n');
        }
        let mut line = String::new();
        proof {
            let l = self.current_indent as int;
            let i = eff.indent as int;
            assert(l * i <= (l + 1) * i) by (nonlinear_arith)
                requires
                    l >= 0,
                    i >= 0,
            ;
        }
        Generators::write_indent(&mut line, self.current_indent, &eff);
        Generators::write_command_with_param_options(
            &mut line,
            command,
            &self.config,
            &eff,
            param_options,
            self.current_indent,
        );
        crate::text::push_str(&mut self.output, line.as_str());
        self.output.push('\n');
        if eff.newline_after {
            self.output.push('\n');
            self.last_was_newline = true;
        } else {
            self.last_was_newline = false;
        }
    }

    /// Goes one indentation level deeper.
    pub fn inc_indent(&mut self)
        requires
            old(self).indent_level() < usize::MAX,
        ensures
            final(self).indent_level() == inc_level(old(self).indent_level() as int),
            final(self).written() == old(self).written(),
            final(self).config() == old(self).config(),
            final(self).ends_with_newline() == old(self).ends_with_newline(),
    {
        self.current_indent = self.current_indent + 1;
    }

    /// Goes one indentation level up, unless already at level 0.
    pub fn dec_indent(&mut self)
        ensures
            final(self).indent_level() == dec_level(old(self).indent_level() as int),
            final(self).written() == old(self).written(),
            final(self).config() == old(self).config(),
            final(self).ends_with_newline() == old(self).ends_with_newline(),
    {
        if self.current_indent > 0 {
            self.current_indent = self.current_indent - 1;
        }
    }

    /// The indentation level.
    pub fn get_indent(&self) -> (res: usize)
        ensures
            res == self.indent_level(),
    {
        self.current_indent
    }

    /// Writes a line break.
    pub fn newline(&mut self)
        ensures
            final(self).written() == old(self).written() + seq!['\n'],
            final(self).ends_with_newline(),
            final(self).indent_level() == old(self).indent_level(),
            final(self).config() == old(self).config(),
    {
        self.output.push('\n');
        self.last_was_newline = true;
    }

    /// The text written so far.
    pub fn output(&self) -> (res: String)
        ensures
            res@ == self.written(),
    {
        chars_to_string(&self.output)
    }

    /// The text written so far, which the writer then forgets.
    pub fn take_output(&mut self) -> (res: String)
        ensures
            res@ == old(self).written(),
            final(self).written() == Seq::<char>::empty(),
            final(self).indent_level() == old(self).indent_level(),
            final(self).config() == old(self).config(),
            final(self).ends_with_newline() == old(self).ends_with_newline(),
    {
        let res = chars_to_string(&self.output);
        self.output = Vec::new();
        res
    }
}

/// The indentation level after [`Writer::inc_indent`].
pub open spec fn inc_level(level: int) -> int {
    level + 1
}

/// The indentation level after [`Writer::dec_indent`].
pub open spec fn dec_level(level: int) -> int {
    if level > 0 {
        level - 1
    } else {
        0
    }
}

/// Going one level deeper and then one level up returns to the same level;
/// going up never goes below level 0.
pub proof fn lemma_indent_inc_dec(level: int)
    requires
        level >= 0,
    ensures
        dec_level(inc_level(level)) == level,
        dec_level(level) >= 0,
        dec_level(0) == 0,
{
}

} // verus!
