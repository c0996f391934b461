//! Core KoiLang language support: command data structures, a streaming
//! line parser with a verified command grammar, and a text writer whose
//! output the parser reads back.

pub mod text;
pub mod command;
pub mod conversions;
pub mod parser;
pub mod writer;
pub mod roundtrip;

pub use command::{Command, Parameter, Value};
pub use parser::{Parser, ParserConfig};
pub use parser::error::ParseError;
pub use writer::Writer;
pub use writer::config::{FormatterOptions, WriterConfig};
