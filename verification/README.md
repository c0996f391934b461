# koicore

The core of KoiLang, a line-based markup language for narrative content:
commands (`#name params...`), text lines and annotations. The library parses
KoiLang into commands and writes commands back as KoiLang, with its
behaviour stated in contracts and proved by Verus.

## Layout

- `src/command.rs`: commands, parameters and values, with their
  mathematical models and display forms; `src/conversions.rs`: the `From`
  conversions into them.
- `src/parser/`: the command-line grammar (`command_parser.rs`), error
  tracebacks (`traceback.rs`), parse errors and their display (`error.rs`),
  input sources (each described by the lines it has still to hand out),
  decoding of bytes in a named encoding, and line joining (`input.rs`), and
  the parser (`mod.rs`), whose next command is stated over the source's
  pending lines.
- `src/writer/`: formatting options (`config.rs`), value and parameter
  formatting (`formatters.rs`), option merging and command layout
  (`generators.rs`), and the writer itself (`mod.rs`).
- `src/roundtrip.rs`: the proofs that what the writer produces for a
  writable command, given to the parser as its source's lines, yields that
  same command and nothing else (and, where a bare `true`/`false` string or
  an integer-shaped float reads back as a boolean or an integer, a command
  with the same name and number of parameters); that a number's text reads
  back in its base; and that text and annotation content with
  line breaks, escaped by the writer, is given back when the parser undoes
  the escapes.
- `src/text.rs`: character classes, digit strings and UTF-8 widths.
- `app/`: reading files (decoded by the library), reading from any
  `BufRead`, sources shared behind a lock, and writing to any
  `std::io::Write`.
- `tests/`: the library's tests.

Columns in error positions count bytes of the UTF-8 encoding, from 1; the
marker under the source line in an error display counts characters.
Floating-point parameters are kept as their decimal text.
