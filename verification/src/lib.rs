//! A tolerant, line-oriented reader for git's configuration syntax.
//!
//! A text is read in one pass, one record per line, and no text is refused:
//! a line that is neither a section header nor a variable gives an empty
//! record that still carries the section in effect.
//!
//! - [`text`]: strings as sequences of characters, trimming, lines;
//! - [`line`]: what a line is, a header, a variable or neither;
//! - [`value`]: what is kept of a raw value, comments and quotes taken off;
//! - [`path`]: the dotted key of a variable;
//! - [`parse`]: the reader, which carries the section from line to line.

pub mod line;
pub mod parse;
pub mod path;
pub mod text;
pub mod value;

pub use parse::ParsedConfig;
