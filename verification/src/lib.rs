//! A minimal INI-like configuration format: sections of key/value entries,
//! parsed from and rendered back to line-oriented text.
//!
//! A `Conf` is an ordered list of `Section`s; a `Section` is a name plus an
//! ordered list of `Entry` key/value pairs. `Conf::parse_str` turns text into
//! a `Conf` (or a `ParseError` naming the offending line), and the
//! `to_string` methods render the structure back to text.

pub mod conf;
pub mod laws;
pub mod model;
pub mod text;

pub use conf::{Conf, Entry, ParseError, ParseErrorKind, Section};
