//! An incremental reader for line-oriented TOML documents.
//!
//! A document is a text of lines `name = value`. A [`Parser`] pulls one
//! entry at a time out of it, borrowing names and strings from the text,
//! and can gather all entries into a table keyed by name. Values are
//! basic strings, integers in four radices, floats and booleans; tables,
//! arrays, comments, quoted names and dates are refused, with the number
//! of the line on which they stand.
//!
//! The grammar is laid down in [`grammar`] as functions on the bytes of a
//! document; [`grammar::pull`] says what a pull yields, and the scanner in
//! [`parser`] is proved to yield just that. What follows from the grammar
//! for every document is stated and proved in [`laws`] and [`lines`].
//!
//! Floats are handed out as their literal, with the underscores taken
//! out, for the caller to turn into a number.

pub mod ascii;
pub mod error;
pub mod grammar;
pub mod laws;
pub mod lines;
pub mod number;
pub mod pair;
pub mod parser;
pub mod progress;
pub mod scan;
pub mod state;
pub mod table;
pub mod text;

pub use error::{ConversionError, Error, ErrorKind};
pub use pair::{PairModel, TomlPair, TomlValue, ValueModel};
pub use parser::Parser;
pub use state::{ParserModel, ParserState};
