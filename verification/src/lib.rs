//! Reading and writing `.probe` configuration files.
//!
//! A document is a list of `key=value` header lines followed by blocks
//! `:name` .. `:end` whose entries are `key :value` lines; a value is either
//! plain text or a nested map written between `key :{` and `}`.
//!
//! `model` holds the document tree and its mathematical model, `parse` the
//! reader and the grammar it follows, `write` the writer, the size estimate
//! and the check that a document reads back unchanged, and `laws` what
//! holds across them.
pub mod error;
pub mod laws;
pub mod model;
pub mod parse;
pub mod text;
pub mod write;

pub use error::{InvalidData, ParseError, ParseErrorKind};
pub use model::{Document, Entry, Section, Value};
pub use parse::parse;

use vstd::prelude::*;

verus! {

/// The string type of keys, values and names.
pub type Str = String;

} // verus!
