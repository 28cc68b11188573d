//! Combine several delimiter-separated text tables with differing column
//! schemas into one unified table.
//!
//! The crate has two verified parts: a record parser that turns physical
//! lines into logical records, honouring double-quoted fields that span
//! several lines, and a combining engine that unifies the column schemas of
//! many files, remaps every data row into the unified column space, and
//! applies an optional duplicate policy (remove or merge) keyed by a chosen
//! set of columns.

pub mod engine;
pub mod parser;
pub mod schema;
mod strutil;

use vstd::prelude::*;

verus! {

/// Failures of a combining run, apart from I/O, which the caller handles.
#[derive(Clone, Copy, Debug, PartialEq, Eq, Structural)]
pub enum CsvError {
    /// A quoted field was still open, or a header was expected, when the
    /// input ran out of lines.
    UnexpectedEndOfInput,
    /// No input files were given, so there is nothing to derive a schema
    /// from.
    ConfigurationError,
}

} // verus!
