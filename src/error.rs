use vstd::prelude::*;

verus! {

/// The ways an operation of the engine can fail.
#[derive(Debug, Clone, PartialEq, Eq)]
pub enum EngineError {
    /// A malformed field while reading delimited text.
    ParseError { row: usize, column: usize, raw_text: String },
    /// A duplicate or missing column name, or clashing column sets.
    SchemaError,
    /// Lengths or row counts that do not agree.
    ShapeError,
    /// A value or aggregate that does not fit the column's type.
    TypeError,
    /// A column name that the frame does not hold.
    KeyError,
}

} // verus!
