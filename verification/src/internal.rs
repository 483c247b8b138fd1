//! Validation results shared by every map type.

use vstd::prelude::*;

verus! {

/// Whether a map's slot indexes are expected to be compact, that is, to
/// occupy exactly `0..len`.
///
/// Maps are compact if no remove operation was performed.
#[derive(Clone, Copy, Debug, PartialEq, Eq)]
pub enum ValidateCompact {
    Compact,
    NonCompact,
}

/// Whether validation should assume that the items' keys may compare
/// inconsistently, and fall back to linear searches.
#[derive(Clone, Copy, Debug, PartialEq, Eq)]
pub enum ValidateChaos {
    Yes,
    No,
}

/// Why a map failed validation.
#[derive(Debug)]
pub enum ValidationError {
    Table { name: &'static str, error: TableValidationError },
    General(String),
}

impl ValidationError {
    /// A general validation error with the given message.
    pub fn general(msg: String) -> (e: Self)
        ensures
            e == ValidationError::General(msg),
    {
        ValidationError::General(msg)
    }

    /// Whether this error names a table.
    pub fn is_table(&self) -> (b: bool)
        ensures
            b <==> self is Table,
    {
        match self {
            ValidationError::Table { .. } => true,
            ValidationError::General(_) => false,
        }
    }
}

/// A validation error in one index table.
#[derive(Debug)]
pub struct TableValidationError(pub String);

impl TableValidationError {
    /// A table validation error with the given message.
    pub fn new(msg: String) -> (e: Self)
        ensures
            e.0 == msg,
    {
        TableValidationError(msg)
    }
}

} // verus!
