//! The ways in which a statement can fail.

use vstd::prelude::*;

verus! {

/// Why the engine refused a row, an expression or a statement.
#[derive(Clone, Copy, Debug, PartialEq, Eq, Structural)]
pub enum Error {
    /// No table of that name is in the catalog.
    UnknownTable,
    /// A column name resolves to no column of the header or of the joined
    /// tables in scope.
    UnknownColumn,
    /// A row does not have one cell for each column of its header, or a list
    /// of column names does not have one name for each value.
    SchemaWidthMismatch,
    /// The cell of the primary-key column is not a non-negative integer.
    InvalidPrimaryKey,
    /// The next surrogate key would not fit the key type.
    KeyOverflow,
    /// A comparison result stands where a value is needed: as an operand of
    /// a comparison, as a projected cell or as an assigned cell.
    NotAValue,
}

} // verus!
