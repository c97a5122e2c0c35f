//! Errors reported by table construction and queries.
use vstd::prelude::*;

verus! {

#[derive(Debug)]
pub enum Error {
    /// A query coordinate lies outside the table; carries the smallest and the
    /// largest valid coordinate.
    ValueOutOfRange(i64, i64),
    /// A row of the table text could not be read; carries a description.
    TableParsingError(String),
    /// A corner of the grid cell around a query is not in the table; carries
    /// its two coordinates.
    MissingGridPoint(i64, i64),
}

} // verus!
