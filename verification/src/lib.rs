//! Route-distance tabulation over permuted stop orders.
//!
//! The library enumerates every ordering of a set of intermediate stops,
//! walks each ordering as a route between a fixed start and end stop, sums
//! the leg distances, and renders the results as rows of a table.  Distances
//! are carried as whole tenths of a mile, so the running sum that is rounded
//! to one decimal place after every leg is represented exactly.

use vstd::prelude::*;

pub mod parse;
pub mod permutate;
pub mod route;
pub mod rows;

verus! {

/// The failures the route computation can report.
///
/// `LookupError`: a stop identifier has no entry in the lookup table.
/// `ParseError`: a coordinate field is not a decimal this library accepts.
/// `InvalidInput`: the intermediate set is too large to enumerate.
#[derive(Clone, Copy, Debug, PartialEq, Eq, Structural)]
pub enum RouteError {
    LookupError,
    ParseError,
    InvalidInput,
}

/// Where the rendered table is being written: the file's path, whether
/// the file already exists, and how many data rows have been written so
/// far.  The writing itself is the caller's business; the library only
/// carries the record.
pub struct Location {
    pub path: String,
    pub boolean: bool,
    pub cnt: usize,
}

} // verus!
