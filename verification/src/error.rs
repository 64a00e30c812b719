//! The ways in which a request can be turned down.

use vstd::prelude::*;

verus! {

/// Why a request was not carried out.
#[derive(Clone, Copy, Debug, PartialEq, Eq, Structural)]
pub enum SortError {
    /// No raster can be made from the bytes that were supplied.
    DecodeError,
    /// The direction token names no traversal.
    InvalidDirection,
    /// A line was asked for without two endpoints inside the raster.
    InvalidEndpoint,
}

} // verus!
