//! Reconciles two independently partitioned sequences of quantified records
//! onto a shared partition of one scalar axis.
//!
//! A record carries a positive quantity key and a list of value attributes.
//! The splitter cuts one record in two at a quantity offset, apportioning the
//! values in proportion to quantity; the aligner walks a source and a
//! destination sequence over their cumulative quantity axis and emits matched
//! pairs of equal quantity, splitting whichever record straddles a boundary.

use vstd::prelude::*;

pub mod model;
pub mod rounded_decimal;
pub mod slicer;
pub mod splitter;

verus! {

/// Error returned by the aligners when the source or the destination
/// sequence has no elements.
#[derive(Clone, Copy, Debug, PartialEq, Eq, Structural)]
pub struct EmptyInputError;

} // verus!
