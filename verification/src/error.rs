//! Errors surfaced by the store.

use vstd::prelude::*;
use crate::codec::DecodeError;

verus! {

/// What can go wrong on the read or flush path.  I/O does not appear
/// here: the store is an in-memory model and every error below is proved
/// unreachable while the store's invariant holds.
#[derive(Clone, Copy, PartialEq, Eq, Structural, Debug)]
pub enum Error {
    /// A stored payload failed to decode: corrupt data.
    Corruption(DecodeError),
    /// An internal rule was broken, such as an out-of-line payload seen
    /// before any flush produced one.
    InvariantViolation,
    /// A live handle resolved to nothing: the referenced bytes are gone.
    DataLoss,
}

} // verus!
