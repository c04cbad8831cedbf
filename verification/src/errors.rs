//! Failure taxonomy of the storage core.

use vstd::prelude::*;

verus! {

/// Every failure a store operation can surface.  Input/output failures come
/// from the backing file and are fatal for the operation that hit them;
/// `OutOfBounds` reports caller-level misuse of an indexed operation.
#[derive(Clone, Copy, Debug, PartialEq, Eq)]
pub enum StoreError {
    Io,
    OutOfBounds,
}

} // verus!
