//! Error values returned by the allocators.

use vstd::prelude::*;

verus! {

/// A failed allocation: the request was unsupported by the allocator, or no
/// block or frame large enough was free.
#[derive(Clone, Copy, Debug, PartialEq, Eq, Structural)]
pub struct AllocError;

/// Result type for allocation operations.
pub type AllocResult<T> = Result<T, AllocError>;

} // verus!
