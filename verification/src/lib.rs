//! Physical-memory management core: a buddy heap allocator over segregated
//! free lists, a page-frame allocator over a table of per-page flags, and a
//! three-level virtual-address-translation tree in the style of RISC-V Sv39.
//!
//! Raw memory never appears here: blocks, frames and tables are modelled as
//! offsets, indices and explicit records, so that every invariant the
//! allocators rely on (alignment, disjointness, conservation of the managed
//! range) is stated and machine-checked.

pub mod math;
pub mod layout;
pub mod error;
pub mod heap;
pub mod paging;
pub mod mmu;
pub mod global;
