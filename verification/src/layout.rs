//! Size-and-alignment descriptors for allocation requests.

use vstd::prelude::*;

verus! {

use crate::math::{is_pow2, usize_is_pow2};
use vstd::arithmetic::power2::pow2;

/// The size and alignment of a value of type `T`.
pub fn size_align<T>() -> (r: (usize, usize))
    ensures
        r.0 == vstd::layout::size_of::<T>(),
        r.1 == vstd::layout::align_of::<T>(),
{
    (core::mem::size_of::<T>(), core::mem::align_of::<T>())
}

/// An immutable (size, alignment) descriptor for a block of memory.
///
/// A layout is valid when its alignment is a non-zero power of two and its
/// size, rounded up to that alignment, still fits in a machine word.
/// `from_size_align` is the validating constructor; consumers such as the
/// buddy heap re-check the alignment themselves and never trust a layout.
#[derive(Clone, Copy, Debug)]
pub struct Layout {
    /// Size of the requested block, in bytes.
    pub size: usize,
    /// Alignment of the requested block, in bytes.
    pub align: usize,
}

/// The parameters given to `Layout::from_size_align` do not satisfy its
/// documented constraints.
#[derive(Clone, Copy, Debug)]
pub struct LayoutError;

impl Layout {
    /// A layout is valid when `align` is a power of two (hence non-zero) and
    /// rounding `size` up to `align` cannot overflow a machine word.
    pub open spec fn wf(self) -> bool {
        &&& is_pow2(self.align as nat)
        &&& self.size + self.align - 1 <= usize::MAX
    }

    /// Builds a layout after checking its constraints: `align` must be a
    /// power of two, and `size` rounded up to `align` must not overflow.
    pub fn from_size_align(size: usize, align: usize) -> (r: Result<Layout, LayoutError>)
        ensures
            r is Ok <==> is_pow2(align as nat) && size + align - 1 <= usize::MAX,
            r matches Ok(l) ==> l.size == size && l.align == align && l.wf(),
    {
        if !usize_is_pow2(align) {
            return Err(LayoutError);
        }
        proof {
            vstd::arithmetic::power2::lemma_pow2_pos(crate::math::log2(align as nat));
            assert(align as nat == pow2(crate::math::log2(align as nat)));
        }
        if size > usize::MAX - (align - 1) {
            return Err(LayoutError);
        }
        Ok(Layout { size, align })
    }

    /// Builds a layout whose constraints the caller has already established.
    pub fn from_size_align_unchecked(size: usize, align: usize) -> (r: Layout)
        requires
            is_pow2(align as nat),
            size + align - 1 <= usize::MAX,
        ensures
            r.size == size && r.align == align && r.wf(),
    {
        Layout { size, align }
    }

    /// A layout for a value of type `T`.
    pub fn new<T>() -> (r: Layout)
        ensures
            r.size == vstd::layout::size_of::<T>(),
            r.align == vstd::layout::align_of::<T>(),
            r.wf(),
    {
        vstd::layout::layout_for_type_is_valid::<T>();
        let (size, align) = size_align::<T>();
        proof {
            crate::math::lemma_is_pow2_from_int(align);
            crate::math::lemma_pow2_word_bound(align);
            vstd::arithmetic::div_mod::lemma_mod_bound(isize::MAX as int, align as int);
        }
        Layout { size, align }
    }

    /// The minimum size in bytes for a memory block of this layout.
    pub fn size(&self) -> (r: usize)
        ensures
            r == self.size,
    {
        self.size
    }

    /// The minimum byte alignment for a memory block of this layout.
    pub fn align(&self) -> (r: usize)
        ensures
            r == self.align,
    {
        self.align
    }

    /// A well-aligned, non-null address that no allocation backs: the
    /// stand-in address handed out for zero-sized requests. Callers must
    /// never treat it as addressable memory.
    pub fn dangling(&self) -> (r: usize)
        requires
            self.wf(),
        ensures
            r == self.align,
            r > 0,
            r % self.align == 0,
    {
        proof {
            vstd::arithmetic::power2::lemma_pow2_pos(crate::math::log2(self.align as nat));
            assert(self.align as nat == pow2(crate::math::log2(self.align as nat)));
        }
        self.align
    }
}

} // verus!
