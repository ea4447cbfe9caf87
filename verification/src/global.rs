//! The allocation facade: the capability interface outer callers consume,
//! and the global allocator type that serves it from the buddy heap.
//!
//! Zero-sized requests are answered with the layout's dangling address and
//! never touch the heap; everything else forwards to the heap, whose
//! invariant guarantees that live blocks stay disjoint and that the managed
//! range is conserved.

use vstd::prelude::*;

verus! {

use crate::error::{AllocError, AllocResult};
use crate::heap::Heap;
use crate::layout::Layout;
use crate::math::is_pow2;

/// The allocation capability: what a memory backend owes its callers. A
/// backend hands out block addresses it then regards as owned by the
/// caller; ownership returns through `deallocate` with the original
/// layout. `grow` and `shrink` move an owned block to a new layout with
/// copy-and-reallocate semantics, releasing the old block only on success.
pub trait Allocator: Sized {
    /// The backend's invariant.
    spec fn wf(&self) -> bool;

    /// The caller owns a block at `addr` allocated with `layout`.
    spec fn owns(&self, addr: usize, layout: Layout) -> bool;

    /// Allocates a block for `layout`, transferring ownership of the
    /// returned address to the caller.
    fn allocate(&mut self, layout: Layout) -> (r: AllocResult<usize>)
        requires
            old(self).wf(),
        ensures
            final(self).wf(),
            r matches Ok(a) ==> final(self).owns(a, layout) && a as int % (layout.align as int)
                == 0,
    ;

    /// Allocates a block whose backing bytes a raw implementation also
    /// zero-fills.
    fn allocate_zeroed(&mut self, layout: Layout) -> (r: AllocResult<usize>)
        requires
            old(self).wf(),
        ensures
            final(self).wf(),
            r matches Ok(a) ==> final(self).owns(a, layout) && a as int % (layout.align as int)
                == 0,
    ;

    /// Returns an owned block; the caller must supply the exact layout it
    /// allocated with.
    fn deallocate(&mut self, ptr: usize, layout: Layout)
        requires
            old(self).wf(),
            old(self).owns(ptr, layout),
        ensures
            final(self).wf(),
    ;

    /// Moves an owned block to a larger layout: allocates the new block
    /// and releases the old one only on success, so a raw implementation
    /// can first copy the old contents over.
    fn grow(&mut self, ptr: usize, old_layout: Layout, new_layout: Layout) -> (r: AllocResult<
        usize,
    >)
        requires
            old(self).wf(),
            old(self).owns(ptr, old_layout),
            new_layout.size >= old_layout.size,
        ensures
            final(self).wf(),
            r matches Ok(a) ==> final(self).owns(a, new_layout),
            r is Err ==> final(self).owns(ptr, old_layout),
    ;

    /// Moves an owned block to a smaller layout, with the same release
    /// discipline as `grow`.
    fn shrink(&mut self, ptr: usize, old_layout: Layout, new_layout: Layout) -> (r: AllocResult<
        usize,
    >)
        requires
            old(self).wf(),
            old(self).owns(ptr, old_layout),
            new_layout.size <= old_layout.size,
        ensures
            final(self).wf(),
            r matches Ok(a) ==> final(self).owns(a, new_layout),
            r is Err ==> final(self).owns(ptr, old_layout),
    ;
}

/// The global memory allocator: the buddy heap behind the capability
/// interface. The design keeps one such value per process behind a lock;
/// here it is an explicit handle passed to each call site.
pub struct Global {
    /// The backing buddy heap.
    pub heap: Heap,
}

impl Global {
    /// Wraps a heap as the global allocator.
    pub fn new(heap: Heap) -> (r: Global)
        requires
            heap.wf(),
        ensures
            r.wf(),
            r.heap == heap,
    {
        Global { heap }
    }

    /// Serves one request: zero-sized layouts get the dangling address for
    /// their alignment, anything else a heap block.
    fn alloc_impl(&mut self, layout: Layout) -> (r: AllocResult<usize>)
        requires
            old(self).heap.wf(),
        ensures
            final(self).heap.wf(),
            old(self).heap.same_config(final(self).heap),
            r matches Ok(a) ==> final(self).owns(a, layout) && a as int % (layout.align as int)
                == 0,
            layout.size == 0 ==> (r is Ok <==> is_pow2(layout.align as nat)),
            layout.size == 0 ==> final(self).heap == old(self).heap,
            layout.size == 0 ==> (r matches Ok(a) ==> a == layout.align),
            layout.size > 0 ==> (r is Ok <==> old(self).heap.can_allocate(layout)),
            layout.size > 0 ==> (r matches Ok(a) ==> a as int == old(self).heap.alloc_head(
                layout,
            )),
            r is Err ==> old(self).heap.unchanged(final(self).heap),
            final(self).heap.allocated@.len() >= old(self).heap.allocated@.len(),
            forall|jj: int|
                0 <= jj < old(self).heap.allocated@.len() ==> #[trigger] final(self).heap.allocated@[jj] == old(self).heap.allocated@[jj],
            r is Err ==> final(self).heap.allocated@ == old(self).heap.allocated@,
            layout.size > 0 ==> (r matches Ok(a) ==> final(self).heap.allocated@.len() == old(
                self,
            ).heap.allocated@.len() + 1 && final(self).heap.allocated@.last() == (
                ((a - final(self).heap.heap_base) as usize),
                (final(self).heap.order_of(layout) as usize),
            )),
    {
        if layout.size() == 0 {
            if !crate::math::usize_is_pow2(layout.align()) {
                return Err(AllocError);
            }
            proof {
                vstd::arithmetic::power2::lemma_pow2_pos(crate::math::log2(layout.align as nat));
                assert(layout.align as nat == vstd::arithmetic::power2::pow2(
                    crate::math::log2(layout.align as nat),
                ));
                vstd::arithmetic::div_mod::lemma_mod_self_0(layout.align as int);
            }
            return Ok(layout.align());
        }
        let r = self.heap.allocate(layout);
        match r {
            Ok(addr) => {
                proof {
                    let jj = final(self).heap.allocated@.len() - 1;
                    assert(final(self).heap.allocated@[jj] == (
                        ((addr - old(self).heap.heap_base) as usize),
                        (old(self).heap.order_of(layout) as usize),
                    ));
                    assert(final(self).heap.order_of(layout) == old(self).heap.order_of(layout))
                        by {
                        old(self).heap.lemma_same_config_same_order(final(self).heap, layout);
                    }
                }
                Ok(addr)
            },
            Err(e) => Err(e),
        }
    }
}

impl Allocator for Global {
    /// The backing heap's invariant.
    open spec fn wf(&self) -> bool {
        self.heap.wf()
    }

    /// For a sized layout, a matching block is recorded as allocated in
    /// the heap; a zero-sized "block" is the dangling address of the
    /// layout's alignment.
    open spec fn owns(&self, addr: usize, layout: Layout) -> bool {
        if layout.size == 0 {
            addr == layout.align && is_pow2(layout.align as nat)
        } else {
            &&& self.heap.layout_supported(layout)
            &&& addr >= self.heap.heap_base
            &&& exists|jj: int|
                0 <= jj < self.heap.allocated@.len() && self.heap.allocated@[jj] == (
                ((addr - self.heap.heap_base) as usize),
                (self.heap.order_of(layout) as usize),
                )
        }
    }

    fn allocate(&mut self, layout: Layout) -> (r: AllocResult<usize>)
        ensures
            old(self).heap.same_config(final(self).heap),
            layout.size == 0 ==> (r is Ok <==> is_pow2(layout.align as nat)),
            layout.size == 0 ==> final(self).heap == old(self).heap,
            layout.size == 0 ==> (r matches Ok(a) ==> a == layout.align),
            layout.size > 0 ==> (r is Ok <==> old(self).heap.can_allocate(layout)),
            layout.size > 0 ==> (r matches Ok(a) ==> a as int == old(self).heap.alloc_head(
                layout,
            )),
            r is Err ==> old(self).heap.unchanged(final(self).heap),
    {
        self.alloc_impl(layout)
    }

    fn allocate_zeroed(&mut self, layout: Layout) -> (r: AllocResult<usize>)
        ensures
            old(self).heap.same_config(final(self).heap),
            layout.size == 0 ==> (r is Ok <==> is_pow2(layout.align as nat)),
            layout.size == 0 ==> final(self).heap == old(self).heap,
            layout.size == 0 ==> (r matches Ok(a) ==> a == layout.align),
            layout.size > 0 ==> (r is Ok <==> old(self).heap.can_allocate(layout)),
            layout.size > 0 ==> (r matches Ok(a) ==> a as int == old(self).heap.alloc_head(
                layout,
            )),
            r is Err ==> old(self).heap.unchanged(final(self).heap),
    {
        self.alloc_impl(layout)
    }

    fn deallocate(&mut self, ptr: usize, layout: Layout)
        ensures
            old(self).heap.same_config(final(self).heap),
            layout.size == 0 ==> final(self).heap == old(self).heap,
            layout.size > 0 ==> {
                &&& exists|jj: int|
                    0 <= jj < old(self).heap.allocated@.len() && old(self).heap.allocated@[jj]
                        == (
                    ((ptr - old(self).heap.heap_base) as usize),
                    (old(self).heap.order_of(layout) as usize),
                    ) && final(self).heap.allocated@ == old(self).heap.allocated@.remove(jj)
                &&& final(self).heap.free_bytes() == old(self).heap.free_bytes() + old(
                    self,
                ).heap.block_size(old(self).heap.order_of(layout))
                &&& final(self).heap.alloc_bytes() == old(self).heap.alloc_bytes() - old(
                    self,
                ).heap.block_size(old(self).heap.order_of(layout))
                &&& final(self).heap.lists_view() == crate::heap::coalesce(
                    old(self).heap.min_block_size_log2,
                    old(self).heap.lists_view(),
                    ptr - old(self).heap.heap_base,
                    old(self).heap.order_of(layout),
                )
            },
    {
        if layout.size() == 0 {
            return;
        }
        self.heap.deallocate(ptr, layout);
    }

    fn grow(&mut self, ptr: usize, old_layout: Layout, new_layout: Layout) -> (r: AllocResult<
        usize,
    >)
        ensures
            r is Ok <==> ((new_layout.size == 0 && is_pow2(new_layout.align as nat)) || (
            new_layout.size > 0 && old(self).heap.can_allocate(new_layout))),
            r is Err ==> old(self).heap.unchanged(final(self).heap),
            r is Ok && old_layout.size > 0 ==> !final(self).owns(ptr, old_layout),
    {
        let r = self.alloc_impl(new_layout);
        let addr = match r {
            Err(e) => {
                proof {
                    if old_layout.size > 0 {
                        old(self).heap.lemma_same_config_same_order(self.heap, old_layout);
                    }
                }
                return Err(e);
            },
            Ok(addr) => addr,
        };
        proof {
            if old_layout.size > 0 {
                old(self).heap.lemma_same_config_same_order(self.heap, old_layout);
            }
        }
        let ghost mid = *self;
        proof {
            lemma_ownership_carries(*old(self), mid, ptr, old_layout);
        }
        if old_layout.size() != 0 {
            self.heap.deallocate(ptr, old_layout);
        }
        proof {
            if new_layout.size > 0 && old_layout.size > 0 {
                let jj = choose|jj: int|
                    0 <= jj < old(self).heap.allocated@.len() && old(self).heap.allocated@[jj] == (
                    ((ptr - old(self).heap.heap_base) as usize),
                    (old(self).heap.order_of(old_layout) as usize),
                    );
                assert(mid.heap.allocated@[jj] == old(self).heap.allocated@[jj]);
                assert(0 <= jj < mid.heap.allocated@.len() - 1);
                assert(mid.heap.allocated@[jj] == (
                    ((ptr - mid.heap.heap_base) as usize),
                    (mid.heap.order_of(old_layout) as usize),
                ));
            }
            lemma_ownership_survives_free(mid, *self, ptr, old_layout, addr, new_layout);
            if old_layout.size > 0 {
                lemma_old_block_released(mid, *self, ptr, old_layout);
            }
        }
        Ok(addr)
    }

    fn shrink(&mut self, ptr: usize, old_layout: Layout, new_layout: Layout) -> (r: AllocResult<
        usize,
    >)
        ensures
            r is Ok <==> ((new_layout.size == 0 && is_pow2(new_layout.align as nat)) || (
            new_layout.size > 0 && old(self).heap.can_allocate(new_layout))),
            r is Err ==> old(self).heap.unchanged(final(self).heap),
            r is Ok && old_layout.size > 0 ==> !final(self).owns(ptr, old_layout),
    {
        let r = self.alloc_impl(new_layout);
        let addr = match r {
            Err(e) => {
                proof {
                    if old_layout.size > 0 {
                        old(self).heap.lemma_same_config_same_order(self.heap, old_layout);
                    }
                }
                return Err(e);
            },
            Ok(addr) => addr,
        };
        proof {
            if old_layout.size > 0 {
                old(self).heap.lemma_same_config_same_order(self.heap, old_layout);
            }
        }
        let ghost mid = *self;
        proof {
            lemma_ownership_carries(*old(self), mid, ptr, old_layout);
        }
        if old_layout.size() != 0 {
            self.heap.deallocate(ptr, old_layout);
        }
        proof {
            if new_layout.size > 0 && old_layout.size > 0 {
                let jj = choose|jj: int|
                    0 <= jj < old(self).heap.allocated@.len() && old(self).heap.allocated@[jj] == (
                    ((ptr - old(self).heap.heap_base) as usize),
                    (old(self).heap.order_of(old_layout) as usize),
                    );
                assert(mid.heap.allocated@[jj] == old(self).heap.allocated@[jj]);
                assert(0 <= jj < mid.heap.allocated@.len() - 1);
                assert(mid.heap.allocated@[jj] == (
                    ((ptr - mid.heap.heap_base) as usize),
                    (mid.heap.order_of(old_layout) as usize),
                ));
            }
            lemma_ownership_survives_free(mid, *self, ptr, old_layout, addr, new_layout);
            if old_layout.size > 0 {
                lemma_old_block_released(mid, *self, ptr, old_layout);
            }
        }
        Ok(addr)
    }
}

/// After the free that `grow`/`shrink` perform on success, no record of
/// the old block remains: a well-formed heap never holds two records of
/// one block, so removing the matching record removes the only one.
proof fn lemma_old_block_released(mid: Global, g2: Global, ptr: usize, layout: Layout)
    requires
        layout.size > 0,
        mid.heap.wf(),
        mid.heap.same_config(g2.heap),
        exists|jo: int|
            {
                &&& 0 <= jo < mid.heap.allocated@.len()
                &&& mid.heap.allocated@[jo] == (
                ((ptr - mid.heap.heap_base) as usize),
                (mid.heap.order_of(layout) as usize),
                )
                &&& g2.heap.allocated@ == mid.heap.allocated@.remove(jo)
            },
    ensures
        !g2.owns(ptr, layout),
{
    let jo = choose|jo: int|
        {
            &&& 0 <= jo < mid.heap.allocated@.len()
            &&& mid.heap.allocated@[jo] == (
            ((ptr - mid.heap.heap_base) as usize),
            (mid.heap.order_of(layout) as usize),
            )
            &&& g2.heap.allocated@ == mid.heap.allocated@.remove(jo)
        };
    mid.heap.lemma_same_config_same_order(g2.heap, layout);
    mid.heap.allocated@.remove_ensures(jo);
    if g2.owns(ptr, layout) {
        let jm = choose|jm: int|
            0 <= jm < g2.heap.allocated@.len() && g2.heap.allocated@[jm] == (
            ((ptr - g2.heap.heap_base) as usize),
            (g2.heap.order_of(layout) as usize),
            );
        let jmid = if jm < jo {
            jm
        } else {
            jm + 1
        };
        assert(mid.heap.allocated@[jmid] == mid.heap.allocated@[jo]);
        assert(jmid != jo);
        vstd::arithmetic::power2::lemma_pow2_pos(
            (mid.heap.min_block_size_log2 + mid.heap.alloc_order(jo)) as nat,
        );
        assert(crate::heap::disjoint(
            mid.heap.alloc_off(jmid),
            mid.heap.block_size(mid.heap.alloc_order(jmid)) as int,
            mid.heap.alloc_off(jo),
            mid.heap.block_size(mid.heap.alloc_order(jo)) as int,
        ));
        assert(false);
    }
}

/// Allocating more blocks does not disturb an existing block's ownership.
proof fn lemma_ownership_carries(g1: Global, g2: Global, ptr: usize, layout: Layout)
    requires
        g1.owns(ptr, layout),
        g1.heap.same_config(g2.heap),
        g2.heap.allocated@.len() >= g1.heap.allocated@.len(),
        forall|jj: int|
            0 <= jj < g1.heap.allocated@.len() ==> #[trigger] g2.heap.allocated@[jj]
                == g1.heap.allocated@[jj],
    ensures
        g2.owns(ptr, layout),
{
    if layout.size > 0 {
        g1.heap.lemma_same_config_same_order(g2.heap, layout);
        let jj = choose|jj: int|
            0 <= jj < g1.heap.allocated@.len() && g1.heap.allocated@[jj] == (
            ((ptr - g1.heap.heap_base) as usize),
            (g1.heap.order_of(layout) as usize),
            );
        assert(g2.heap.allocated@[jj] == g1.heap.allocated@[jj]);
    }
}

/// Freeing a different owned block leaves a freshly allocated block owned:
/// in a well-formed heap no two records describe the same block, so the
/// record removed by the free is not the freshly pushed one.
proof fn lemma_ownership_survives_free(
    mid: Global,
    g2: Global,
    ptr: usize,
    old_layout: Layout,
    addr: usize,
    new_layout: Layout,
)
    requires
        mid.heap.wf(),
        mid.owns(addr, new_layout),
        mid.owns(ptr, old_layout),
        g2.heap.wf(),
        mid.heap.same_config(g2.heap),
        old_layout.size == 0 ==> g2 == mid,
        new_layout.size > 0 ==> mid.heap.allocated@.len() >= 1 && mid.heap.allocated@.last() == (
            ((addr - mid.heap.heap_base) as usize),
            (mid.heap.order_of(new_layout) as usize),
        ) && (old_layout.size > 0 ==> exists|jjo: int|
            {
                &&& 0 <= jjo < mid.heap.allocated@.len() - 1
                &&& mid.heap.allocated@[jjo] == (
                ((ptr - mid.heap.heap_base) as usize),
                (mid.heap.order_of(old_layout) as usize),
                )
            }),
        old_layout.size > 0 ==> exists|jj: int|
            {
                &&& 0 <= jj < mid.heap.allocated@.len()
                &&& mid.heap.allocated@[jj] == (
                ((ptr - mid.heap.heap_base) as usize),
                (mid.heap.order_of(old_layout) as usize),
                )
                &&& g2.heap.allocated@ == mid.heap.allocated@.remove(jj)
            },
    ensures
        g2.owns(addr, new_layout),
{
    if new_layout.size == 0 {
    } else if old_layout.size == 0 {
    } else {
        mid.heap.lemma_same_config_same_order(g2.heap, new_layout);
        let last = mid.heap.allocated@.len() - 1;
        let jjo = choose|jjo: int|
            {
                &&& 0 <= jjo < mid.heap.allocated@.len() - 1
                &&& mid.heap.allocated@[jjo] == (
                ((ptr - mid.heap.heap_base) as usize),
                (mid.heap.order_of(old_layout) as usize),
                )
            };
        // The old record and the fresh one name different blocks: equal
        // records at distinct indexes would overlap themselves.
        assert(mid.heap.allocated@[jjo] != mid.heap.allocated@[last]) by {
            if mid.heap.allocated@[jjo] == mid.heap.allocated@[last] {
                vstd::arithmetic::power2::lemma_pow2_pos(
                    (mid.heap.min_block_size_log2 + mid.heap.alloc_order(last)) as nat,
                );
                assert(crate::heap::disjoint(
                    mid.heap.alloc_off(jjo),
                    mid.heap.block_size(mid.heap.alloc_order(jjo)) as int,
                    mid.heap.alloc_off(last),
                    mid.heap.block_size(mid.heap.alloc_order(last)) as int,
                ));
            }
        }
        let jo = choose|jj: int|
            {
                &&& 0 <= jj < mid.heap.allocated@.len()
                &&& mid.heap.allocated@[jj] == (
                ((ptr - mid.heap.heap_base) as usize),
                (mid.heap.order_of(old_layout) as usize),
                )
                &&& g2.heap.allocated@ == mid.heap.allocated@.remove(jj)
            };
        mid.heap.allocated@.remove_ensures(jo);
        assert(jo != last);
        assert(g2.heap.allocated@[last - 1] == mid.heap.allocated@[last]);
        assert(g2.heap.allocated@[last - 1] == (
            ((addr - g2.heap.heap_base) as usize),
            (g2.heap.order_of(new_layout) as usize),
        ));
    }
}

} // verus!
