//! The buddy heap allocator: segregated free lists indexed by block "order",
//! where a block of order `k` spans `min_block_size << k` bytes.
//!
//! Raw memory is modelled by offsets from the heap base: a free list holds the
//! offsets of its free blocks, and a ghost sequence records the blocks
//! currently handed out. The heap invariant `wf` states conservation: every
//! tracked block is aligned to its own size and lies inside the heap, all
//! tracked blocks are pairwise disjoint, and their sizes sum to exactly the
//! heap size — so free and allocated blocks together tile the heap with no
//! overlap and no gap.

use vstd::prelude::*;

verus! {

use crate::error::AllocError;
use crate::layout::Layout;
use crate::math::{is_pow2, usize_is_pow2, usize_log2, usize_pow2, lemma_pow2_next};
use vstd::arithmetic::power2::{pow2, lemma_pow2_pos, lemma_pow2_strictly_increases};

/// The alignment of the heap base, and the largest request alignment served.
pub const MIN_HEAP_ALIGN: usize = 4096;

/// The header a raw implementation writes at the start of each free block:
/// the offset of the next free block of the same order, if any. Free lists
/// here are held as explicit offset vectors, so this type only carries the
/// link value itself.
pub struct FreeBlock {
    /// The next free block of the same order, or `None` for the last one.
    pub next: Option<usize>,
}

impl FreeBlock {
    /// Builds a header pointing at `next`.
    pub fn new(next: Option<usize>) -> (r: FreeBlock)
        ensures
            r.next == next,
    {
        FreeBlock { next }
    }

    /// The next free block of the same order.
    pub fn next(&self) -> (r: Option<usize>)
        ensures
            r == self.next,
    {
        self.next
    }
}

/// Two byte ranges do not overlap.
pub open spec fn disjoint(o1: int, s1: int, o2: int, s2: int) -> bool {
    o1 + s1 <= o2 || o2 + s2 <= o1
}

/// Total bytes of the free blocks of the first `k` orders: each order
/// contributes its block count times its block size.
pub open spec fn lists_bytes(log2: nat, lists: Seq<Seq<usize>>, k: int) -> int
    decreases k,
{
    if k <= 0 {
        0
    } else {
        lists_bytes(log2, lists, k - 1) + lists[k - 1].len() * pow2((log2 + k - 1) as nat)
    }
}

/// Total bytes of a sequence of (offset, order) blocks.
pub open spec fn blocks_bytes(log2: nat, s: Seq<(usize, usize)>) -> int
    decreases s.len(),
{
    if s.len() == 0 {
        0
    } else {
        blocks_bytes(log2, s.drop_last()) + pow2((log2 + s.last().1) as nat)
    }
}

/// The buddy heap. The structure lives outside the range it manages; the
/// managed range itself is identified by `heap_base` and `heap_size` alone.
pub struct Heap {
    /// Base address of the heap; aligned to `MIN_HEAP_ALIGN`.
    pub heap_base: usize,
    /// Total size of the heap in bytes; a power of two.
    pub heap_size: usize,
    /// `free_lists[k]` holds the offsets (from `heap_base`) of the free
    /// blocks of order `k`; the last element is the list head.
    pub free_lists: Vec<Vec<usize>>,
    /// Size in bytes of an order-0 block.
    pub min_block_size: usize,
    /// Cached log2 of `min_block_size`.
    pub min_block_size_log2: usize,
    /// The blocks currently handed out, as (offset, order) pairs.
    pub allocated: Ghost<Seq<(usize, usize)>>,
}

impl Heap {
    /// Number of block orders, which is also the number of free lists.
    pub open spec fn num_orders(self) -> int {
        self.free_lists@.len() as int
    }

    /// Byte size of a block of order `k`.
    pub open spec fn block_size(self, k: int) -> nat {
        pow2((self.min_block_size_log2 + k) as nat)
    }

    /// The offsets of the free blocks of order `k`.
    pub open spec fn list(self, k: int) -> Seq<usize> {
        self.free_lists@[k]@
    }

    /// The free lists as a sequence of offset sequences.
    pub open spec fn lists_view(self) -> Seq<Seq<usize>> {
        Seq::new(self.free_lists@.len(), |k: int| self.free_lists@[k]@)
    }

    /// Offset of the `i`-th free block of order `k`.
    pub open spec fn free_block(self, k: int, i: int) -> int {
        self.list(k)[i] as int
    }

    /// Offset of the `j`-th allocated block.
    pub open spec fn alloc_off(self, j: int) -> int {
        self.allocated@[j].0 as int
    }

    /// Order of the `j`-th allocated block.
    pub open spec fn alloc_order(self, j: int) -> int {
        self.allocated@[j].1 as int
    }

    /// A block of order `k` at offset `off` is aligned to its own size and
    /// lies inside the heap.
    pub open spec fn block_ok(self, off: int, k: int) -> bool {
        &&& 0 <= k < self.num_orders()
        &&& 0 <= off
        &&& off % (self.block_size(k) as int) == 0
        &&& off + self.block_size(k) <= self.heap_size
    }

    /// The fixed configuration is consistent: sizes are powers of two, the
    /// top order spans the whole heap, and the base is aligned and in range.
    pub open spec fn wf_config(self) -> bool {
        &&& 1 <= self.num_orders()
        &&& 3 <= self.min_block_size_log2
        &&& self.min_block_size_log2 + self.num_orders() - 1 < usize::BITS
        &&& self.min_block_size as nat == pow2(self.min_block_size_log2 as nat)
        &&& self.heap_size as nat == self.block_size(self.num_orders() - 1)
        &&& self.heap_base % MIN_HEAP_ALIGN == 0
        &&& self.heap_base > 0
        &&& self.heap_base + self.heap_size <= usize::MAX
    }

    /// Every free block is valid for its order.
    pub open spec fn wf_free(self) -> bool {
        forall|k: int, i: int|
            0 <= k < self.num_orders() && 0 <= i < self.list(k).len() ==> self.block_ok(
                #[trigger] self.free_block(k, i),
                k,
            )
    }

    /// Every allocated block is valid for its order.
    pub open spec fn wf_alloc(self) -> bool {
        forall|j: int|
            0 <= j < self.allocated@.len() ==> self.block_ok(
                #[trigger] self.alloc_off(j),
                self.alloc_order(j),
            )
    }

    /// Distinct free blocks do not overlap.
    pub open spec fn wf_free_free(self) -> bool {
        forall|k1: int, i1: int, k2: int, i2: int|
            0 <= k1 < self.num_orders() && 0 <= i1 < self.list(k1).len() && 0 <= k2
                < self.num_orders() && 0 <= i2 < self.list(k2).len() && (k1 != k2 || i1 != i2)
                ==> disjoint(
                #[trigger] self.free_block(k1, i1),
                self.block_size(k1) as int,
                #[trigger] self.free_block(k2, i2),
                self.block_size(k2) as int,
            )
    }

    /// Distinct allocated blocks do not overlap.
    pub open spec fn wf_alloc_alloc(self) -> bool {
        forall|j1: int, j2: int|
            0 <= j1 < self.allocated@.len() && 0 <= j2 < self.allocated@.len() && j1 != j2
                ==> disjoint(
                #[trigger] self.alloc_off(j1),
                self.block_size(self.alloc_order(j1)) as int,
                #[trigger] self.alloc_off(j2),
                self.block_size(self.alloc_order(j2)) as int,
            )
    }

    /// No free block overlaps an allocated block.
    pub open spec fn wf_free_alloc(self) -> bool {
        forall|k: int, i: int, j: int|
            0 <= k < self.num_orders() && 0 <= i < self.list(k).len() && 0 <= j
                < self.allocated@.len() ==> disjoint(
                #[trigger] self.free_block(k, i),
                self.block_size(k) as int,
                #[trigger] self.alloc_off(j),
                self.block_size(self.alloc_order(j)) as int,
            )
    }

    /// Total bytes currently on the free lists.
    pub open spec fn free_bytes(self) -> int {
        lists_bytes(self.min_block_size_log2 as nat, self.lists_view(), self.num_orders())
    }

    /// Total bytes currently handed out.
    pub open spec fn alloc_bytes(self) -> int {
        blocks_bytes(self.min_block_size_log2 as nat, self.allocated@)
    }

    /// Structural part of the invariant: validity and pairwise disjointness.
    pub open spec fn wf_blocks(self) -> bool {
        &&& self.wf_config()
        &&& self.wf_free()
        &&& self.wf_alloc()
        &&& self.wf_free_free()
        &&& self.wf_alloc_alloc()
        &&& self.wf_free_alloc()
    }

    /// The heap invariant, which is conservation: all tracked blocks are
    /// valid and pairwise disjoint, and free plus allocated bytes equal the
    /// heap size — together, the blocks tile the heap exactly.
    pub open spec fn wf(self) -> bool {
        &&& self.wf_blocks()
        &&& self.free_bytes() + self.alloc_bytes() == self.heap_size
    }

    /// The configuration shared by all states of one heap.
    pub open spec fn same_config(self, other: Heap) -> bool {
        &&& self.heap_base == other.heap_base
        &&& self.heap_size == other.heap_size
        &&& self.min_block_size == other.min_block_size
        &&& self.min_block_size_log2 == other.min_block_size_log2
        &&& self.num_orders() == other.num_orders()
    }
}

/// All lists among the first `upto` are empty except `k0`, which holds one
/// block; the byte total is then that block's size.
proof fn lemma_lists_bytes_single(log2: nat, lists: Seq<Seq<usize>>, k0: int, upto: int)
    requires
        0 <= k0 < upto <= lists.len(),
        lists[k0].len() == 1,
        forall|k: int| 0 <= k < upto && k != k0 ==> (#[trigger] lists[k]).len() == 0,
    ensures
        lists_bytes(log2, lists, upto) == pow2((log2 + k0) as nat),
    decreases upto,
{
    if k0 == upto - 1 {
        lemma_lists_bytes_empty(log2, lists, upto - 1);
    } else {
        lemma_lists_bytes_single(log2, lists, k0, upto - 1);
    }
}

/// All lists among the first `upto` are empty; the byte total is zero.
proof fn lemma_lists_bytes_empty(log2: nat, lists: Seq<Seq<usize>>, upto: int)
    requires
        upto <= lists.len(),
        forall|k: int| 0 <= k < upto ==> (#[trigger] lists[k]).len() == 0,
    ensures
        lists_bytes(log2, lists, upto) == 0,
    decreases upto,
{
    if upto > 0 {
        lemma_lists_bytes_empty(log2, lists, upto - 1);
    }
}

/// Changing the length of a single list changes the byte total by the
/// difference times that order's block size.
proof fn lemma_lists_bytes_update(
    log2: nat,
    l1: Seq<Seq<usize>>,
    l2: Seq<Seq<usize>>,
    k0: int,
    upto: int,
)
    requires
        upto <= l1.len(),
        upto <= l2.len(),
        forall|k: int| 0 <= k < upto && k != k0 ==> (#[trigger] l2[k]).len() == (
        #[trigger] l1[k]).len(),
    ensures
        lists_bytes(log2, l2, upto) == lists_bytes(log2, l1, upto) + (if 0 <= k0 < upto {
            (l2[k0].len() - l1[k0].len()) * pow2((log2 + k0) as nat)
        } else {
            0
        }),
    decreases upto,
{
    if upto > 0 {
        lemma_lists_bytes_update(log2, l1, l2, k0, upto - 1);
        if k0 == upto - 1 {
            assert((l2[k0].len() - l1[k0].len()) * pow2((log2 + k0) as nat) + l1[k0].len() * pow2(
                (log2 + k0) as nat,
            ) == l2[k0].len() * pow2((log2 + k0) as nat)) by (nonlinear_arith);
        }
    }
}

/// Removing the block at index `j` lowers the byte total by its size.
proof fn lemma_blocks_bytes_remove(log2: nat, s: Seq<(usize, usize)>, j: int)
    requires
        0 <= j < s.len(),
    ensures
        blocks_bytes(log2, s.remove(j)) == blocks_bytes(log2, s) - pow2((log2 + s[j].1) as nat),
    decreases s.len(),
{
    if j == s.len() - 1 {
        assert(s.remove(j) =~= s.drop_last());
    } else {
        assert(s.remove(j).drop_last() =~= s.drop_last().remove(j));
        assert(s.remove(j).last() == s.last());
        lemma_blocks_bytes_remove(log2, s.drop_last(), j);
    }
}

/// Indexing the collected view agrees with `list`.
proof fn lemma_view_bridge(h: Heap)
    ensures
        h.lists_view().len() == h.num_orders(),
        forall|k: int| 0 <= k < h.num_orders() ==> #[trigger] h.lists_view()[k] == h.list(k),
{
}

/// The buddy offset of a block at `off` spanning `s` bytes: the upper
/// neighbour when `off` is also aligned to the doubled size, else the
/// lower one.
pub open spec fn buddy_of(off: int, s: int) -> int {
    if off % (2 * s) == 0 {
        off + s
    } else {
        off - s
    }
}

/// The index of the first occurrence of `v` in `s`.
pub open spec fn first_index_of(s: Seq<usize>, v: usize) -> int {
    choose|i: int|
        0 <= i < s.len() && s[i] == v && (forall|i2: int| 0 <= i2 < i ==> s[i2] != v)
}

/// First occurrences are unique.
proof fn lemma_first_index_is(s: Seq<usize>, v: usize, i: int)
    requires
        0 <= i < s.len(),
        s[i] == v,
        forall|i2: int| 0 <= i2 < i ==> s[i2] != v,
    ensures
        first_index_of(s, v) == i,
{
    let i1 = first_index_of(s, v);
    assert(0 <= i1 < s.len() && s[i1] == v && (forall|i2: int| 0 <= i2 < i1 ==> s[i2] != v));
    if i1 < i {
        assert(s[i1] != v);
    }
    if i < i1 {
        assert(s[i] != v);
    }
}

/// The free lists after a block at `off` of order `k` is given back:
/// merging with the buddy repeats while that buddy is on its order's free
/// list and the top order is not reached; the surviving block — the lower
/// half of each merge — then joins the free list of its final order.
pub open spec fn coalesce(log2: usize, lists: Seq<Seq<usize>>, off: int, k: int) -> Seq<Seq<usize>>
    decreases lists.len() - k,
{
    let s = pow2((log2 + k) as nat) as int;
    let bud = buddy_of(off, s);
    if 0 <= k && k + 1 < lists.len() && lists[k].contains(bud as usize) {
        coalesce(
            log2,
            lists.update(k, lists[k].remove(first_index_of(lists[k], bud as usize))),
            if off < bud {
                off
            } else {
                bud
            },
            k + 1,
        )
    } else {
        lists.update(k, lists[k].push(off as usize))
    }
}

/// The index of the order whose block size `pow2(log2 + k)` is the least
/// power of two at or above `lower`, among `n` orders.
pub open spec fn order_pick(log2: usize, n: int, lower: int) -> int {
    choose|k: int|
        #![trigger pow2((log2 + k) as nat)]
        {
            &&& 0 <= k < n
            &&& pow2((log2 + k) as nat) >= lower
            &&& forall|e: nat| #[trigger] pow2(e) >= lower ==> pow2(e) >= pow2((log2 + k) as nat)
        }
}

/// Pushing a block that is valid for its order and overlaps nothing tracked
/// keeps the structural invariant; the free byte total grows by its size.
proof fn lemma_wf_after_free_push(h1: Heap, h2: Heap, k0: int, off: usize)
    requires
        h1.wf_blocks(),
        h1.lists_same_except(h2, k0),
        0 <= k0 < h1.num_orders(),
        h2.list(k0) == h1.list(k0).push(off),
        h1.block_ok(off as int, k0),
        forall|k: int, i: int|
            0 <= k < h1.num_orders() && 0 <= i < h1.list(k).len() ==> disjoint(
                off as int,
                h1.block_size(k0) as int,
                #[trigger] h1.free_block(k, i),
                h1.block_size(k) as int,
            ),
        forall|j: int|
            0 <= j < h1.allocated@.len() ==> disjoint(
                off as int,
                h1.block_size(k0) as int,
                #[trigger] h1.alloc_off(j),
                h1.block_size(h1.alloc_order(j)) as int,
            ),
    ensures
        h2.wf_blocks(),
        h2.free_bytes() == h1.free_bytes() + h1.block_size(k0),
        h2.alloc_bytes() == h1.alloc_bytes(),
{
    let n0 = h1.list(k0).len() as int;
    lemma_view_bridge(h1);
    lemma_view_bridge(h2);
    assert(forall|k: int, i: int|
        0 <= k < h2.num_orders() && 0 <= i < h2.list(k).len() && !(k == k0 && i == n0)
            ==> #[trigger] h2.free_block(k, i) == h1.free_block(k, i));
    assert(forall|k: int|
        0 <= k < h2.num_orders() ==> (#[trigger] h2.list(k)).len() as int == (if k == k0 {
            h1.list(k).len() as int + 1
        } else {
            h1.list(k).len() as int
        }));
    assert(h2.free_block(k0, n0) == off as int);
    assert(forall|j: int|
        0 <= j < h2.allocated@.len() ==> #[trigger] h2.alloc_off(j) == h1.alloc_off(j)
            && h2.alloc_order(j) == h1.alloc_order(j));
    assert(h2.wf_config());
    assert(h2.wf_free());
    assert(h2.wf_alloc());
    assert(h2.wf_free_free());
    assert(h2.wf_alloc_alloc());
    assert(h2.wf_free_alloc());
    assert(h2.free_bytes() == h1.free_bytes() + h1.block_size(k0)) by {
        lemma_lists_bytes_update(
            h1.min_block_size_log2 as nat,
            h1.lists_view(),
            h2.lists_view(),
            k0,
            h1.num_orders(),
        );
        assert((h2.list(k0).len() - h1.list(k0).len()) * pow2(
            (h1.min_block_size_log2 + k0) as nat,
        ) == pow2((h1.min_block_size_log2 + k0) as nat)) by (nonlinear_arith)
            requires
                h2.list(k0).len() == h1.list(k0).len() + 1,
        ;
    }
}

/// Removing a free block keeps the structural invariant; the removed block
/// overlaps nothing still tracked, and the free byte total shrinks by its
/// size.
proof fn lemma_wf_after_free_remove(h1: Heap, h2: Heap, k0: int, i0: int)
    requires
        h1.wf_blocks(),
        h1.lists_same_except(h2, k0),
        0 <= k0 < h1.num_orders(),
        0 <= i0 < h1.list(k0).len(),
        h2.list(k0) == h1.list(k0).remove(i0),
    ensures
        h2.wf_blocks(),
        h2.free_bytes() == h1.free_bytes() - h1.block_size(k0),
        h2.alloc_bytes() == h1.alloc_bytes(),
        h1.block_ok(h1.free_block(k0, i0), k0),
        forall|i: int|
            0 <= i < h2.list(k0).len() ==> #[trigger] h2.free_block(k0, i) == (if i < i0 {
                h1.free_block(k0, i)
            } else {
                h1.free_block(k0, i + 1)
            }),
        forall|k: int, i: int|
            0 <= k < h2.num_orders() && k != k0 && 0 <= i < h2.list(k).len()
                ==> #[trigger] h2.free_block(k, i) == h1.free_block(k, i),
        forall|k: int|
            0 <= k < h2.num_orders() ==> (#[trigger] h2.list(k)).len() as int == (if k == k0 {
                h1.list(k).len() as int - 1
            } else {
                h1.list(k).len() as int
            }),
        forall|k: int, i: int|
            0 <= k < h2.num_orders() && 0 <= i < h2.list(k).len() ==> disjoint(
                h1.free_block(k0, i0),
                h1.block_size(k0) as int,
                #[trigger] h2.free_block(k, i),
                h2.block_size(k) as int,
            ),
        forall|j: int|
            0 <= j < h2.allocated@.len() ==> disjoint(
                h1.free_block(k0, i0),
                h1.block_size(k0) as int,
                #[trigger] h2.alloc_off(j),
                h2.block_size(h2.alloc_order(j)) as int,
            ),
{
    h1.list(k0).remove_ensures(i0);
    lemma_view_bridge(h1);
    lemma_view_bridge(h2);
    assert(forall|i: int|
        0 <= i < h2.list(k0).len() ==> #[trigger] h2.free_block(k0, i) == (if i < i0 {
            h1.free_block(k0, i)
        } else {
            h1.free_block(k0, i + 1)
        }));
    assert(forall|k: int, i: int|
        0 <= k < h2.num_orders() && k != k0 && 0 <= i < h2.list(k).len()
            ==> #[trigger] h2.free_block(k, i) == h1.free_block(k, i));
    assert(forall|k: int|
        0 <= k < h2.num_orders() ==> (#[trigger] h2.list(k)).len() as int == (if k == k0 {
            h1.list(k).len() as int - 1
        } else {
            h1.list(k).len() as int
        }));
    assert(forall|j: int|
        0 <= j < h2.allocated@.len() ==> #[trigger] h2.alloc_off(j) == h1.alloc_off(j)
            && h2.alloc_order(j) == h1.alloc_order(j));
    assert(h2.wf_config());
    assert(h2.wf_free());
    assert(h2.wf_alloc());
    assert(h2.wf_free_free());
    assert(h2.wf_alloc_alloc());
    assert(h2.wf_free_alloc());
    assert(h2.free_bytes() == h1.free_bytes() - h1.block_size(k0)) by {
        lemma_lists_bytes_update(
            h1.min_block_size_log2 as nat,
            h1.lists_view(),
            h2.lists_view(),
            k0,
            h1.num_orders(),
        );
        assert((h2.list(k0).len() - h1.list(k0).len()) * pow2(
            (h1.min_block_size_log2 + k0) as nat,
        ) == -1 * pow2((h1.min_block_size_log2 + k0) as nat)) by (nonlinear_arith)
            requires
                h2.list(k0).len() == h1.list(k0).len() - 1,
        ;
    }
}

/// Recording a block as allocated keeps the structural invariant when the
/// block is valid and overlaps nothing tracked; the allocated byte total
/// grows by its size.
proof fn lemma_wf_after_alloc_push(h1: Heap, h2: Heap, off: usize, k0: usize)
    requires
        h1.wf_blocks(),
        h1.same_config(h2),
        forall|k: int| 0 <= k < h1.num_orders() ==> #[trigger] h2.list(k) == h1.list(k),
        h2.allocated@ == h1.allocated@.push((off, k0)),
        h1.block_ok(off as int, k0 as int),
        forall|k: int, i: int|
            0 <= k < h1.num_orders() && 0 <= i < h1.list(k).len() ==> disjoint(
                off as int,
                h1.block_size(k0 as int) as int,
                #[trigger] h1.free_block(k, i),
                h1.block_size(k) as int,
            ),
        forall|j: int|
            0 <= j < h1.allocated@.len() ==> disjoint(
                off as int,
                h1.block_size(k0 as int) as int,
                #[trigger] h1.alloc_off(j),
                h1.block_size(h1.alloc_order(j)) as int,
            ),
    ensures
        h2.wf_blocks(),
        h2.alloc_bytes() == h1.alloc_bytes() + h1.block_size(k0 as int),
        h2.free_bytes() == h1.free_bytes(),
{
    let n0 = h1.allocated@.len() as int;
    lemma_view_bridge(h1);
    lemma_view_bridge(h2);
    assert(forall|j: int|
        0 <= j < n0 ==> #[trigger] h2.alloc_off(j) == h1.alloc_off(j) && h2.alloc_order(j)
            == h1.alloc_order(j));
    assert(forall|k: int|
        0 <= k < h2.num_orders() ==> (#[trigger] h2.list(k)).len() == h1.list(k).len());
    assert(h2.alloc_off(n0) == off as int && h2.alloc_order(n0) == k0 as int);
    assert(forall|k: int, i: int|
        0 <= k < h2.num_orders() && 0 <= i < h2.list(k).len() ==> #[trigger] h2.free_block(k, i)
            == h1.free_block(k, i));
    assert(h2.wf_free());
    assert(h2.wf_alloc());
    assert(h2.wf_free_free());
    assert(h2.wf_alloc_alloc());
    assert(h2.wf_free_alloc());
    assert(h2.alloc_bytes() == h1.alloc_bytes() + h1.block_size(k0 as int)) by {
        assert(h2.allocated@.drop_last() =~= h1.allocated@);
    }
    assert(h2.free_bytes() == h1.free_bytes()) by {
        lemma_lists_bytes_update(
            h1.min_block_size_log2 as nat,
            h1.lists_view(),
            h2.lists_view(),
            -1,
            h1.num_orders(),
        );
    }
}

/// Dropping an allocated block from the record keeps the structural
/// invariant; the dropped block overlaps nothing still tracked, and the
/// allocated byte total shrinks by its size.
proof fn lemma_wf_after_alloc_remove(h1: Heap, h2: Heap, j0: int)
    requires
        h1.wf_blocks(),
        h1.same_config(h2),
        forall|k: int| 0 <= k < h1.num_orders() ==> #[trigger] h2.list(k) == h1.list(k),
        0 <= j0 < h1.allocated@.len(),
        h2.allocated@ == h1.allocated@.remove(j0),
    ensures
        h2.wf_blocks(),
        h2.alloc_bytes() == h1.alloc_bytes() - h1.block_size(h1.alloc_order(j0)),
        h2.free_bytes() == h1.free_bytes(),
        h1.block_ok(h1.alloc_off(j0), h1.alloc_order(j0)),
        forall|k: int, i: int|
            0 <= k < h2.num_orders() && 0 <= i < h2.list(k).len() ==> disjoint(
                h1.alloc_off(j0),
                h1.block_size(h1.alloc_order(j0)) as int,
                #[trigger] h2.free_block(k, i),
                h2.block_size(k) as int,
            ),
        forall|j: int|
            0 <= j < h2.allocated@.len() ==> disjoint(
                h1.alloc_off(j0),
                h1.block_size(h1.alloc_order(j0)) as int,
                #[trigger] h2.alloc_off(j),
                h2.block_size(h2.alloc_order(j)) as int,
            ),
{
    h1.allocated@.remove_ensures(j0);
    lemma_view_bridge(h1);
    lemma_view_bridge(h2);
    assert(forall|k: int|
        0 <= k < h2.num_orders() ==> (#[trigger] h2.list(k)).len() == h1.list(k).len());
    assert(forall|j: int|
        0 <= j < h2.allocated@.len() ==> #[trigger] h2.alloc_off(j) == (if j < j0 {
            h1.alloc_off(j)
        } else {
            h1.alloc_off(j + 1)
        }) && h2.alloc_order(j) == (if j < j0 {
            h1.alloc_order(j)
        } else {
            h1.alloc_order(j + 1)
        }));
    assert(forall|k: int, i: int|
        0 <= k < h2.num_orders() && 0 <= i < h2.list(k).len() ==> #[trigger] h2.free_block(k, i)
            == h1.free_block(k, i));
    assert(h2.wf_free());
    assert(h2.wf_alloc());
    assert(h2.wf_free_free());
    assert(h2.wf_alloc_alloc());
    assert(h2.wf_free_alloc());
    lemma_blocks_bytes_remove(h1.min_block_size_log2 as nat, h1.allocated@, j0);
    assert(h2.free_bytes() == h1.free_bytes()) by {
        lemma_lists_bytes_update(
            h1.min_block_size_log2 as nat,
            h1.lists_view(),
            h2.lists_view(),
            -1,
            h1.num_orders(),
        );
    }
}

impl Heap {
    /// Creates a heap of `heap_size` bytes starting at `heap_base`, with
    /// `num_orders` block sizes, and registers the entire heap as one free
    /// block of the top order. The smallest block must still be able to hold
    /// a free-block header, and the base must carry the heap alignment.
    pub fn new(heap_base: usize, heap_size: usize, num_orders: usize) -> (r: Heap)
        requires
            heap_base % MIN_HEAP_ALIGN == 0,
            heap_base > 0,
            num_orders >= 1,
            is_pow2(heap_size as nat),
            pow2((num_orders + 2) as nat) <= heap_size,
            heap_base + heap_size <= usize::MAX,
        ensures
            r.wf(),
            r.heap_base == heap_base,
            r.heap_size == heap_size,
            r.num_orders() == num_orders,
            r.allocated@.len() == 0,
            r.list(num_orders - 1).len() == 1,
            r.free_block(num_orders - 1, 0) == 0,
            forall|k: int| 0 <= k < num_orders - 1 ==> r.list(k).len() == 0,
    {
        let h_log = usize_log2(heap_size);
        proof {
            // heap_size == pow2(h_log) and pow2(num_orders + 2) <= heap_size
            // force num_orders + 2 <= h_log.
            if h_log < num_orders + 2 {
                lemma_pow2_strictly_increases(h_log as nat, (num_orders + 2) as nat);
            }
        }
        let min_block_size_log2 = h_log - (num_orders - 1);
        proof {
            if (min_block_size_log2 as nat) < (h_log as nat) {
                lemma_pow2_strictly_increases(min_block_size_log2 as nat, h_log as nat);
            }
        }
        let min_block_size = usize_pow2(min_block_size_log2);
        let mut free_lists: Vec<Vec<usize>> = Vec::new();
        let mut k: usize = 0;
        while k < num_orders
            invariant
                k <= num_orders,
                free_lists@.len() == k,
                forall|kk: int| 0 <= kk < k ==> (#[trigger] free_lists@[kk])@.len() == 0,
            decreases num_orders - k,
    	{
            free_lists.push(Vec::new());
            k = k + 1;
        }
        free_lists[num_orders - 1].push(0);
        let r = Heap {
            heap_base,
            heap_size,
            free_lists,
            min_block_size,
            min_block_size_log2,
            allocated: Ghost(Seq::empty()),
        };
        proof {
            assert(r.heap_size as nat == r.block_size(r.num_orders() - 1));
            assert(r.block_ok(0, r.num_orders() - 1)) by {
                lemma_pow2_pos((r.min_block_size_log2 + r.num_orders() - 1) as nat);
                vstd::arithmetic::div_mod::lemma_mod_self_0(r.block_size(r.num_orders() - 1) as int);
                vstd::arithmetic::div_mod::lemma_small_mod(0, r.block_size(r.num_orders() - 1));
            }
            assert(r.free_bytes() == pow2((r.min_block_size_log2 + (r.num_orders() - 1)) as nat))
                by {
                lemma_lists_bytes_single(
                    r.min_block_size_log2 as nat,
                    r.lists_view(),
                    r.num_orders() - 1,
                    r.num_orders(),
                );
            }
            assert(r.alloc_bytes() == 0);
        }
        r
    }

    /// The lower bound a served block size must meet for `layout`: the
    /// requested size, raised to the alignment when that is larger, and to
    /// the minimum block size.
    pub open spec fn req_lower(self, layout: Layout) -> int {
        let a = if layout.size >= layout.align {
            layout.size as int
        } else {
            layout.align as int
        };
        if a >= self.min_block_size {
            a
        } else {
            self.min_block_size as int
        }
    }

    /// The heap can serve `layout`: its alignment is a power of two no
    /// larger than the heap alignment, and the rounded size fits the heap.
    pub open spec fn layout_supported(self, layout: Layout) -> bool {
        &&& is_pow2(layout.align as nat)
        &&& layout.align <= MIN_HEAP_ALIGN
        &&& self.req_lower(layout) <= self.heap_size
    }

    /// The size of block served for `layout`: deterministic, independent of
    /// the allocation state, so allocation and deallocation always agree.
    /// Returns `None` for unsupported alignments and for requests larger
    /// than the heap.
    pub fn allocation_size(&self, layout: Layout) -> (r: Option<usize>)
        requires
            self.wf_config(),
        ensures
            r is Some <==> self.layout_supported(layout),
            r matches Some(s) ==> {
                &&& is_pow2(s as nat)
                &&& s >= layout.size
                &&& s >= layout.align
                &&& s >= self.min_block_size
                &&& s <= self.heap_size
                &&& forall|e: nat| pow2(e) >= self.req_lower(layout) ==> pow2(e) >= s as nat
            },
    {
        let align = layout.align();
        let size = layout.size();
        if !usize_is_pow2(align) {
            return None;
        }
        if align > MIN_HEAP_ALIGN {
            return None;
        }
        let mut s = self.min_block_size;
        proof {
            crate::math::lemma_pow2_is_pow2(self.min_block_size_log2 as nat);
            crate::math::lemma_pow2_is_pow2(
                (self.min_block_size_log2 + self.num_orders() - 1) as nat,
            );
            if (self.min_block_size_log2 as nat) < ((self.min_block_size_log2 + self.num_orders()
                - 1) as nat) {
                lemma_pow2_strictly_increases(
                    self.min_block_size_log2 as nat,
                    (self.min_block_size_log2 + self.num_orders() - 1) as nat,
                );
            }
        }
        while s < size || s < align
            invariant
                self.wf_config(),
                is_pow2(s as nat),
                self.min_block_size <= s <= self.heap_size,
                size == layout.size,
                align == layout.align,
                forall|e: nat| pow2(e) >= self.req_lower(layout) ==> pow2(e) >= s as nat,
            decreases self.heap_size - s,
        {
            if s >= self.heap_size {
                return None;
            }
            proof {
                lemma_pow2_pos(self.min_block_size_log2 as nat);
                crate::math::lemma_pow2_is_pow2(
                    (self.min_block_size_log2 + self.num_orders() - 1) as nat,
                );
                lemma_pow2_next(s as nat, self.heap_size as nat);
                let e0 = crate::math::log2(s as nat);
                assert(s as nat == pow2(e0));
                assert(2 * (s as nat) == pow2((e0 + 1) as nat)) by {
                    vstd::arithmetic::power2::lemma_pow2_unfold((e0 + 1) as nat);
                }
                crate::math::lemma_pow2_is_pow2((e0 + 1) as nat);
                assert forall|e: nat| pow2(e) >= self.req_lower(layout) implies pow2(e) >= 2 * (
                s as nat) by {
                    crate::math::lemma_pow2_is_pow2(e);
                    if pow2(e) < 2 * (s as nat) {
                        lemma_pow2_next(s as nat, pow2(e));
                    }
                }
            }
            s = s * 2;
        }
        Some(s)
    }

    /// The order whose block size is the least power of two at or above the
    /// bound `layout` requires. A function of the heap's fixed
    /// configuration and the layout alone.
    pub open spec fn order_of(self, layout: Layout) -> int {
        order_pick(self.min_block_size_log2, self.num_orders(), self.req_lower(layout))
    }

    /// Two heaps sharing a configuration agree on every layout's bound,
    /// support and order.
    pub proof fn lemma_same_config_same_order(self, other: Heap, layout: Layout)
        requires
            self.same_config(other),
        ensures
            self.req_lower(layout) == other.req_lower(layout),
            self.layout_supported(layout) == other.layout_supported(layout),
            self.order_of(layout) == other.order_of(layout),
    {
    }

    /// Any two orders meeting the `order_of` characterization coincide.
    proof fn lemma_order_unique(self, layout: Layout, k1: int, k2: int)
        requires
            self.wf_config(),
            0 <= k1 < self.num_orders(),
            0 <= k2 < self.num_orders(),
            self.block_size(k1) >= self.req_lower(layout),
            self.block_size(k2) >= self.req_lower(layout),
            forall|e: nat| pow2(e) >= self.req_lower(layout) ==> pow2(e) >= self.block_size(k1),
            forall|e: nat| pow2(e) >= self.req_lower(layout) ==> pow2(e) >= self.block_size(k2),
        ensures
            k1 == k2,
    {
        assert(self.block_size(k1) >= self.block_size(k2));
        assert(self.block_size(k2) >= self.block_size(k1));
        if k1 < k2 {
            lemma_pow2_strictly_increases(
                (self.min_block_size_log2 + k1) as nat,
                (self.min_block_size_log2 + k2) as nat,
            );
        }
        if k2 < k1 {
            lemma_pow2_strictly_increases(
                (self.min_block_size_log2 + k2) as nat,
                (self.min_block_size_log2 + k1) as nat,
            );
        }
    }

    /// The free-list index used for `layout`: how many doublings of the
    /// minimum block size its request needs. Deterministic, as
    /// `allocation_size` is.
    pub fn allocation_order(&self, layout: Layout) -> (r: Option<usize>)
        requires
            self.wf_config(),
        ensures
            r is Some <==> self.layout_supported(layout),
            r matches Some(k) ==> {
                &&& 0 <= k < self.num_orders()
                &&& k == self.order_of(layout)
                &&& self.block_size(k as int) >= self.req_lower(layout)
                &&& forall|e: nat|
                    pow2(e) >= self.req_lower(layout) ==> pow2(e) >= self.block_size(k as int)
            },
    {
        match self.allocation_size(layout) {
            None => None,
            Some(s) => {
                let e = usize_log2(s);
                proof {
                    if e < self.min_block_size_log2 {
                        lemma_pow2_strictly_increases(e as nat, self.min_block_size_log2 as nat);
                    }
                }
                let k = e - self.min_block_size_log2;
                proof {
                    assert(self.block_size(k as int) == s as nat);
                    assert(k < self.num_orders()) by {
                        if k >= self.num_orders() {
                            lemma_pow2_strictly_increases(
                                (self.min_block_size_log2 + self.num_orders() - 1) as nat,
                                (self.min_block_size_log2 + k) as nat,
                            );
                        }
                    }
                    let k0 = self.order_of(layout);
                    assert(k0 == k) by {
                        self.lemma_order_unique(layout, k as int, k0);
                    }
                }
                Some(k)
            },
        }
    }

    /// States that `other` differs from `self` in at most the free list of
    /// order `k0`, with the configuration and the allocated blocks unchanged.
    pub open spec fn lists_same_except(self, other: Heap, k0: int) -> bool {
        &&& self.same_config(other)
        &&& self.allocated == other.allocated
        &&& forall|k: int|
            0 <= k < self.num_orders() && k != k0 ==> #[trigger] other.list(k) == self.list(k)
    }

    /// States that `other` carries the same configuration, free lists and
    /// allocated blocks as `self`.
    pub open spec fn unchanged(self, other: Heap) -> bool {
        &&& self.same_config(other)
        &&& self.allocated == other.allocated
        &&& forall|k: int|
            0 <= k < self.num_orders() ==> #[trigger] other.list(k) == self.list(k)
    }

    /// Pushes `block` onto the free list of `order`.
    fn free_list_insert(&mut self, order: usize, block: usize)
        requires
            order < old(self).num_orders(),
        ensures
            old(self).lists_same_except(*final(self), order as int),
            final(self).list(order as int) == old(self).list(order as int).push(block),
    {
        self.free_lists[order].push(block);
    }

    /// Pops the head of the free list of `order`, if any.
    fn free_list_pop(&mut self, order: usize) -> (r: Option<usize>)
        requires
            order < old(self).num_orders(),
        ensures
            old(self).lists_same_except(*final(self), order as int),
            match r {
                Some(b) => old(self).list(order as int).len() > 0 && b == old(self).list(
                    order as int,
                ).last() && final(self).list(order as int) == old(self).list(
                    order as int,
                ).drop_last(),
                None => old(self).list(order as int).len() == 0 && old(self).unchanged(
                    *final(self),
                ),
            },
    {
        let r = self.free_lists[order].pop();
        r
    }

    /// Removes `block` from the free list of `order` if it is there,
    /// returning whether it was found. A linear scan, as in any primitive
    /// buddy allocator; the slowest part of the design.
    fn free_list_remove(&mut self, order: usize, block: usize) -> (r: bool)
        requires
            order < old(self).num_orders(),
        ensures
            old(self).lists_same_except(*final(self), order as int),
            r == old(self).list(order as int).contains(block),
            !r ==> old(self).unchanged(*final(self)),
            r ==> exists|i: int|
                {
                    &&& 0 <= i < old(self).list(order as int).len()
                    &&& old(self).list(order as int)[i] == block
                    &&& forall|i2: int|
                        0 <= i2 < i ==> old(self).list(order as int)[i2] != block
                    &&& final(self).list(order as int) == old(self).list(order as int).remove(i)
                },
    {
        let n = self.free_lists[order].len();
        let mut i: usize = 0;
        while i < n
            invariant
                old(self).unchanged(*self),
                order < old(self).num_orders(),
                order < self.num_orders(),
                self.list(order as int) == old(self).list(order as int),
                n == self.list(order as int).len(),
                i <= n,
                forall|ii: int| 0 <= ii < i ==> old(self).list(order as int)[ii] != block,
            decreases n - i,
        {
            if self.free_lists[order][i] == block {
                let ghost pre = *self;
                self.free_lists[order].remove(i);
                proof {
                    assert(old(self).list(order as int)[i as int] == block);
                    assert(old(self).list(order as int).contains(block));
                    assert(self.list(order as int) == old(self).list(order as int).remove(i as int));
                    assert forall|k: int|
                        0 <= k < old(self).num_orders() && k != order implies #[trigger] self.list(k)
                        == old(self).list(k) by {
                        assert(self.free_lists@[k] == pre.free_lists@[k]);
                        assert(pre.list(k) == old(self).list(k));
                    }
                }
                return true;
            }
            i = i + 1;
        }
        proof {
            if old(self).list(order as int).contains(block) {
                let ii = choose|ii: int|
                    0 <= ii < old(self).list(order as int).len() && old(self).list(order as int)[ii]
                        == block;
                assert(false);
            }
        }
        false
    }

    /// A block at `off` of order `k` overlaps none of the tracked blocks.
    pub open spec fn clear_of_all(self, off: int, k: int) -> bool {
        &&& forall|k2: int, i2: int|
            0 <= k2 < self.num_orders() && 0 <= i2 < self.list(k2).len() ==> disjoint(
                off,
                self.block_size(k) as int,
                #[trigger] self.free_block(k2, i2),
                self.block_size(k2) as int,
            )
        &&& forall|j: int|
            0 <= j < self.allocated@.len() ==> disjoint(
                off,
                self.block_size(k) as int,
                #[trigger] self.alloc_off(j),
                self.block_size(self.alloc_order(j)) as int,
            )
    }

    /// Cuts a block popped at `order` down to `order_needed`, inserting each
    /// unused upper half into the free list one order below, so that the
    /// retained lower half keeps the block's address.
    fn split_free_block(&mut self, block: usize, order: usize, order_needed: usize)
        requires
            old(self).wf_blocks(),
            order_needed <= order < old(self).num_orders(),
            old(self).block_ok(block as int, order as int),
            old(self).clear_of_all(block as int, order as int),
        ensures
            final(self).wf_blocks(),
            old(self).same_config(*final(self)),
            final(self).allocated == old(self).allocated,
            forall|k: int|
                0 <= k < old(self).num_orders() && !(order_needed <= k < order)
                    ==> #[trigger] final(self).list(k) == old(self).list(k),
            forall|k: int|
                order_needed <= k < order ==> #[trigger] final(self).list(k) == old(self).list(
                    k,
                ).push((block + old(self).block_size(k)) as usize),
            final(self).free_bytes() == old(self).free_bytes() + old(self).block_size(order as int)
                - old(self).block_size(order_needed as int),
            final(self).alloc_bytes() == old(self).alloc_bytes(),
            final(self).block_ok(block as int, order_needed as int),
            final(self).clear_of_all(block as int, order_needed as int),
    {
        let mut k = order;
        let mut size = self.order_size(order);
        while k > order_needed
            invariant
                self.wf_blocks(),
                old(self).same_config(*self),
                self.allocated == old(self).allocated,
                order_needed <= k <= order,
                order < self.num_orders(),
                size as nat == self.block_size(k as int),
                self.block_ok(block as int, k as int),
                self.clear_of_all(block as int, k as int),
                forall|k2: int|
                    0 <= k2 < self.num_orders() && !(k <= k2 < order) ==> #[trigger] self.list(k2)
                        == old(self).list(k2),
                forall|k2: int|
                    k <= k2 < order ==> #[trigger] self.list(k2) == old(self).list(k2).push(
                        (block + self.block_size(k2)) as usize,
                    ),
                self.free_bytes() == old(self).free_bytes() + self.block_size(order as int)
                    - self.block_size(k as int),
                self.alloc_bytes() == old(self).alloc_bytes(),
            decreases k,
        {
            proof {
                vstd::arithmetic::power2::lemma_pow2_unfold(
                    (self.min_block_size_log2 + k) as nat,
                );
                lemma_pow2_pos((self.min_block_size_log2 + k - 1) as nat);
            }
            size = size / 2;
            k = k - 1;
            let split = block + size;
            proof {
                // The retained lower half is aligned to the smaller size...
                crate::math::lemma_aligned_pow2_le(
                    block as int,
                    (self.min_block_size_log2 + k + 1) as nat,
                    (self.min_block_size_log2 + k) as nat,
                );
                // ...and so is the upper half being given back.
                crate::math::lemma_aligned_add_multiple(
                    block as int,
                    self.block_size(k as int) as int,
                    1,
                );
                assert(self.block_ok(split as int, k as int));
                assert(self.block_ok(block as int, k as int));
            }
            let ghost pre = *self;
            self.free_list_insert(k, split);
            proof {
                lemma_wf_after_free_push(pre, *self, k as int, split);
                assert forall|k2: int| k <= k2 < order implies #[trigger] self.list(k2)
                    == old(self).list(k2).push((block + self.block_size(k2)) as usize) by {
                    if k2 == k {
                        assert(pre.list(k2) == old(self).list(k2));
                    } else {
                        assert(self.list(k2) == pre.list(k2));
                    }
                }
                assert forall|k2: int|
                    0 <= k2 < self.num_orders() && !(k <= k2 < order) implies #[trigger] self.list(
                    k2,
                ) == old(self).list(k2) by {
                    assert(self.list(k2) == pre.list(k2));
                }
                assert forall|k2: int, i2: int|
                    0 <= k2 < self.num_orders() && 0 <= i2 < self.list(k2).len() implies disjoint(
                    block as int,
                    self.block_size(k as int) as int,
                    #[trigger] self.free_block(k2, i2),
                    self.block_size(k2) as int,
                ) by {
                    if k2 == k && i2 == pre.list(k as int).len() {
                        assert(self.free_block(k2, i2) == split as int);
                    } else {
                        assert(self.free_block(k2, i2) == pre.free_block(k2, i2));
                        assert(disjoint(
                            block as int,
                            pre.block_size(k + 1) as int,
                            pre.free_block(k2, i2),
                            pre.block_size(k2) as int,
                        ));
                    }
                }
                assert forall|j: int| 0 <= j < self.allocated@.len() implies disjoint(
                    block as int,
                    self.block_size(k as int) as int,
                    #[trigger] self.alloc_off(j),
                    self.block_size(self.alloc_order(j)) as int,
                ) by {
                    assert(self.alloc_off(j) == pre.alloc_off(j) && self.alloc_order(j)
                        == pre.alloc_order(j));
                    assert(disjoint(
                        block as int,
                        pre.block_size(k + 1) as int,
                        pre.alloc_off(j),
                        pre.block_size(pre.alloc_order(j)) as int,
                    ));
                }
            }
        }
    }

    /// The first order at or above `k` whose free list is non-empty, or the
    /// number of orders when none is: the order `allocate` pops from.
    pub open spec fn first_free_order(self, k: int) -> int
        decreases self.num_orders() - k,
    {
        if k < 0 || k >= self.num_orders() {
            k
        } else if self.list(k).len() > 0 {
            k
        } else {
            self.first_free_order(k + 1)
        }
    }

    /// Characterizes `first_free_order` by the emptiness of the lists below.
    proof fn lemma_first_free_is(self, k: int, j: int)
        requires
            0 <= k <= j < self.num_orders(),
            forall|j2: int| k <= j2 < j ==> (#[trigger] self.list(j2)).len() == 0,
            self.list(j).len() > 0,
        ensures
            self.first_free_order(k) == j,
        decreases j - k,
    {
        if k < j {
            self.lemma_first_free_is(k + 1, j);
        }
    }

    /// The address `allocate` serves for `layout`: the head — the last
    /// element — of the first non-empty free list at or above the
    /// request's order.
    pub open spec fn alloc_head(self, layout: Layout) -> int {
        self.heap_base + self.list(
            self.first_free_order(self.order_of(layout)),
        ).last()
    }

    /// An allocation for `layout` can succeed: the request is supported and
    /// some free list at or above its order holds a block.
    pub open spec fn can_allocate(self, layout: Layout) -> bool {
        &&& self.layout_supported(layout)
        &&& exists|j: int|
            self.order_of(layout) <= j < self.num_orders() && (#[trigger] self.list(j)).len() > 0
    }

    /// Allocates a block for `layout`: scans the free lists from the
    /// request's order upward, pops the first block found, splits it down to
    /// the needed size, and returns its address. Fails — leaving the heap
    /// unchanged — exactly when the request is unsupported or no free block
    /// at or above its order exists. On success the returned address lies in
    /// the heap, carries the requested alignment, and the new block overlaps
    /// no block still free and none handed out earlier.
    pub fn allocate(&mut self, layout: Layout) -> (r: Result<usize, AllocError>)
        requires
            old(self).wf(),
        ensures
            final(self).wf(),
            old(self).same_config(*final(self)),
            r is Ok <==> old(self).can_allocate(layout),
            match r {
                Ok(addr) => {
                    let off = addr - old(self).heap_base;
                    let k = old(self).order_of(layout);
                    &&& old(self).heap_base <= addr
                    &&& off + old(self).block_size(k) <= old(self).heap_size
                    &&& off % (old(self).block_size(k) as int) == 0
                    &&& addr as int % (layout.align as int) == 0
                    &&& old(self).block_size(k) >= layout.size
                    &&& final(self).allocated@ == old(self).allocated@.push(
                        (off as usize, k as usize),
                    )
                    &&& {
                        // First fit: the block is the head of the first
                        // non-empty list at or above the request's order,
                        // and splitting gives back exactly the upper half
                        // of each cut, one order below, touching no other
                        // list.
                        let j = old(self).first_free_order(k);
                        &&& k <= j < old(self).num_orders()
                        &&& old(self).list(j).len() > 0
                        &&& off == old(self).list(j).last()
                        &&& addr as int == old(self).alloc_head(layout)
                        &&& final(self).list(j) == old(self).list(j).drop_last()
                        &&& forall|k2: int|
                            k <= k2 < j ==> #[trigger] final(self).list(k2) == old(self).list(
                                k2,
                            ).push((off + old(self).block_size(k2)) as usize)
                        &&& forall|k2: int|
                            0 <= k2 < old(self).num_orders() && !(k <= k2 <= j)
                                ==> #[trigger] final(self).list(k2) == old(self).list(k2)
                    }
                },
                Err(_) => old(self).unchanged(*final(self)),
            },
    {
        let order_opt = self.allocation_order(layout);
        let order_needed = match order_opt {
            None => {
                proof {
                    if old(self).can_allocate(layout) {
                        assert(old(self).layout_supported(layout));
                    }
                }
                return Err(AllocError);
            },
            Some(k) => k,
        };
        let n = self.free_lists.len();
        let mut j = order_needed;
        while j < n
            invariant
                old(self).unchanged(*self),
                self.wf(),
                old(self).wf(),
                order_needed <= j,
                n == self.num_orders(),
                order_needed == old(self).order_of(layout),
                old(self).layout_supported(layout),
                0 <= order_needed < n,
                self.block_size(order_needed as int) >= old(self).req_lower(layout),
                forall|jj: int|
                    order_needed <= jj < j ==> (#[trigger] old(self).list(jj)).len() == 0,
            decreases n - j,
        {
            let ghost pre = *self;
            let popped = self.free_list_pop(j);
            if let Some(block) = popped {
                proof {
                    let i0 = pre.list(j as int).len() - 1;
                    assert(self.list(j as int) =~= pre.list(j as int).remove(i0 as int));
                    lemma_wf_after_free_remove(pre, *self, j as int, i0 as int);
                    assert(self.clear_of_all(block as int, j as int));
                    assert(self.block_ok(block as int, j as int));
                }
                let ghost pre_split = *self;
                self.split_free_block(block, j, order_needed);
                let ghost pre_push = *self;
                proof {
                    self.allocated@ = self.allocated@.push((block, order_needed));
                }
                proof {
                    assert(pre_push.clear_of_all(block as int, order_needed as int));
                    lemma_wf_after_alloc_push(pre_push, *self, block, order_needed);
                    // The request's alignment divides the block's address.
                    let ea = crate::math::log2(layout.align as nat);
                    assert(layout.align as nat == pow2(ea));
                    lemma_pow2_pos(ea);
                    assert(pow2(12) == 4096) by {
                        vstd::arithmetic::power2::lemma2_to64();
                    }
                    assert(ea <= 12) by {
                        if ea > 12 {
                            lemma_pow2_strictly_increases(12, ea);
                        }
                    }
                    assert((self.min_block_size_log2 + order_needed) as nat >= ea) by {
                        if ((self.min_block_size_log2 + order_needed) as nat) < ea {
                            lemma_pow2_strictly_increases(
                                (self.min_block_size_log2 + order_needed) as nat,
                                ea,
                            );
                        }
                    }
                    crate::math::lemma_aligned_pow2_le(
                        block as int,
                        (self.min_block_size_log2 + order_needed) as nat,
                        ea,
                    );
                    crate::math::lemma_aligned_pow2_le(self.heap_base as int, 12, ea);
                    vstd::arithmetic::div_mod::lemma_add_mod_noop(
                        self.heap_base as int,
                        block as int,
                        layout.align as int,
                    );
                    vstd::arithmetic::div_mod::lemma_small_mod(0, layout.align as nat);
                    assert(pre.list(j as int).len() > 0);
                    assert(old(self).can_allocate(layout));
                    // The policy clauses: which list was popped and what
                    // each list became.
                    assert(old(self).list(j as int) == pre.list(j as int));
                    old(self).lemma_first_free_is(order_needed as int, j as int);
                    assert(block == old(self).list(j as int).last());
                    assert(self.list(j as int) == old(self).list(j as int).drop_last()) by {
                        assert(pre_split.list(j as int) == pre.list(j as int).remove(
                            pre.list(j as int).len() - 1,
                        ));
                        assert(pre.list(j as int).remove(pre.list(j as int).len() - 1)
                            =~= pre.list(j as int).drop_last());
                        assert(self.list(j as int) == pre_push.list(j as int));
                        assert(pre_push.list(j as int) == pre_split.list(j as int));
                    }
                    assert forall|k2: int| order_needed <= k2 < j implies #[trigger] self.list(k2)
                        == old(self).list(k2).push(
                        (block + old(self).block_size(k2)) as usize,
                    ) by {
                        assert(self.list(k2) == pre_push.list(k2));
                        assert(pre_push.list(k2) == pre_split.list(k2).push(
                            (block + pre_split.block_size(k2)) as usize,
                        ));
                        assert(pre_split.list(k2) == pre.list(k2));
                        assert(pre.list(k2) == old(self).list(k2));
                    }
                    assert forall|k2: int|
                        0 <= k2 < old(self).num_orders() && !(order_needed <= k2 <= j) implies
                        #[trigger] self.list(k2) == old(self).list(k2) by {
                        assert(self.list(k2) == pre_push.list(k2));
                        assert(pre_push.list(k2) == pre_split.list(k2));
                        assert(pre_split.list(k2) == pre.list(k2));
                        assert(pre.list(k2) == old(self).list(k2));
                    }
                }
                let addr = self.heap_base + block;
                return Ok(addr);
            }
            proof {
                lemma_view_bridge(pre);
                lemma_view_bridge(*self);
                assert forall|k: int| 0 <= k < self.lists_view().len() implies
                    self.lists_view()[k] == pre.lists_view()[k] by {
                    assert(self.list(k) == pre.list(k));
                }
                assert(self.lists_view() =~= pre.lists_view());
                assert(self.free_bytes() == pre.free_bytes());
                assert(forall|k: int, i: int|
                    0 <= k < self.num_orders() && 0 <= i < self.list(k).len()
                        ==> #[trigger] self.free_block(k, i) == pre.free_block(k, i));
                assert(forall|k: int|
                    0 <= k < self.num_orders() ==> (#[trigger] self.list(k)).len() == pre.list(
                        k,
                    ).len());
                assert(forall|j: int|
                    0 <= j < self.allocated@.len() ==> #[trigger] self.alloc_off(j)
                        == pre.alloc_off(j) && self.alloc_order(j) == pre.alloc_order(j));
                assert(self.wf());
                assert forall|k: int| 0 <= k < old(self).num_orders() implies #[trigger] self.list(
                    k,
                ) == old(self).list(k) by {
                    assert(self.list(k) == pre.list(k));
                }
            }
            j = j + 1;
        }
        proof {
            if old(self).can_allocate(layout) {
                let jj = choose|jj: int|
                    old(self).order_of(layout) <= jj < old(self).num_orders() && (
                    #[trigger] old(self).list(jj)).len() > 0;
                assert(false);
            }
        }
        Err(AllocError)
    }

    /// Finds the "buddy" of the block at address `block` of the given order:
    /// the other half of the block it was split from, located by XOR-ing the
    /// offset from the heap base with the block size. Returns `None` only
    /// for a block spanning the whole heap, which has no buddy. The buddy
    /// offset is itself aligned to the block size — so in particular to the
    /// minimum block size — and lies within the heap.
    pub fn buddy(&self, order: usize, block: usize) -> (r: Option<usize>)
        requires
            self.wf_config(),
            order < self.num_orders(),
            block >= self.heap_base,
            (block - self.heap_base) % (self.block_size(order as int) as int) == 0,
            block - self.heap_base + self.block_size(order as int) <= self.heap_size,
        ensures
            r is None <==> self.block_size(order as int) >= self.heap_size,
            r matches Some(b) ==> {
                let rel = block - self.heap_base;
                let s = self.block_size(order as int) as int;
                let bud = b - self.heap_base;
                &&& b >= self.heap_base
                &&& (rel % (2 * s) == 0 ==> bud == rel + s)
                &&& (rel % (2 * s) != 0 ==> rel % (2 * s) == s && bud == rel - s)
                &&& bud % s == 0
                &&& bud % (self.min_block_size as int) == 0
                &&& 0 <= bud
                &&& bud + s <= self.heap_size
            },
    {
        let relative = block - self.heap_base;
        let size = self.order_size(order);
        if size >= self.heap_size {
            return None;
        }
        let b = relative ^ size;
        proof {
            let p = (self.min_block_size_log2 + order) as usize;
            let h = (self.min_block_size_log2 + self.num_orders() - 1) as nat;
            assert((p as nat) < h) by {
                if p as nat >= h {
                    if (p as nat) > h {
                        lemma_pow2_strictly_increases(h, p as nat);
                    }
                    assert(pow2(p as nat) >= pow2(h));
                    assert(false);
                }
            }
            crate::math::lemma_buddy_xor(relative, p);
            vstd::arithmetic::power2::lemma_pow2_unfold((p + 1) as nat);
            lemma_pow2_pos(p as nat);
            let s = self.block_size(order as int) as int;
            let t = 2 * s;
            assert(self.heap_size as int % t == 0) by {
                crate::math::lemma_pow2_divides((p + 1) as nat, h);
            }
            if relative as int % t == 0 {
                // The buddy is the upper half; show it stays inside the heap.
                let q = relative as int / t;
                let m = self.heap_size as int / t;
                vstd::arithmetic::div_mod::lemma_fundamental_div_mod(relative as int, t);
                vstd::arithmetic::div_mod::lemma_fundamental_div_mod(self.heap_size as int, t);
                assert(relative as int + t <= self.heap_size as int) by (nonlinear_arith)
                    requires
                        t * q < t * m,
                        relative as int == t * q,
                        self.heap_size as int == t * m,
                        t > 0,
                ;
            }
            assert((b as int) % s == 0) by {
                if relative as int % t == 0 {
                    crate::math::lemma_aligned_add_multiple(relative as int, s, 1);
                } else {
                    let q2 = relative as int / s;
                    vstd::arithmetic::div_mod::lemma_fundamental_div_mod(relative as int, s);
                    assert(relative as int - s == (q2 - 1) * s) by (nonlinear_arith)
                        requires
                            relative as int == s * q2 + 0,
                    ;
                    vstd::arithmetic::div_mod::lemma_mod_multiples_basic(q2 - 1, s);
                }
            }
            assert((b as int) % (self.min_block_size as int) == 0) by {
                crate::math::lemma_aligned_pow2_le(
                    b as int,
                    p as nat,
                    self.min_block_size_log2 as nat,
                );
            }
        }
        Some(self.heap_base + b)
    }

    /// Returns a block to the heap. The caller passes the address obtained
    /// from `allocate` together with the same layout it allocated with; the
    /// order is recomputed from the layout, never read from storage. The
    /// block is merged with its buddy repeatedly while that buddy is itself
    /// free, and the merged block then joins the free list of its order.
    /// Conservation is restated in the clauses below: the byte totals move
    /// the block's size from the allocated side to the free side, and the
    /// invariant — disjointness included — is maintained.
    pub fn deallocate(&mut self, ptr: usize, layout: Layout)
        requires
            old(self).wf(),
            old(self).layout_supported(layout),
            ptr >= old(self).heap_base,
            exists|jj: int|
                0 <= jj < old(self).allocated@.len() && old(self).allocated@[jj] == (
                ((ptr - old(self).heap_base) as usize),
                (old(self).order_of(layout) as usize),
                ),
        ensures
            final(self).wf(),
            old(self).same_config(*final(self)),
            exists|jj: int|
                0 <= jj < old(self).allocated@.len() && old(self).allocated@[jj] == (
                ((ptr - old(self).heap_base) as usize),
                (old(self).order_of(layout) as usize),
                ) && final(self).allocated@ == old(self).allocated@.remove(jj),
            final(self).free_bytes() == old(self).free_bytes() + old(self).block_size(
                old(self).order_of(layout),
            ),
            final(self).alloc_bytes() == old(self).alloc_bytes() - old(self).block_size(
                old(self).order_of(layout),
            ),
            final(self).lists_view() == coalesce(
                old(self).min_block_size_log2,
                old(self).lists_view(),
                ptr - old(self).heap_base,
                old(self).order_of(layout),
            ),
    {
        let order_opt = self.allocation_order(layout);
        proof {
            assert(order_opt is Some);
        }
        let order = order_opt.unwrap();
        let off0 = ptr - self.heap_base;
        let ghost jj = choose|jj: int|
            0 <= jj < self.allocated@.len() && self.allocated@[jj] == (
            off0,
            (self.order_of(layout) as usize),
            );
        let ghost pre0 = *self;
        proof {
            self.allocated@ = self.allocated@.remove(jj);
        }
        proof {
            lemma_wf_after_alloc_remove(pre0, *self, jj);
            assert(self.block_ok(off0 as int, order as int));
            assert(self.clear_of_all(off0 as int, order as int));
            lemma_view_bridge(*old(self));
            lemma_view_bridge(*self);
            assert forall|k2: int| 0 <= k2 < self.lists_view().len() implies self.lists_view()[k2]
                == old(self).lists_view()[k2] by {
                assert(self.list(k2) == old(self).list(k2));
            }
            assert(self.lists_view() =~= old(self).lists_view());
        }
        let n = self.free_lists.len();
        let mut k = order;
        let mut off = off0;
        let mut done = false;
        while !done && k + 1 < n
            invariant
                self.wf_blocks(),
                old(self).same_config(*self),
                n == self.num_orders(),
                self.allocated@ == old(self).allocated@.remove(jj),
                0 <= jj < old(self).allocated@.len(),
                old(self).allocated@[jj] == (
                    ((ptr - old(self).heap_base) as usize),
                    (old(self).order_of(layout) as usize),
                ),
                order == old(self).order_of(layout),
                order <= k < self.num_orders(),
                self.block_ok(off as int, k as int),
                self.clear_of_all(off as int, k as int),
                self.free_bytes() == old(self).free_bytes() - self.block_size(k as int)
                    + self.block_size(order as int),
                self.alloc_bytes() == old(self).alloc_bytes() - self.block_size(order as int),
                coalesce(
                    old(self).min_block_size_log2,
                    self.lists_view(),
                    off as int,
                    k as int,
                ) == coalesce(
                    old(self).min_block_size_log2,
                    old(self).lists_view(),
                    ptr - old(self).heap_base,
                    order as int,
                ),
                done ==> !self.list(k as int).contains(
                    (buddy_of(off as int, self.block_size(k as int) as int)) as usize,
                ),
            decreases (if done {
                0int
            } else {
                1int
            }), self.num_orders() - k,
        {
            proof {
                lemma_pow2_strictly_increases(
                    (self.min_block_size_log2 + k) as nat,
                    (self.min_block_size_log2 + self.num_orders() - 1) as nat,
                );
                lemma_pow2_pos((self.min_block_size_log2 + k) as nat);
            }
            let bud_opt = self.buddy(k, self.heap_base + off);
            proof {
                assert(bud_opt is Some);
            }
            let bud_addr = bud_opt.unwrap();
            let bud = bud_addr - self.heap_base;
            let ghost pre = *self;
            let ghost s = self.block_size(k as int) as int;
            let ghost t = 2 * s;
            if self.free_list_remove(k, bud) {
                proof {
                    vstd::arithmetic::power2::lemma_pow2_unfold(
                        (self.min_block_size_log2 + k + 1) as nat,
                    );
                    assert(pre.list(k as int).contains(bud));
                    let i0 = choose|i: int|
                        0 <= i < pre.list(k as int).len() && pre.list(k as int)[i] == bud
                            && self.list(k as int) == pre.list(k as int).remove(i);
                    lemma_wf_after_free_remove(pre, *self, k as int, i0);
                    assert(pre.free_block(k as int, i0) == bud as int);
                    assert(self.clear_of_all(bud as int, k as int));
                }
                let new_off = if off < bud {
                    off
                } else {
                    bud
                };
                proof {
                    // The merged parent is aligned to the doubled size and
                    // stays inside the heap.
                    if off as int % t == 0 {
                        assert(bud == off + s);
                        assert(new_off == off);
                    } else {
                        assert(bud == off - s);
                        assert(new_off == bud);
                        let q = off as int / t;
                        vstd::arithmetic::div_mod::lemma_fundamental_div_mod(off as int, t);
                        assert(bud as int == t * q);
                        vstd::arithmetic::div_mod::lemma_mod_multiples_basic(q, t);
                        assert(q * t == t * q) by (nonlinear_arith);
                    }
                    assert(self.block_ok(new_off as int, k + 1));
                    // The parent overlaps nothing still tracked: each of its
                    // halves is clear of everything.
                    assert forall|k2: int, i2: int|
                        0 <= k2 < self.num_orders() && 0 <= i2 < self.list(k2).len()
                            implies disjoint(
                        new_off as int,
                        self.block_size(k + 1) as int,
                        #[trigger] self.free_block(k2, i2),
                        self.block_size(k2) as int,
                    ) by {
                        lemma_pow2_pos((self.min_block_size_log2 + k2) as nat);
                        assert(disjoint(
                            bud as int,
                            s,
                            self.free_block(k2, i2),
                            self.block_size(k2) as int,
                        ));
                        if k2 == k {
                            let i0 = choose|i: int|
                                0 <= i < pre.list(k as int).len() && pre.list(k as int)[i] == bud
                                    && self.list(k as int) == pre.list(k as int).remove(i);
                            if i2 < i0 {
                                assert(self.free_block(k2, i2) == pre.free_block(k2, i2));
                            } else {
                                assert(self.free_block(k2, i2) == pre.free_block(k2, i2 + 1));
                            }
                        } else {
                            assert(self.free_block(k2, i2) == pre.free_block(k2, i2));
                        }
                        assert(disjoint(
                            off as int,
                            s,
                            self.free_block(k2, i2),
                            self.block_size(k2) as int,
                        ));
                    }
                    assert forall|j: int| 0 <= j < self.allocated@.len() implies disjoint(
                        new_off as int,
                        self.block_size(k + 1) as int,
                        #[trigger] self.alloc_off(j),
                        self.block_size(self.alloc_order(j)) as int,
                    ) by {
                        lemma_pow2_pos((self.min_block_size_log2 + self.alloc_order(j)) as nat);
                        assert(disjoint(
                            bud as int,
                            s,
                            self.alloc_off(j),
                            self.block_size(self.alloc_order(j)) as int,
                        ));
                        assert(self.alloc_off(j) == pre.alloc_off(j) && self.alloc_order(j)
                            == pre.alloc_order(j));
                        assert(disjoint(
                            off as int,
                            s,
                            self.alloc_off(j),
                            self.block_size(self.alloc_order(j)) as int,
                        ));
                    }
                    assert(self.clear_of_all(new_off as int, k + 1));
                    // One unfolding of the coalescing recurrence matches
                    // this merge step.
                    lemma_view_bridge(pre);
                    lemma_view_bridge(*self);
                    let log2 = old(self).min_block_size_log2;
                    assert(pre.lists_view()[k as int] == pre.list(k as int));
                    assert(pre.lists_view()[k as int].contains(bud));
                    assert(buddy_of(off as int, s) == bud as int);
                    let i0 = choose|i: int|
                        {
                            &&& 0 <= i < pre.list(k as int).len()
                            &&& pre.list(k as int)[i] == bud
                            &&& forall|i2: int| 0 <= i2 < i ==> pre.list(k as int)[i2] != bud
                            &&& self.list(k as int) == pre.list(k as int).remove(i)
                        };
                    lemma_first_index_is(pre.list(k as int), bud, i0);
                    assert forall|kk: int| 0 <= kk < self.lists_view().len() implies
                        self.lists_view()[kk] == pre.lists_view().update(
                        k as int,
                        pre.lists_view()[k as int].remove(
                            first_index_of(pre.lists_view()[k as int], bud),
                        ),
                    )[kk] by {
                        if kk == k {
                            assert(self.lists_view()[kk] == self.list(kk));
                        } else {
                            assert(self.list(kk) == pre.list(kk));
                        }
                    }
                    assert(self.lists_view() =~= pre.lists_view().update(
                        k as int,
                        pre.lists_view()[k as int].remove(
                            first_index_of(pre.lists_view()[k as int], bud),
                        ),
                    ));
                    assert(coalesce(log2, pre.lists_view(), off as int, k as int) == coalesce(
                        log2,
                        self.lists_view(),
                        new_off as int,
                        k + 1,
                    ));
                }
                off = new_off;
                k = k + 1;
            } else {
                proof {
                    lemma_view_bridge(pre);
                    lemma_view_bridge(*self);
                    assert forall|kk: int| 0 <= kk < self.lists_view().len() implies
                        self.lists_view()[kk] == pre.lists_view()[kk] by {
                        assert(self.list(kk) == pre.list(kk));
                    }
                    assert(self.lists_view() =~= pre.lists_view());
                    assert(self.free_bytes() == pre.free_bytes());
                    assert(forall|k2: int, i2: int|
                        0 <= k2 < self.num_orders() && 0 <= i2 < self.list(k2).len()
                            ==> #[trigger] self.free_block(k2, i2) == pre.free_block(k2, i2));
                    assert(forall|k2: int|
                        0 <= k2 < self.num_orders() ==> (#[trigger] self.list(k2)).len()
                            == pre.list(k2).len());
                    assert(forall|j: int|
                        0 <= j < self.allocated@.len() ==> #[trigger] self.alloc_off(j)
                            == pre.alloc_off(j) && self.alloc_order(j) == pre.alloc_order(j));
                    assert(self.wf_blocks());
                    assert(self.clear_of_all(off as int, k as int));
                    assert(!self.list(k as int).contains(
                        (buddy_of(off as int, self.block_size(k as int) as int)) as usize,
                    )) by {
                        assert(buddy_of(off as int, s) == bud as int);
                        assert(self.list(k as int) == pre.list(k as int));
                    }
                }
                done = true;
            }
        }
        let ghost pre_ins = *self;
        self.free_list_insert(k, off);
        proof {
            lemma_wf_after_free_push(pre_ins, *self, k as int, off);
            // The recurrence bottoms out here: no free buddy, or the top
            // order — the block joins the list of its final order.
            lemma_view_bridge(pre_ins);
            lemma_view_bridge(*self);
            let log2 = old(self).min_block_size_log2;
            assert(coalesce(log2, pre_ins.lists_view(), off as int, k as int)
                == pre_ins.lists_view().update(
                k as int,
                pre_ins.lists_view()[k as int].push(off),
            )) by {
                if !(k + 1 >= n) {
                    assert(!pre_ins.list(k as int).contains(
                        (buddy_of(off as int, pre_ins.block_size(k as int) as int)) as usize,
                    ));
                    assert(pre_ins.lists_view()[k as int] == pre_ins.list(k as int));
                }
            }
            assert forall|kk: int| 0 <= kk < self.lists_view().len() implies self.lists_view()[kk]
                == pre_ins.lists_view().update(
                k as int,
                pre_ins.lists_view()[k as int].push(off),
            )[kk] by {
                if kk == k {
                    assert(self.lists_view()[kk] == self.list(kk));
                    assert(self.list(kk) == pre_ins.list(kk).push(off));
                } else {
                    assert(self.list(kk) == pre_ins.list(kk));
                }
            }
            assert(self.lists_view() =~= pre_ins.lists_view().update(
                k as int,
                pre_ins.lists_view()[k as int].push(off),
            ));
        }
    }

    /// Conservation law: in any well-formed heap state — and `allocate` and
    /// `deallocate` both ensure the state stays well-formed — the free and
    /// allocated blocks are each valid for their orders, pairwise disjoint
    /// across both kinds, and their sizes sum to exactly the heap size: the
    /// blocks reconstruct the heap range with no overlap and no gap.
    pub proof fn lemma_conservation(self)
        requires
            self.wf(),
        ensures
            self.wf_free(),
            self.wf_alloc(),
            self.wf_free_free(),
            self.wf_alloc_alloc(),
            self.wf_free_alloc(),
            self.free_bytes() + self.alloc_bytes() == self.heap_size,
    {
    }

    /// Order-determinism law: the block order computed for a layout depends
    /// only on the heap's fixed configuration, never on its allocation
    /// state. Any two results meeting `allocation_order`'s characterization
    /// — one computed when allocating, one when freeing, in any two states
    /// of the same heap — coincide, which is what correct coalescing needs.
    pub proof fn lemma_allocation_order_deterministic(
        self,
        other: Heap,
        layout: Layout,
        k1: usize,
        k2: usize,
    )
        requires
            self.wf_config(),
            other.wf_config(),
            self.same_config(other),
            k1 < self.num_orders(),
            self.block_size(k1 as int) >= self.req_lower(layout),
            forall|e: nat|
                pow2(e) >= self.req_lower(layout) ==> pow2(e) >= self.block_size(k1 as int),
            k2 < other.num_orders(),
            other.block_size(k2 as int) >= other.req_lower(layout),
            forall|e: nat|
                pow2(e) >= other.req_lower(layout) ==> pow2(e) >= other.block_size(k2 as int),
        ensures
            k1 == k2,
    {
        assert(self.req_lower(layout) == other.req_lower(layout));
        assert(other.block_size(k2 as int) == self.block_size(k2 as int));
        self.lemma_order_unique(layout, k1 as int, k2 as int);
    }

    /// Size-determinism law: the byte size served for a layout depends only
    /// on the heap's fixed configuration. Any two results meeting
    /// `allocation_size`'s characterization, in any two states of the same
    /// heap, coincide.
    pub proof fn lemma_allocation_size_deterministic(
        self,
        other: Heap,
        layout: Layout,
        s1: usize,
        s2: usize,
    )
        requires
            self.wf_config(),
            other.wf_config(),
            self.same_config(other),
            is_pow2(s1 as nat),
            s1 >= layout.size && s1 >= layout.align && s1 >= self.min_block_size,
            forall|e: nat| pow2(e) >= self.req_lower(layout) ==> pow2(e) >= s1 as nat,
            is_pow2(s2 as nat),
            s2 >= layout.size && s2 >= layout.align && s2 >= other.min_block_size,
            forall|e: nat| pow2(e) >= other.req_lower(layout) ==> pow2(e) >= s2 as nat,
        ensures
            s1 == s2,
    {
        let e1 = crate::math::log2(s1 as nat);
        let e2 = crate::math::log2(s2 as nat);
        assert(s1 as nat == pow2(e1) && s2 as nat == pow2(e2));
        assert(self.req_lower(layout) == other.req_lower(layout));
        assert(pow2(e1) >= s2 as nat);
        assert(pow2(e2) >= s1 as nat);
    }

    /// The size in bytes of blocks of the given order.
    pub fn order_size(&self, order: usize) -> (r: usize)
        requires
            self.wf_config(),
            order < self.num_orders(),
        ensures
            r as nat == self.block_size(order as int),
            r >= 1,
    {
        proof {
            if self.min_block_size_log2 + order < self.min_block_size_log2 + self.num_orders()
                - 1 {
                lemma_pow2_strictly_increases(
                    (self.min_block_size_log2 + order) as nat,
                    (self.min_block_size_log2 + self.num_orders() - 1) as nat,
                );
            }
        }
        usize_pow2(self.min_block_size_log2 + order)
    }
}

} // verus!
