use pmem::heap::{Heap, MIN_HEAP_ALIGN};
use pmem::layout::Layout;

const BASE: usize = 0x10_0000;

fn small_heap() -> Heap {
    // 64 KiB heap, 5 orders: the minimum block is 4 KiB.
    Heap::new(BASE, 64 * 1024, 5)
}

fn kib(n: usize) -> Layout {
    Layout::from_size_align(n * 1024, 8).unwrap()
}

#[test]
fn new_heap_holds_one_top_block() {
    let h = small_heap();
    assert_eq!(h.min_block_size, 4096);
    assert_eq!(h.min_block_size_log2, 12);
    assert_eq!(h.free_lists.len(), 5);
    assert_eq!(h.free_lists[4].len(), 1);
    assert_eq!(h.free_lists[4][0], 0);
    for k in 0..4 {
        assert_eq!(h.free_lists[k].len(), 0);
    }
}

#[test]
fn allocation_size_rounds_up() {
    let h = small_heap();
    // Sub-minimum requests are raised to the minimum block size.
    assert_eq!(h.allocation_size(kib(1)), Some(4096));
    // Sizes round up to the next power of two.
    assert_eq!(h.allocation_size(kib(5)), Some(8192));
    assert_eq!(h.allocation_size(kib(8)), Some(8192));
    assert_eq!(h.allocation_size(kib(9)), Some(16384));
    assert_eq!(h.allocation_size(kib(64)), Some(65536));
    // Bigger than the heap.
    assert_eq!(h.allocation_size(kib(65)), None);
    // Alignments that are not powers of two, or larger than the heap
    // alignment, are refused.
    assert_eq!(h.allocation_size(Layout { size: 8, align: 3 }), None);
    assert_eq!(
        h.allocation_size(Layout { size: 8, align: 2 * MIN_HEAP_ALIGN }),
        None
    );
    // Alignment above the size raises the size.
    assert_eq!(
        h.allocation_size(Layout { size: 8, align: 4096 }),
        Some(4096)
    );
}

#[test]
fn allocation_order_indexes_free_lists() {
    let h = small_heap();
    assert_eq!(h.allocation_order(kib(1)), Some(0));
    assert_eq!(h.allocation_order(kib(8)), Some(1));
    assert_eq!(h.allocation_order(kib(64)), Some(4));
    assert_eq!(h.allocation_order(kib(65)), None);
    assert_eq!(h.order_size(0), 4096);
    assert_eq!(h.order_size(4), 65536);
}

#[test]
fn allocation_size_is_deterministic_across_states() {
    // The computed size depends only on the configuration, so it is the
    // same before any allocation and in the middle of a workload.
    let mut h = small_heap();
    let before = h.allocation_size(kib(3));
    let _ = h.allocate(kib(3)).unwrap();
    let _ = h.allocate(kib(1)).unwrap();
    assert_eq!(h.allocation_size(kib(3)), before);
    assert_eq!(before, Some(4096));
}

#[test]
fn four_small_allocations_split_the_heap() {
    // 64 KiB heap, 5 orders; four 1 KiB requests each round to one 4 KiB
    // block: four distinct, non-overlapping blocks, and the order-0 free
    // list ends empty.
    let mut h = small_heap();
    let l = kib(1);
    let a = h.allocate(l).unwrap();
    let b = h.allocate(l).unwrap();
    let c = h.allocate(l).unwrap();
    let d = h.allocate(l).unwrap();
    let blocks = [a, b, c, d];
    for i in 0..4 {
        assert!(blocks[i] >= BASE && blocks[i] + 4096 <= BASE + 64 * 1024);
        assert_eq!((blocks[i] - BASE) % 4096, 0);
        for j in 0..4 {
            if i != j {
                // Distinct and non-overlapping 4 KiB blocks.
                assert!(blocks[i] + 4096 <= blocks[j] || blocks[j] + 4096 <= blocks[i]);
            }
        }
    }
    assert_eq!(h.free_lists[0].len(), 0);
    // Splitting consumed the top block and left exactly one free block at
    // each of orders 1 and 2: no larger block was consumed beyond what the
    // splitting required.
    assert_eq!(h.free_lists[1].len(), 0);
    assert_eq!(h.free_lists[2].len(), 1);
    assert_eq!(h.free_lists[3].len(), 1);
    assert_eq!(h.free_lists[4].len(), 0);

    // Freeing all four in a scrambled order coalesces everything back
    // into a single top-order block.
    h.deallocate(c, l);
    h.deallocate(a, l);
    h.deallocate(d, l);
    h.deallocate(b, l);
    for k in 0..4 {
        assert_eq!(h.free_lists[k].len(), 0);
    }
    assert_eq!(h.free_lists[4].len(), 1);
    assert_eq!(h.free_lists[4][0], 0);
}

#[test]
fn allocate_fails_when_no_block_fits() {
    let mut h = small_heap();
    let whole = kib(64);
    let a = h.allocate(whole).unwrap();
    assert_eq!(a, BASE);
    // The heap is exhausted now.
    assert!(h.allocate(kib(1)).is_err());
    h.deallocate(a, whole);
    assert!(h.allocate(kib(1)).is_ok());
}

#[test]
fn allocate_rejects_unsupported_layouts() {
    let mut h = small_heap();
    assert!(h.allocate(Layout { size: 8, align: 3 }).is_err());
    assert!(h.allocate(kib(128)).is_err());
}

#[test]
fn buddy_is_the_other_half() {
    let mut h = small_heap();
    let l = kib(1);
    let a = h.allocate(l).unwrap();
    let b = h.allocate(l).unwrap();
    // Blocks at offsets 0 and 4096 of order 0 are buddies of one another.
    assert_eq!(h.buddy(0, a), Some(b));
    assert_eq!(h.buddy(0, b), Some(a));
    // The buddy of the 8 KiB block at offset 8192 is at offset 0.
    assert_eq!(h.buddy(1, BASE + 8192), Some(BASE));
    // A block spanning the whole heap has no buddy.
    assert_eq!(h.buddy(4, BASE), None);
}

#[test]
fn buddy_offsets_stay_aligned_and_in_bounds() {
    let h = small_heap();
    for k in 0..4 {
        let size = h.order_size(k);
        let mut off = 0;
        while off + size <= 64 * 1024 {
            let bud = h.buddy(k, BASE + off).unwrap();
            let rel = bud - BASE;
            assert_eq!(rel % size, 0);
            assert_eq!(rel % h.min_block_size, 0);
            assert!(rel + size <= 64 * 1024);
            off += size;
        }
    }
}
