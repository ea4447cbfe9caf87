use pmem::global::{Allocator, Global};
use pmem::heap::Heap;
use pmem::layout::Layout;

const BASE: usize = 0x80_0000;

fn global() -> Global {
    Global::new(Heap::new(BASE, 64 * 1024, 5))
}

#[test]
fn facade_allocates_and_frees() {
    let mut g = global();
    let l = Layout::from_size_align(1000, 8).unwrap();
    let a = g.allocate(l).unwrap();
    assert_eq!(a % 8, 0);
    assert!(a >= BASE);
    g.deallocate(a, l);
    // The heap is whole again.
    assert_eq!(g.heap.free_lists[4].len(), 1);
}

#[test]
fn facade_zero_sized_requests_use_dangling() {
    let mut g = global();
    let l = Layout::from_size_align(0, 64).unwrap();
    let a = g.allocate(l).unwrap();
    assert_eq!(a, 64);
    // No heap block was consumed.
    assert_eq!(g.heap.free_lists[4].len(), 1);
    g.deallocate(a, l);
    assert_eq!(g.heap.free_lists[4].len(), 1);
}

#[test]
fn facade_allocate_zeroed_matches_allocate() {
    let mut g = global();
    let l = Layout::from_size_align(4096, 8).unwrap();
    let a = g.allocate_zeroed(l).unwrap();
    assert_eq!((a - BASE) % 4096, 0);
}

#[test]
fn facade_grow_moves_the_block() {
    let mut g = global();
    let small = Layout::from_size_align(1024, 8).unwrap();
    let large = Layout::from_size_align(8192, 8).unwrap();
    let a = g.allocate(small).unwrap();
    let b = g.grow(a, small, large).unwrap();
    assert!(b >= BASE && b + 8192 <= BASE + 64 * 1024);
    g.deallocate(b, large);
    assert_eq!(g.heap.free_lists[4].len(), 1);
}

#[test]
fn facade_shrink_moves_the_block() {
    let mut g = global();
    let large = Layout::from_size_align(8192, 8).unwrap();
    let small = Layout::from_size_align(1024, 8).unwrap();
    let a = g.allocate(large).unwrap();
    let b = g.shrink(a, large, small).unwrap();
    g.deallocate(b, small);
    assert_eq!(g.heap.free_lists[4].len(), 1);
}

#[test]
fn facade_reports_exhaustion() {
    let mut g = global();
    let whole = Layout::from_size_align(64 * 1024, 8).unwrap();
    let a = g.allocate(whole).unwrap();
    assert!(g.allocate(Layout::from_size_align(1, 1).unwrap()).is_err());
    // A failed grow leaves the old block owned.
    assert!(g.grow(a, whole, whole).is_err());
    g.deallocate(a, whole);
    assert!(g.allocate(Layout::from_size_align(1, 1).unwrap()).is_ok());
}
