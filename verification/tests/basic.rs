use pmem::error::AllocError;
use pmem::heap::FreeBlock;
use pmem::layout::Layout;

#[test]
fn it_works() {
    assert_eq!(2 + 2, 4);
}

#[test]
fn free_block_links() {
    let b = FreeBlock::new(Some(4096));
    assert_eq!(b.next(), Some(4096));
    let last = FreeBlock::new(None);
    assert_eq!(last.next(), None);
}

#[test]
fn layout_from_size_align_validates() {
    let l = Layout::from_size_align(100, 8).unwrap();
    assert_eq!(l.size(), 100);
    assert_eq!(l.align(), 8);
    assert!(Layout::from_size_align(8, 0).is_err());
    assert!(Layout::from_size_align(8, 3).is_err());
    assert!(Layout::from_size_align(usize::MAX, 4096).is_err());
}

#[test]
fn layout_dangling_is_aligned() {
    let l = Layout::from_size_align(0, 16).unwrap();
    assert_eq!(l.dangling(), 16);
    assert_eq!(l.dangling() % l.align(), 0);
}

#[test]
fn layout_new_for_type() {
    let l = Layout::new::<u64>();
    assert_eq!(l.size(), core::mem::size_of::<u64>());
    assert_eq!(l.align(), core::mem::align_of::<u64>());
    let (s, a) = pmem::layout::size_align::<u32>();
    assert_eq!(s, 4);
    assert_eq!(a, core::mem::align_of::<u32>());
}

#[test]
fn alloc_error_is_comparable() {
    assert_eq!(AllocError, AllocError);
}
