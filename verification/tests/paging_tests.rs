use pmem::paging::{align_value, allocate, allocate_zeroed, deallocate, FrameTable, Page, PageFlags, PAGE_SIZE};

const START: usize = 0x20_0000;

#[test]
fn align_value_rounds_up_to_power_of_two() {
    assert_eq!(align_value(0, 12), 0);
    assert_eq!(align_value(1, 12), 4096);
    assert_eq!(align_value(4096, 12), 4096);
    assert_eq!(align_value(4097, 12), 8192);
    assert_eq!(align_value(13, 3), 16);
}

#[test]
fn page_flags_values() {
    assert_eq!(PageFlags::Empty.value(), 0);
    assert_eq!(PageFlags::Taken.value(), 1);
    assert_eq!(PageFlags::Last.value(), 2);
}

#[test]
fn page_flag_operations() {
    let mut p = Page { flags: 0 };
    assert!(p.is_free());
    assert!(!p.is_taken());
    assert!(!p.is_last());
    p.set_flag(PageFlags::Taken);
    assert!(p.is_taken());
    assert!(!p.is_last());
    p.set_flag(PageFlags::Last);
    assert!(p.is_taken());
    assert!(p.is_last());
    p.clear_flag(PageFlags::Last);
    assert!(p.is_taken());
    assert!(!p.is_last());
    p.clear();
    assert!(p.is_free());
}

#[test]
fn allocate_is_first_fit_and_marks_runs() {
    let mut t = FrameTable::new(START, 8);
    let a = allocate(&mut t, 3).unwrap();
    assert_eq!(a, START);
    // The first two pages carry the taken flag, the third also the last.
    assert_eq!(t.pages[0].flags, 1);
    assert_eq!(t.pages[1].flags, 1);
    assert_eq!(t.pages[2].flags, 3);
    assert_eq!(t.pages[3].flags, 0);
    // The next run starts after the first: first fit.
    let b = allocate(&mut t, 2).unwrap();
    assert_eq!(b, START + 3 * PAGE_SIZE);
    // Too large for what is left.
    assert!(allocate(&mut t, 4).is_none());
    assert!(allocate(&mut t, 3).is_some());
}

#[test]
fn deallocate_clears_the_whole_run() {
    let mut t = FrameTable::new(START, 8);
    let a = allocate(&mut t, 3).unwrap();
    let b = allocate(&mut t, 2).unwrap();
    deallocate(&mut t, a);
    for i in 0..3 {
        assert_eq!(t.pages[i].flags, 0);
    }
    // The second run is untouched.
    assert_eq!(t.pages[3].flags, 1);
    assert_eq!(t.pages[4].flags, 3);
    // The freed pages can be taken again, first fit from the start.
    let c = allocate(&mut t, 3).unwrap();
    assert_eq!(c, a);
    deallocate(&mut t, b);
    deallocate(&mut t, c);
    for i in 0..8 {
        assert_eq!(t.pages[i].flags, 0);
    }
}

#[test]
fn allocate_zeroed_behaves_like_allocate() {
    let mut t = FrameTable::new(START, 4);
    let a = allocate_zeroed(&mut t, 2).unwrap();
    assert_eq!(a, START);
    assert_eq!(t.pages[0].flags, 1);
    assert_eq!(t.pages[1].flags, 3);
    assert!(allocate_zeroed(&mut t, 3).is_none());
}

#[test]
fn single_page_run_is_taken_and_last() {
    let mut t = FrameTable::new(START, 2);
    let a = allocate(&mut t, 1).unwrap();
    assert_eq!(t.pages[0].flags, 3);
    deallocate(&mut t, a);
    assert_eq!(t.pages[0].flags, 0);
}
