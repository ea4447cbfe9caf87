use pmem::mmu::{unmap, virt_to_phys, Entry, EntryFlags, PhysMem, Table};
use pmem::paging::FrameTable;

const START: usize = 0x40_0000;

fn phys_mem(pages: usize) -> PhysMem {
    let frames = FrameTable::new(START, pages);
    let mut tables = Vec::new();
    let mut i = 0;
    while i < pages {
        tables.push(Table::new());
        i += 1;
    }
    PhysMem { frames, tables }
}

#[test]
fn entry_flag_values() {
    assert_eq!(EntryFlags::Empty.value(), 0);
    assert_eq!(EntryFlags::Valid.value(), 1);
    assert_eq!(EntryFlags::Read.value(), 2);
    assert_eq!(EntryFlags::Write.value(), 4);
    assert_eq!(EntryFlags::Execute.value(), 8);
    assert_eq!(EntryFlags::User.value(), 16);
    assert_eq!(EntryFlags::Global.value(), 32);
    assert_eq!(EntryFlags::Access.value(), 64);
    assert_eq!(EntryFlags::Dirty.value(), 128);
    assert_eq!(EntryFlags::ReadWrite.value(), 6);
    assert_eq!(EntryFlags::ReadExecute.value(), 10);
    assert_eq!(EntryFlags::ReadWriteExecute.value(), 14);
    assert_eq!(EntryFlags::UserReadWrite.value(), 22);
    assert_eq!(EntryFlags::UserReadExecute.value(), 26);
    assert_eq!(EntryFlags::UserReadWriteExecute.value(), 30);
}

#[test]
fn entry_classification() {
    let mut e = Entry { entry: 0 };
    assert!(e.is_invalid());
    assert!(!e.is_valid());
    e.set_entry(1);
    assert!(e.is_valid());
    assert!(e.is_branch());
    assert!(!e.is_leaf());
    e.set_entry(1 | 2);
    assert!(e.is_valid());
    assert!(e.is_leaf());
    assert_eq!(e.entry(), 3);
}

#[test]
fn table_has_512_invalid_entries() {
    let t = Table::new();
    assert_eq!(t.len(), 512);
    assert!(t.entries[0].is_invalid());
    assert!(t.entries[511].is_invalid());
}

#[test]
fn map_then_translate_round_trip() {
    // The concrete walk: map 0x1000 to 0x80001000 read-write at level 0,
    // then translating 0x1000 yields 0x80001000 again.
    let mut mem = phys_mem(8);
    let mut root = Table::new();
    let bits = EntryFlags::ReadWrite.value();
    pmem::mmu::map(&mut mem, &mut root, 0x1000, 0x8000_1000, bits, 0).unwrap();
    assert_eq!(virt_to_phys(&mem, &root, 0x1000), Some(0x8000_1000));
    // Offsets inside the page pass through.
    assert_eq!(virt_to_phys(&mem, &root, 0x1234), Some(0x8000_1234));
    // A neighbouring page is not mapped.
    assert_eq!(virt_to_phys(&mem, &root, 0x2000), None);
    // Two intermediate tables were allocated.
    assert_eq!(mem.frames.pages[0].flags, 3);
    assert_eq!(mem.frames.pages[1].flags, 3);
    assert_eq!(mem.frames.pages[2].flags, 0);
}

#[test]
fn map_second_page_shares_tables() {
    let mut mem = phys_mem(8);
    let mut root = Table::new();
    let bits = EntryFlags::ReadWrite.value();
    pmem::mmu::map(&mut mem, &mut root, 0x1000, 0x8000_1000, bits, 0).unwrap();
    pmem::mmu::map(&mut mem, &mut root, 0x2000, 0x8000_7000, bits, 0).unwrap();
    // The first mapping is untouched, and no further frame was needed.
    assert_eq!(virt_to_phys(&mem, &root, 0x1000), Some(0x8000_1000));
    assert_eq!(virt_to_phys(&mem, &root, 0x2000), Some(0x8000_7000));
    assert_eq!(mem.frames.pages[2].flags, 0);
}

#[test]
fn map_large_level_one_mapping() {
    let mut mem = phys_mem(4);
    let mut root = Table::new();
    let bits = EntryFlags::ReadExecute.value();
    // A level-1 leaf maps two megabytes; only one table is needed.
    pmem::mmu::map(&mut mem, &mut root, 0x20_0000, 0x8040_0000, bits, 1).unwrap();
    assert_eq!(virt_to_phys(&mem, &root, 0x20_0000), Some(0x8040_0000));
    assert_eq!(virt_to_phys(&mem, &root, 0x21_5678), Some(0x8041_5678));
    assert_eq!(mem.frames.pages[0].flags, 3);
    assert_eq!(mem.frames.pages[1].flags, 0);
}

#[test]
fn map_fails_without_frames() {
    let mut mem = phys_mem(1);
    let mut root = Table::new();
    let bits = EntryFlags::ReadWrite.value();
    // Two tables are needed but only one frame exists.
    assert!(pmem::mmu::map(&mut mem, &mut root, 0x1000, 0x8000_1000, bits, 0).is_err());
    assert_eq!(virt_to_phys(&mem, &root, 0x1000), None);
}

#[test]
fn unmap_frees_all_table_frames() {
    let mut mem = phys_mem(8);
    let mut root = Table::new();
    let bits = EntryFlags::ReadWrite.value();
    pmem::mmu::map(&mut mem, &mut root, 0x1000, 0x8000_1000, bits, 0).unwrap();
    unmap(&mut mem, &mut root);
    for i in 0..8 {
        assert_eq!(mem.frames.pages[i].flags, 0);
    }
    assert_eq!(virt_to_phys(&mem, &root, 0x1000), None);
    assert!(root.entries[0].is_invalid());
}

#[test]
fn unmap_on_empty_table_is_a_no_op() {
    let mut mem = phys_mem(4);
    let mut root = Table::new();
    // Nothing mapped: nothing freed, nothing changed.
    unmap(&mut mem, &mut root);
    for i in 0..4 {
        assert_eq!(mem.frames.pages[i].flags, 0);
    }
    // Unmapping twice in a row must not double-free any frame: after the
    // first call the root is empty, so the second changes nothing.
    let bits = EntryFlags::ReadWrite.value();
    pmem::mmu::map(&mut mem, &mut root, 0x1000, 0x8000_1000, bits, 0).unwrap();
    unmap(&mut mem, &mut root);
    let snapshot: Vec<u8> = mem.frames.pages.iter().map(|p| p.flags).collect();
    unmap(&mut mem, &mut root);
    let again: Vec<u8> = mem.frames.pages.iter().map(|p| p.flags).collect();
    assert_eq!(snapshot, again);
}

#[test]
fn translate_on_empty_tree_faults() {
    let mem = phys_mem(2);
    let root = Table::new();
    assert_eq!(virt_to_phys(&mem, &root, 0), None);
    assert_eq!(virt_to_phys(&mem, &root, 0xdead_b000), None);
}
