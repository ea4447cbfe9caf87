//! The three-level address-translation tree: 512-entry tables of one-word
//! entries, in the style of RISC-V Sv39.
//!
//! An entry is invalid, a branch pointing at a child table, or a leaf
//! carrying a physical frame and permission bits; leaves may sit at any
//! level, giving large mappings above level zero. Intermediate tables live
//! in page frames obtained from the page-frame allocator, so the tree here
//! is an arena: `PhysMem` couples the frame table with the contents of each
//! frame that holds a page table, and entries address child tables through
//! the same shifted-physical-address encoding a hardware walker would read.

use vstd::prelude::*;

verus! {

use crate::error::AllocError;
use crate::paging::{self, FrameTable, PAGE_SIZE};
use vstd::pervasive::VecAdditionalExecFns;

/// Flags of a page-table entry. `value` yields the entry bit (or bits, for
/// the combined conveniences).
#[derive(Clone, Copy, Debug)]
pub enum EntryFlags {
    /// No bits at all.
    Empty,
    /// The entry is present.
    Valid,
    /// Readable.
    Read,
    /// Writable.
    Write,
    /// Executable.
    Execute,
    /// Accessible to user mode.
    User,
    /// Global mapping.
    Global,
    /// Accessed.
    Access,
    /// Written to.
    Dirty,
    /// Readable and writable.
    ReadWrite,
    /// Readable and executable.
    ReadExecute,
    /// Readable, writable and executable.
    ReadWriteExecute,
    /// User-mode readable and writable.
    UserReadWrite,
    /// User-mode readable and executable.
    UserReadExecute,
    /// User-mode readable, writable and executable.
    UserReadWriteExecute,
}

impl EntryFlags {
    /// The bit pattern of this flag.
    pub open spec fn spec_value(self) -> usize {
        match self {
            EntryFlags::Empty => 0,
            EntryFlags::Valid => 1,
            EntryFlags::Read => 2,
            EntryFlags::Write => 4,
            EntryFlags::Execute => 8,
            EntryFlags::User => 16,
            EntryFlags::Global => 32,
            EntryFlags::Access => 64,
            EntryFlags::Dirty => 128,
            EntryFlags::ReadWrite => 6,
            EntryFlags::ReadExecute => 10,
            EntryFlags::ReadWriteExecute => 14,
            EntryFlags::UserReadWrite => 22,
            EntryFlags::UserReadExecute => 26,
            EntryFlags::UserReadWriteExecute => 30,
        }
    }

    /// Returns the flag as the word a table entry stores.
    pub fn value(self) -> (r: usize)
        ensures
            r == self.spec_value(),
    {
        match self {
            EntryFlags::Empty => 0,
            EntryFlags::Valid => 1,
            EntryFlags::Read => 2,
            EntryFlags::Write => 4,
            EntryFlags::Execute => 8,
            EntryFlags::User => 16,
            EntryFlags::Global => 32,
            EntryFlags::Access => 64,
            EntryFlags::Dirty => 128,
            EntryFlags::ReadWrite => 6,
            EntryFlags::ReadExecute => 10,
            EntryFlags::ReadWriteExecute => 14,
            EntryFlags::UserReadWrite => 22,
            EntryFlags::UserReadExecute => 26,
            EntryFlags::UserReadWriteExecute => 30,
        }
    }
}

/// An entry word is valid when its lowest bit is set.
pub open spec fn valid_bits(e: usize) -> bool {
    e & 1 != 0
}

/// An entry word is a leaf when any of its read, write or execute bits is
/// set; a valid entry without them is a branch.
pub open spec fn leaf_bits(e: usize) -> bool {
    e & 0xe != 0
}

/// The physical address a branch entry stores: the flag bits are masked
/// off and the shifted address is restored.
pub open spec fn spec_child_addr(e: usize) -> usize {
    (e & !0x3ff) << 2usize
}

/// One page-table entry.
#[derive(Clone, Copy, Debug)]
pub struct Entry {
    /// The raw entry word.
    pub entry: usize,
}

impl Entry {
    /// The entry is present.
    pub fn is_valid(&self) -> (r: bool)
        ensures
            r == valid_bits(self.entry),
    {
        self.entry & EntryFlags::Valid.value() != 0
    }

    /// The entry is absent: translation through it faults.
    pub fn is_invalid(&self) -> (r: bool)
        ensures
            r == !valid_bits(self.entry),
    {
        !self.is_valid()
    }

    /// The entry maps a frame: one or more of its R/W/X bits is set.
    pub fn is_leaf(&self) -> (r: bool)
        ensures
            r == leaf_bits(self.entry),
    {
        self.entry & 0xe != 0
    }

    /// The entry points at a child table rather than mapping a frame.
    pub fn is_branch(&self) -> (r: bool)
        ensures
            r == !leaf_bits(self.entry),
    {
        !self.is_leaf()
    }

    /// Overwrites the entry word.
    pub fn set_entry(&mut self, entry: usize)
        ensures
            final(self).entry == entry,
    {
        self.entry = entry;
    }

    /// The raw entry word.
    pub fn entry(&self) -> (r: usize)
        ensures
            r == self.entry,
    {
        self.entry
    }
}

/// One page table: 512 entries, one page's worth of eight-byte words.
pub struct Table {
    /// The entry words.
    pub entries: Vec<Entry>,
}

impl Table {
    /// A table always holds exactly 512 entries.
    pub open spec fn wf(self) -> bool {
        self.entries@.len() == 512
    }

    /// The entry word at slot `a`.
    pub open spec fn entry_at(self, a: int) -> usize {
        self.entries@[a].entry
    }

    /// Slot `a` holds a valid branch.
    pub open spec fn branch_at(self, a: int) -> bool {
        valid_bits(self.entry_at(a)) && !leaf_bits(self.entry_at(a))
    }

    /// A fresh table of invalid entries, as a zero-filled frame holds.
    pub fn new() -> (r: Table)
        ensures
            r.wf(),
            forall|a: int| 0 <= a < 512 ==> #[trigger] r.entry_at(a) == 0,
    {
        let mut entries: Vec<Entry> = Vec::new();
        let mut i: usize = 0;
        while i < 512
            invariant
                i <= 512,
                entries@.len() == i,
                forall|a: int| 0 <= a < i ==> (#[trigger] entries@[a]).entry == 0,
            decreases 512 - i,
        {
            entries.push(Entry { entry: 0 });
            i = i + 1;
        }
        Table { entries }
    }

    /// Number of entries in the table.
    pub fn len(&self) -> (r: usize)
        ensures
            r == self.entries@.len(),
    {
        self.entries.len()
    }
}

/// The physical memory that backs the translation tree: the frame table,
/// and the page-table contents of each frame. `tables[i]` is meaningful
/// exactly while frame `i` is allocated to hold a table.
pub struct PhysMem {
    /// The page-frame allocator state.
    pub frames: FrameTable,
    /// The table held in each frame.
    pub tables: Vec<Table>,
}

impl PhysMem {
    /// Frames and tables line up, and every table slot is well-formed.
    pub open spec fn wf(self) -> bool {
        &&& self.frames.wf()
        &&& self.tables@.len() == self.frames.num_pages()
        &&& forall|i: int| 0 <= i < self.tables@.len() ==> (#[trigger] self.tables@[i]).wf()
    }

    /// The frame index a branch entry points at.
    pub open spec fn child_index(self, e: usize) -> int {
        (spec_child_addr(e) - self.frames.alloc_start) / (PAGE_SIZE as int)
    }

    /// A branch entry is sound: it points at an allocated frame of the
    /// managed range.
    pub open spec fn branch_ok(self, e: usize) -> bool {
        &&& spec_child_addr(e) >= self.frames.alloc_start
        &&& spec_child_addr(e) as int == self.frames.alloc_start + self.child_index(e) * (
        PAGE_SIZE as int)
        &&& 0 <= self.child_index(e) < self.frames.num_pages()
        &&& self.frames.flags_at(self.child_index(e)) == 3
    }

    /// The table a branch entry points at.
    pub open spec fn table_at(self, e: usize) -> Table {
        self.tables@[self.child_index(e)]
    }

    /// The level-1 table under root slot `a`.
    pub open spec fn lv1(self, root: Table, a: int) -> Table {
        self.table_at(root.entry_at(a))
    }

    /// The level-0 table under root slot `a`, slot `b` of its level-1 table.
    pub open spec fn lv0(self, root: Table, a: int, b: int) -> Table {
        self.table_at(self.lv1(root, a).entry_at(b))
    }

    /// Frame index of the level-1 table under root slot `a`.
    pub open spec fn ci1(self, root: Table, a: int) -> int {
        self.child_index(root.entry_at(a))
    }

    /// Frame index of the level-0 table under slots `a`, `b`.
    pub open spec fn ci0(self, root: Table, a: int, b: int) -> int {
        self.child_index(self.lv1(root, a).entry_at(b))
    }

    /// The translation tree rooted at `root` is sound: every valid branch
    /// points at an allocated, well-formed table frame; level-0 tables hold
    /// no branches; and the tree owns its frames exclusively — distinct
    /// branches never share a child frame, across levels too.
    pub open spec fn tree_wf(self, root: Table) -> bool {
        &&& root.wf()
        &&& forall|a: int|
            0 <= a < 512 && #[trigger] root.branch_at(a) ==> self.branch_ok(root.entry_at(a))
        &&& forall|a: int, b: int|
            0 <= a < 512 && 0 <= b < 512 && #[trigger] root.branch_at(a) && #[trigger] self.lv1(
                root,
                a,
            ).branch_at(b) ==> self.branch_ok(self.lv1(root, a).entry_at(b))
        &&& forall|a: int, b: int, c: int|
            0 <= a < 512 && 0 <= b < 512 && 0 <= c < 512 && #[trigger] root.branch_at(a)
                && #[trigger] self.lv1(root, a).branch_at(b) && valid_bits(
                #[trigger] self.lv0(root, a, b).entry_at(c),
            ) ==> leaf_bits(self.lv0(root, a, b).entry_at(c))
        &&& forall|a1: int, a2: int|
            0 <= a1 < 512 && 0 <= a2 < 512 && a1 != a2 && #[trigger] root.branch_at(a1)
                && #[trigger] root.branch_at(a2) ==> self.ci1(root, a1) != self.ci1(root, a2)
        &&& forall|a1: int, a2: int, b: int|
            0 <= a1 < 512 && 0 <= a2 < 512 && 0 <= b < 512 && #[trigger] root.branch_at(a1)
                && #[trigger] root.branch_at(a2) && #[trigger] self.lv1(root, a2).branch_at(b)
                ==> self.ci1(root, a1) != self.ci0(root, a2, b)
        &&& forall|a1: int, b1: int, a2: int, b2: int|
            0 <= a1 < 512 && 0 <= b1 < 512 && 0 <= a2 < 512 && 0 <= b2 < 512 && (a1 != a2 || b1
                != b2) && #[trigger] root.branch_at(a1) && #[trigger] self.lv1(root, a1).branch_at(
                b1,
            ) && #[trigger] root.branch_at(a2) && #[trigger] self.lv1(root, a2).branch_at(b2)
                ==> self.ci0(root, a1, b1) != self.ci0(root, a2, b2)
    }
}

/// The virtual-page-number field of `va` for the given level.
pub open spec fn spec_vpn(va: usize, lvl: int) -> int {
    (va as int / (pow2_12_9(lvl) as int)) % 512
}

/// The page-offset width at each level: `pow2(12 + 9 * lvl)`.
pub open spec fn pow2_12_9(lvl: int) -> usize {
    if lvl == 0 {
        0x1000usize
    } else if lvl == 1 {
        0x20_0000usize
    } else {
        0x4000_0000usize
    }
}

/// The low bits of an address that a leaf at the given level passes
/// through untranslated.
pub open spec fn off_mask(lvl: int) -> usize {
    if lvl == 0 {
        0xfffusize
    } else if lvl == 1 {
        0x1f_ffffusize
    } else {
        0x3fff_ffffusize
    }
}

/// The physical address a leaf entry resolves `va` to: the leaf's frame
/// bits joined with the untranslated low bits of `va`.
pub open spec fn spec_leaf_addr(e: usize, va: usize, lvl: int) -> usize {
    ((e << 2usize) & !off_mask(lvl)) | (va & off_mask(lvl))
}

impl PhysMem {
    /// The translation the tree rooted at `root` assigns to `va`: walk
    /// from level 2 down; an invalid entry faults, a leaf resolves at its
    /// level, and a branch descends.
    pub open spec fn translate(self, root: Table, va: usize) -> Option<usize> {
        let e2 = root.entry_at(spec_vpn(va, 2));
        if !valid_bits(e2) {
            None
        } else if leaf_bits(e2) {
            Some(spec_leaf_addr(e2, va, 2))
        } else {
            let t1 = self.table_at(e2);
            let e1 = t1.entry_at(spec_vpn(va, 1));
            if !valid_bits(e1) {
                None
            } else if leaf_bits(e1) {
                Some(spec_leaf_addr(e1, va, 1))
            } else {
                let t0 = self.table_at(e1);
                let e0 = t0.entry_at(spec_vpn(va, 0));
                if valid_bits(e0) && leaf_bits(e0) {
                    Some(spec_leaf_addr(e0, va, 0))
                } else {
                    None
                }
            }
        }
    }
}

/// Extracts the virtual-page-number field of `va` for a level.
fn vpn_of(va: usize, lvl: usize) -> (r: usize)
    requires
        lvl <= 2,
    ensures
        r as int == spec_vpn(va, lvl as int),
        r < 512,
{
    let shift: usize = 12 + 9 * lvl;
    let r = (va >> shift) & 0x1ff;
    proof {
        assert(va >> shift == va as nat / vstd::arithmetic::power2::pow2(shift as nat)) by {
            vstd::bits::lemma_usize_shr_is_div(va, shift);
        }
        assert(vstd::arithmetic::power2::pow2(shift as nat) == pow2_12_9(lvl as int)) by {
            vstd::arithmetic::power2::lemma2_to64();
        }
        let x = (va >> shift) as usize;
        assert(x & 0x1ff == x % 512) by (bit_vector);
        vstd::arithmetic::div_mod::lemma_mod_bound(x as int, 512);
    }
    r
}

/// Computes the frame index a sound branch entry points at.
fn child_of(mem: &PhysMem, e: usize) -> (i: usize)
    requires
        mem.wf(),
        mem.branch_ok(e),
    ensures
        i as int == mem.child_index(e),
        (i as int) < mem.frames.num_pages(),
{
    let addr = (e & !0x3ff) << 2;
    let i = (addr - mem.frames.alloc_start) / PAGE_SIZE;
    i
}

/// Resolves a leaf entry against `va` at a level.
fn leaf_addr_of(e: usize, va: usize, lvl: usize) -> (r: usize)
    requires
        lvl <= 2,
    ensures
        r == spec_leaf_addr(e, va, lvl as int),
{
    let mask: usize = if lvl == 0 {
        0xfff
    } else if lvl == 1 {
        0x1f_ffff
    } else {
        0x3fff_ffff
    };
    ((e << 2) & !mask) | (va & mask)
}

impl PhysMem {
    /// Frame `i` backs a table of the tree rooted at `root`: it is the
    /// child of a root branch, or of a branch one level further down.
    pub open spec fn reachable(self, root: Table, i: int) -> bool {
        ||| exists|a: int| 0 <= a < 512 && #[trigger] root.branch_at(a) && self.ci1(root, a) == i
        ||| exists|a: int, b: int|
            0 <= a < 512 && 0 <= b < 512 && #[trigger] root.branch_at(a) && (#[trigger] self.lv1(
                root,
                a,
            ).branch_at(b)) && self.ci0(root, a, b) == i
    }

    /// Like `reachable`, but only through root slots below `bound`.
    pub open spec fn reachable_below(self, root: Table, bound: int, i: int) -> bool {
        ||| exists|a: int|
            0 <= a < bound && #[trigger] root.branch_at(a) && self.ci1(root, a) == i
        ||| exists|a: int, b: int|
            0 <= a < bound && 0 <= b < 512 && #[trigger] root.branch_at(a) && (#[trigger] self.lv1(
                root,
                a,
            ).branch_at(b)) && self.ci0(root, a, b) == i
    }
}

/// A tree whose root holds no valid entry reaches no frame; with `unmap`'s
/// contract this is the idempotence law: unmapping an already-empty table
/// frees nothing and changes nothing, so a second `unmap` with no `map` in
/// between cannot double-free.
pub proof fn lemma_empty_root_reaches_nothing(mem: PhysMem, root: Table)
    requires
        forall|a: int| 0 <= a < 512 ==> !valid_bits(#[trigger] root.entry_at(a)),
    ensures
        forall|i: int| !mem.reachable(root, i),
{
    assert forall|i: int| !mem.reachable(root, i) by {
        if mem.reachable(root, i) {
            if exists|a: int| 0 <= a < 512 && #[trigger] root.branch_at(a) && mem.ci1(root, a)
                == i {
                let a = choose|a: int|
                    0 <= a < 512 && #[trigger] root.branch_at(a) && mem.ci1(root, a) == i;
                assert(!valid_bits(root.entry_at(a)));
            } else {
                let (a, b) = choose|a: int, b: int|
                    0 <= a < 512 && 0 <= b < 512 && #[trigger] root.branch_at(a) && (
                    #[trigger] mem.lv1(root, a).branch_at(b)) && mem.ci0(root, a, b) == i;
                assert(!valid_bits(root.entry_at(a)));
            }
        }
    }
}

/// Frees the single-page frame `i`.
fn free_frame(frames: &mut FrameTable, i: usize)
    requires
        old(frames).wf(),
        i < old(frames).num_pages(),
        old(frames).flags_at(i as int) == 3,
    ensures
        final(frames).wf(),
        final(frames).alloc_start == old(frames).alloc_start,
        final(frames).num_pages() == old(frames).num_pages(),
        forall|m: int|
            0 <= m < final(frames).num_pages() ==> #[trigger] final(frames).flags_at(m) == (if m
                == i {
                0u8
            } else {
                old(frames).flags_at(m)
            }),
{
    proof {
        assert(i * PAGE_SIZE < frames.num_pages() * PAGE_SIZE || i * PAGE_SIZE
            == frames.num_pages() * PAGE_SIZE) by (nonlinear_arith)
            requires
                0 <= i <= frames.num_pages(),
        ;
    }
    let ptr = frames.alloc_start + PAGE_SIZE * i;
    proof {
        assert(ptr - frames.alloc_start == PAGE_SIZE as int * i);
        vstd::arithmetic::div_mod::lemma_mod_multiples_basic(i as int, PAGE_SIZE as int);
        vstd::arithmetic::div_mod::lemma_div_multiples_vanish(i as int, PAGE_SIZE as int);
        assert(i as int * PAGE_SIZE == PAGE_SIZE as int * i) by (nonlinear_arith);
        assert(3u8 & 1 != 0 && 3u8 & 2 != 0) by (bit_vector);
        assert(frames.pages@[i as int].spec_last());
        assert(frames.run_end(i as int) == i);
        assert(frames.owned_run(i as int));
    }
    paging::deallocate(frames, ptr);
}

/// Tears down the tree rooted at `root`: every child table's backing frame
/// is freed, post-order — a level-0 table before the level-1 table above
/// it — and every valid root entry is invalidated. The root itself is
/// never freed here: its storage belongs to the caller. Exactly the frames
/// the tree reached are freed, so on a root with no valid entries this is
/// a no-op, and running it twice cannot free a frame twice.
pub fn unmap(mem: &mut PhysMem, root: &mut Table)
    requires
        old(mem).wf(),
        old(mem).tree_wf(*old(root)),
    ensures
        final(mem).wf(),
        final(mem).tree_wf(*final(root)),
        final(mem).frames.alloc_start == old(mem).frames.alloc_start,
        final(mem).frames.num_pages() == old(mem).frames.num_pages(),
        final(mem).tables@ == old(mem).tables@,
        forall|a: int|
            0 <= a < 512 ==> #[trigger] final(root).entry_at(a) == (if valid_bits(
                old(root).entry_at(a),
            ) {
                0usize
            } else {
                old(root).entry_at(a)
            }),
        forall|i: int|
            0 <= i < final(mem).frames.num_pages() ==> #[trigger] final(mem).frames.flags_at(i)
                == (if old(mem).reachable(*old(root), i) {
                0u8
            } else {
                old(mem).frames.flags_at(i)
            }),
{
    let mut a: usize = 0;
    while a < 512
        invariant
            a <= 512,
            mem.wf(),
            old(mem).wf(),
            old(mem).tree_wf(*old(root)),
            mem.frames.alloc_start == old(mem).frames.alloc_start,
            mem.frames.num_pages() == old(mem).frames.num_pages(),
            mem.tables@ == old(mem).tables@,
            root.wf(),
            forall|aa: int|
                0 <= aa < a ==> #[trigger] root.entry_at(aa) == (if valid_bits(
                    old(root).entry_at(aa),
                ) {
                    0usize
                } else {
                    old(root).entry_at(aa)
                }),
            forall|aa: int| a <= aa < 512 ==> #[trigger] root.entry_at(aa) == old(root).entry_at(
                aa,
            ),
            forall|i: int|
                0 <= i < mem.frames.num_pages() ==> #[trigger] mem.frames.flags_at(i) == (if old(
                    mem,
                ).reachable_below(*old(root), a as int, i) {
                    0u8
                } else {
                    old(mem).frames.flags_at(i)
                }),
        decreases 512 - a,
    {
        let e = root.entries[a].entry();
        proof {
            assert(root.entry_at(a as int) == e);
            assert(e == old(root).entry_at(a as int));
        }
        if e & 1 != 0 {
            if e & 0xe == 0 {
                proof {
                    assert(old(root).branch_at(a as int));
                    assert(old(mem).branch_ok(e));
                    // This level-1 frame was not freed through an earlier
                    // root slot: the tree owns each frame once.
                    assert(!old(mem).reachable_below(*old(root), a as int, old(mem).ci1(
                        *old(root),
                        a as int,
                    ))) by {
                        let i = old(mem).ci1(*old(root), a as int);
                        if old(mem).reachable_below(*old(root), a as int, i) {
                            if exists|a2: int|
                                0 <= a2 < a && #[trigger] old(root).branch_at(a2) && old(mem).ci1(
                                    *old(root),
                                    a2,
                                ) == i {
                                let a2 = choose|a2: int|
                                    0 <= a2 < a && #[trigger] old(root).branch_at(a2) && old(
                                        mem,
                                    ).ci1(*old(root), a2) == i;
                                assert(false);
                            } else {
                                let (a2, b2) = choose|a2: int, b2: int|
                                    0 <= a2 < a && 0 <= b2 < 512 && #[trigger] old(
                                        root,
                                    ).branch_at(a2) && (#[trigger] old(mem).lv1(
                                        *old(root),
                                        a2,
                                    ).branch_at(b2)) && old(mem).ci0(*old(root), a2, b2) == i;
                                assert(false);
                            }
                        }
                    }
                    assert(mem.frames.flags_at(old(mem).child_index(e)) == 3);
                    assert(mem.branch_ok(e));
                }
                let i1 = child_of(mem, e);
                let mut b: usize = 0;
                while b < 512
                    invariant
                        b <= 512,
                        a < 512,
                        mem.wf(),
                        old(mem).wf(),
                        old(mem).tree_wf(*old(root)),
                        mem.frames.alloc_start == old(mem).frames.alloc_start,
                        mem.frames.num_pages() == old(mem).frames.num_pages(),
                        mem.tables@ == old(mem).tables@,
                        e == old(root).entry_at(a as int),
                        old(root).branch_at(a as int),
                        old(mem).branch_ok(e),
                        i1 as int == old(mem).ci1(*old(root), a as int),
                        root.wf(),
                        forall|aa: int|
                            0 <= aa < a ==> #[trigger] root.entry_at(aa) == (if valid_bits(
                                old(root).entry_at(aa),
                            ) {
                                0usize
                            } else {
                                old(root).entry_at(aa)
                            }),
                        forall|aa: int|
                            a <= aa < 512 ==> #[trigger] root.entry_at(aa) == old(root).entry_at(
                                aa,
                            ),
                        forall|i: int|
                            0 <= i < mem.frames.num_pages() ==> #[trigger] mem.frames.flags_at(i)
                                == (if old(mem).reachable_below(*old(root), a as int, i) || (
                            exists|bb: int|
                                0 <= bb < b && (#[trigger] old(mem).lv1(
                                    *old(root),
                                    a as int,
                                ).branch_at(bb)) && old(mem).ci0(*old(root), a as int, bb) == i) {
                                0u8
                            } else {
                                old(mem).frames.flags_at(i)
                            }),
                    decreases 512 - b,
                {
                    let eb = mem.tables[i1].entries[b].entry();
                    proof {
                        assert(mem.tables@[i1 as int] == old(mem).lv1(*old(root), a as int));
                        assert(eb == old(mem).lv1(*old(root), a as int).entry_at(b as int));
                    }
                    if eb & 1 != 0 && eb & 0xe == 0 {
                        proof {
                            assert(old(mem).lv1(*old(root), a as int).branch_at(b as int));
                            assert(old(mem).branch_ok(eb));
                            let i0 = old(mem).ci0(*old(root), a as int, b as int);
                            // This level-0 frame has not been freed yet.
                            assert(mem.frames.flags_at(i0) == 3) by {
                                if old(mem).reachable_below(*old(root), a as int, i0) {
                                    if exists|a2: int|
                                        0 <= a2 < a && #[trigger] old(root).branch_at(a2) && old(
                                            mem,
                                        ).ci1(*old(root), a2) == i0 {
                                        let a2 = choose|a2: int|
                                            0 <= a2 < a && #[trigger] old(root).branch_at(a2)
                                                && old(mem).ci1(*old(root), a2) == i0;
                                        assert(false);
                                    } else {
                                        let (a2, b2) = choose|a2: int, b2: int|
                                            0 <= a2 < a && 0 <= b2 < 512 && #[trigger] old(
                                                root,
                                            ).branch_at(a2) && (#[trigger] old(mem).lv1(
                                                *old(root),
                                                a2,
                                            ).branch_at(b2)) && old(mem).ci0(*old(root), a2, b2)
                                                == i0;
                                        assert(false);
                                    }
                                }
                                if exists|bb: int|
                                    0 <= bb < b && (#[trigger] old(mem).lv1(
                                        *old(root),
                                        a as int,
                                    ).branch_at(bb)) && old(mem).ci0(*old(root), a as int, bb)
                                        == i0 {
                                    let bb = choose|bb: int|
                                        0 <= bb < b && (#[trigger] old(mem).lv1(
                                            *old(root),
                                            a as int,
                                        ).branch_at(bb)) && old(mem).ci0(*old(root), a as int, bb)
                                            == i0;
                                    assert(false);
                                }
                            }
                            assert(mem.branch_ok(eb));
                        }
                        let i0 = child_of(mem, eb);
                        free_frame(&mut mem.frames, i0);
                    } else {
                        proof {
                            assert(!old(mem).lv1(*old(root), a as int).branch_at(b as int));
                        }
                    }
                    b = b + 1;
                }
                proof {
                    // The level-1 frame itself is still allocated: it is
                    // not reachable through earlier slots, and it is no
                    // level-0 frame of its own subtree.
                    assert(mem.frames.flags_at(i1 as int) == 3) by {
                        if old(mem).reachable_below(*old(root), a as int, i1 as int) {
                            if exists|a2: int|
                                0 <= a2 < a && #[trigger] old(root).branch_at(a2) && old(mem).ci1(
                                    *old(root),
                                    a2,
                                ) == i1 as int {
                                let a2 = choose|a2: int|
                                    0 <= a2 < a && #[trigger] old(root).branch_at(a2) && old(
                                        mem,
                                    ).ci1(*old(root), a2) == i1 as int;
                                assert(false);
                            } else {
                                let (a2, b2) = choose|a2: int, b2: int|
                                    0 <= a2 < a && 0 <= b2 < 512 && #[trigger] old(
                                        root,
                                    ).branch_at(a2) && (#[trigger] old(mem).lv1(
                                        *old(root),
                                        a2,
                                    ).branch_at(b2)) && old(mem).ci0(*old(root), a2, b2)
                                        == i1 as int;
                                assert(false);
                            }
                        }
                        if exists|bb: int|
                            0 <= bb < 512 && (#[trigger] old(mem).lv1(
                                *old(root),
                                a as int,
                            ).branch_at(bb)) && old(mem).ci0(*old(root), a as int, bb)
                                == i1 as int {
                            let bb = choose|bb: int|
                                0 <= bb < 512 && (#[trigger] old(mem).lv1(
                                    *old(root),
                                    a as int,
                                ).branch_at(bb)) && old(mem).ci0(*old(root), a as int, bb)
                                    == i1 as int;
                            assert(false);
                        }
                    }
                }
                free_frame(&mut mem.frames, i1);
                let ghost pre_root = *root;
                root.entries[a].set_entry(0);
                proof {
                    assert(root.entry_at(a as int) == 0);
                    assert(forall|aa: int|
                        0 <= aa < 512 && aa != a ==> #[trigger] root.entry_at(aa)
                            == pre_root.entry_at(aa));
                    // Freed so far is exactly what the first a + 1 slots reach.
                    assert forall|i: int| 0 <= i < mem.frames.num_pages() implies
                        #[trigger] mem.frames.flags_at(i) == (if old(mem).reachable_below(
                        *old(root),
                        a + 1,
                        i,
                    ) {
                        0u8
                    } else {
                        old(mem).frames.flags_at(i)
                    }) by {
                        if old(mem).reachable_below(*old(root), a + 1, i) {
                            if !old(mem).reachable_below(*old(root), a as int, i) && i != i1 as int
                                && !(exists|bb: int|
                                0 <= bb < 512 && (#[trigger] old(mem).lv1(
                                    *old(root),
                                    a as int,
                                ).branch_at(bb)) && old(mem).ci0(*old(root), a as int, bb) == i) {
                                if exists|a2: int|
                                    0 <= a2 < a + 1 && #[trigger] old(root).branch_at(a2) && old(
                                        mem,
                                    ).ci1(*old(root), a2) == i {
                                    let a2 = choose|a2: int|
                                        0 <= a2 < a + 1 && #[trigger] old(root).branch_at(a2)
                                            && old(mem).ci1(*old(root), a2) == i;
                                    assert(false);
                                } else {
                                    let (a2, b2) = choose|a2: int, b2: int|
                                        0 <= a2 < a + 1 && 0 <= b2 < 512 && #[trigger] old(
                                            root,
                                        ).branch_at(a2) && (#[trigger] old(mem).lv1(
                                            *old(root),
                                            a2,
                                        ).branch_at(b2)) && old(mem).ci0(*old(root), a2, b2) == i;
                                    assert(false);
                                }
                            }
                        }
                    }
                }
            } else {
                let ghost pre_root = *root;
                root.entries[a].set_entry(0);
                proof {
                    assert(root.entry_at(a as int) == 0);
                    assert(forall|aa: int|
                        0 <= aa < 512 && aa != a ==> #[trigger] root.entry_at(aa)
                            == pre_root.entry_at(aa));
                    assert(!old(root).branch_at(a as int));
                    assert forall|i: int|
                        old(mem).reachable_below(*old(root), a + 1, i) == old(mem).reachable_below(
                        *old(root),
                        a as int,
                        i,
                    ) by {
                        lemma_reachable_step_no_branch(*old(mem), *old(root), a as int, i);
                    }
                }
            }
        } else {
            proof {
                assert(!old(root).branch_at(a as int));
                assert forall|i: int|
                    old(mem).reachable_below(*old(root), a + 1, i) == old(mem).reachable_below(
                    *old(root),
                    a as int,
                    i,
                ) by {
                    lemma_reachable_step_no_branch(*old(mem), *old(root), a as int, i);
                }
            }
        }
        a = a + 1;
    }
    proof {
        assert forall|i: int| old(mem).reachable(*old(root), i) == old(mem).reachable_below(
            *old(root),
            512,
            i,
        ) by {
        }
        assert forall|aa: int| 0 <= aa < 512 implies !root.branch_at(aa) by {
            if valid_bits(old(root).entry_at(aa)) {
                assert(root.entry_at(aa) == 0);
                assert(0usize & 1 == 0) by (bit_vector);
            } else {
                assert(root.entry_at(aa) == old(root).entry_at(aa));
            }
        }
    }
}

/// Extending the processed-slot bound past a slot that is no branch adds
/// nothing to what the tree reaches.
proof fn lemma_reachable_step_no_branch(mem: PhysMem, root: Table, a: int, i: int)
    requires
        0 <= a < 512,
        !root.branch_at(a),
    ensures
        mem.reachable_below(root, a + 1, i) == mem.reachable_below(root, a, i),
{
    if mem.reachable_below(root, a + 1, i) {
        if exists|a2: int| 0 <= a2 < a + 1 && #[trigger] root.branch_at(a2) && mem.ci1(root, a2)
            == i {
            let a2 = choose|a2: int|
                0 <= a2 < a + 1 && #[trigger] root.branch_at(a2) && mem.ci1(root, a2) == i;
            assert(a2 < a);
            assert(mem.reachable_below(root, a, i));
        } else {
            let (a2, b2) = choose|a2: int, b2: int|
                0 <= a2 < a + 1 && 0 <= b2 < 512 && #[trigger] root.branch_at(a2) && (
                #[trigger] mem.lv1(root, a2).branch_at(b2)) && mem.ci0(root, a2, b2) == i;
            assert(a2 < a);
            assert(mem.reachable_below(root, a, i));
        }
    }
}

impl FrameTable {
    /// Some page is free.
    pub open spec fn has_free(self) -> bool {
        exists|s: int| 0 <= s < self.num_pages() && self.free_at(s)
    }

    /// Two distinct pages are free.
    pub open spec fn has_two_free(self) -> bool {
        exists|s1: int, s2: int|
            0 <= s1 < self.num_pages() && 0 <= s2 < self.num_pages() && s1 != s2 && self.free_at(
                s1,
            ) && self.free_at(s2)
    }
}

/// Takes one free frame for a page table: allocates a single zeroed page
/// and returns its index. Fails exactly when no page is free.
fn take_frame(frames: &mut FrameTable) -> (r: Option<usize>)
    requires
        old(frames).wf(),
    ensures
        final(frames).wf(),
        final(frames).alloc_start == old(frames).alloc_start,
        final(frames).num_pages() == old(frames).num_pages(),
        r is Some <==> old(frames).has_free(),
        r matches Some(i) ==> {
            &&& (i as int) < old(frames).num_pages()
            &&& old(frames).free_at(i as int)
            &&& old(frames).flags_at(i as int) == 0
            &&& forall|m: int|
                0 <= m < final(frames).num_pages() ==> #[trigger] final(frames).flags_at(m) == (
                if m == i {
                    3u8
                } else {
                    old(frames).flags_at(m)
                })
        },
        r is None ==> final(frames).pages@ == old(frames).pages@,
{
    let r = paging::allocate_zeroed(frames, 1);
    match r {
        None => {
            proof {
                if old(frames).has_free() {
                    let s = choose|s: int|
                        0 <= s < old(frames).num_pages() && old(frames).free_at(s);
                    assert(old(frames).run_free(s, 1));
                    assert(false);
                }
            }
            None
        },
        Some(addr) => {
            let i = (addr - frames.alloc_start) / PAGE_SIZE;
            proof {
                let ii = (addr - old(frames).alloc_start) / (PAGE_SIZE as int);
                assert(i as int == ii);
                assert(old(frames).run_free(ii, 1));
                assert(old(frames).free_at(ii));
                assert(old(frames).flags_at(ii) == 0) by {
                    assert(old(frames).flags_at(ii) == 0 || old(frames).flags_at(ii) == 1 || old(
                        frames,
                    ).flags_at(ii) == 3);
                    assert((1u8 & 1 != 0) && (3u8 & 1 != 0) && (0u8 & 1 == 0)) by (bit_vector);
                }
                assert(old(frames).has_free()) by {
                    assert(old(frames).free_at(ii));
                }
            }
            Some(i)
        },
    }
}

/// Encoding of a branch entry: relies on the child table's page address
/// being page-aligned, so shifting it right by two and masking the flag
/// bits on the way back recovers it exactly.
proof fn lemma_branch_entry(addr: usize)
    requires
        addr % 4096 == 0,
    ensures
        spec_child_addr((addr >> 2usize) | 1) == addr,
        valid_bits((addr >> 2usize) | 1),
        !leaf_bits((addr >> 2usize) | 1),
{
    assert(((((addr >> 2usize) | 1) & !0x3ff) << 2usize) == addr && ((addr >> 2usize) | 1) & 1
        != 0 && ((addr >> 2usize) | 1) & 0xe == 0) by (bit_vector)
        requires
            addr % 4096 == 0,
    ;
}

/// Builds the leaf entry mapping `paddr` with the given permission bits:
/// the physical page number shifted into place, the caller's bits, and the
/// valid, access and dirty bits.
fn make_leaf(paddr: usize, bits: usize, lvl: usize) -> (e: usize)
    requires
        lvl <= 2,
        bits & 0x3e == bits,
        bits & 0xe != 0,
        paddr as int % (pow2_12_9(lvl as int) as int) == 0,
    ensures
        e == ((paddr >> 12) << 10) | bits | 0xc1,
        valid_bits(e),
        leaf_bits(e),
        forall|va2: usize|
            #[trigger] spec_leaf_addr(e, va2, lvl as int) == paddr + (va2 & off_mask(lvl as int)),
        forall|va2: usize| paddr + (va2 & off_mask(lvl as int)) <= usize::MAX,
{
    let e = ((paddr >> 12) << 10) | bits | 0xc1;
    proof {
        // The mapped size divides the address space, so adding any offset
        // below it to the aligned physical address cannot overflow.
        assert(paddr + (pow2_12_9(lvl as int) - 1) <= usize::MAX) by {
            let m = pow2_12_9(lvl as int) as int;
            let ee: nat = if lvl == 0 { 12nat } else if lvl == 1 { 21nat } else { 30nat };
            crate::math::lemma_usize_max_bound();
            vstd::arithmetic::power2::lemma2_to64();
            assert(m == vstd::arithmetic::power2::pow2(ee));
            crate::math::lemma_pow2_divides(ee, usize::BITS as nat);
            let q = paddr as int / m;
            let k = (usize::MAX as int + 1) / m;
            vstd::arithmetic::div_mod::lemma_fundamental_div_mod(paddr as int, m);
            vstd::arithmetic::div_mod::lemma_fundamental_div_mod(usize::MAX as int + 1, m);
            assert(paddr as int + m <= usize::MAX as int + 1) by (nonlinear_arith)
                requires
                    paddr as int == m * q,
                    usize::MAX as int + 1 == m * k,
                    m > 0,
                    (paddr as int) < (usize::MAX as int) + 1,
            ;
        }
        assert forall|va2: usize| paddr + (#[trigger] (va2 & off_mask(lvl as int)))
            <= usize::MAX by {
            if lvl == 0 {
                assert(va2 & 0xfffusize <= 0xfffusize) by (bit_vector);
            } else if lvl == 1 {
                assert(va2 & 0x1f_ffffusize <= 0x1f_ffffusize) by (bit_vector);
            } else {
                assert(va2 & 0x3fff_ffffusize <= 0x3fff_ffffusize) by (bit_vector);
            }
        }
        if lvl == 0 {
            assert forall|va2: usize| #[trigger] spec_leaf_addr(e, va2, lvl as int) == paddr + (
            va2 & off_mask(lvl as int)) && paddr + (va2 & off_mask(lvl as int))
                <= usize::MAX by {
                assert((((((paddr >> 12) << 10) | bits | 0xc1) << 2usize) & !0xfffusize) | (va2
                    & 0xfffusize) == paddr + (va2 & 0xfffusize) && (va2 & 0xfffusize)
                    <= 0xfffusize) by (bit_vector)
                    requires
                        paddr % 0x1000 == 0,
                        bits & 0x3e == bits,
                ;
            }
        } else if lvl == 1 {
            assert forall|va2: usize| #[trigger] spec_leaf_addr(e, va2, lvl as int) == paddr + (
            va2 & off_mask(lvl as int)) && paddr + (va2 & off_mask(lvl as int))
                <= usize::MAX by {
                assert((((((paddr >> 12) << 10) | bits | 0xc1) << 2usize) & !0x1f_ffffusize) | (va2
                    & 0x1f_ffffusize) == paddr + (va2 & 0x1f_ffffusize) && (va2 & 0x1f_ffffusize)
                    <= 0x1f_ffffusize) by (bit_vector)
                    requires
                        paddr % 0x20_0000 == 0,
                        bits & 0x3e == bits,
                ;
            }
        } else {
            assert forall|va2: usize| #[trigger] spec_leaf_addr(e, va2, lvl as int) == paddr + (
            va2 & off_mask(lvl as int)) && paddr + (va2 & off_mask(lvl as int))
                <= usize::MAX by {
                assert((((((paddr >> 12) << 10) | bits | 0xc1) << 2usize) & !0x3fff_ffffusize) | (va2
                    & 0x3fff_ffffusize) == paddr + (va2 & 0x3fff_ffffusize) && (va2 & 0x3fff_ffffusize)
                    <= 0x3fff_ffffusize) by (bit_vector)
                    requires
                        paddr % 0x4000_0000 == 0,
                        bits & 0x3e == bits,
                ;
            }
        }
        assert(e & 1 != 0 && e & 0xe != 0) by (bit_vector)
            requires
                e == ((paddr >> 12) << 10) | bits | 0xc1,
                bits & 0xe != 0,
        ;
    }
    e
}

/// The paths of two virtual addresses agree down to the given level.
pub open spec fn same_path(va1: usize, va2: usize, lvl: int) -> bool {
    &&& spec_vpn(va1, 2) == spec_vpn(va2, 2)
    &&& (lvl <= 1 ==> spec_vpn(va1, 1) == spec_vpn(va2, 1))
    &&& (lvl == 0 ==> spec_vpn(va1, 0) == spec_vpn(va2, 0))
}

impl PhysMem {
    /// How many intermediate tables mapping `va` at `lvl` still has to
    /// allocate, given the current tree.
    pub open spec fn tables_needed(self, root: Table, va: usize, lvl: int) -> int {
        if lvl == 2 {
            0
        } else {
            let e2 = root.entry_at(spec_vpn(va, 2));
            if !valid_bits(e2) {
                if lvl == 1 {
                    1
                } else {
                    2
                }
            } else if lvl == 1 {
                0
            } else {
                let e1 = self.table_at(e2).entry_at(spec_vpn(va, 1));
                if !valid_bits(e1) {
                    1
                } else {
                    0
                }
            }
        }
    }

    /// No leaf blocks the path of `va` above the given level: each valid
    /// entry that must be descended through is a branch.
    pub open spec fn path_clear(self, root: Table, va: usize, lvl: int) -> bool {
        lvl == 2 || {
            let e2 = root.entry_at(spec_vpn(va, 2));
            !valid_bits(e2) || (!leaf_bits(e2) && (lvl == 1 || {
                let e1 = self.table_at(e2).entry_at(spec_vpn(va, 1));
                !valid_bits(e1) || !leaf_bits(e1)
            }))
        }
    }

    /// The allocation the mapping needs can succeed: enough distinct free
    /// frames exist for the missing intermediate tables.
    pub open spec fn can_map(self, root: Table, va: usize, lvl: int) -> bool {
        let need = self.tables_needed(root, va, lvl);
        need == 0 || (need == 1 && self.frames.has_free()) || (need == 2
            && self.frames.has_two_free())
    }
}

/// A translation is unchanged between two states when the root entry on
/// the address's path and every table that path reaches are unchanged.
proof fn lemma_translate_unchanged(m1: PhysMem, r1: Table, m2: PhysMem, r2: Table, va: usize)
    requires
        m1.wf(),
        m2.wf(),
        m1.tree_wf(r1),
        m2.frames.alloc_start == m1.frames.alloc_start,
        m2.tables@.len() == m1.tables@.len(),
        r1.wf(),
        r2.wf(),
        r2.entry_at(spec_vpn(va, 2)) == r1.entry_at(spec_vpn(va, 2)),
        r1.branch_at(spec_vpn(va, 2)) ==> m2.tables@[m1.ci1(r1, spec_vpn(va, 2))]
            == m1.tables@[m1.ci1(r1, spec_vpn(va, 2))],
        r1.branch_at(spec_vpn(va, 2)) && m1.lv1(r1, spec_vpn(va, 2)).branch_at(spec_vpn(va, 1))
            ==> m2.tables@[m1.ci0(r1, spec_vpn(va, 2), spec_vpn(va, 1))] == m1.tables@[m1.ci0(
            r1,
            spec_vpn(va, 2),
            spec_vpn(va, 1),
        )],
    ensures
        m2.translate(r2, va) == m1.translate(r1, va),
{
    let v2 = spec_vpn(va, 2);
    let e2 = r1.entry_at(v2);
    vstd::arithmetic::div_mod::lemma_mod_bound(
        va as int / (pow2_12_9(2) as int),
        512,
    );
    if valid_bits(e2) && !leaf_bits(e2) {
        assert(r1.branch_at(v2));
        assert(m1.branch_ok(e2));
        assert(m2.child_index(e2) == m1.child_index(e2));
        assert(m2.table_at(e2) == m1.table_at(e2));
        let t1 = m1.table_at(e2);
        let e1 = t1.entry_at(spec_vpn(va, 1));
        if valid_bits(e1) && !leaf_bits(e1) {
            assert(m1.lv1(r1, v2).branch_at(spec_vpn(va, 1)));
            assert(m1.branch_ok(e1));
            assert(m2.table_at(e1) == m1.table_at(e1));
        }
    }
}

/// The page address of frame `i`.
fn frame_addr(frames: &FrameTable, i: usize) -> (addr: usize)
    requires
        frames.wf(),
        (i as int) < frames.num_pages(),
    ensures
        addr as int == frames.alloc_start + i as int * (PAGE_SIZE as int),
        addr % 4096 == 0,
        addr > 0,
{
    proof {
        assert(i * PAGE_SIZE < frames.num_pages() * PAGE_SIZE || i * PAGE_SIZE
            == frames.num_pages() * PAGE_SIZE) by (nonlinear_arith)
            requires
                0 <= i <= frames.num_pages(),
        ;
        vstd::arithmetic::div_mod::lemma_mod_multiples_basic(i as int, PAGE_SIZE as int);
        assert(i as int * PAGE_SIZE == PAGE_SIZE as int * i) by (nonlinear_arith);
        vstd::arithmetic::div_mod::lemma_add_mod_noop(
            frames.alloc_start as int,
            i as int * (PAGE_SIZE as int),
            PAGE_SIZE as int,
        );
    }
    frames.alloc_start + PAGE_SIZE * i
}

/// Walks the tree to translate a virtual address; `None` reports that no
/// mapping exists — a fault, not an error. A leaf found above level 0
/// terminates the walk early, resolving a large mapping.
pub fn virt_to_phys(mem: &PhysMem, root: &Table, vaddr: usize) -> (r: Option<usize>)
    requires
        mem.wf(),
        mem.tree_wf(*root),
    ensures
        r == mem.translate(*root, vaddr),
{
    let v2 = vpn_of(vaddr, 2);
    let e2 = root.entries[v2].entry();
    if e2 & 1 == 0 {
        return None;
    }
    if e2 & 0xe != 0 {
        return Some(leaf_addr_of(e2, vaddr, 2));
    }
    proof {
        assert(root.branch_at(spec_vpn(vaddr, 2)));
    }
    let i1 = child_of(mem, e2);
    let t1 = &mem.tables[i1];
    let v1 = vpn_of(vaddr, 1);
    let e1 = t1.entries[v1].entry();
    if e1 & 1 == 0 {
        return None;
    }
    if e1 & 0xe != 0 {
        return Some(leaf_addr_of(e1, vaddr, 1));
    }
    proof {
        assert(mem.lv1(*root, spec_vpn(vaddr, 2)).branch_at(spec_vpn(vaddr, 1)));
    }
    let i0 = child_of(mem, e1);
    let t0 = &mem.tables[i0];
    let v0 = vpn_of(vaddr, 0);
    let e0 = t0.entries[v0].entry();
    if e0 & 1 != 0 && e0 & 0xe != 0 {
        return Some(leaf_addr_of(e0, vaddr, 0));
    }
    None
}

/// The virtual-page-number fields are table indexes.
proof fn lemma_vpn_bound(va: usize, lvl: int)
    ensures
        0 <= spec_vpn(va, lvl) < 512,
{
    vstd::arithmetic::div_mod::lemma_mod_bound(va as int / (pow2_12_9(lvl) as int), 512);
}

/// Takes a free frame and installs a fresh zero table in it, returning the
/// frame index and the branch entry word that points at it. The parent
/// entry is the caller's to write.
fn new_table_frame(mem: &mut PhysMem) -> (r: Option<(usize, usize)>)
    requires
        old(mem).wf(),
    ensures
        final(mem).wf(),
        final(mem).frames.alloc_start == old(mem).frames.alloc_start,
        final(mem).frames.num_pages() == old(mem).frames.num_pages(),
        final(mem).tables@.len() == old(mem).tables@.len(),
        match r {
            Some((i, eb)) => {
                &&& (i as int) < old(mem).tables@.len()
                &&& old(mem).frames.flags_at(i as int) == 0
                &&& old(mem).frames.has_free()
                &&& forall|m: int|
                    0 <= m < final(mem).frames.num_pages() ==> #[trigger] final(mem).frames.flags_at(m) == (if m == i {
                        3u8
                    } else {
                        old(mem).frames.flags_at(m)
                    })
                &&& forall|j: int|
                    0 <= j < final(mem).tables@.len() && j != i ==> #[trigger] final(mem).tables@[j] == old(mem).tables@[j]
                &&& final(mem).tables@[i as int].wf()
                &&& forall|a: int|
                    0 <= a < 512 ==> #[trigger] final(mem).tables@[i as int].entry_at(a) == 0
                &&& valid_bits(eb)
                &&& !leaf_bits(eb)
                &&& final(mem).child_index(eb) == i
                &&& final(mem).branch_ok(eb)
                &&& eb == (((final(mem).frames.alloc_start + (i as int) * (
                PAGE_SIZE as int)) as usize) >> 2usize) | 1
                &&& forall|s: int|
                    0 <= s < final(mem).frames.num_pages() ==> (#[trigger] final(mem).frames.free_at(s) <==> (s != i && old(mem).frames.free_at(s)))
            },
            None => {
                &&& final(mem).frames.pages@ == old(mem).frames.pages@
                &&& final(mem).tables@ == old(mem).tables@
                &&& !old(mem).frames.has_free()
            },
        },
{
    let idx = match take_frame(&mut mem.frames) {
        None => {
            return None;
        },
        Some(idx) => idx,
    };
    let addr = frame_addr(&mem.frames, idx);
    mem.tables.set(idx, Table::new());
    let eb = (addr >> 2) | 1;
    proof {
        lemma_branch_entry(addr);
        assert(mem.child_index(eb) == idx as int) by {
            assert(spec_child_addr(eb) == addr);
            vstd::arithmetic::div_mod::lemma_div_multiples_vanish(idx as int, PAGE_SIZE as int);
            assert(idx as int * PAGE_SIZE == PAGE_SIZE as int * idx) by (nonlinear_arith);
        }
        assert(mem.branch_ok(eb));
        assert(eb == (((mem.frames.alloc_start + (idx as int) * (PAGE_SIZE as int)) as usize)
            >> 2usize) | 1) by {
            assert(addr as int == mem.frames.alloc_start + (idx as int) * (PAGE_SIZE as int));
        }
        assert forall|s: int| 0 <= s < mem.frames.num_pages() implies (
        #[trigger] mem.frames.free_at(s) <==> (s != idx && old(mem).frames.free_at(s))) by {
            assert(mem.frames.flags_at(s) == (if s == idx {
                3u8
            } else {
                old(mem).frames.flags_at(s)
            }));
            assert((3u8 & 1 != 0) && (0u8 & 1 == 0)) by (bit_vector);
            if s == idx {
                assert(mem.frames.pages@[s].flags == 3);
                assert(mem.frames.pages@[s].spec_taken());
            } else {
                assert(mem.frames.pages@[s].flags == old(mem).frames.pages@[s].flags);
            }
        }
    }
    Some((idx, eb))
}

/// After installing a fresh branch at root slot `v2` — previously invalid,
/// now pointing at a fresh zero table in frame `idx` — the tree is sound
/// again, no translation has changed, and the fresh frame is no other
/// branch's child.
proof fn lemma_fresh_branch_at_root(m0: PhysMem, r0: Table, m1: PhysMem, r1: Table, v2: int, idx: int, eb: usize)
    requires
        m0.wf(),
        m0.tree_wf(r0),
        m1.wf(),
        m1.frames.alloc_start == m0.frames.alloc_start,
        m1.frames.num_pages() == m0.frames.num_pages(),
        m1.tables@.len() == m0.tables@.len(),
        0 <= v2 < 512,
        0 <= idx < m0.tables@.len(),
        m0.frames.flags_at(idx) == 0,
        forall|m: int|
            0 <= m < m1.frames.num_pages() ==> #[trigger] m1.frames.flags_at(m) == (if m == idx {
                3u8
            } else {
                m0.frames.flags_at(m)
            }),
        forall|j: int|
            0 <= j < m1.tables@.len() && j != idx ==> #[trigger] m1.tables@[j] == m0.tables@[j],
        forall|a: int| 0 <= a < 512 ==> #[trigger] m1.tables@[idx].entry_at(a) == 0,
        !valid_bits(r0.entry_at(v2)),
        valid_bits(eb),
        !leaf_bits(eb),
        m1.child_index(eb) == idx,
        m1.branch_ok(eb),
        r1.wf(),
        r0.wf(),
        r1.entry_at(v2) == eb,
        forall|a: int| 0 <= a < 512 && a != v2 ==> #[trigger] r1.entry_at(a) == r0.entry_at(a),
    ensures
        m1.tree_wf(r1),
        forall|va2: usize|
            #[trigger] m1.translate(r1, va2) == m0.translate(r0, va2),
        r1.branch_at(v2),
        m1.ci1(r1, v2) == idx,
        forall|a: int|
            0 <= a < 512 && a != v2 && #[trigger] r1.branch_at(a) ==> m1.ci1(r1, a) != idx,
        forall|a: int, b: int|
            0 <= a < 512 && 0 <= b < 512 && #[trigger] r1.branch_at(a) && #[trigger] m1.lv1(
                r1,
                a,
            ).branch_at(b) ==> m1.ci0(r1, a, b) != idx,
{
    // Every branch of the old tree keeps its child, which is a frame that
    // was already taken and so differs from the fresh one.
    assert forall|e: usize| m0.branch_ok(e) implies m1.branch_ok(e) && m1.child_index(e)
        == m0.child_index(e) && m0.child_index(e) != idx && m1.table_at(e) == m0.table_at(
        e,
    ) by {
        assert(m0.frames.flags_at(m0.child_index(e)) == 3);
        assert(m1.frames.flags_at(m0.child_index(e)) == 3);
    }
    assert(forall|a: int|
        0 <= a < 512 && a != v2 ==> (#[trigger] r1.branch_at(a) == r0.branch_at(a)));
    assert forall|a: int| 0 <= a < 512 && a != v2 && #[trigger] r1.branch_at(a) implies m1
        .branch_ok(r1.entry_at(a)) && m1.lv1(r1, a) == m0.lv1(r0, a) && m1.ci1(r1, a) == m0.ci1(
        r0,
        a,
    ) && m1.ci1(r1, a) != idx && r0.branch_at(a) by {
        assert(m0.branch_ok(r0.entry_at(a)));
    }
    assert(r1.branch_at(v2));
    assert(m1.ci1(r1, v2) == idx);
    assert(m1.lv1(r1, v2) == m1.tables@[idx]);
    assert forall|a: int, b: int|
        0 <= a < 512 && 0 <= b < 512 && #[trigger] r1.branch_at(a) && #[trigger] m1.lv1(
            r1,
            a,
        ).branch_at(b) implies m1.branch_ok(m1.lv1(r1, a).entry_at(b)) && m1.ci0(r1, a, b)
        != idx && (a != v2 ==> m1.ci0(r1, a, b) == m0.ci0(r0, a, b) && m0.lv1(r0, a).branch_at(
        b,
    ) && r0.branch_at(a)) by {
        if a == v2 {
            assert(m1.lv1(r1, v2).entry_at(b) == 0);
            assert(0usize & 1 == 0) by (bit_vector);
            assert(!valid_bits(0usize));
            assert(false);
        } else {
            assert(m0.lv1(r0, a).branch_at(b));
            assert(m0.branch_ok(m0.lv1(r0, a).entry_at(b)));
        }
    }
    assert forall|a1: int, a2: int|
        0 <= a1 < 512 && 0 <= a2 < 512 && a1 != a2 && #[trigger] r1.branch_at(a1)
            && #[trigger] r1.branch_at(a2) implies m1.ci1(r1, a1) != m1.ci1(r1, a2) by {
        if a1 != v2 && a2 != v2 {
            assert(m0.ci1(r0, a1) != m0.ci1(r0, a2));
        }
    }
    assert forall|a1: int, a2: int, b: int|
        0 <= a1 < 512 && 0 <= a2 < 512 && 0 <= b < 512 && #[trigger] r1.branch_at(a1)
            && #[trigger] r1.branch_at(a2) && #[trigger] m1.lv1(r1, a2).branch_at(b) implies m1
        .ci1(r1, a1) != m1.ci0(r1, a2, b) by {
        if a2 == v2 {
            assert(m1.lv1(r1, v2) == m1.tables@[idx]);
            assert(m1.lv1(r1, v2).entry_at(b) == 0);
            assert(0usize & 1 == 0) by (bit_vector);
            assert(false);
        }
        if a1 != v2 {
            assert(m0.ci1(r0, a1) != m0.ci0(r0, a2, b));
        }
    }
    assert forall|a1: int, b1: int, a2: int, b2: int|
        0 <= a1 < 512 && 0 <= b1 < 512 && 0 <= a2 < 512 && 0 <= b2 < 512 && (a1 != a2 || b1 != b2)
            && #[trigger] r1.branch_at(a1) && #[trigger] m1.lv1(r1, a1).branch_at(b1)
            && #[trigger] r1.branch_at(a2) && #[trigger] m1.lv1(r1, a2).branch_at(b2) implies m1
        .ci0(r1, a1, b1) != m1.ci0(r1, a2, b2) by {
        assert(0usize & 1 == 0) by (bit_vector);
        if a1 == v2 {
            assert(m1.lv1(r1, v2) == m1.tables@[idx]);
            assert(m1.lv1(r1, v2).entry_at(b1) == 0);
            assert(false);
        }
        if a2 == v2 {
            assert(m1.lv1(r1, v2) == m1.tables@[idx]);
            assert(m1.lv1(r1, v2).entry_at(b2) == 0);
            assert(false);
        }
        assert(m0.ci0(r0, a1, b1) != m0.ci0(r0, a2, b2));
    }
    assert(m1.tree_wf(r1)) by {
        assert forall|a: int, b: int, c: int|
            0 <= a < 512 && 0 <= b < 512 && 0 <= c < 512 && #[trigger] r1.branch_at(a)
                && #[trigger] m1.lv1(r1, a).branch_at(b) && valid_bits(
                #[trigger] m1.lv0(r1, a, b).entry_at(c),
            ) implies leaf_bits(m1.lv0(r1, a, b).entry_at(c)) by {
            if a == v2 {
                assert(m1.lv1(r1, v2) == m1.tables@[idx]);
                assert(m1.lv1(r1, v2).entry_at(b) == 0);
                assert(0usize & 1 == 0) by (bit_vector);
                assert(false);
            }
            assert(m1.lv0(r1, a, b) == m0.lv0(r0, a, b));
        }
    }
    assert forall|va2: usize| #[trigger] m1.translate(r1, va2) == m0.translate(r0, va2) by {
        lemma_vpn_bound(va2, 2);
        lemma_vpn_bound(va2, 1);
        if spec_vpn(va2, 2) == v2 {
            // Old: invalid root entry. New: a branch into an all-zero table.
            assert(m0.translate(r0, va2) is None);
            assert(m1.table_at(eb).entry_at(spec_vpn(va2, 1)) == 0);
            assert(0usize & 1 == 0) by (bit_vector);
            assert(m1.translate(r1, va2) is None);
        } else {
            lemma_translate_unchanged(m0, r0, m1, r1, va2);
        }
    }
}

/// After writing an entry into slot `v1` of the level-1 table under root
/// slot `v2` — either a leaf, or a branch at a fresh zero table that no
/// existing branch shares — the tree is sound, and only translations
/// through `(v2, v1)` change: to the leaf's resolution, or to a fault for
/// the still-empty fresh branch.
proof fn lemma_write_lv1(
    m1: PhysMem,
    m2: PhysMem,
    r: Table,
    v2: int,
    v1: int,
    x: usize,
    idx0: int,
)
    requires
        m1.wf(),
        m1.tree_wf(r),
        m2.wf(),
        0 <= v2 < 512,
        0 <= v1 < 512,
        r.branch_at(v2),
        m1.branch_ok(r.entry_at(v2)),
        m2.frames.pages@ == m1.frames.pages@,
        m2.frames.alloc_start == m1.frames.alloc_start,
        m2.tables@.len() == m1.tables@.len(),
        forall|j: int|
            0 <= j < m2.tables@.len() && j != m1.ci1(r, v2) ==> #[trigger] m2.tables@[j]
                == m1.tables@[j],
        m2.lv1(r, v2).entry_at(v1) == x,
        forall|a: int|
            0 <= a < 512 && a != v1 ==> #[trigger] m2.lv1(r, v2).entry_at(a) == m1.lv1(
                r,
                v2,
            ).entry_at(a),
        valid_bits(x),
        leaf_bits(x) || {
            &&& m2.branch_ok(x)
            &&& idx0 == m2.child_index(x)
            &&& idx0 != m1.ci1(r, v2)
            &&& (forall|a: int| 0 <= a < 512 ==> #[trigger] m2.tables@[idx0].entry_at(a) == 0)
            &&& (forall|a: int|
                0 <= a < 512 && #[trigger] r.branch_at(a) ==> m1.ci1(r, a) != idx0)
            &&& (forall|a: int, b: int|
                0 <= a < 512 && 0 <= b < 512 && #[trigger] r.branch_at(a) && #[trigger] m1.lv1(
                    r,
                    a,
                ).branch_at(b) ==> m1.ci0(r, a, b) != idx0)
            &&& !valid_bits(m1.lv1(r, v2).entry_at(v1))
        },
    ensures
        m2.tree_wf(r),
        forall|va2: usize|
            #[trigger] m2.translate(r, va2) == (if spec_vpn(va2, 2) == v2 && spec_vpn(va2, 1)
                == v1 {
                if leaf_bits(x) {
                    Some(spec_leaf_addr(x, va2, 1))
                } else {
                    None
                }
            } else {
                m1.translate(r, va2)
            }),
        !leaf_bits(x) ==> {
            &&& m2.lv1(r, v2).branch_at(v1)
            &&& m2.ci0(r, v2, v1) == idx0
            &&& (forall|a: int|
                0 <= a < 512 ==> #[trigger] m2.lv0(r, v2, v1).entry_at(a) == 0)
        },
{
    let i1 = m1.ci1(r, v2);
    assert(m2.ci1(r, v2) == i1);
    assert(m2.lv1(r, v2) == m2.tables@[i1]);
    // Branches elsewhere in the tree keep their children and tables.
    assert forall|a: int| 0 <= a < 512 && a != v2 && #[trigger] r.branch_at(a) implies m2
        .branch_ok(r.entry_at(a)) && m2.lv1(r, a) == m1.lv1(r, a) && m2.ci1(r, a) == m1.ci1(
        r,
        a,
    ) && m1.ci1(r, a) != i1 by {
        assert(m1.branch_ok(r.entry_at(a)));
    }
    assert(m2.branch_ok(r.entry_at(v2)));
    // Branches below v2 other than slot v1 keep their children; slot v1
    // becomes a leaf (no branch) or the fresh branch.
    assert forall|b: int|
        0 <= b < 512 && b != v1 && #[trigger] m2.lv1(r, v2).branch_at(b) implies m1.lv1(
        r,
        v2,
    ).branch_at(b) && m2.ci0(r, v2, b) == m1.ci0(r, v2, b) && m2.branch_ok(m2.lv1(r, v2).entry_at(
        b,
    )) && m2.tables@[m1.ci0(r, v2, b)] == m1.tables@[m1.ci0(r, v2, b)] by {
        assert(m1.lv1(r, v2).entry_at(b) == m2.lv1(r, v2).entry_at(b));
        assert(m1.lv1(r, v2).branch_at(b));
        assert(m1.branch_ok(m1.lv1(r, v2).entry_at(b)));
        assert(m1.ci0(r, v2, b) != i1);
    }
    assert forall|a: int, b: int|
        0 <= a < 512 && 0 <= b < 512 && a != v2 && #[trigger] r.branch_at(a) && #[trigger] m2.lv1(
            r,
            a,
        ).branch_at(b) implies m2.branch_ok(m2.lv1(r, a).entry_at(b)) && m2.ci0(r, a, b)
        == m1.ci0(r, a, b) && m2.tables@[m1.ci0(r, a, b)] == m1.tables@[m1.ci0(r, a, b)] by {
        assert(m1.lv1(r, a).branch_at(b));
        assert(m1.branch_ok(m1.lv1(r, a).entry_at(b)));
        assert(m1.ci0(r, a, b) != i1);
    }
    if !leaf_bits(x) {
        assert(m2.lv1(r, v2).branch_at(v1));
        assert(m2.ci0(r, v2, v1) == idx0);
        assert(m2.tables@[idx0] == m2.lv0(r, v2, v1));
    }
    assert(m2.tree_wf(r)) by {
        assert forall|a: int, b: int, c: int|
            0 <= a < 512 && 0 <= b < 512 && 0 <= c < 512 && #[trigger] r.branch_at(a)
                && #[trigger] m2.lv1(r, a).branch_at(b) && valid_bits(
                #[trigger] m2.lv0(r, a, b).entry_at(c),
            ) implies leaf_bits(m2.lv0(r, a, b).entry_at(c)) by {
            if a == v2 && b == v1 {
                assert(!leaf_bits(x));
                assert(m2.lv0(r, v2, v1).entry_at(c) == 0);
                assert(0usize & 1 == 0) by (bit_vector);
                assert(false);
            } else {
                assert(m2.lv0(r, a, b) == m1.lv0(r, a, b));
                assert(m1.lv1(r, a).branch_at(b));
            }
        }
        assert forall|a1: int, a2: int, b: int|
            0 <= a1 < 512 && 0 <= a2 < 512 && 0 <= b < 512 && #[trigger] r.branch_at(a1)
                && #[trigger] r.branch_at(a2) && #[trigger] m2.lv1(r, a2).branch_at(b) implies m2
            .ci1(r, a1) != m2.ci0(r, a2, b) by {
            if a2 == v2 && b == v1 {
                assert(!leaf_bits(x));
            } else {
                assert(m1.lv1(r, a2).branch_at(b));
            }
        }
        assert forall|a1: int, b1: int, a2: int, b2: int|
            0 <= a1 < 512 && 0 <= b1 < 512 && 0 <= a2 < 512 && 0 <= b2 < 512 && (a1 != a2 || b1
                != b2) && #[trigger] r.branch_at(a1) && #[trigger] m2.lv1(r, a1).branch_at(b1)
                && #[trigger] r.branch_at(a2) && #[trigger] m2.lv1(r, a2).branch_at(b2) implies m2
            .ci0(r, a1, b1) != m2.ci0(r, a2, b2) by {
            if a1 == v2 && b1 == v1 {
                assert(!leaf_bits(x));
                if !(a2 == v2 && b2 == v1) {
                    assert(m1.lv1(r, a2).branch_at(b2));
                    assert(m1.ci0(r, a2, b2) != idx0);
                }
            } else if a2 == v2 && b2 == v1 {
                assert(!leaf_bits(x));
                assert(m1.lv1(r, a1).branch_at(b1));
                assert(m1.ci0(r, a1, b1) != idx0);
            } else {
                assert(m1.lv1(r, a1).branch_at(b1));
                assert(m1.lv1(r, a2).branch_at(b2));
            }
        }
    }
    assert forall|va2: usize|
        #[trigger] m2.translate(r, va2) == (if spec_vpn(va2, 2) == v2 && spec_vpn(va2, 1) == v1 {
            if leaf_bits(x) {
                Some(spec_leaf_addr(x, va2, 1))
            } else {
                None
            }
        } else {
            m1.translate(r, va2)
        }) by {
        lemma_vpn_bound(va2, 2);
        lemma_vpn_bound(va2, 1);
        lemma_vpn_bound(va2, 0);
        if spec_vpn(va2, 2) == v2 {
            if spec_vpn(va2, 1) == v1 {
                if !leaf_bits(x) {
                    assert(m2.lv0(r, v2, v1).entry_at(spec_vpn(va2, 0)) == 0);
                    assert(0usize & 1 == 0) by (bit_vector);
                }
            } else {
                // Same level-1 table, untouched slot.
                let e1 = m1.lv1(r, v2).entry_at(spec_vpn(va2, 1));
                assert(m2.lv1(r, v2).entry_at(spec_vpn(va2, 1)) == e1);
                if valid_bits(e1) && !leaf_bits(e1) {
                    assert(m1.lv1(r, v2).branch_at(spec_vpn(va2, 1)));
                    assert(m1.branch_ok(e1));
                    assert(m1.ci0(r, v2, spec_vpn(va2, 1)) != i1);
                    assert(m2.table_at(e1) == m1.table_at(e1));
                }
            }
        } else {
            lemma_translate_unchanged(m1, r, m2, r, va2);
        }
    }
}

/// After writing a leaf into slot `v0` of the level-0 table on the path
/// `(v2, v1)`, the tree stays sound and only translations through that
/// full path change, to the leaf's resolution.
proof fn lemma_write_lv0(m1: PhysMem, m2: PhysMem, r: Table, v2: int, v1: int, v0: int, y: usize)
    requires
        m1.wf(),
        m1.tree_wf(r),
        m2.wf(),
        0 <= v2 < 512,
        0 <= v1 < 512,
        0 <= v0 < 512,
        r.branch_at(v2),
        m1.lv1(r, v2).branch_at(v1),
        m2.frames.pages@ == m1.frames.pages@,
        m2.frames.alloc_start == m1.frames.alloc_start,
        m2.tables@.len() == m1.tables@.len(),
        forall|j: int|
            0 <= j < m2.tables@.len() && j != m1.ci0(r, v2, v1) ==> #[trigger] m2.tables@[j]
                == m1.tables@[j],
        m2.lv0(r, v2, v1).entry_at(v0) == y,
        forall|a: int|
            0 <= a < 512 && a != v0 ==> #[trigger] m2.lv0(r, v2, v1).entry_at(a) == m1.lv0(
                r,
                v2,
                v1,
            ).entry_at(a),
        valid_bits(y),
        leaf_bits(y),
    ensures
        m2.tree_wf(r),
        forall|va2: usize|
            #[trigger] m2.translate(r, va2) == (if spec_vpn(va2, 2) == v2 && spec_vpn(va2, 1)
                == v1 && spec_vpn(va2, 0) == v0 {
                Some(spec_leaf_addr(y, va2, 0))
            } else {
                m1.translate(r, va2)
            }),
{
    let i0 = m1.ci0(r, v2, v1);
    assert(m1.branch_ok(r.entry_at(v2)));
    assert(m1.branch_ok(m1.lv1(r, v2).entry_at(v1)));
    // The level-0 frame is no level-1 frame and no other pair's child.
    assert forall|a: int| 0 <= a < 512 && #[trigger] r.branch_at(a) implies m1.ci1(r, a)
        != i0 && m2.branch_ok(r.entry_at(a)) && m2.ci1(r, a) == m1.ci1(r, a) && m2.lv1(r, a)
        == m1.lv1(r, a) by {
        assert(m1.branch_ok(r.entry_at(a)));
    }
    assert(m2.lv0(r, v2, v1) == m2.tables@[i0]);
    assert forall|a: int, b: int|
        0 <= a < 512 && 0 <= b < 512 && #[trigger] r.branch_at(a) && #[trigger] m2.lv1(
            r,
            a,
        ).branch_at(b) implies m2.branch_ok(m2.lv1(r, a).entry_at(b)) && m2.ci0(r, a, b)
        == m1.ci0(r, a, b) && ((a != v2 || b != v1) ==> m2.lv0(r, a, b) == m1.lv0(r, a, b)) by {
        assert(m1.lv1(r, a).branch_at(b));
        assert(m1.branch_ok(m1.lv1(r, a).entry_at(b)));
        if a != v2 || b != v1 {
            assert(m1.ci0(r, a, b) != i0);
        }
    }
    assert(m2.tree_wf(r)) by {
        assert forall|a: int, b: int, c: int|
            0 <= a < 512 && 0 <= b < 512 && 0 <= c < 512 && #[trigger] r.branch_at(a)
                && #[trigger] m2.lv1(r, a).branch_at(b) && valid_bits(
                #[trigger] m2.lv0(r, a, b).entry_at(c),
            ) implies leaf_bits(m2.lv0(r, a, b).entry_at(c)) by {
            assert(m1.lv1(r, a).branch_at(b));
            if a == v2 && b == v1 {
                if c != v0 {
                    assert(m2.lv0(r, a, b).entry_at(c) == m1.lv0(r, v2, v1).entry_at(c));
                }
            } else {
                assert(m2.lv0(r, a, b) == m1.lv0(r, a, b));
            }
        }
    }
    assert forall|va2: usize|
        #[trigger] m2.translate(r, va2) == (if spec_vpn(va2, 2) == v2 && spec_vpn(va2, 1) == v1
            && spec_vpn(va2, 0) == v0 {
            Some(spec_leaf_addr(y, va2, 0))
        } else {
            m1.translate(r, va2)
        }) by {
        lemma_vpn_bound(va2, 2);
        lemma_vpn_bound(va2, 1);
        lemma_vpn_bound(va2, 0);
        if spec_vpn(va2, 2) == v2 {
            let e1 = m1.lv1(r, v2).entry_at(spec_vpn(va2, 1));
            assert(m2.lv1(r, v2).entry_at(spec_vpn(va2, 1)) == e1);
            if spec_vpn(va2, 1) == v1 {
                assert(m2.lv0(r, v2, v1).entry_at(spec_vpn(va2, 0)) == (if spec_vpn(va2, 0)
                    == v0 {
                    y
                } else {
                    m1.lv0(r, v2, v1).entry_at(spec_vpn(va2, 0))
                }));
            } else {
                if valid_bits(e1) && !leaf_bits(e1) {
                    assert(m1.lv1(r, v2).branch_at(spec_vpn(va2, 1)));
                    assert(m1.branch_ok(e1));
                    assert(m1.ci0(r, v2, spec_vpn(va2, 1)) != i0);
                    assert(m2.table_at(e1) == m1.table_at(e1));
                }
            }
        } else {
            lemma_translate_unchanged(m1, r, m2, r, va2);
        }
    }
}

/// Maps virtual address `vaddr` to physical address `paddr` at the given
/// level: level 0 maps one page, each level above maps a range five
/// hundred and twelve times larger. Intermediate tables missing along the
/// path are allocated from the page-frame allocator and installed as
/// branches; the leaf entry then carries the caller's permission bits —
/// which must include at least one of read, write, execute — plus the
/// valid, access and dirty bits.
///
/// Afterwards, every address sharing the path down to `level` translates
/// to `paddr` plus its own untranslated low bits, and every other address
/// translates exactly as before. Fails — changing no translation — exactly
/// when the frames for the missing tables cannot all be allocated.
#[verifier::rlimit(100)]
pub fn map(
    mem: &mut PhysMem,
    root: &mut Table,
    vaddr: usize,
    paddr: usize,
    bits: usize,
    level: usize,
) -> (r: Result<(), AllocError>)
    requires
        old(mem).wf(),
        old(mem).tree_wf(*old(root)),
        bits & 0x3e == bits,
        bits & 0xe != 0,
        level <= 2,
        paddr as int % (pow2_12_9(level as int) as int) == 0,
        old(mem).path_clear(*old(root), vaddr, level as int),
    ensures
        final(mem).wf(),
        final(mem).tree_wf(*final(root)),
        final(root).wf(),
        final(mem).frames.alloc_start == old(mem).frames.alloc_start,
        final(mem).frames.num_pages() == old(mem).frames.num_pages(),
        final(mem).tables@.len() == old(mem).tables@.len(),
        forall|i: int|
            0 <= i < final(mem).frames.num_pages() && old(mem).frames.flags_at(i) != 0
                ==> #[trigger] final(mem).frames.flags_at(i) == old(mem).frames.flags_at(i),
        r is Ok <==> old(mem).can_map(*old(root), vaddr, level as int),
        r is Ok ==> forall|va2: usize|
            #[trigger] final(mem).translate(*final(root), va2) == (if same_path(
                vaddr,
                va2,
                level as int,
            ) {
                Some(((paddr + (va2 & off_mask(level as int))) as usize))
            } else {
                old(mem).translate(*old(root), va2)
            }),
        r is Err ==> forall|va2: usize|
            #[trigger] final(mem).translate(*final(root), va2) == old(mem).translate(
                *old(root),
                va2,
            ),
        r is Ok ==> {
            // The installed leaf word, exactly: the physical page number
            // placed from bit 10, the caller's permission bits, and the
            // valid, access and dirty bits.
            let e = ((paddr >> 12) << 10) | bits | 0xc1;
            &&& valid_bits(e)
            &&& leaf_bits(e)
            &&& (level == 2 ==> final(root).entry_at(spec_vpn(vaddr, 2)) == e)
            &&& (level == 1 ==> final(mem).lv1(*final(root), spec_vpn(vaddr, 2)).entry_at(
                spec_vpn(vaddr, 1),
            ) == e)
            &&& (level == 0 ==> final(mem).lv0(
                *final(root),
                spec_vpn(vaddr, 2),
                spec_vpn(vaddr, 1),
            ).entry_at(spec_vpn(vaddr, 0)) == e)
        },
        r is Ok ==> {
            // Exactly one frame is consumed per intermediate table that
            // was missing — none, one or two — and each was free before.
            let need = old(mem).tables_needed(*old(root), vaddr, level as int);
            ||| (need == 0 && final(mem).frames.pages@ == old(mem).frames.pages@)
            ||| (need == 1 && exists|i: int|
                {
                    &&& 0 <= i < old(mem).frames.num_pages()
                    &&& old(mem).frames.free_at(i)
                    &&& forall|m: int|
                        0 <= m < final(mem).frames.num_pages() ==> #[trigger] final(mem).frames.flags_at(m) == (if m == i {
                            3u8
                        } else {
                            old(mem).frames.flags_at(m)
                        })
                })
            ||| (need == 2 && exists|i1: int, i2: int|
                {
                    &&& 0 <= i1 < old(mem).frames.num_pages()
                    &&& 0 <= i2 < old(mem).frames.num_pages()
                    &&& i1 != i2
                    &&& old(mem).frames.free_at(i1)
                    &&& old(mem).frames.free_at(i2)
                    &&& forall|m: int|
                        0 <= m < final(mem).frames.num_pages() ==> #[trigger] final(mem).frames.flags_at(m) == (if m == i1 || m == i2 {
                            3u8
                        } else {
                            old(mem).frames.flags_at(m)
                        })
                })
        },
        r is Ok && level <= 1 && !valid_bits(old(root).entry_at(spec_vpn(vaddr, 2))) ==> {
            // A freshly installed branch stores exactly its child frame's
            // page address shifted right by two, with the valid bit.
            let i = final(mem).ci1(*final(root), spec_vpn(vaddr, 2));
            final(root).entry_at(spec_vpn(vaddr, 2)) == (((old(mem).frames.alloc_start + i * (
            PAGE_SIZE as int)) as usize) >> 2usize) | 1
        },
        r is Ok && level == 0 && old(mem).tables_needed(*old(root), vaddr, 0) >= 1 ==> {
            let i = final(mem).ci0(*final(root), spec_vpn(vaddr, 2), spec_vpn(vaddr, 1));
            final(mem).lv1(*final(root), spec_vpn(vaddr, 2)).entry_at(spec_vpn(vaddr, 1)) == ((
            (old(mem).frames.alloc_start + i * (PAGE_SIZE as int)) as usize) >> 2usize) | 1
        },
{
    proof {
        lemma_vpn_bound(vaddr, 2);
        lemma_vpn_bound(vaddr, 1);
        lemma_vpn_bound(vaddr, 0);
    }
    let v2 = vpn_of(vaddr, 2);
    if level == 2 {
        let e = make_leaf(paddr, bits, 2);
        let ghost pre_root = *root;
        root.entries[v2].set_entry(e);
        proof {
            assert(root.entry_at(v2 as int) == e);
            assert(forall|a: int|
                0 <= a < 512 && a != v2 ==> #[trigger] root.entry_at(a) == pre_root.entry_at(a));
            assert(forall|a: int|
                0 <= a < 512 ==> (#[trigger] root.branch_at(a) == (a != v2
                    && old(root).branch_at(a))));
            assert forall|a: int| 0 <= a < 512 && #[trigger] root.branch_at(a) implies mem
                .branch_ok(root.entry_at(a)) && mem.lv1(*root, a) == mem.lv1(*old(root), a)
                && mem.ci1(*root, a) == mem.ci1(*old(root), a) && old(root).branch_at(a) by {
                assert(old(root).branch_at(a));
                assert(mem.branch_ok(old(root).entry_at(a)));
            }
            assert forall|a: int, b: int|
                0 <= a < 512 && 0 <= b < 512 && #[trigger] root.branch_at(a) && #[trigger] mem.lv1(
                    *root,
                    a,
                ).branch_at(b) implies mem.lv1(*old(root), a).branch_at(b) && mem.ci0(*root, a, b)
                == mem.ci0(*old(root), a, b) && mem.lv0(*root, a, b) == mem.lv0(
                *old(root),
                a,
                b,
            ) by {
                assert(mem.lv1(*root, a) == mem.lv1(*old(root), a));
            }
            assert(mem.tree_wf(*root));
            assert forall|va2: usize|
                #[trigger] mem.translate(*root, va2) == (if same_path(vaddr, va2, level as int) {
                    Some(((paddr + (va2 & off_mask(level as int))) as usize))
                } else {
                    old(mem).translate(*old(root), va2)
                }) by {
                lemma_vpn_bound(va2, 2);
                if spec_vpn(va2, 2) == v2 as int {
                    assert(mem.translate(*root, va2) == Some(spec_leaf_addr(e, va2, 2)));
                } else {
                    lemma_translate_unchanged(*old(mem), *old(root), *mem, *root, va2);
                }
            }
        }
        return Ok(());
    }
    // A level-1 table is needed under root slot v2: find it, or allocate a
    // frame and install a fresh one.
    let e2 = root.entries[v2].entry();
    proof {
        assert(e2 == old(root).entry_at(v2 as int));
    }
    let i1: usize;
    if e2 & 1 == 0 {
        let (idx, eb) = match new_table_frame(mem) {
            None => {
                proof {
                    if old(mem).frames.has_two_free() {
                        let (s1, s2) = choose|s1: int, s2: int|
                            0 <= s1 < old(mem).frames.num_pages() && 0 <= s2 < old(
                                mem,
                            ).frames.num_pages() && s1 != s2 && old(mem).frames.free_at(s1) && old(
                                mem,
                            ).frames.free_at(s2);
                        assert(old(mem).frames.has_free());
                    }
                    lemma_tree_wf_frames_grow(*old(mem), *mem, *old(root));
                }
                return Err(AllocError);
            },
            Some(p) => p,
        };
        let ghost pre_root = *root;
        root.entries[v2].set_entry(eb);
        i1 = idx;
        proof {
            assert(root.entry_at(v2 as int) == eb);
            assert(forall|a: int|
                0 <= a < 512 && a != v2 ==> #[trigger] root.entry_at(a) == old(root).entry_at(a));
            lemma_fresh_branch_at_root(
                *old(mem),
                *old(root),
                *mem,
                *root,
                v2 as int,
                idx as int,
                eb,
            );
            // Record what the fresh install cost and wrote, for the
            // frame-accounting and encoding clauses.
            assert(old(mem).frames.flags_at(idx as int) == 0);
            assert(forall|m: int|
                0 <= m < mem.frames.num_pages() ==> #[trigger] mem.frames.flags_at(m) == (if m
                    == idx {
                    3u8
                } else {
                    old(mem).frames.flags_at(m)
                }));
            assert(root.entry_at(v2 as int) == (((old(mem).frames.alloc_start + (idx as int) * (
            PAGE_SIZE as int)) as usize) >> 2usize) | 1);
        }
    } else {
        proof {
            assert(valid_bits(e2));
            assert(!leaf_bits(e2));
            assert(old(root).branch_at(v2 as int));
            assert(old(mem).branch_ok(e2));
        }
        i1 = child_of(mem, e2);
    }
    let ghost m_a = *mem;
    let ghost r_a = *root;
    proof {
        assert(m_a.wf());
        assert(m_a.tree_wf(r_a));
        assert(r_a.branch_at(v2 as int));
        assert(m_a.ci1(r_a, v2 as int) == i1 as int);
        assert((i1 as int) < m_a.tables@.len());
        assert(forall|va2: usize|
            #[trigger] m_a.translate(r_a, va2) == old(mem).translate(*old(root), va2));
        // If a fresh level-1 table was installed, its slots are all empty.
        assert(!valid_bits(e2) ==> forall|a: int|
            0 <= a < 512 ==> #[trigger] m_a.lv1(r_a, v2 as int).entry_at(a) == 0);
        assert(valid_bits(e2) ==> m_a.frames.pages@ == old(mem).frames.pages@ && m_a.lv1(
            r_a,
            v2 as int,
        ) == old(mem).lv1(*old(root), v2 as int));
        assert(!valid_bits(e2) ==> {
            &&& old(mem).frames.flags_at(i1 as int) == 0
            &&& (forall|m: int|
                0 <= m < m_a.frames.num_pages() ==> #[trigger] m_a.frames.flags_at(m) == (if m
                    == i1 {
                    3u8
                } else {
                    old(mem).frames.flags_at(m)
                }))
            &&& r_a.entry_at(v2 as int) == (((old(mem).frames.alloc_start + (i1 as int) * (
            PAGE_SIZE as int)) as usize) >> 2usize) | 1
        });
    }
    let v1 = vpn_of(vaddr, 1);
    if level == 1 {
        let e = make_leaf(paddr, bits, 1);
        let ghost pre_mem = *mem;
        mem.tables[i1].entries[v1].set_entry(e);
        proof {
            assert(mem.tables@[i1 as int].entry_at(v1 as int) == e);
            assert(forall|a: int|
                0 <= a < 512 && a != v1 ==> #[trigger] mem.tables@[i1 as int].entry_at(a)
                    == m_a.tables@[i1 as int].entry_at(a));
            assert(forall|j: int|
                0 <= j < mem.tables@.len() && j != i1 ==> #[trigger] mem.tables@[j]
                    == m_a.tables@[j]);
            assert(mem.tables@[i1 as int].wf()) by {
                assert(mem.tables@[i1 as int].entries@.len() == m_a.tables@[
                    i1 as int].entries@.len());
            }
            assert(mem.wf());
            assert(mem.ci1(r_a, v2 as int) == i1 as int);
            assert(mem.lv1(r_a, v2 as int) == mem.tables@[i1 as int]);
            lemma_write_lv1(m_a, *mem, r_a, v2 as int, v1 as int, e, 0);
            assert forall|va2: usize|
                #[trigger] mem.translate(*root, va2) == (if same_path(vaddr, va2, level as int) {
                    Some(((paddr + (va2 & off_mask(level as int))) as usize))
                } else {
                    old(mem).translate(*old(root), va2)
                }) by {
                if same_path(vaddr, va2, 1) {
                    assert(mem.translate(r_a, va2) == Some(spec_leaf_addr(e, va2, 1)));
                }
            }
            // Success accounting: a fresh table was taken only when the
            // root slot was empty, and then exactly one frame changed.
            assert(mem.frames.pages@ == m_a.frames.pages@);
            if valid_bits(e2) {
                assert(old(mem).tables_needed(*old(root), vaddr, 1) == 0);
                assert(mem.frames.pages@ == old(mem).frames.pages@);
            } else {
                assert(old(mem).tables_needed(*old(root), vaddr, 1) == 1);
                assert(old(mem).frames.has_free());
                assert(old(mem).frames.free_at(i1 as int)) by {
                    assert((0u8 & 1) == 0) by (bit_vector);
                }
                assert(forall|m: int|
                    0 <= m < mem.frames.num_pages() ==> #[trigger] mem.frames.flags_at(m) == (
                    if m == i1 {
                        3u8
                    } else {
                        old(mem).frames.flags_at(m)
                    }));
                // The fresh branch's encoding survives the leaf write.
                assert(root.entry_at(v2 as int) == r_a.entry_at(v2 as int));
                assert(mem.ci1(*root, v2 as int) == i1 as int);
            }
        }
        return Ok(());
    }
    // level == 0: a level-0 table is needed under slot v1 of the level-1
    // table: find it, or allocate a frame and install a fresh one.
    let e1 = mem.tables[i1].entries[v1].entry();
    proof {
        assert(e1 == m_a.lv1(r_a, v2 as int).entry_at(v1 as int));
        // The path is clear: a valid entry here cannot be a leaf.
        if valid_bits(e1) && leaf_bits(e1) {
            if !valid_bits(e2) {
                assert(m_a.lv1(r_a, v2 as int).entry_at(v1 as int) == 0);
                assert(0usize & 1 == 0) by (bit_vector);
            } else {
                assert(m_a.lv1(r_a, v2 as int) == old(mem).lv1(*old(root), v2 as int));
            }
            assert(false);
        }
    }
    let i0: usize;
    if e1 & 1 == 0 {
        let (idx, eb) = match new_table_frame(mem) {
            None => {
                proof {
                    // Not enough frames: with the root slot already
                    // present one frame was needed, else two.
                    if valid_bits(e2) {
                        assert(m_a.frames.pages@ == old(mem).frames.pages@);
                        assert(old(mem).tables_needed(*old(root), vaddr, 0) == 1);
                        if old(mem).frames.has_free() {
                            let s = choose|s: int|
                                0 <= s < old(mem).frames.num_pages() && old(mem).frames.free_at(s);
                            assert(m_a.frames.free_at(s));
                            assert(m_a.frames.has_free());
                        }
                    } else {
                        assert(old(mem).tables_needed(*old(root), vaddr, 0) == 2);
                        if old(mem).frames.has_two_free() {
                            let (s1, s2) = choose|s1: int, s2: int|
                                0 <= s1 < old(mem).frames.num_pages() && 0 <= s2 < old(
                                    mem,
                                ).frames.num_pages() && s1 != s2 && old(mem).frames.free_at(s1)
                                    && old(mem).frames.free_at(s2);
                            if s1 != i1 as int {
                                assert(m_a.frames.free_at(s1));
                                assert(m_a.frames.has_free());
                            } else {
                                assert(m_a.frames.free_at(s2));
                                assert(m_a.frames.has_free());
                            }
                            assert(false);
                        }
                    }
                    lemma_tree_wf_frames_grow(m_a, *mem, r_a);
                    assert forall|i: int|
                        0 <= i < mem.frames.num_pages() && old(mem).frames.flags_at(i) != 0 implies
                        #[trigger] mem.frames.flags_at(i) == old(mem).frames.flags_at(i) by {
                        assert(mem.frames.flags_at(i) == m_a.frames.flags_at(i));
                    }
                    assert forall|va2: usize|
                        #[trigger] mem.translate(r_a, va2) == old(mem).translate(
                        *old(root),
                        va2,
                    ) by {
                        assert(mem.tables@ == m_a.tables@);
                        lemma_vpn_bound(va2, 2);
                        lemma_translate_unchanged(m_a, r_a, *mem, r_a, va2);
                        assert(m_a.translate(r_a, va2) == old(mem).translate(*old(root), va2));
                    }
                }
                return Err(AllocError);
            },
            Some(p) => p,
        };
        let ghost pre_mem = *mem;
        mem.tables[i1].entries[v1].set_entry(eb);
        i0 = idx;
        proof {
            assert(mem.tables@[i1 as int].entry_at(v1 as int) == eb);
            assert(forall|a: int|
                0 <= a < 512 && a != v1 ==> #[trigger] mem.tables@[i1 as int].entry_at(a)
                    == pre_mem.tables@[i1 as int].entry_at(a));
            assert(forall|j: int|
                0 <= j < mem.tables@.len() && j != i1 ==> #[trigger] mem.tables@[j]
                    == pre_mem.tables@[j]);
            assert(mem.tables@[i1 as int].wf()) by {
                assert(mem.tables@[i1 as int].entries@.len() == pre_mem.tables@[
                    i1 as int].entries@.len());
            }
            assert(mem.wf());
            // The branch lemma wants the pre-write state with the fresh
            // frame already installed but the slot still unwritten.
            assert(pre_mem.wf());
            assert(pre_mem.tree_wf(r_a)) by {
                lemma_tree_wf_frames_grow(m_a, pre_mem, r_a);
            }
            assert(idx != i1) by {
                assert(m_a.branch_ok(r_a.entry_at(v2 as int)));
                assert(m_a.frames.flags_at(i1 as int) == 3);
                assert(pre_mem.frames.flags_at(i1 as int) == 3);
            }
            assert(pre_mem.ci1(r_a, v2 as int) == i1 as int);
            assert(pre_mem.lv1(r_a, v2 as int) == m_a.lv1(r_a, v2 as int));
            assert(mem.lv1(r_a, v2 as int) == mem.tables@[i1 as int]);
            assert(!valid_bits(pre_mem.lv1(r_a, v2 as int).entry_at(v1 as int)));
            // No existing branch child is the fresh frame.
            assert forall|a: int| 0 <= a < 512 && #[trigger] r_a.branch_at(a) implies pre_mem.ci1(
                r_a,
                a,
            ) != idx as int by {
                assert(m_a.branch_ok(r_a.entry_at(a)));
                assert(m_a.frames.flags_at(m_a.ci1(r_a, a)) == 3);
                assert(m_a.frames.flags_at(idx as int) == 0);
            }
            assert forall|a: int, b: int|
                0 <= a < 512 && 0 <= b < 512 && #[trigger] r_a.branch_at(a)
                    && #[trigger] pre_mem.lv1(r_a, a).branch_at(b) implies pre_mem.ci0(r_a, a, b)
                != idx as int by {
                assert(m_a.branch_ok(r_a.entry_at(a)));
                assert(pre_mem.lv1(r_a, a) == m_a.lv1(r_a, a));
                assert(m_a.lv1(r_a, a).branch_at(b));
                assert(m_a.branch_ok(m_a.lv1(r_a, a).entry_at(b)));
                assert(m_a.frames.flags_at(m_a.ci0(r_a, a, b)) == 3);
                assert(m_a.frames.flags_at(idx as int) == 0);
            }
            lemma_write_lv1(pre_mem, *mem, r_a, v2 as int, v1 as int, eb, idx as int);
            assert forall|va2: usize| #[trigger] mem.translate(r_a, va2) == old(mem).translate(
                *old(root),
                va2,
            ) by {
                lemma_vpn_bound(va2, 2);
                lemma_vpn_bound(va2, 1);
                assert(pre_mem.translate(r_a, va2) == m_a.translate(r_a, va2)) by {
                    lemma_translate_unchanged(m_a, r_a, pre_mem, r_a, va2);
                }
                if spec_vpn(va2, 2) == v2 as int && spec_vpn(va2, 1) == v1 as int {
                    assert(mem.translate(r_a, va2) is None);
                    assert(0usize & 1 == 0) by (bit_vector);
                    if valid_bits(e2) {
                        assert(m_a.lv1(r_a, v2 as int).entry_at(v1 as int) == e1);
                        assert(m_a.translate(r_a, va2) is None);
                    } else {
                        assert(m_a.lv1(r_a, v2 as int).entry_at(v1 as int) == 0);
                        assert(m_a.translate(r_a, va2) is None);
                    }
                }
            }
            // Cost and encoding of the fresh level-0 table.
            assert(m_a.frames.flags_at(idx as int) == 0);
            assert(forall|m: int|
                0 <= m < mem.frames.num_pages() ==> #[trigger] mem.frames.flags_at(m) == (if m
                    == idx {
                    3u8
                } else {
                    m_a.frames.flags_at(m)
                }));
            assert(mem.ci1(r_a, v2 as int) == i1 as int);
            assert(mem.lv1(r_a, v2 as int).entry_at(v1 as int) == (((old(
                mem,
            ).frames.alloc_start + (idx as int) * (PAGE_SIZE as int)) as usize) >> 2usize) | 1);
        }
    } else {
        proof {
            assert(m_a.lv1(r_a, v2 as int).branch_at(v1 as int));
            assert(m_a.branch_ok(e1));
            assert(forall|va2: usize|
                #[trigger] mem.translate(r_a, va2) == old(mem).translate(*old(root), va2));
            assert(mem.frames.pages@ == m_a.frames.pages@);
        }
        i0 = child_of(mem, e1);
    }
    let ghost m_b = *mem;
    proof {
        assert(m_b.wf());
        assert(m_b.tree_wf(r_a));
        assert(r_a.branch_at(v2 as int));
        assert(m_b.lv1(r_a, v2 as int).branch_at(v1 as int));
        assert(m_b.ci0(r_a, v2 as int, v1 as int) == i0 as int);
        assert((i0 as int) < m_b.tables@.len()) by {
            assert(m_b.branch_ok(m_b.lv1(r_a, v2 as int).entry_at(v1 as int)));
        }
        assert(forall|va2: usize|
            #[trigger] mem.translate(r_a, va2) == old(mem).translate(*old(root), va2));
        assert(valid_bits(e1) ==> m_b.frames.pages@ == m_a.frames.pages@);
        assert(!valid_bits(e1) ==> {
            &&& m_a.frames.flags_at(i0 as int) == 0
            &&& (forall|m: int|
                0 <= m < m_b.frames.num_pages() ==> #[trigger] m_b.frames.flags_at(m) == (if m
                    == i0 {
                    3u8
                } else {
                    m_a.frames.flags_at(m)
                }))
            &&& m_b.lv1(r_a, v2 as int).entry_at(v1 as int) == (((old(mem).frames.alloc_start + (
            i0 as int) * (PAGE_SIZE as int)) as usize) >> 2usize) | 1
        });
    }
    let v0 = vpn_of(vaddr, 0);
    let e = make_leaf(paddr, bits, 0);
    let ghost pre_fin = *mem;
    mem.tables[i0].entries[v0].set_entry(e);
    proof {
        assert(mem.tables@[i0 as int].entry_at(v0 as int) == e);
        assert(forall|a: int|
            0 <= a < 512 && a != v0 ==> #[trigger] mem.tables@[i0 as int].entry_at(a)
                == m_b.tables@[i0 as int].entry_at(a));
        assert(forall|j: int|
            0 <= j < mem.tables@.len() && j != i0 ==> #[trigger] mem.tables@[j] == m_b.tables@[j]);
        assert(mem.tables@[i0 as int].wf()) by {
            assert(mem.tables@[i0 as int].entries@.len() == m_b.tables@[i0 as int].entries@.len());
        }
        assert(mem.wf());
        assert(mem.ci0(r_a, v2 as int, v1 as int) == i0 as int) by {
            assert(mem.ci1(r_a, v2 as int) == m_b.ci1(r_a, v2 as int));
            assert(mem.lv1(r_a, v2 as int) == m_b.lv1(r_a, v2 as int)) by {
                assert(m_b.branch_ok(r_a.entry_at(v2 as int)));
                assert(m_b.ci1(r_a, v2 as int) != i0 as int);
            }
        }
        assert(mem.lv0(r_a, v2 as int, v1 as int) == mem.tables@[i0 as int]);
        lemma_write_lv0(m_b, *mem, r_a, v2 as int, v1 as int, v0 as int, e);
        assert forall|va2: usize|
            #[trigger] mem.translate(*root, va2) == (if same_path(vaddr, va2, level as int) {
                Some(((paddr + (va2 & off_mask(level as int))) as usize))
            } else {
                old(mem).translate(*old(root), va2)
            }) by {
            if same_path(vaddr, va2, 0) {
                assert(mem.translate(r_a, va2) == Some(spec_leaf_addr(e, va2, 0)));
            }
        }
        // Success accounting for the frames that were taken: the final
        // frame flags compose the one or two single-frame changes.
        assert((3u8 & 1 != 0) && (0u8 & 1 == 0) && (0usize & 1 == 0)) by (bit_vector);
        assert(mem.frames.pages@ == m_b.frames.pages@);
        assert(mem.ci1(*root, v2 as int) == m_b.ci1(r_a, v2 as int));
        assert(mem.lv1(*root, v2 as int) == m_b.lv1(r_a, v2 as int)) by {
            assert(m_b.branch_ok(r_a.entry_at(v2 as int)));
            assert(m_b.ci1(r_a, v2 as int) != i0 as int);
        }
        if valid_bits(e2) {
            assert(m_a.lv1(r_a, v2 as int) == old(mem).lv1(*old(root), v2 as int));
            assert(m_a.frames.pages@ == old(mem).frames.pages@);
            if valid_bits(e1) {
                assert(old(mem).tables_needed(*old(root), vaddr, 0) == 0);
                assert(mem.frames.pages@ == old(mem).frames.pages@);
            } else {
                assert(old(mem).tables_needed(*old(root), vaddr, 0) == 1);
                assert(old(mem).frames.has_free());
                assert(old(mem).frames.free_at(i0 as int)) by {
                    assert(old(mem).frames.flags_at(i0 as int) == m_a.frames.flags_at(i0 as int));
                }
                assert(forall|m: int|
                    0 <= m < mem.frames.num_pages() ==> #[trigger] mem.frames.flags_at(m) == (
                    if m == i0 {
                        3u8
                    } else {
                        old(mem).frames.flags_at(m)
                    }));
            }
        } else {
            assert(old(mem).tables_needed(*old(root), vaddr, 0) == 2);
            assert(old(mem).frames.has_free());
            assert(m_a.lv1(r_a, v2 as int).entry_at(v1 as int) == 0);
            assert(!valid_bits(e1));
            // A second frame was also free before either was taken.
            assert(m_a.frames.has_free());
            let s2 = choose|s: int| 0 <= s < m_a.frames.num_pages() && m_a.frames.free_at(s);
            assert(old(mem).frames.free_at(s2) && s2 != i1 as int);
            assert(old(mem).frames.free_at(i1 as int));
            assert(old(mem).frames.has_two_free());
            assert(i0 != i1) by {
                assert(m_a.frames.flags_at(i1 as int) == 3);
                assert(m_a.frames.flags_at(i0 as int) == 0);
            }
            assert(old(mem).frames.free_at(i0 as int)) by {
                assert(old(mem).frames.flags_at(i0 as int) == m_a.frames.flags_at(i0 as int));
            }
            assert(forall|m: int|
                0 <= m < mem.frames.num_pages() ==> #[trigger] mem.frames.flags_at(m) == (if m
                    == i0 as int || m == i1 as int {
                    3u8
                } else {
                    old(mem).frames.flags_at(m)
                }));
        }
        assert(old(mem).can_map(*old(root), vaddr, level as int));
    }
    Ok(())
}

/// Growing the set of taken frames cannot unsettle a sound tree whose
/// tables are untouched.
proof fn lemma_tree_wf_frames_grow(m1: PhysMem, m2: PhysMem, r: Table)
    requires
        m1.wf(),
        m2.wf(),
        m1.tree_wf(r),
        m2.frames.alloc_start == m1.frames.alloc_start,
        m2.frames.num_pages() == m1.frames.num_pages(),
        m2.tables@.len() == m1.tables@.len(),
        forall|i: int|
            0 <= i < m1.frames.num_pages() && m1.frames.flags_at(i) == 3
                ==> #[trigger] m2.frames.flags_at(i) == 3,
        forall|j: int|
            0 <= j < m1.tables@.len() && m1.frames.flags_at(j) == 3 ==> #[trigger] m2.tables@[j]
                == m1.tables@[j],
    ensures
        m2.tree_wf(r),
{
    assert forall|e: usize| m1.branch_ok(e) implies m2.branch_ok(e) && m2.child_index(e)
        == m1.child_index(e) && m2.table_at(e) == m1.table_at(e) by {
        assert(m1.frames.flags_at(m1.child_index(e)) == 3);
    }
    assert forall|a: int| 0 <= a < 512 && #[trigger] r.branch_at(a) implies m2.branch_ok(
        r.entry_at(a),
    ) && m2.lv1(r, a) == m1.lv1(r, a) && m2.ci1(r, a) == m1.ci1(r, a) by {
        assert(m1.branch_ok(r.entry_at(a)));
    }
    assert forall|a: int, b: int|
        0 <= a < 512 && 0 <= b < 512 && #[trigger] r.branch_at(a) && #[trigger] m2.lv1(
            r,
            a,
        ).branch_at(b) implies m2.branch_ok(m2.lv1(r, a).entry_at(b)) && m2.ci0(r, a, b) == m1.ci0(
        r,
        a,
        b,
    ) && m2.lv0(r, a, b) == m1.lv0(r, a, b) && m1.lv1(r, a).branch_at(b) by {
        assert(m1.lv1(r, a).branch_at(b));
        assert(m1.branch_ok(m1.lv1(r, a).entry_at(b)));
    }
    assert(m2.tree_wf(r));
}

} // verus!
