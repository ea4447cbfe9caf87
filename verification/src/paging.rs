//! The page-frame allocator: a table of one-byte flag records, one per
//! physical page, backing first-fit allocation of contiguous page runs.
//!
//! A run is marked by setting the taken flag on each of its pages and the
//! last flag on its final page, so a run's extent can be recovered at free
//! time without storing a length.

use vstd::prelude::*;

verus! {

use vstd::arithmetic::power2::pow2;

/// The page size as a power of two: pages span `1 << PAGE_ORDER` bytes.
pub const PAGE_ORDER: usize = 12;

/// The size of pages in bytes.
pub const PAGE_SIZE: usize = 4096;

/// Rounds `value` up to the next multiple of `1 << order`.
pub fn align_value(value: usize, order: usize) -> (r: usize)
    requires
        order < usize::BITS,
        value + pow2(order as nat) - 1 <= usize::MAX,
    ensures
        r as int % (pow2(order as nat) as int) == 0,
        value <= r < value + pow2(order as nat),
{
    proof {
        crate::math::lemma_usize_max_bound();
        if (order as nat) + 1 <= usize::BITS as nat && (order as nat) < usize::BITS as nat {
            vstd::arithmetic::power2::lemma_pow2_strictly_increases(
                order as nat,
                usize::BITS as nat,
            );
        }
        vstd::arithmetic::power2::lemma_pow2_pos(order as nat);
        assert((1usize << order) == 1 * pow2(order as nat)) by {
            vstd::bits::lemma_usize_shl_is_mul(1usize, order);
        }
    }
    let o: usize = (1usize << order) - 1;
    let sum = value + o;
    proof {
        let m = pow2(order as nat) as int;
        assert((sum >> order) << order == (sum & !o)) by (bit_vector)
            requires
                o == (1usize << order) - 1,
                order < usize::BITS,
        ;
        assert(sum >> order == sum as nat / pow2(order as nat)) by {
            vstd::bits::lemma_usize_shr_is_div(sum, order);
        }
        vstd::arithmetic::div_mod::lemma_fundamental_div_mod(sum as int, m);
        vstd::arithmetic::div_mod::lemma_mod_bound(sum as int, m);
        assert((sum >> order) << order == (sum >> order) * pow2(order as nat)) by {
            vstd::bits::lemma_usize_shl_is_mul((sum >> order) as usize, order);
        }
        vstd::arithmetic::div_mod::lemma_mod_multiples_basic(sum as int / m, m);
        assert((sum as int / m) * m == m * (sum as int / m)) by (nonlinear_arith);
    }
    sum & !o
}

/// The per-page flag states: a page is empty, taken, or taken and also the
/// last page of its run.
#[derive(Clone, Copy, Debug)]
pub enum PageFlags {
    /// The page is free.
    Empty,
    /// The page belongs to an allocated run.
    Taken,
    /// The page ends an allocated run.
    Last,
}

impl PageFlags {
    /// The bit this flag occupies in a page record.
    pub open spec fn spec_value(self) -> u8 {
        match self {
            PageFlags::Empty => 0,
            PageFlags::Taken => 1,
            PageFlags::Last => 2,
        }
    }

    /// Returns the flag's bit as stored in a page record.
    pub fn value(self) -> (r: u8)
        ensures
            r == self.spec_value(),
    {
        match self {
            PageFlags::Empty => 0,
            PageFlags::Taken => 1,
            PageFlags::Last => 2,
        }
    }
}

/// One record of the frame table: the flag byte of one physical page.
#[derive(Clone, Copy, Debug)]
pub struct Page {
    /// Flag bits of this page.
    pub flags: u8,
}

/// Facts about the flag bytes a well-formed table can hold.
proof fn lemma_page_bits(f: u8)
    ensures
        f == 0 ==> (f & 1 == 0 && f & 2 == 0),
        f == 1 ==> (f & 1 != 0 && f & 2 == 0),
        f == 3 ==> (f & 1 != 0 && f & 2 != 0),
        (0u8 | 1) == 1,
        (1u8 | 2) == 3,
{
    assert((f == 0 ==> (f & 1 == 0 && f & 2 == 0)) && (f == 1 ==> (f & 1 != 0 && f & 2 == 0)) && (
    f == 3 ==> (f & 1 != 0 && f & 2 != 0)) && (0u8 | 1) == 1 && (1u8 | 2) == 3) by (bit_vector);
}

impl Page {
    /// The page is marked taken.
    pub open spec fn spec_taken(self) -> bool {
        self.flags & 1 != 0
    }

    /// The page is marked as the last of its run.
    pub open spec fn spec_last(self) -> bool {
        self.flags & 2 != 0
    }

    /// Whether this page ends an allocated run.
    pub fn is_last(&self) -> (r: bool)
        ensures
            r == self.spec_last(),
    {
        self.flags & PageFlags::Last.value() != 0
    }

    /// Whether this page belongs to an allocated run.
    pub fn is_taken(&self) -> (r: bool)
        ensures
            r == self.spec_taken(),
    {
        self.flags & PageFlags::Taken.value() != 0
    }

    /// Whether this page is free.
    pub fn is_free(&self) -> (r: bool)
        ensures
            r == !self.spec_taken(),
    {
        !self.is_taken()
    }

    /// Clears all flags, returning the page to the free state.
    pub fn clear(&mut self)
        ensures
            final(self).flags == 0,
    {
        self.flags = PageFlags::Empty.value();
    }

    /// Sets one flag bit.
    pub fn set_flag(&mut self, flag: PageFlags)
        ensures
            final(self).flags == (old(self).flags | flag.spec_value()),
    {
        self.flags = self.flags | flag.value();
    }

    /// Clears one flag bit.
    pub fn clear_flag(&mut self, flag: PageFlags)
        ensures
            final(self).flags == (old(self).flags & !flag.spec_value()),
    {
        self.flags = self.flags & !flag.value();
    }
}

/// The frame table: one `Page` record per physical page of the managed
/// range, which itself starts at `alloc_start`.
pub struct FrameTable {
    /// One flag record per page.
    pub pages: Vec<Page>,
    /// Address of the first managed page; the `i`-th page starts at
    /// `alloc_start + i * PAGE_SIZE`.
    pub alloc_start: usize,
}

impl FrameTable {
    /// Number of pages tracked.
    pub open spec fn num_pages(self) -> int {
        self.pages@.len() as int
    }

    /// The flag byte of page `i`.
    pub open spec fn flags_at(self, i: int) -> u8 {
        self.pages@[i].flags
    }

    /// Page `i` is free.
    pub open spec fn free_at(self, i: int) -> bool {
        !self.pages@[i].spec_taken()
    }

    /// Pages `start .. start + count` all lie in the table and are free.
    pub open spec fn run_free(self, start: int, count: int) -> bool {
        &&& 0 <= start
        &&& start + count <= self.num_pages()
        &&& forall|m: int| start <= m < start + count ==> self.free_at(m)
    }

    /// The table is well-formed: the managed range is page-aligned, starts
    /// above zero, fits the address space, and every flag byte is one of
    /// empty, taken, or taken-and-last.
    pub open spec fn wf(self) -> bool {
        &&& self.alloc_start % PAGE_SIZE == 0
        &&& self.alloc_start > 0
        &&& self.alloc_start + self.num_pages() * PAGE_SIZE <= usize::MAX
        &&& forall|i: int|
            0 <= i < self.num_pages() ==> (#[trigger] self.flags_at(i) == 0 || self.flags_at(i)
                == 1 || self.flags_at(i) == 3)
    }

    /// The address of page `i`.
    pub open spec fn page_addr(self, i: int) -> int {
        self.alloc_start + i * PAGE_SIZE
    }

    /// Creates a table of `num_pages` free pages whose managed range starts
    /// at `alloc_start`.
    pub fn new(alloc_start: usize, num_pages: usize) -> (r: FrameTable)
        requires
            alloc_start % PAGE_SIZE == 0,
            alloc_start > 0,
            alloc_start + num_pages * PAGE_SIZE <= usize::MAX,
        ensures
            r.wf(),
            r.alloc_start == alloc_start,
            r.num_pages() == num_pages,
            forall|i: int| 0 <= i < num_pages ==> #[trigger] r.flags_at(i) == 0,
    {
        let mut pages: Vec<Page> = Vec::new();
        let mut i: usize = 0;
        while i < num_pages
            invariant
                i <= num_pages,
                pages@.len() == i,
                forall|m: int| 0 <= m < i ==> (#[trigger] pages@[m]).flags == 0,
            decreases num_pages - i,
        {
            pages.push(Page { flags: 0 });
            i = i + 1;
        }
        FrameTable { pages, alloc_start }
    }
}

/// Whether the `count` pages starting at index `start` are all free.
fn run_is_free(table: &FrameTable, start: usize, count: usize) -> (r: bool)
    requires
        start + count <= table.num_pages(),
        start + count <= usize::MAX,
    ensures
        r == table.run_free(start as int, count as int),
{
    let mut j = start;
    while j < start + count
        invariant
            start <= j <= start + count,
            start + count <= table.num_pages(),
            start + count <= usize::MAX,
            forall|m: int| start <= m < j ==> table.free_at(m),
        decreases start + count - j,
    {
        if table.pages[j].is_taken() {
            proof {
                assert(!table.free_at(j as int));
            }
            return false;
        }
        j = j + 1;
    }
    true
}

/// Allocates `pages` contiguous pages by a first-fit scan of the table:
/// the chosen run is the lowest one whose pages are all free. Marks each
/// page of the run taken and the final one additionally last, and returns
/// the address of the run's first page. Returns `None` — leaving the table
/// unchanged — exactly when no free run of that length exists.
pub fn allocate(table: &mut FrameTable, pages: usize) -> (r: Option<usize>)
    requires
        old(table).wf(),
        pages >= 1,
    ensures
        final(table).wf(),
        final(table).alloc_start == old(table).alloc_start,
        final(table).num_pages() == old(table).num_pages(),
        r is Some <==> exists|s: int| old(table).run_free(s, pages as int),
        r matches Some(addr) ==> {
            let i = (addr - old(table).alloc_start) / (PAGE_SIZE as int);
            &&& addr >= old(table).alloc_start
            &&& (addr - old(table).alloc_start) % (PAGE_SIZE as int) == 0
            &&& old(table).run_free(i, pages as int)
            &&& forall|s: int| 0 <= s < i ==> !old(table).run_free(s, pages as int)
            &&& forall|m: int|
                0 <= m < final(table).num_pages() ==> #[trigger] final(table).flags_at(m) == (if i
                    <= m < i + pages - 1 {
                    1u8
                } else if m == i + pages - 1 {
                    3u8
                } else {
                    old(table).flags_at(m)
                })
        },
        r is None ==> final(table).pages@ == old(table).pages@,
{
    let n = table.pages.len();
    if pages > n {
        return None;
    }
    let mut i: usize = 0;
    while i <= n - pages
        invariant
            old(table).wf(),
            table.pages@ == old(table).pages@,
            table.alloc_start == old(table).alloc_start,
            pages >= 1,
            pages <= n,
            n == table.num_pages(),
            i <= n - pages + 1,
            forall|s: int| 0 <= s < i ==> !old(table).run_free(s, pages as int),
        decreases n - i,
    {
        if run_is_free(table, i, pages) {
            let ghost start = i as int;
            proof {
                assert forall|m: int| i <= m < i + pages implies old(table).free_at(m) by {
                    assert(table.free_at(m));
                    assert(table.pages@[m] == old(table).pages@[m]);
                }
                assert(old(table).run_free(i as int, pages as int));
            }
            // Mark all pages of the run taken, and the final page last.
            let mut m = i;
            while m < i + pages - 1
                invariant
                    i <= m <= i + pages - 1,
                    i + pages <= table.num_pages(),
                    i + pages <= usize::MAX,
                    pages >= 1,
                    old(table).wf(),
                    old(table).run_free(i as int, pages as int),
                    table.num_pages() == old(table).num_pages(),
                    table.alloc_start == old(table).alloc_start,
                    forall|mm: int|
                        0 <= mm < table.num_pages() ==> #[trigger] table.flags_at(mm) == (if i
                            <= mm < m {
                            1u8
                        } else {
                            old(table).flags_at(mm)
                        }),
                decreases i + pages - 1 - m,
            {
                proof {
                    lemma_page_bits(old(table).flags_at(m as int));
                    assert(old(table).free_at(m as int));
                    assert(table.flags_at(m as int) == 0);
                }
                let ghost prei = *table;
                table.pages[m].set_flag(PageFlags::Taken);
                proof {
                    assert(table.flags_at(m as int) == 1);
                    assert(forall|mm: int|
                        0 <= mm < table.num_pages() && mm != m ==> #[trigger] table.flags_at(mm)
                            == prei.flags_at(mm));
                }
                m = m + 1;
            }
            proof {
                lemma_page_bits(old(table).flags_at((i + pages - 1) as int));
                assert(old(table).free_at(i + pages - 1));
                assert(table.flags_at((i + pages - 1) as int) == 0);
            }
            let ghost pre_take = *table;
            table.pages[i + pages - 1].set_flag(PageFlags::Taken);
            proof {
                lemma_page_bits(table.flags_at((i + pages - 1) as int));
                assert(table.flags_at((i + pages - 1) as int) == 1);
                assert(forall|mm: int|
                    0 <= mm < table.num_pages() && mm != i + pages - 1
                        ==> #[trigger] table.flags_at(mm) == pre_take.flags_at(mm));
                assert((1u8 | 2) == 3) by (bit_vector);
            }
            let ghost pre_last = *table;
            table.pages[i + pages - 1].set_flag(PageFlags::Last);
            proof {
                assert(table.flags_at((i + pages - 1) as int) == 3);
                assert(forall|mm: int|
                    0 <= mm < table.num_pages() && mm != i + pages - 1
                        ==> #[trigger] table.flags_at(mm) == pre_last.flags_at(mm));
                assert(forall|mm: int|
                    0 <= mm < table.num_pages() ==> #[trigger] table.flags_at(mm) == (if start
                        <= mm < start + pages - 1 {
                        1u8
                    } else if mm == start + pages - 1 {
                        3u8
                    } else {
                        old(table).flags_at(mm)
                    }));
                assert(forall|ii: int|
                    0 <= ii < table.num_pages() ==> (#[trigger] table.flags_at(ii) == 0
                        || table.flags_at(ii) == 1 || table.flags_at(ii) == 3));
                assert(start * PAGE_SIZE <= table.num_pages() * PAGE_SIZE) by (nonlinear_arith)
                    requires
                        0 <= start <= table.num_pages(),
                ;
            }
            let addr = table.alloc_start + PAGE_SIZE * i;
            proof {
                assert((addr - table.alloc_start) == (start * PAGE_SIZE));
                vstd::arithmetic::div_mod::lemma_mod_multiples_basic(start, PAGE_SIZE as int);
                vstd::arithmetic::div_mod::lemma_div_multiples_vanish(start, PAGE_SIZE as int);
                assert(start * PAGE_SIZE == PAGE_SIZE as int * start) by (nonlinear_arith);
            }
            return Some(addr);
        }
        proof {
            if old(table).run_free(i as int, pages as int) {
                assert forall|m: int| i <= m < i + pages implies table.free_at(m) by {
                    assert(old(table).free_at(m));
                    assert(table.pages@[m] == old(table).pages@[m]);
                }
                assert(table.run_free(i as int, pages as int));
                assert(false);
            }
        }
        i = i + 1;
    }
    proof {
        if exists|s: int| old(table).run_free(s, pages as int) {
            let s = choose|s: int| old(table).run_free(s, pages as int);
            assert(!old(table).run_free(s, pages as int));
        }
        assert forall|ii: int|
            0 <= ii < table.num_pages() implies (#[trigger] table.flags_at(ii) == 0
            || table.flags_at(ii) == 1 || table.flags_at(ii) == 3) by {
            assert(table.pages@[ii] == old(table).pages@[ii]);
            assert(old(table).flags_at(ii) == 0 || old(table).flags_at(ii) == 1 || old(
                table,
            ).flags_at(ii) == 3);
        }
    }
    None
}

/// Allocates `pages` contiguous pages as `allocate` does. A raw-memory
/// implementation also zero-fills the run with word-wide stores — the page
/// size is a multiple of the word size — but the frame table tracks no page
/// contents, so here the marking is all there is to do.
pub fn allocate_zeroed(table: &mut FrameTable, pages: usize) -> (r: Option<usize>)
    requires
        old(table).wf(),
        pages >= 1,
    ensures
        final(table).wf(),
        final(table).alloc_start == old(table).alloc_start,
        final(table).num_pages() == old(table).num_pages(),
        r is Some <==> exists|s: int| old(table).run_free(s, pages as int),
        r matches Some(addr) ==> {
            let i = (addr - old(table).alloc_start) / (PAGE_SIZE as int);
            &&& addr >= old(table).alloc_start
            &&& (addr - old(table).alloc_start) % (PAGE_SIZE as int) == 0
            &&& old(table).run_free(i, pages as int)
            &&& forall|s: int| 0 <= s < i ==> !old(table).run_free(s, pages as int)
            &&& forall|m: int|
                0 <= m < final(table).num_pages() ==> #[trigger] final(table).flags_at(m) == (if i
                    <= m < i + pages - 1 {
                    1u8
                } else if m == i + pages - 1 {
                    3u8
                } else {
                    old(table).flags_at(m)
                })
        },
        r is None ==> final(table).pages@ == old(table).pages@,
{
    allocate(table, pages)
}

impl FrameTable {
    /// The index of the page that ends the run starting at `i`: the first
    /// page at or after `i` carrying the last flag, or the table length if
    /// none does.
    pub open spec fn run_end(self, i: int) -> int
        decreases self.num_pages() - i,
    {
        if i < 0 || i >= self.num_pages() {
            i
        } else if self.pages@[i].spec_last() {
            i
        } else {
            self.run_end(i + 1)
        }
    }

    /// The run starting at page `i` is intact: a last marker exists, and
    /// every page up to and including it is taken.
    pub open spec fn owned_run(self, i: int) -> bool {
        &&& 0 <= i < self.num_pages()
        &&& self.run_end(i) < self.num_pages()
        &&& forall|m: int| i <= m <= self.run_end(i) ==> (#[trigger] self.flags_at(m)) & 1 != 0
    }
}

/// Characterizes `run_end`: it lies at or after `i`, carries the last flag,
/// and no page before it does.
proof fn lemma_run_end(table: FrameTable, i: int)
    requires
        0 <= i < table.num_pages(),
        table.run_end(i) < table.num_pages(),
    ensures
        i <= table.run_end(i),
        table.pages@[table.run_end(i)].spec_last(),
        forall|m: int| i <= m < table.run_end(i) ==> !(#[trigger] table.pages@[m]).spec_last(),
    decreases table.num_pages() - i,
{
    if !table.pages@[i].spec_last() {
        assert(table.run_end(i) == table.run_end(i + 1));
        if i + 1 >= table.num_pages() {
            assert(table.run_end(i + 1) == i + 1);
        }
        lemma_run_end(table, i + 1);
    }
}

/// Frees the run of pages that starts at `ptr`: walks forward clearing
/// taken pages until the run's last page, inclusive. The caller must pass
/// the address of a page that begins an intact allocated run — freeing
/// anything else is the caller misuse the original design treats as fatal.
pub fn deallocate(table: &mut FrameTable, ptr: usize)
    requires
        old(table).wf(),
        ptr >= old(table).alloc_start,
        (ptr - old(table).alloc_start) % (PAGE_SIZE as int) == 0,
        (ptr - old(table).alloc_start) / (PAGE_SIZE as int) < old(table).num_pages(),
        old(table).owned_run((ptr - old(table).alloc_start) / (PAGE_SIZE as int)),
    ensures
        final(table).wf(),
        final(table).alloc_start == old(table).alloc_start,
        final(table).num_pages() == old(table).num_pages(),
        forall|m: int|
            0 <= m < final(table).num_pages() ==> #[trigger] final(table).flags_at(m) == (if (ptr
                - old(table).alloc_start) / (PAGE_SIZE as int) <= m <= old(table).run_end(
                (ptr - old(table).alloc_start) / (PAGE_SIZE as int),
            ) {
                0u8
            } else {
                old(table).flags_at(m)
            }),
{
    let i = (ptr - table.alloc_start) / PAGE_SIZE;
    let ghost e = old(table).run_end(i as int);
    proof {
        lemma_run_end(*old(table), i as int);
    }
    let mut m = i;
    while table.pages[m].is_taken() && !table.pages[m].is_last()
        invariant
            i <= m <= e,
            e < table.num_pages(),
            table.num_pages() == old(table).num_pages(),
            table.alloc_start == old(table).alloc_start,
            old(table).wf(),
            e == old(table).run_end(i as int),
            old(table).pages@[e].spec_last(),
            forall|mm: int| i <= mm < e ==> !(#[trigger] old(table).pages@[mm]).spec_last(),
            forall|mm: int| i <= mm <= e ==> (#[trigger] old(table).flags_at(mm)) & 1 != 0,
            forall|mm: int|
                0 <= mm < table.num_pages() ==> #[trigger] table.flags_at(mm) == (if i <= mm < m {
                    0u8
                } else {
                    old(table).flags_at(mm)
                }),
        decreases e - m,
    {
        proof {
            lemma_page_bits(old(table).flags_at(m as int));
            assert(table.flags_at(m as int) == old(table).flags_at(m as int));
            if m as int == e {
                assert(table.pages@[m as int].spec_last());
                assert(false);
            }
        }
        let ghost prec = *table;
        table.pages[m].clear();
        proof {
            assert(table.flags_at(m as int) == 0);
            assert(forall|mm: int|
                0 <= mm < table.num_pages() && mm != m ==> #[trigger] table.flags_at(mm)
                    == prec.flags_at(mm));
        }
        m = m + 1;
        proof {
            lemma_page_bits(old(table).flags_at(m as int));
        }
    }
    proof {
        lemma_page_bits(old(table).flags_at(m as int));
        assert(table.flags_at(m as int) == old(table).flags_at(m as int));
        assert(m as int == e) by {
            if (m as int) < e {
                assert(!old(table).pages@[m as int].spec_last());
                assert((old(table).flags_at(m as int)) & 1 != 0);
                assert(table.pages@[m as int].spec_taken());
                assert(!table.pages@[m as int].spec_last());
            }
        }
    }
    let ghost prec = *table;
    table.pages[m].clear();
    proof {
        assert(table.flags_at(m as int) == 0);
        assert(forall|mm: int|
            0 <= mm < table.num_pages() && mm != m ==> #[trigger] table.flags_at(mm)
                == prec.flags_at(mm));
        assert(forall|ii: int|
            0 <= ii < table.num_pages() ==> (#[trigger] table.flags_at(ii) == 0 || table.flags_at(
                ii,
            ) == 1 || table.flags_at(ii) == 3));
    }
}

} // verus!
