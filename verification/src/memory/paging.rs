use vstd::prelude::*;

verus! {

use crate::std_lib::bitset::{BitSetRaw, MAX_ELEMENTS};
use crate::scheduler::NUM_CORES;

/// Physical address.
pub type PhysAddr = u64;

/// Bytes in a page.
pub const PAGE_SIZE: u64 = 4096;
/// Physical address where RAM, and the kernel, begins.
pub const KERNEL_OFFSET: u64 = 0x8000_0000;
/// Bytes of RAM.
pub const MEMORY_SIZE: u64 = 128 * 1024 * 1024;
/// Pages of RAM.
pub const NUM_PAGES: u64 = 32768;
/// End of the identity mapping of physical memory.
pub const ID_MAP_END: u64 = 0xC000_0000;

/// A page-table entry of the Sv39 format.
pub type PageTableEntry = u64;

/// Valid bit of an entry.
pub const PTE_PRESENT: u64 = 1;
/// Read permission bit.
pub const PTE_READ: u64 = 2;
/// Write permission bit.
pub const PTE_WRITE: u64 = 4;
/// Execute permission bit.
pub const PTE_EXECUTE: u64 = 8;
/// User-accessible bit.
pub const PTE_USER: u64 = 16;

/// Entries in one page table.
pub const PAGE_TABLE_SIZE: usize = 512;

/// Physical address of page `i` of RAM.
pub open spec fn page_addr(i: int) -> int {
    KERNEL_OFFSET + i * PAGE_SIZE
}

/// Pages `i .. i + num` exist and are all free in `v`.
pub open spec fn run_free(v: Seq<bool>, i: int, num: int) -> bool {
    &&& 0 <= i
    &&& i + num <= v.len()
    &&& forall|k: int| i <= k < i + num ==> !#[trigger] v[k]
}

/// `v` with pages `i .. i + num` taken.
pub open spec fn take_run(v: Seq<bool>, i: int, num: int) -> Seq<bool> {
    Seq::new(v.len(), |k: int| if i <= k < i + num { true } else { v[k] })
}

/// Number of free pages of a page map.
pub open spec fn free_count(v: Seq<bool>) -> nat {
    crate::std_lib::bitset::zeros(v).len()
}

/// The map of used pages of physical memory: bit `i` is one when page `i` is in use.
pub struct PageAllocator {
    segments: BitSetRaw,
}

impl View for PageAllocator {
    type V = Seq<bool>;

    closed spec fn view(&self) -> Seq<bool> {
        self.segments@
    }
}

impl PageAllocator {
    /// The map is well formed and covers every page of RAM.
    pub closed spec fn wf(&self) -> bool {
        &&& self.segments.wf()
        &&& self.segments@.len() == NUM_PAGES
    }

    /// The map covers every page of RAM.
    pub proof fn lemma_len(&self)
        requires
            self.wf(),
        ensures
            self@.len() == NUM_PAGES,
    {
    }

    /// A map in which every page is free.
    pub fn new() -> (r: PageAllocator)
        ensures
            r.wf(),
            r@ == Seq::new(NUM_PAGES as nat, |i: int| false),
            free_count(r@) == NUM_PAGES,
    {
        PageAllocator { segments: BitSetRaw::new(NUM_PAGES as usize) }
    }

    /// Marks page `index` as used or free.
    pub fn mark(&mut self, index: usize, used: bool)
        requires
            old(self).wf(),
            index < NUM_PAGES,
        ensures
            final(self).wf(),
            final(self)@ == old(self)@.update(index as int, used),
    {
        self.segments.set(index, used);
    }

    /// Whether page `index` is in use.
    pub fn is_used(&self, index: usize) -> (r: bool)
        requires
            self.wf(),
            index < NUM_PAGES,
        ensures
            r == self@[index as int],
    {
        self.segments.get(index)
    }
}

/// Number of free pages.
pub fn get_num_free_pages(alloc: &PageAllocator) -> (r: u64)
    requires
        alloc.wf(),
    ensures
        r == free_count(alloc@),
{
    proof {
        let v = alloc.segments@;
        <usize as vstd::set_lib::FiniteRange>::range_properties(0, v.len() as usize);
        vstd::set_lib::lemma_len_subset(crate::std_lib::bitset::zeros(v), Set::<usize>::range(0, v.len() as usize));
    }
    alloc.segments.get_count0() as u64
}

/// Takes some free page and returns its physical address.
pub fn alloc_page(alloc: &mut PageAllocator) -> (r: PhysAddr)
    requires
        old(alloc).wf(),
        free_count(old(alloc)@) > 0,
    ensures
        final(alloc).wf(),
        exists|i: int|
            0 <= i < NUM_PAGES && !old(alloc)@[i] && r == page_addr(i) && final(alloc)@ == old(alloc)@.update(
                i,
                true,
            ),
        free_count(final(alloc)@) == free_count(old(alloc)@) - 1,
{
    let index = alloc.segments.get_zero_element();
    match index {
        Some(index) => {
            alloc.segments.set(index, true);
            let r = index as u64 * PAGE_SIZE + KERNEL_OFFSET;
            assert(r == page_addr(index as int));
            r
        },
        None => {
            assert(false);
            0
        },
    }
}

/// Takes the first run of `num` consecutive free pages and returns the address of its first page.
pub fn alloc_continuous_pages(alloc: &mut PageAllocator, num: u64) -> (r: PhysAddr)
    requires
        old(alloc).wf(),
        num <= NUM_PAGES,
        exists|i: int| run_free(old(alloc)@, i, num as int),
    ensures
        final(alloc).wf(),
        exists|i: int|
            #![trigger run_free(old(alloc)@, i, num as int)]
            run_free(old(alloc)@, i, num as int) && (forall|j: int|
                0 <= j < i ==> !run_free(old(alloc)@, j, num as int)) && r == page_addr(i)
                && final(alloc)@ == take_run(old(alloc)@, i, num as int),
{
    let ghost v0 = alloc@;
    let mut i: u64 = 0;
    while i <= NUM_PAGES - num
        invariant
            alloc.wf(),
            alloc@ == v0,
            v0 == old(alloc)@,
            num <= NUM_PAGES,
            i <= NUM_PAGES - num + 1,
            exists|w: int| run_free(v0, w, num as int),
            forall|j: int| 0 <= j < i ==> !run_free(v0, j, num as int),
        decreases NUM_PAGES - num + 1 - i,
    {
        let mut all_free = true;
        let mut j: u64 = 0;
        while j < num && all_free
            invariant
                alloc.wf(),
                alloc@ == v0,
                i + num <= NUM_PAGES,
                j <= num,
                all_free ==> (forall|k: int| i <= k < i + j ==> !#[trigger] v0[k]),
                !all_free ==> j < num && v0[i + j],
            decreases num - j + (if all_free { 1int } else { 0int }),
        {
            if alloc.segments.get((i + j) as usize) {
                all_free = false;
            } else {
                j = j + 1;
            }
        }
        if all_free {
            assert(run_free(v0, i as int, num as int));
            let mut k: u64 = 0;
            while k < num
                invariant
                    alloc.wf(),
                    i + num <= NUM_PAGES,
                    k <= num,
                    v0 == old(alloc)@,
                    alloc@ == take_run(v0, i as int, k as int),
                decreases num - k,
            {
                alloc.segments.set((i + k) as usize, true);
                assert(alloc@ =~= take_run(v0, i as int, (k + 1) as int));
                k = k + 1;
            }
            let r = i * PAGE_SIZE + KERNEL_OFFSET;
            assert(r == page_addr(i as int));
            assert(v0 == old(alloc)@);
            assert(run_free(old(alloc)@, i as int, num as int) && (forall|j: int|
                0 <= j < i ==> !run_free(old(alloc)@, j, num as int)) && r == page_addr(i as int)
                && alloc@ == take_run(old(alloc)@, i as int, num as int));
            return r;
        }
        assert(!run_free(v0, i as int, num as int)) by {
            assert(v0[i + j]);
        }
        i = i + 1;
    }
    proof {
        let w = choose|w: int| run_free(v0, w, num as int);
        assert(!run_free(v0, w, num as int));
    }
    0
}

/// Gives back the page at physical address `addr`, which must be in use.
pub fn free_page(alloc: &mut PageAllocator, addr: PhysAddr)
    requires
        old(alloc).wf(),
        KERNEL_OFFSET <= addr,
        (addr - KERNEL_OFFSET) / (PAGE_SIZE as int) < NUM_PAGES,
        old(alloc)@[(addr - KERNEL_OFFSET) / (PAGE_SIZE as int)],
    ensures
        final(alloc).wf(),
        final(alloc)@ == old(alloc)@.update((addr - KERNEL_OFFSET) / (PAGE_SIZE as int), false),
        free_count(final(alloc)@) == free_count(old(alloc)@) + 1,
{
    let index = ((addr - KERNEL_OFFSET) / PAGE_SIZE) as usize;
    alloc.segments.set(index, false);
}

/// Freeing a page right after taking it gives back the map as it was.
pub proof fn lemma_free_after_alloc(v: Seq<bool>, i: int)
    requires
        0 <= i < v.len(),
        !v[i],
    ensures
        v.update(i, true).update(i, false) == v,
        (page_addr(i) - KERNEL_OFFSET) / (PAGE_SIZE as int) == i,
{
    assert(v.update(i, true).update(i, false) =~= v);
    assert((i * 4096) / 4096 == i) by (nonlinear_arith);
}

/// The page that a later allocation hands out differs from every page handed out before and not freed.
pub proof fn lemma_alloc_distinct(v: Seq<bool>, i: int, j: int)
    requires
        0 <= i < v.len(),
        0 <= j < v.len(),
        v[i],
        !v[j],
    ensures
        page_addr(i) != page_addr(j),
{
}

/// Builds the entry that points at the page table or page at `addr`.
pub fn create_page_table_entry(addr: PhysAddr) -> (r: PageTableEntry)
    requires
        addr & 0xFFFF_F800_0000_0FFFu64 == 0,
    ensures
        r == ((addr >> 12u64) << 10u64) | PTE_PRESENT,
        get_entry_addr_spec(r) == Some(addr),
        is_entry_table_spec(r),
{
    proof {
        lemma_entry_round_trip(addr);
    }
    ((addr >> 12) << 10) | PTE_PRESENT
}

/// The address an entry points at, when the entry is present.
pub open spec fn get_entry_addr_spec(entry: PageTableEntry) -> Option<PhysAddr> {
    if entry & PTE_PRESENT == 0 {
        None
    } else {
        Some((entry >> 10u64) << 12u64)
    }
}

/// The entry is present and has no permission bits: it points at a further table.
pub open spec fn is_entry_table_spec(entry: PageTableEntry) -> bool {
    entry & (PTE_PRESENT | PTE_READ | PTE_WRITE | PTE_EXECUTE) == PTE_PRESENT
}

/// A table entry made from an aligned address leads back to that address.
pub proof fn lemma_entry_round_trip(addr: PhysAddr)
    requires
        addr & 0xFFFF_F800_0000_0FFFu64 == 0,
    ensures
        get_entry_addr_spec(((addr >> 12u64) << 10u64) | PTE_PRESENT) == Some(addr),
        is_entry_table_spec(((addr >> 12u64) << 10u64) | PTE_PRESENT),
{
    assert((((addr >> 12u64) << 10u64) | 1u64) & 1u64 != 0) by (bit_vector);
    assert((((((addr >> 12u64) << 10u64) | 1u64) >> 10u64) << 12u64) == addr) by (bit_vector)
        requires
            addr & 0xFFFF_F800_0000_0FFFu64 == 0,
    ;
    assert((((addr >> 12u64) << 10u64) | 1u64) & (1u64 | 2u64 | 4u64 | 8u64) == 1u64) by (bit_vector);
}

/// The address an entry points at, or `None` when the entry is not present.
pub fn get_entry_addr(entry: PageTableEntry) -> (r: Option<PhysAddr>)
    ensures
        r == get_entry_addr_spec(entry),
{
    if (entry & PTE_PRESENT) == 0 {
        None
    } else {
        Some((entry >> 10) << 12)
    }
}

/// Whether the entry points at a further table.
pub fn is_entry_table(entry: PageTableEntry) -> (r: bool)
    ensures
        r == is_entry_table_spec(entry),
{
    (entry & (PTE_PRESENT | PTE_READ | PTE_WRITE | PTE_EXECUTE)) == PTE_PRESENT
}

/// The `satp` value that selects `page_table` in Sv39 mode.
pub open spec fn satp_for(page_table: u64) -> u64 {
    (page_table / 4096) | (8u64 << 60u64)
}

/// Switches core `core` to `page_table`, `current` holding each core's table: the
/// `satp` value to write, or `None` where the core already uses that table.
pub fn switch_to_page_table(current: &mut [u64; 4], core: usize, page_table: u64) -> (r: Option<u64>)
    requires
        core < NUM_CORES,
        page_table % 4096 == 0,
    ensures
        old(current)[core as int] == page_table ==> r is None && final(current)@ == old(current)@,
        old(current)[core as int] != page_table ==> r == Some(satp_for(page_table)) && final(current)@ == old(current)@.update(
            core as int,
            page_table,
        ),
{
    if current[core] == page_table {
        return None;
    }
    current[core] = page_table;
    Some((page_table / PAGE_SIZE) | (8u64 << 60u64))
}

} // verus!
