use vstd::prelude::*;

verus! {

use crate::bits::{words_bit, div_ceil, spec_div_ceil, lemma_zero_word};
use crate::std_lib::bitset::{BitSetRaw, bitset_size_bytes, get_raw, set_raw, MAX_ELEMENTS};

/// Bytes of address space given to each size class of the heap.
pub const HEAP_REGION_SIZE: u64 = 0x1000_0000;
/// Bytes in a page.
pub const PAGE_SIZE: u64 = 4096;
/// Number of size classes; class `i` hands out blocks of `8 << i` bytes.
pub const NUM_REGIONS: usize = 9;
/// Pages that the page-granular region can hand out (two bits each in one page of bits).
pub const NUM_MEGA_PAGES: usize = 16384;

/// `x` rounded up to a whole number of pages.
pub open spec fn page_ceil(x: int) -> int {
    spec_div_ceil(x, PAGE_SIZE as int) * PAGE_SIZE
}

/// The page addresses `from, from + PAGE_SIZE, ..` below `to`.
pub open spec fn page_run(from: int, to: int) -> Seq<u64> {
    Seq::new(((to - from) / (PAGE_SIZE as int)) as nat, |k: int| (from + k * PAGE_SIZE) as u64)
}

/// Growing a byte count by at most one page moves its page ceiling by at most one page.
proof fn lemma_page_ceil_step(x: int, d: int)
    requires
        x >= 0,
        0 <= d <= PAGE_SIZE,
    ensures
        page_ceil(x) <= page_ceil(x + d) <= page_ceil(x) + PAGE_SIZE,
        page_ceil(x) >= x,
        page_ceil(x) % (PAGE_SIZE as int) == 0,
        page_ceil(x) < x + PAGE_SIZE,
{
}

/// Block `i` went from free to taken between `before` and `after`; `i == before.len()`
/// means the class grew by that block.
pub open spec fn block_taken(before: Seq<bool>, after: Seq<bool>, i: int) -> bool {
    &&& 0 <= i <= before.len()
    &&& if i < before.len() {
        !before[i] && after == before.update(i, true)
    } else {
        after == before.push(true)
    }
}

/// A size class of the heap: equal blocks of `block_size` bytes at `base_addr`,
/// tracked by a growing bitset kept at `bitset_base_addr`. Pages below the two
/// frontiers `bitset_page_addr` and `heap_page_addr` are backed by memory.
pub struct HeapRegion {
    bitset: BitSetRaw,
    bitset_page_addr: u64,
    heap_page_addr: u64,
    bitset_base_addr: u64,
    base_addr: u64,
    block_size: u64,
}

impl View for HeapRegion {
    type V = Seq<bool>;

    /// Which blocks are taken.
    closed spec fn view(&self) -> Seq<bool> {
        self.bitset@
    }
}

impl HeapRegion {
    /// The internal invariant of a size class.
    pub closed spec fn wf(&self) -> bool {
        &&& self.bitset.wf()
        &&& 8 <= self.block_size <= PAGE_SIZE
        &&& self.bitset@.len() * self.block_size <= HEAP_REGION_SIZE
        &&& self.base_addr + HEAP_REGION_SIZE <= u64::MAX
        &&& self.bitset_base_addr + HEAP_REGION_SIZE <= u64::MAX
        &&& self.bitset_page_addr == self.bitset_base_addr + page_ceil(self.bitset@.len() * 4int)
        &&& self.heap_page_addr == self.base_addr + page_ceil(self.bitset@.len() * (self.block_size as int))
    }

    /// Address of the first block.
    pub closed spec fn base(&self) -> int {
        self.base_addr as int
    }

    /// Bytes in a block.
    pub closed spec fn block(&self) -> int {
        self.block_size as int
    }

    /// End of the backed part of the block area.
    pub closed spec fn heap_frontier(&self) -> int {
        self.heap_page_addr as int
    }

    /// End of the backed part of the bitset area.
    pub closed spec fn bitset_frontier(&self) -> int {
        self.bitset_page_addr as int
    }

    /// Start of the bitset area.
    pub closed spec fn bitset_base(&self) -> int {
        self.bitset_base_addr as int
    }

    /// An empty size class of `block_size` bytes; its bitset lives at `addr` and its blocks
    /// at `addr + HEAP_REGION_SIZE`.
    pub fn new(addr: u64, block_size: u64) -> (r: HeapRegion)
        requires
            8 <= block_size <= PAGE_SIZE,
            addr + 2 * HEAP_REGION_SIZE <= u64::MAX,
        ensures
            r.wf(),
            r@ == Seq::<bool>::empty(),
            r.base() == addr + HEAP_REGION_SIZE,
            r.bitset_base() == addr,
            r.block() == block_size,
            r.heap_frontier() == r.base(),
            r.bitset_frontier() == addr,
    {
        let r = HeapRegion {
            bitset: BitSetRaw::new(0),
            bitset_page_addr: addr,
            heap_page_addr: addr + HEAP_REGION_SIZE,
            bitset_base_addr: addr,
            base_addr: addr + HEAP_REGION_SIZE,
            block_size,
        };
        assert(page_ceil(0) == 0);
        r
    }

    /// Gives back the block at `ptr`.
    pub fn free(&mut self, ptr: u64)
        requires
            old(self).wf(),
            old(self).base() <= ptr,
            (ptr - old(self).base()) / old(self).block() < old(self)@.len(),
        ensures
            final(self).wf(),
            final(self)@ == old(self)@.update((ptr - old(self).base()) / old(self).block(), false),
            final(self).base() == old(self).base(),
            final(self).block() == old(self).block(),
            final(self).heap_frontier() == old(self).heap_frontier(),
            final(self).bitset_base() == old(self).bitset_base(),
    {
        let idx = (ptr - self.base_addr) / self.block_size;
        assert(idx == (ptr - self.base()) / self.block());
        proof {
            self.bitset.lemma_len_bound();
        }
        self.bitset.set(idx as usize, false);
    }

    /// Takes a free block, growing the class by one block when none is free, and
    /// returns its address. The pages that growing backs are appended to `pages`.
    pub fn allocate(&mut self, pages: &mut Vec<u64>) -> (r: u64)
        requires
            old(self).wf(),
            crate::std_lib::bitset::zeros(old(self)@).len() > 0 || (old(self)@.len() + 1) * old(self).block()
                <= HEAP_REGION_SIZE,
        ensures
            final(self).wf(),
            final(self).base() == old(self).base(),
            final(self).block() == old(self).block(),
            final(self).bitset_base() == old(self).bitset_base(),
            exists|i: int|
                #[trigger] block_taken(old(self)@, final(self)@, i) && r == old(self).base() + i * old(self).block(),
            r + old(self).block() <= final(self).heap_frontier(),
            final(pages)@ == old(pages)@ + page_run(old(self).bitset_frontier(), final(self).bitset_frontier())
                + page_run(old(self).heap_frontier(), final(self).heap_frontier()),
    {
        let ghost v0 = self@;
        if let Some(block) = self.bitset.get_zero_element() {
            self.bitset.set(block, true);
            proof {
                assert(block * self.block_size <= (self@.len() - 1) * self.block_size) by (nonlinear_arith)
                    requires
                        block < self@.len(),
                ;
                assert((self@.len() - 1) * self.block_size + self.block_size == self@.len() * self.block_size)
                    by (nonlinear_arith);
                lemma_page_ceil_step(self@.len() * self.block_size, 0);
                assert(page_run(self.bitset_page_addr as int, self.bitset_page_addr as int) =~= Seq::<u64>::empty());
                assert(page_run(self.heap_page_addr as int, self.heap_page_addr as int) =~= Seq::<u64>::empty());
                assert(pages@ =~= old(pages)@ + page_run(self.bitset_page_addr as int, self.bitset_page_addr as int)
                    + page_run(self.heap_page_addr as int, self.heap_page_addr as int));
            }
            let r = self.base_addr + block as u64 * self.block_size;
            assert(r == old(self).base() + (block as int) * old(self).block());
            assert(block_taken(old(self)@, self@, block as int));
            r
        } else {
            let size = self.bitset.get_size();
            proof {
                assert(crate::std_lib::bitset::zeros(v0) =~= Set::empty());
                assert((size + 1) * self.block_size <= HEAP_REGION_SIZE);
                assert((size + 1) * 8 <= HEAP_REGION_SIZE) by (nonlinear_arith)
                    requires
                        (size + 1) * self.block_size <= HEAP_REGION_SIZE,
                        self.block_size >= 8,
                ;
                lemma_page_ceil_step((size * 4) as int, 4);
                lemma_page_ceil_step((size * self.block_size) as int, self.block_size as int);
                assert((size + 1) * self.block_size == size * self.block_size + self.block_size) by (nonlinear_arith);
            }
            let old_bitset_page = self.bitset_page_addr;
            let old_heap_page = self.heap_page_addr;
            let new_bitset_page_addr = self.bitset_base_addr + div_ceil(bitset_size_bytes(size + 1) as u64, PAGE_SIZE)
                * PAGE_SIZE;
            if new_bitset_page_addr != self.bitset_page_addr {
                pages.push(self.bitset_page_addr);
                self.bitset_page_addr = new_bitset_page_addr;
            }
            let ghost pages_mid = pages@;
            let new_heap_page_addr = self.base_addr + div_ceil((size as u64 + 1) * self.block_size, PAGE_SIZE)
                * PAGE_SIZE;
            if new_heap_page_addr != self.heap_page_addr {
                pages.push(self.heap_page_addr);
                self.heap_page_addr = new_heap_page_addr;
            }
            self.bitset.add_one();
            self.bitset.set(size, true);
            proof {
                assert(self@ =~= v0.push(true));
                if new_bitset_page_addr != old_bitset_page {
                    assert(page_run(old_bitset_page as int, new_bitset_page_addr as int) =~= seq![old_bitset_page]);
                } else {
                    assert(page_run(old_bitset_page as int, new_bitset_page_addr as int) =~= Seq::<u64>::empty());
                }
                if new_heap_page_addr != old_heap_page {
                    assert(page_run(old_heap_page as int, new_heap_page_addr as int) =~= seq![old_heap_page]);
                } else {
                    assert(page_run(old_heap_page as int, new_heap_page_addr as int) =~= Seq::<u64>::empty());
                }
                assert(pages@ =~= old(pages)@ + page_run(old_bitset_page as int, new_bitset_page_addr as int)
                    + page_run(old_heap_page as int, new_heap_page_addr as int));
                assert(size * self.block_size + self.block_size <= page_ceil((size + 1) * self.block_size));
            }
            let r = self.base_addr + size as u64 * self.block_size;
            assert(r == old(self).base() + (size as int) * old(self).block());
            assert(block_taken(old(self)@, self@, size as int));
            r
        }
    }
}


/// Page `i` of the page-granular region is taken.
pub open spec fn mega_taken(bits: Seq<u64>, i: int) -> bool {
    words_bit(bits, 2 * i)
}

/// Page `i` of the page-granular region starts an allocation.
pub open spec fn mega_first(bits: Seq<u64>, i: int) -> bool {
    words_bit(bits, 2 * i + 1)
}

/// The page-granular region's state: for each page, (taken, first page of its allocation).
pub open spec fn mega_view(bits: Seq<u64>) -> Seq<(bool, bool)> {
    Seq::new(NUM_MEGA_PAGES as nat, |i: int| (mega_taken(bits, i), mega_first(bits, i)))
}

/// Pages `l .. l + size` exist and are all free.
pub open spec fn mega_run_free(v: Seq<(bool, bool)>, l: int, size: int) -> bool {
    &&& 0 <= l
    &&& l + size <= v.len()
    &&& forall|k: int| l <= k < l + size ==> !(#[trigger] v[k]).0
}

/// The allocation search starting at `curr` returns `l`: the first run at or after
/// `curr` when there is one, else the first run from the start.
pub open spec fn mega_choice(v: Seq<(bool, bool)>, curr: int, size: int, l: int) -> bool {
    &&& mega_run_free(v, l, size)
    &&& (exists|m: int| m >= curr && #[trigger] mega_run_free(v, m, size)) ==> (l >= curr && forall|m: int|
        curr <= m < l ==> !#[trigger] mega_run_free(v, m, size))
    &&& !(exists|m: int| m >= curr && #[trigger] mega_run_free(v, m, size)) ==> forall|m: int|
        0 <= m < l ==> !#[trigger] mega_run_free(v, m, size)
}

/// Pages `l .. l + size` taken as one allocation, the others as in `v`.
pub open spec fn mega_mark(v: Seq<(bool, bool)>, l: int, size: int) -> Seq<(bool, bool)> {
    Seq::new(v.len(), |k: int| if l <= k < l + size { (true, k == l) } else { v[k] })
}

/// Pages `l .. e` released, the others as in `v`.
pub open spec fn mega_release(v: Seq<(bool, bool)>, l: int, e: int) -> Seq<(bool, bool)> {
    Seq::new(v.len(), |k: int| if l <= k < e { (false, false) } else { v[k] })
}

/// The allocation that starts at page `l` ends at page `e`.
pub open spec fn mega_alloc_end(v: Seq<(bool, bool)>, l: int, e: int) -> bool {
    &&& l < e <= v.len()
    &&& forall|k: int| l < k < e ==> (#[trigger] v[k]).0 && !v[k].1
    &&& e == v.len() || v[e].1 || !v[e].0
}

/// The final region of the heap: whole pages for allocations of a page or more.
/// One page of bits holds two bits per page: taken, and first page of an allocation.
pub struct HeapMegaRegion {
    bits: Vec<u64>,
    bitset_addr: u64,
    heap_addr: u64,
    curr_idx: usize,
}

impl View for HeapMegaRegion {
    type V = Seq<(bool, bool)>;

    closed spec fn view(&self) -> Seq<(bool, bool)> {
        mega_view(self.bits@)
    }
}

impl HeapMegaRegion {
    /// The internal invariant.
    pub closed spec fn wf(&self) -> bool {
        &&& self.bits.len() == PAGE_SIZE / 8
        &&& self.curr_idx <= NUM_MEGA_PAGES
        &&& self.heap_addr + NUM_MEGA_PAGES * PAGE_SIZE <= u64::MAX
    }

    /// Where allocated pages start.
    pub closed spec fn heap(&self) -> int {
        self.heap_addr as int
    }

    /// Where the next search starts.
    pub closed spec fn curr(&self) -> int {
        self.curr_idx as int
    }

    /// Address of the page of bits.
    pub closed spec fn bitset(&self) -> int {
        self.bitset_addr as int
    }

    /// A region whose bits live in the page at `bitset_addr` and whose pages follow it.
    /// The page of bits is appended to `pages`, to be backed.
    pub fn new(bitset_addr: u64, pages: &mut Vec<u64>) -> (r: HeapMegaRegion)
        requires
            bitset_addr + PAGE_SIZE + NUM_MEGA_PAGES * PAGE_SIZE <= u64::MAX,
        ensures
            r.wf(),
            r@ == Seq::new(NUM_MEGA_PAGES as nat, |i: int| (false, false)),
            r.heap() == bitset_addr + PAGE_SIZE,
            r.bitset() == bitset_addr,
            r.curr() == 0,
            final(pages)@ == old(pages)@.push(bitset_addr),
    {
        let mut r = HeapMegaRegion {
            bits: Vec::new(),
            bitset_addr,
            heap_addr: bitset_addr + PAGE_SIZE,
            curr_idx: 0,
        };
        r.init(pages);
        r
    }

    /// Backs the page of bits and clears it.
    fn init(&mut self, pages: &mut Vec<u64>)
        requires
            old(self).heap_addr + NUM_MEGA_PAGES * PAGE_SIZE <= u64::MAX,
            old(self).curr_idx <= NUM_MEGA_PAGES,
        ensures
            final(self).wf(),
            final(self)@ == Seq::new(NUM_MEGA_PAGES as nat, |i: int| (false, false)),
            final(self).heap() == old(self).heap(),
            final(self).bitset() == old(self).bitset(),
            final(self).curr() == old(self).curr(),
            final(pages)@ == old(pages)@.push(old(self).bitset_addr),
    {
        pages.push(self.bitset_addr);
        self.bits = vec![0u64; (PAGE_SIZE / 8) as usize];
        proof {
            assert forall|i: int| 0 <= i < NUM_MEGA_PAGES implies !mega_taken(self.bits@, i) && !mega_first(
                self.bits@,
                i,
            ) by {
                lemma_zero_word(((2 * i) % 64) as u64);
                lemma_zero_word(((2 * i + 1) % 64) as u64);
            }
            assert(self@ =~= Seq::new(NUM_MEGA_PAGES as nat, |i: int| (false, false)));
        }
    }

    /// Whether page `idx` is taken.
    pub fn get_is_taken(&self, idx: usize) -> (r: bool)
        requires
            self.wf(),
            idx < NUM_MEGA_PAGES,
        ensures
            r == self@[idx as int].0,
    {
        get_raw(&self.bits, idx * 2)
    }

    /// Whether page `idx` starts an allocation.
    pub fn get_is_first(&self, idx: usize) -> (r: bool)
        requires
            self.wf(),
            idx < NUM_MEGA_PAGES,
        ensures
            r == self@[idx as int].1,
    {
        get_raw(&self.bits, idx * 2 + 1)
    }

    /// Sets whether page `idx` is taken.
    pub fn set_is_taken(&mut self, idx: usize, val: bool)
        requires
            old(self).wf(),
            idx < NUM_MEGA_PAGES,
        ensures
            final(self).wf(),
            final(self)@ == old(self)@.update(idx as int, (val, old(self)@[idx as int].1)),
            final(self).heap() == old(self).heap(),
            final(self).curr() == old(self).curr(),
            final(self).bitset() == old(self).bitset(),
    {
        let ghost b0 = self.bits@;
        set_raw(&mut self.bits, idx * 2, val);
        proof {
            assert(self@ =~= old(self)@.update(idx as int, (val, old(self)@[idx as int].1)));
        }
    }

    /// Sets whether page `idx` starts an allocation.
    pub fn set_is_first(&mut self, idx: usize, val: bool)
        requires
            old(self).wf(),
            idx < NUM_MEGA_PAGES,
        ensures
            final(self).wf(),
            final(self)@ == old(self)@.update(idx as int, (old(self)@[idx as int].0, val)),
            final(self).heap() == old(self).heap(),
            final(self).curr() == old(self).curr(),
            final(self).bitset() == old(self).bitset(),
    {
        set_raw(&mut self.bits, idx * 2 + 1, val);
        proof {
            assert(self@ =~= old(self)@.update(idx as int, (old(self)@[idx as int].0, val)));
        }
    }

    /// Takes `size` consecutive free pages, searching from where the last search
    /// ended and then from the start, and returns the address of the first one.
    /// The pages taken are appended to `pages`, to be backed.
    pub fn allocate(&mut self, size: usize, pages: &mut Vec<u64>) -> (r: u64)
        requires
            old(self).wf(),
            exists|m: int| #[trigger] mega_run_free(old(self)@, m, size as int),
        ensures
            final(self).wf(),
            final(self).heap() == old(self).heap(),
            final(self).bitset() == old(self).bitset(),
            exists|l: int|
                #![trigger mega_choice(old(self)@, old(self).curr(), size as int, l)]
                mega_choice(old(self)@, old(self).curr(), size as int, l) && r == old(self).heap() + l * PAGE_SIZE
                    && final(self)@ == mega_mark(old(self)@, l, size as int) && final(self).curr() == l + size
                    && final(pages)@ == old(pages)@ + page_run(old(self).heap() + l * PAGE_SIZE, old(self).heap() + (l + size) * PAGE_SIZE),
    {
        let ghost v0 = self@;
        let ghost curr = self.curr_idx as int;
        let mut left = self.curr_idx;
        let mut right = left;
        let mut looped = false;
        while right - left < size
            invariant
                self.wf(),
                self@ == v0,
                self.curr_idx == curr,
                left <= right <= NUM_MEGA_PAGES,
                right - left <= size,
                exists|m: int| #[trigger] mega_run_free(v0, m, size as int),
                forall|k: int| left <= k < right ==> !(#[trigger] v0[k]).0,
                !looped ==> left >= curr && forall|m: int| curr <= m < left ==> !#[trigger] mega_run_free(v0, m, size as int),
                looped ==> !(exists|m: int| m >= curr && #[trigger] mega_run_free(v0, m, size as int)),
                looped ==> forall|m: int| 0 <= m < left ==> !#[trigger] mega_run_free(v0, m, size as int),
            decreases (NUM_MEGA_PAGES - right) + (if looped { 0int } else { NUM_MEGA_PAGES + 1 }),
        {
            if right >= NUM_MEGA_PAGES {
                proof {
                    assert forall|m: int| m >= left implies !#[trigger] mega_run_free(v0, m, size as int) by {
                    }
                    if !looped {
                        assert forall|m: int| m >= curr implies !#[trigger] mega_run_free(v0, m, size as int) by {
                            if m < left {
                            }
                        }
                    }
                }
                if looped {
                    proof {
                        let m = choose|m: int| #[trigger] mega_run_free(v0, m, size as int);
                        assert(m < left);
                        assert(false);
                    }
                }
                looped = true;
                left = 0;
                right = 0;
            }
            if self.get_is_taken(right) {
                proof {
                    assert forall|m: int| left <= m <= right implies !#[trigger] mega_run_free(v0, m, size as int) by {
                        if mega_run_free(v0, m, size as int) {
                            assert(!v0[right as int].0);
                        }
                    }
                }
                left = right + 1;
            }
            right = right + 1;
        }
        proof {
            assert(mega_run_free(v0, left as int, size as int));
            assert(mega_choice(v0, curr, size as int, left as int));
        }
        let ghost pages0 = pages@;
        let mut i = left;
        while i < right
            invariant
                self.wf(),
                left <= i <= right,
                right == left + size,
                right <= NUM_MEGA_PAGES,
                self.curr_idx == curr,
                self.heap_addr == old(self).heap_addr,
                self.bitset_addr == old(self).bitset_addr,
                self@ == Seq::new(NUM_MEGA_PAGES as nat, |k: int| if left <= k < i { (true, k == left) } else { v0[k] }),
                pages@ == pages0 + page_run(self.heap_addr + left * PAGE_SIZE, self.heap_addr + i * PAGE_SIZE),
            decreases right - i,
        {
            self.set_is_taken(i, true);
            self.set_is_first(i, i == left);
            let addr = self.heap_addr + i as u64 * PAGE_SIZE;
            pages.push(addr);
            proof {
                assert(self@ =~= Seq::new(NUM_MEGA_PAGES as nat, |k: int| if left <= k < i + 1 { (true, k == left) } else { v0[k] }));
                assert(pages@ =~= pages0 + page_run(self.heap_addr + left * PAGE_SIZE, self.heap_addr + (i + 1) * PAGE_SIZE));
            }
            i = i + 1;
        }
        self.curr_idx = right;
        proof {
            assert(self@ =~= mega_mark(v0, left as int, size as int));
            assert(v0 == old(self)@);
            assert(pages0 == old(pages)@);
            assert(mega_choice(old(self)@, old(self).curr(), size as int, left as int));
        }
        self.heap_addr + left as u64 * PAGE_SIZE
    }

    /// Gives back the allocation that starts at page `idx`: that page and the taken,
    /// non-first pages after it. The pages given back are appended to `released`.
    pub fn free(&mut self, idx: usize, released: &mut Vec<u64>)
        requires
            old(self).wf(),
            idx < NUM_MEGA_PAGES,
            old(self)@[idx as int].0,
            old(self)@[idx as int].1,
        ensures
            final(self).wf(),
            final(self).heap() == old(self).heap(),
            final(self).curr() == old(self).curr(),
            final(self).bitset() == old(self).bitset(),
            exists|e: int|
                #![trigger mega_alloc_end(old(self)@, idx as int, e)]
                mega_alloc_end(old(self)@, idx as int, e) && final(self)@ == mega_release(old(self)@, idx as int, e)
                    && final(released)@ == old(released)@ + page_run(old(self).heap() + idx * PAGE_SIZE, old(self).heap() + e * PAGE_SIZE),
    {
        let ghost v0 = self@;
        let ghost rel0 = released@;
        let mut i = idx;
        loop
            invariant_except_break
                idx <= i < NUM_MEGA_PAGES,
                forall|k: int| idx < k <= i ==> (#[trigger] v0[k]).0 && !v0[k].1,
            invariant
                self.wf(),
                self.curr_idx == old(self).curr_idx,
                self.heap_addr == old(self).heap_addr,
                self.bitset_addr == old(self).bitset_addr,
                self@ == mega_release(v0, idx as int, i as int),
                released@ == rel0 + page_run(self.heap_addr + idx * PAGE_SIZE, self.heap_addr + i * PAGE_SIZE),
            ensures
                mega_alloc_end(v0, idx as int, i as int),
                self@ == mega_release(v0, idx as int, i as int),
                released@ == rel0 + page_run(self.heap_addr + idx * PAGE_SIZE, self.heap_addr + i * PAGE_SIZE),
            decreases NUM_MEGA_PAGES - i,
        {
            self.set_is_taken(i, false);
            self.set_is_first(i, false);
            let addr = self.heap_addr + i as u64 * PAGE_SIZE;
            released.push(addr);
            proof {
                assert(self@ =~= mega_release(v0, idx as int, i + 1));
                assert(released@ =~= rel0 + page_run(self.heap_addr + idx * PAGE_SIZE, self.heap_addr + (i + 1) * PAGE_SIZE));
            }
            i = i + 1;
            if i >= NUM_MEGA_PAGES || self.get_is_first(i) || !self.get_is_taken(i) {
                break;
            }
        }
    }
}


/// Bytes in a block of size class `i`.
pub open spec fn class_block(i: int) -> int
    decreases i,
{
    if i <= 0 {
        8
    } else {
        2 * class_block(i - 1)
    }
}

/// The size class that serves `size` bytes: the first whose blocks are big enough.
pub open spec fn size_class(size: int) -> int
    recommends
        size <= 2048,
{
    choose|i: int| 0 <= i < NUM_REGIONS && class_block(i) >= size && forall|j: int| 0 <= j < i ==> class_block(j) < size
}

proof fn lemma_class_block_values()
    ensures
        class_block(0) == 8,
        class_block(1) == 16,
        class_block(2) == 32,
        class_block(3) == 64,
        class_block(4) == 128,
        class_block(5) == 256,
        class_block(6) == 512,
        class_block(7) == 1024,
        class_block(8) == 2048,
{
    reveal_with_fuel(class_block, 10);
}

/// The heap: nine size classes of blocks from 8 to 2048 bytes, each in its own
/// stretch of address space, followed by the page-granular region.
pub struct Heap {
    regions: Vec<HeapRegion>,
    mega: HeapMegaRegion,
    heap_addr: u64,
}

impl Heap {
    /// The size classes.
    pub closed spec fn regions(&self) -> Seq<HeapRegion> {
        self.regions@
    }

    /// The page-granular region.
    pub closed spec fn mega(&self) -> HeapMegaRegion {
        self.mega
    }

    /// Start of the heap's address space.
    pub closed spec fn addr(&self) -> int {
        self.heap_addr as int
    }

    /// The heap's layout and the invariants of its parts.
    pub closed spec fn wf(&self) -> bool {
        &&& self.regions.len() == NUM_REGIONS
        &&& forall|i: int|
            0 <= i < NUM_REGIONS ==> {
                &&& (#[trigger] self.regions@[i]).wf()
                &&& self.regions@[i].block() == class_block(i)
                &&& self.regions@[i].bitset_base() == self.heap_addr + 2 * i * HEAP_REGION_SIZE
                &&& self.regions@[i].base() == self.heap_addr + (2 * i + 1) * HEAP_REGION_SIZE
            }
        &&& self.mega.wf()
        &&& self.mega.bitset() == self.heap_addr + 2 * NUM_REGIONS * HEAP_REGION_SIZE
        &&& self.mega.heap() == self.mega.bitset() + PAGE_SIZE
        &&& self.heap_addr + 2 * NUM_REGIONS * HEAP_REGION_SIZE + PAGE_SIZE + NUM_MEGA_PAGES * PAGE_SIZE <= u64::MAX
    }

    /// The heap can serve `size` bytes without running out of room.
    pub open spec fn can_serve(&self, size: int) -> bool {
        if size <= 2048 {
            let r = self.regions()[size_class(size)];
            crate::std_lib::bitset::zeros(r@).len() > 0 || (r@.len() + 1) * r.block() <= HEAP_REGION_SIZE
        } else {
            exists|m: int| #[trigger] mega_run_free(self.mega()@, m, spec_div_ceil(size, PAGE_SIZE as int))
        }
    }
}

/// Address `a` lies in a block or a page that the heap has handed out and not taken back.
pub open spec fn heap_holds(heap: Heap, a: int) -> bool {
    ||| exists|c: int, i: int|
        0 <= c < NUM_REGIONS && 0 <= i < heap.regions()[c]@.len() && #[trigger] heap.regions()[c]@[i]
            && heap.regions()[c].base() + i * class_block(c) <= a < heap.regions()[c].base() + (i + 1) * class_block(c)
    ||| exists|l: int|
        0 <= l < heap.mega()@.len() && (#[trigger] heap.mega()@[l]).0 && heap.mega().heap() + l * PAGE_SIZE <= a
            < heap.mega().heap() + (l + 1) * PAGE_SIZE
}

/// Blocks of every size class have between 8 and 2048 bytes.
proof fn lemma_class_block_range(c: int)
    requires
        0 <= c < NUM_REGIONS,
    ensures
        8 <= class_block(c) <= 2048,
{
    lemma_class_block_values();
    assert(c == 0 || c == 1 || c == 2 || c == 3 || c == 4 || c == 5 || c == 6 || c == 7 || c == 8);
}

/// Two runs of `len` units, starting at multiples `i` and `j` of `len` from `base`, that
/// share the unit `a` are the same run.
proof fn lemma_same_slot(base: int, len: int, i: int, j: int, a: int)
    requires
        len > 0,
        base + i * len <= a < base + (i + 1) * len,
        base + j * len <= a < base + (j + 1) * len,
    ensures
        i == j,
{
    if i < j {
        assert((i + 1) * len <= j * len) by (nonlinear_arith)
            requires
                i + 1 <= j,
                len > 0,
        ;
    }
    if j < i {
        assert((j + 1) * len <= i * len) by (nonlinear_arith)
            requires
                j + 1 <= i,
                len > 0,
        ;
    }
}

/// Block `i` of size class `c`, where the class has room for it, lies in that class's
/// stretch of address space.
proof fn lemma_block_span(heap: Heap, c: int, i: int, a: int)
    requires
        heap.wf(),
        0 <= c < NUM_REGIONS,
        0 <= i,
        (i + 1) * class_block(c) <= HEAP_REGION_SIZE,
        heap.regions()[c].base() + i * class_block(c) <= a < heap.regions()[c].base() + (i + 1) * class_block(c),
    ensures
        heap.addr() + (2 * c + 1) * HEAP_REGION_SIZE <= a < heap.addr() + (2 * c + 2) * HEAP_REGION_SIZE,
{
    assert(heap.regions@[c].wf());
    lemma_class_block_range(c);
    assert(0 <= i * class_block(c)) by (nonlinear_arith)
        requires
            0 <= i,
            0 < class_block(c),
    ;
}

/// A block taken by the heap lies in the stretch of its size class.
proof fn lemma_taken_block_span(heap: Heap, c: int, i: int, a: int)
    requires
        heap.wf(),
        0 <= c < NUM_REGIONS,
        0 <= i < heap.regions()[c]@.len(),
        heap.regions()[c].base() + i * class_block(c) <= a < heap.regions()[c].base() + (i + 1) * class_block(c),
    ensures
        heap.addr() + (2 * c + 1) * HEAP_REGION_SIZE <= a < heap.addr() + (2 * c + 2) * HEAP_REGION_SIZE,
{
    assert(heap.regions@[c].wf());
    assert(heap.regions@[c].block() == class_block(c));
    lemma_class_block_range(c);
    let n = heap.regions()[c]@.len() as int;
    assert((i + 1) * class_block(c) <= n * class_block(c)) by (nonlinear_arith)
        requires
            i + 1 <= n,
            0 < class_block(c),
    ;
    lemma_block_span(heap, c, i, a);
}

/// The page-granular region lies above every size class.
proof fn lemma_mega_above(heap: Heap, a: int)
    requires
        heap.wf(),
        heap.mega().heap() <= a,
    ensures
        !exists|c: int, i: int|
            0 <= c < NUM_REGIONS && 0 <= i < heap.regions()[c]@.len() && #[trigger] heap.regions()[c]@[i]
                && heap.regions()[c].base() + i * class_block(c) <= a < heap.regions()[c].base() + (i + 1) * class_block(c),
{
    if exists|c: int, i: int|
        0 <= c < NUM_REGIONS && 0 <= i < heap.regions()[c]@.len() && #[trigger] heap.regions()[c]@[i]
            && heap.regions()[c].base() + i * class_block(c) <= a < heap.regions()[c].base() + (i + 1) * class_block(c) {
        let (c, i) = choose|c: int, i: int|
            0 <= c < NUM_REGIONS && 0 <= i < heap.regions()[c]@.len() && #[trigger] heap.regions()[c]@[i]
                && heap.regions()[c].base() + i * class_block(c) <= a < heap.regions()[c].base() + (i + 1) * class_block(c);
        lemma_taken_block_span(heap, c, i, a);
    }
}

/// A block handed out by a size class was held by nobody before and is held after.
proof fn lemma_small_fresh(h0: Heap, h1: Heap, c: int, i: int, r: int, size: int, a: int)
    requires
        h0.wf(),
        h1.wf(),
        h1.addr() == h0.addr(),
        0 <= c < NUM_REGIONS,
        h1.mega() == h0.mega(),
        block_taken(h0.regions()[c]@, h1.regions()[c]@, i),
        r == h0.regions()[c].base() + i * class_block(c),
        size <= class_block(c),
        r <= a < r + size,
    ensures
        !heap_holds(h0, a),
        heap_holds(h1, a),
{
    let b = class_block(c);
    lemma_class_block_range(c);
    assert(h0.regions@[c].wf());
    assert(h1.regions@[c].wf());
    assert(h1.regions()[c].base() == h0.regions()[c].base());
    let v0 = h0.regions()[c]@;
    let v1 = h1.regions()[c]@;
    assert(v1.len() == v0.len() || v1.len() == v0.len() + 1);
    assert(i < v1.len());
    assert(v1[i]);
    assert((i + 1) * b == i * b + b) by (nonlinear_arith);
    assert(h1.regions()[c].base() + i * b <= a < h1.regions()[c].base() + (i + 1) * b);
    assert(0 <= c < NUM_REGIONS && 0 <= i < h1.regions()[c]@.len() && h1.regions()[c]@[i]
        && h1.regions()[c].base() + i * class_block(c) <= a < h1.regions()[c].base() + (i + 1) * class_block(c));
    lemma_taken_block_span(h1, c, i, a);
    if exists|c2: int, i2: int|
        0 <= c2 < NUM_REGIONS && 0 <= i2 < h0.regions()[c2]@.len() && #[trigger] h0.regions()[c2]@[i2]
            && h0.regions()[c2].base() + i2 * class_block(c2) <= a < h0.regions()[c2].base() + (i2 + 1) * class_block(c2) {
        let (c2, i2) = choose|c2: int, i2: int|
            0 <= c2 < NUM_REGIONS && 0 <= i2 < h0.regions()[c2]@.len() && #[trigger] h0.regions()[c2]@[i2]
                && h0.regions()[c2].base() + i2 * class_block(c2) <= a < h0.regions()[c2].base() + (i2 + 1) * class_block(c2);
        lemma_taken_block_span(h0, c2, i2, a);
        assert(c2 == c);
        lemma_same_slot(h0.regions()[c].base(), b, i, i2, a);
    }
    assert(h0.mega().heap() > a);
}

/// `n` pages, `n` the byte count rounded up to pages, hold the byte count.
proof fn lemma_pages_hold(size: int)
    requires
        size >= 0,
    ensures
        size <= spec_div_ceil(size, PAGE_SIZE as int) * PAGE_SIZE,
{
    let n = spec_div_ceil(size, PAGE_SIZE as int);
    let p = PAGE_SIZE as int;
    vstd::arithmetic::div_mod::lemma_fundamental_div_mod(size + p - 1, p);
    vstd::arithmetic::div_mod::lemma_mod_bound(size + p - 1, p);
    assert(size + p - 1 == p * n + (size + p - 1) % p);
}

/// Pages handed out by the page-granular region were held by nobody before and are
/// held after.
proof fn lemma_mega_fresh(h0: Heap, h1: Heap, l: int, n: int, r: int, size: int, a: int)
    requires
        h0.wf(),
        h1.wf(),
        h1.addr() == h0.addr(),
        h1.regions() == h0.regions(),
        mega_run_free(h0.mega()@, l, n),
        h1.mega()@ == mega_mark(h0.mega()@, l, n),
        r == h0.mega().heap() + l * PAGE_SIZE,
        size <= n * PAGE_SIZE,
        r <= a < r + size,
    ensures
        !heap_holds(h0, a),
        heap_holds(h1, a),
{
    let base = h0.mega().heap();
    let p = PAGE_SIZE as int;
    assert(h1.mega().heap() == base);
    let k = (a - base) / p;
    vstd::arithmetic::div_mod::lemma_fundamental_div_mod(a - base, p);
    vstd::arithmetic::div_mod::lemma_mod_bound(a - base, p);
    assert(base + k * p <= a < base + (k + 1) * p) by (nonlinear_arith)
        requires
            a - base == p * k + (a - base) % p,
            0 <= (a - base) % p < p,
    ;
    assert(l * p <= a - base < (l + n) * p) by (nonlinear_arith)
        requires
            r == base + l * p,
            size <= n * p,
            r <= a < r + size,
    ;
    assert(l <= k < l + n) by {
        if k < l {
            assert((k + 1) * p <= l * p) by (nonlinear_arith)
                requires
                    k + 1 <= l,
                    p > 0,
            ;
        }
        if k >= l + n {
            assert((l + n) * p <= k * p) by (nonlinear_arith)
                requires
                    l + n <= k,
                    p > 0,
            ;
        }
    }
    assert(h1.mega()@[k].0);
    assert(0 <= k < h1.mega()@.len() && h1.mega()@[k].0 && h1.mega().heap() + k * PAGE_SIZE <= a
        < h1.mega().heap() + (k + 1) * PAGE_SIZE);
    lemma_mega_above(h0, a);
    if exists|l2: int|
        0 <= l2 < h0.mega()@.len() && (#[trigger] h0.mega()@[l2]).0 && h0.mega().heap() + l2 * PAGE_SIZE <= a
            < h0.mega().heap() + (l2 + 1) * PAGE_SIZE {
        let l2 = choose|l2: int|
            0 <= l2 < h0.mega()@.len() && (#[trigger] h0.mega()@[l2]).0 && h0.mega().heap() + l2 * PAGE_SIZE <= a
                < h0.mega().heap() + (l2 + 1) * PAGE_SIZE;
        lemma_same_slot(base, p, k, l2, a);
        assert(!h0.mega()@[k].0);
    }
}

/// Lays out an empty heap at `heap_addr`. The pages to back are appended to `pages`.
pub fn init_malloc(heap_addr: u64, pages: &mut Vec<u64>) -> (r: Heap)
    requires
        heap_addr + 2 * NUM_REGIONS * HEAP_REGION_SIZE + PAGE_SIZE + NUM_MEGA_PAGES * PAGE_SIZE <= u64::MAX,
    ensures
        r.wf(),
        r.addr() == heap_addr,
        forall|i: int| 0 <= i < NUM_REGIONS ==> (#[trigger] r.regions()[i])@ == Seq::<bool>::empty(),
        r.mega()@ == Seq::new(NUM_MEGA_PAGES as nat, |i: int| (false, false)),
        r.mega().curr() == 0,
        final(pages)@ == old(pages)@.push((heap_addr + 2 * NUM_REGIONS * HEAP_REGION_SIZE) as u64),
{
    let mut regions: Vec<HeapRegion> = Vec::new();
    let mut i: usize = 0;
    let mut block: u64 = 8;
    while i < NUM_REGIONS
        invariant
            i <= NUM_REGIONS,
            regions.len() == i,
            block == class_block(i as int),
            heap_addr + 2 * NUM_REGIONS * HEAP_REGION_SIZE + PAGE_SIZE + NUM_MEGA_PAGES * PAGE_SIZE <= u64::MAX,
            forall|k: int|
                0 <= k < i ==> {
                    &&& (#[trigger] regions@[k]).wf()
                    &&& regions@[k].block() == class_block(k)
                    &&& regions@[k].bitset_base() == heap_addr + 2 * k * HEAP_REGION_SIZE
                    &&& regions@[k].base() == heap_addr + (2 * k + 1) * HEAP_REGION_SIZE
                    &&& regions@[k]@ == Seq::<bool>::empty()
                },
        decreases NUM_REGIONS - i,
    {
        proof {
            lemma_class_block_values();
        }
        let addr = heap_addr + (2 * i as u64) * HEAP_REGION_SIZE;
        let region = HeapRegion::new(addr, block);
        regions.push(region);
        proof {
            assert(class_block(i + 1) == 2 * class_block(i as int));
        }
        block = block * 2;
        i = i + 1;
    }
    let mega = HeapMegaRegion::new(heap_addr + 2 * (NUM_REGIONS as u64) * HEAP_REGION_SIZE, pages);
    Heap { regions, mega, heap_addr }
}

/// Allocates `size` bytes: a block of the first size class that fits, or whole pages
/// of the page-granular region. The pages to back are appended to `pages`.
pub fn malloc(heap: &mut Heap, size: usize, pages: &mut Vec<u64>) -> (r: u64)
    requires
        old(heap).wf(),
        old(heap).can_serve(size as int),
    ensures
        final(heap).wf(),
        final(heap).addr() == old(heap).addr(),
        forall|a: int| r <= a < r + size ==> !heap_holds(*old(heap), a) && heap_holds(*final(heap), a),
        size <= 2048 ==> {
            let c = size_class(size as int);
            &&& final(heap).mega() == old(heap).mega()
            &&& forall|j: int| 0 <= j < NUM_REGIONS && j != c ==> #[trigger] final(heap).regions()[j] == old(heap).regions()[j]
            &&& exists|i: int|
                #[trigger] block_taken(old(heap).regions()[c]@, final(heap).regions()[c]@, i) && r == old(heap).regions()[c].base()
                    + i * class_block(c)
            &&& r + class_block(c) <= final(heap).regions()[c].heap_frontier()
            &&& final(pages)@ == old(pages)@ + page_run(old(heap).regions()[c].bitset_frontier(), final(heap).regions()[c].bitset_frontier())
                + page_run(old(heap).regions()[c].heap_frontier(), final(heap).regions()[c].heap_frontier())
        },
        size > 2048 ==> {
            let n = spec_div_ceil(size as int, PAGE_SIZE as int);
            &&& final(heap).regions() == old(heap).regions()
            &&& exists|l: int|
                #![trigger mega_choice(old(heap).mega()@, old(heap).mega().curr(), n, l)]
                mega_choice(old(heap).mega()@, old(heap).mega().curr(), n, l) && r == old(heap).mega().heap() + l * PAGE_SIZE
                    && final(heap).mega()@ == mega_mark(old(heap).mega()@, l, n) && final(heap).mega().curr() == l + n
                    && final(pages)@ == old(pages)@ + page_run(old(heap).mega().heap() + l * PAGE_SIZE, old(heap).mega().heap() + (l + n) * PAGE_SIZE)
        },
{
    proof {
        lemma_class_block_values();
    }
    let mut i: usize = 0;
    let mut curr_size: u64 = 8;
    while i < NUM_REGIONS
        invariant
            i <= NUM_REGIONS,
            curr_size == class_block(i as int),
            forall|j: int| 0 <= j < i ==> class_block(j) < size,
            heap == old(heap),
            pages == old(pages),
            heap.wf(),
            heap.can_serve(size as int),
        decreases NUM_REGIONS - i,
    {
        proof {
            lemma_class_block_values();
        }
        if curr_size >= size as u64 {
            proof {
                assert(size <= 2048);
                assert(0 <= i < NUM_REGIONS && class_block(i as int) >= size && forall|j: int| 0 <= j < i ==> class_block(j) < size);
                let c = size_class(size as int);
                assert(c == i) by {
                    if c < i {
                        assert(class_block(c) < size);
                    }
                    if c > i {
                        assert(class_block(i as int) < size);
                    }
                }
                assert(heap.regions@[i as int].wf());
            }
            let ghost old_regions = heap.regions@;
            let r = heap.regions[i].allocate(pages);
            proof {
                assert forall|j: int| 0 <= j < NUM_REGIONS implies {
                    &&& (#[trigger] heap.regions@[j]).wf()
                    &&& heap.regions@[j].block() == class_block(j)
                    &&& heap.regions@[j].bitset_base() == heap.heap_addr + 2 * j * HEAP_REGION_SIZE
                    &&& heap.regions@[j].base() == heap.heap_addr + (2 * j + 1) * HEAP_REGION_SIZE
                } by {
                    if j != i {
                        assert(heap.regions@[j] == old_regions[j]);
                    }
                }
                let c = i as int;
                let k = choose|k: int|
                    #[trigger] block_taken(old_regions[c]@, heap.regions@[c]@, k) && r == old_regions[c].base() + k
                        * old_regions[c].block();
                assert(block_taken(old(heap).regions()[c]@, heap.regions()[c]@, k));
                assert(r == old(heap).regions()[c].base() + k * class_block(c));
                assert(size_class(size as int) == c);
                assert(heap.mega == old(heap).mega);
                assert(forall|j: int| 0 <= j < NUM_REGIONS && j != c ==> #[trigger] heap.regions()[j] == old(heap).regions()[j]);
                assert(r + class_block(c) <= heap.regions()[c].heap_frontier());
                assert(pages@ == old(pages)@ + page_run(old(heap).regions()[c].bitset_frontier(), heap.regions()[c].bitset_frontier())
                    + page_run(old(heap).regions()[c].heap_frontier(), heap.regions()[c].heap_frontier()));
                assert(heap.wf());
                assert forall|a: int| r <= a < r + size implies !heap_holds(*old(heap), a) && heap_holds(*heap, a) by {
                    lemma_small_fresh(*old(heap), *heap, c, k, r as int, size as int, a);
                }
            }
            return r;
        }
        proof {
            assert(class_block(i + 1) == 2 * class_block(i as int));
        }
        curr_size = curr_size * 2;
        i = i + 1;
    }
    proof {
        assert(class_block(8) < size);
    }
    let n = div_ceil(size as u64, PAGE_SIZE);
    assert(n <= size);
    assert((n as usize) as int == n as int);
    let ghost m0 = heap.mega;
    let ghost p0 = pages@;
    assert(m0 == old(heap).mega);
    assert(p0 == old(pages)@);
    let r = heap.mega.allocate(n as usize, pages);
    proof {
        let l = choose|l: int|
            #![trigger mega_choice(m0@, m0.curr(), n as int, l)]
            mega_choice(m0@, m0.curr(), n as int, l) && r == m0.heap() + l * PAGE_SIZE && heap.mega@ == mega_mark(
                m0@,
                l,
                n as int,
            ) && heap.mega.curr() == l + n && pages@ == old(pages)@ + page_run(
                m0.heap() + l * PAGE_SIZE,
                m0.heap() + (l + n) * PAGE_SIZE,
            );
        assert(mega_choice(old(heap).mega()@, old(heap).mega().curr(), n as int, l));
        lemma_pages_hold(size as int);
        assert(heap.wf());
        assert forall|a: int| r <= a < r + size implies !heap_holds(*old(heap), a) && heap_holds(*heap, a) by {
            lemma_mega_fresh(*old(heap), *heap, l, n as int, r as int, size as int, a);
        }
    }
    r
}

/// Gives back the allocation at `ptr`; pages given back are appended to `released`.
pub fn free(heap: &mut Heap, ptr: u64, released: &mut Vec<u64>)
    requires
        old(heap).wf(),
        old(heap).addr() <= ptr,
        (ptr - old(heap).addr()) / (2 * HEAP_REGION_SIZE as int) <= NUM_REGIONS,
        (ptr - old(heap).addr()) / (2 * HEAP_REGION_SIZE as int) == NUM_REGIONS ==> {
            let m = old(heap).mega();
            let idx = (ptr - m.heap()) / (PAGE_SIZE as int);
            &&& m.heap() <= ptr
            &&& idx < NUM_MEGA_PAGES
            &&& m@[idx].0 && m@[idx].1
        },
        (ptr - old(heap).addr()) / (2 * HEAP_REGION_SIZE as int) < NUM_REGIONS ==> {
            let rg = old(heap).regions()[(ptr - old(heap).addr()) / (2 * HEAP_REGION_SIZE as int)];
            &&& rg.base() <= ptr
            &&& (ptr - rg.base()) / rg.block() < rg@.len()
        },
    ensures
        final(heap).wf(),
        final(heap).addr() == old(heap).addr(),
        ({
            let c = (ptr - old(heap).addr()) / (2 * HEAP_REGION_SIZE as int);
            if c == NUM_REGIONS {
                let m = old(heap).mega();
                let idx = (ptr - m.heap()) / (PAGE_SIZE as int);
                &&& final(heap).regions() == old(heap).regions()
                &&& exists|e: int|
                    #![trigger mega_alloc_end(m@, idx, e)]
                    mega_alloc_end(m@, idx, e) && final(heap).mega()@ == mega_release(m@, idx, e)
                        && final(released)@ == old(released)@ + page_run(m.heap() + idx * PAGE_SIZE, m.heap() + e * PAGE_SIZE)
            } else {
                let rg = old(heap).regions()[c];
                &&& final(heap).mega() == old(heap).mega()
                &&& final(released)@ == old(released)@
                &&& forall|j: int| 0 <= j < NUM_REGIONS && j != c ==> #[trigger] final(heap).regions()[j] == old(heap).regions()[j]
                &&& final(heap).regions()[c]@ == rg@.update((ptr - rg.base()) / rg.block(), false)
            }
        }),
{
    let region_idx = (ptr - heap.heap_addr) / (2 * HEAP_REGION_SIZE);
    if region_idx == NUM_REGIONS as u64 {
        let idx = (ptr - heap.mega.heap_addr) / PAGE_SIZE;
        heap.mega.free(idx as usize, released);
        return;
    }
    let ghost old_regions = heap.regions@;
    assert(heap.regions@[region_idx as int].wf());
    heap.regions[region_idx as usize].free(ptr);
    proof {
        assert forall|j: int| 0 <= j < NUM_REGIONS implies {
            &&& (#[trigger] heap.regions@[j]).wf()
            &&& heap.regions@[j].block() == class_block(j)
            &&& heap.regions@[j].bitset_base() == heap.heap_addr + 2 * j * HEAP_REGION_SIZE
            &&& heap.regions@[j].base() == heap.heap_addr + (2 * j + 1) * HEAP_REGION_SIZE
        } by {
            if j != region_idx {
                assert(heap.regions@[j] == old_regions[j]);
            }
        }
    }
}

} // verus!
