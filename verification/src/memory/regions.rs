use vstd::prelude::*;

verus! {

/// Bytes in a page.
pub const PAGE_SIZE: u64 = 4096;

/// What a region of physical memory holds, as the boot loader reports it: memory the
/// kernel may use, the boot loader's own mappings, a firmware memory type (UEFI or
/// BIOS E820) the boot loader did not know, or a kind this library does not know.
#[derive(Clone, Copy, Debug, PartialEq, Eq, Structural)]
pub enum RegionKind {
    Usable,
    Bootloader,
    UnknownUefi(u32),
    UnknownBios(u32),
    Unknown,
}

/// A region of physical memory as the boot loader reports it: where it starts,
/// where it ends (exclusive), and what it holds.
#[derive(Clone, Copy, Debug)]
pub struct Region {
    pub start: u64,
    pub end: u64,
    pub kind: RegionKind,
}

/// Declares the boot loader's memory region to Verus.
#[verifier::external_type_specification]
#[verifier::external_body]
pub struct ExMemoryRegion(bootloader_api::info::MemoryRegion);

/// The region that a boot loader region describes: its `start` and `end` fields,
/// and its `kind` field, variant for variant.
pub uninterp spec fn region_model(r: bootloader_api::info::MemoryRegion) -> Region;

/// The regions that the boot loader regions `regions` describe, in order.
pub open spec fn regions_model(regions: Seq<bootloader_api::info::MemoryRegion>) -> Seq<Region> {
    Seq::new(regions.len(), |i: int| region_model(regions[i]))
}

/// Reads the public fields `start`, `end` and `kind` of
/// `bootloader_api::info::MemoryRegion`, each variant of `MemoryRegionKind` to the
/// variant of `RegionKind` of its name, its field moved over; a variant added to that
/// `non_exhaustive` enum after this version becomes `Unknown`. The contract claims
/// only that the result is a function of the region (`region_model`): Verus sees no
/// field of the outside type, which is declared opaque to it.
#[verifier::external_body]
fn region_of(r: &bootloader_api::info::MemoryRegion) -> (res: Region)
    ensures
        res == region_model(*r),
{
    let kind = match r.kind {
        bootloader_api::info::MemoryRegionKind::Usable => RegionKind::Usable,
        bootloader_api::info::MemoryRegionKind::Bootloader => RegionKind::Bootloader,
        bootloader_api::info::MemoryRegionKind::UnknownUefi(t) => RegionKind::UnknownUefi(t),
        bootloader_api::info::MemoryRegionKind::UnknownBios(t) => RegionKind::UnknownBios(t),
        _ => RegionKind::Unknown,
    };
    Region { start: r.start, end: r.end, kind }
}

/// Whether the region is one the kernel may use freely: usable memory that does not
/// start at address zero.
pub fn is_free_region(r: &Region) -> (b: bool)
    ensures
        b == free_region(*r),
{
    let usable = match r.kind {
        RegionKind::Usable => true,
        _ => false,
    };
    usable && r.start != 0
}

/// The highest end of the regions, or zero where there are none.
pub open spec fn highest_end(rs: Seq<Region>) -> nat
    decreases rs.len(),
{
    if rs.len() == 0 {
        0
    } else {
        let h = highest_end(rs.drop_last());
        if rs.last().end > h {
            rs.last().end as nat
        } else {
            h
        }
    }
}

/// The page holding address `x`.
pub open spec fn page_of(x: int) -> int {
    x / 4096
}

/// `x / PAGE_SIZE` rounded up.
pub open spec fn pages_up(x: int) -> int {
    (x + 4095) / 4096
}

/// Pages the bitmap of `n` pages takes, at one bit a page.
pub open spec fn bitmap_pages(n: int) -> int {
    (n + 32767) / 32768
}

/// A region the kernel may use that starts above address zero.
pub open spec fn free_region(r: Region) -> bool {
    r.kind == RegionKind::Usable && r.start != 0
}

/// The region can hold the bitmap: a region the kernel may use, whose whole pages
/// number at least `need`.
pub open spec fn holds_bitmap(r: Region, need: int) -> bool {
    free_region(r) && page_of(r.end as int) - pages_up(r.start as int) >= need
}

/// The first region that can hold the bitmap.
pub open spec fn first_fit(rs: Seq<Region>, need: int) -> Option<int> {
    if exists|i: int| 0 <= i < rs.len() && holds_bitmap(#[trigger] rs[i], need) {
        Some(choose|i: int| 0 <= i < rs.len() && holds_bitmap(#[trigger] rs[i], need) && forall|j: int| 0 <= j < i ==> !holds_bitmap(#[trigger] rs[j], need))
    } else {
        None
    }
}

/// Page `p` lies in a region that is not free, counted in whole pages outwards.
pub open spec fn in_reserved_region(rs: Seq<Region>, p: int) -> bool {
    exists|i: int| 0 <= i < rs.len() && !free_region(#[trigger] rs[i]) && page_of(rs[i].start as int) <= p < pages_up(rs[i].end as int)
}

/// How the kernel lays out physical memory: the number of pages, where the bitmap of
/// used pages lies and how many pages it takes, and which pages are used.
pub struct MemoryPlan {
    pub num_pages: u64,
    pub bitset_addr: u64,
    pub bitset_pages: u64,
    pub used: Vec<bool>,
}

/// The regions are such that laying memory out never computes out of range: the
/// whole pages of each free region are counted from its first to its last, every
/// end leaves room for rounding up, and every page of a reserved region lies within
/// the bitmap (rounded up to 64 pages).
pub open spec fn regions_ok(rs: Seq<Region>) -> bool {
    let n = page_of(highest_end(rs) as int);
    &&& forall|i: int| 0 <= i < rs.len() ==> (#[trigger] rs[i]).end + PAGE_SIZE <= u64::MAX
    &&& forall|i: int| 0 <= i < rs.len() && free_region(#[trigger] rs[i]) ==> pages_up(rs[i].start as int) <= page_of(rs[i].end as int)
    &&& forall|i: int| 0 <= i < rs.len() && !free_region(#[trigger] rs[i]) ==> pages_up(rs[i].end as int) <= (n + 63) / 64 * 64
    &&& (n + 63) / 64 * 64 <= usize::MAX
}

/// The plan that `plan_memory` makes of the regions `rs`, the bitmap going to the
/// region at index `i`.
pub open spec fn plan_matches(rs: Seq<Region>, i: int, plan: MemoryPlan) -> bool {
    let n = page_of(highest_end(rs) as int);
    let first = pages_up(rs[i].start as int);
    &&& plan.num_pages == n
    &&& plan.bitset_pages == bitmap_pages(n)
    &&& plan.bitset_addr == first * PAGE_SIZE
    &&& plan.used@.len() == (n + 63) / 64 * 64
    &&& forall|p: int| 0 <= p < plan.used@.len() ==> #[trigger] plan.used@[p] == (first <= p < first + bitmap_pages(n)
        || in_reserved_region(rs, p))
}

/// The highest end of the regions.
fn highest_address(rs: &Vec<Region>) -> (r: u64)
    ensures
        r == highest_end(rs@),
{
    let mut h: u64 = 0;
    let mut i: usize = 0;
    while i < rs.len()
        invariant
            i <= rs.len(),
            h == highest_end(rs@.subrange(0, i as int)),
        decreases rs.len() - i,
    {
        proof {
            assert(rs@.subrange(0, i + 1).drop_last() =~= rs@.subrange(0, i as int));
        }
        if rs[i].end > h {
            h = rs[i].end;
        }
        i = i + 1;
    }
    assert(rs@.subrange(0, rs.len() as int) =~= rs@);
    h
}

/// Lays out physical memory for the regions `rs`: the bitmap of used pages goes to
/// the first free region with enough whole pages, and the pages of the bitmap and of
/// every region not free are marked used. `None` where no region can hold the
/// bitmap.
pub fn plan_memory(rs: &Vec<Region>) -> (r: Option<MemoryPlan>)
    requires
        regions_ok(rs@),
    ensures
        match first_fit(rs@, bitmap_pages(page_of(highest_end(rs@) as int))) {
            None => r is None,
            Some(i) => r matches Some(plan) && plan_matches(rs@, i, plan),
        },
{
    let highest = highest_address(rs);
    let n = highest / PAGE_SIZE;
    let need = (n + 8 * PAGE_SIZE - 1) / (8 * PAGE_SIZE);
    let ghost need_i = need as int;
    let mut found: Option<usize> = None;
    let mut i: usize = 0;
    while i < rs.len()
        invariant
            i <= rs.len(),
            regions_ok(rs@),
            need_i == need,
            found is None ==> forall|j: int| 0 <= j < i ==> !holds_bitmap(#[trigger] rs@[j], need_i),
            found matches Some(f) ==> f < rs.len() && holds_bitmap(rs@[f as int], need_i) && forall|j: int| 0 <= j < f ==> !holds_bitmap(#[trigger] rs@[j], need_i),
        decreases rs.len() - i,
    {
        if found.is_none() {
            let reg = rs[i];
            if is_free_region(&reg) {
                let start_page = (reg.start + PAGE_SIZE - 1) / PAGE_SIZE;
                let end_page = reg.end / PAGE_SIZE;
                if end_page - start_page >= need {
                    found = Some(i);
                }
            }
        }
        i = i + 1;
    }
    let f = match found {
        None => {
            proof {
                assert(!exists|j: int| 0 <= j < rs@.len() && holds_bitmap(#[trigger] rs@[j], need_i));
            }
            return None;
        },
        Some(f) => f,
    };
    proof {
        let w = choose|j: int| 0 <= j < rs@.len() && holds_bitmap(#[trigger] rs@[j], need_i) && forall|k: int| 0 <= k < j ==> !holds_bitmap(#[trigger] rs@[k], need_i);
        assert(holds_bitmap(rs@[f as int], need_i));
        if w < f {
            assert(!holds_bitmap(rs@[w], need_i));
        }
        if f < w {
            assert(!holds_bitmap(rs@[f as int], need_i));
        }
        assert(w == f);
    }
    let first = (rs[f].start + PAGE_SIZE - 1) / PAGE_SIZE;
    assert(first + need <= rs@[f as int].end / 4096);
    let size = ((n + 63) / 64 * 64) as usize;
    let mut used: Vec<bool> = Vec::new();
    let mut p: usize = 0;
    while p < size
        invariant
            p <= size,
            size == (n + 63) / 64 * 64,
            first + need <= u64::MAX,
            used@.len() == p,
            forall|q: int| 0 <= q < p ==> #[trigger] used@[q] == (first <= q < first + need),
        decreases size - p,
    {
        used.push(first <= p as u64 && (p as u64) < first + need);
        p = p + 1;
    }
    let mut j: usize = 0;
    while j < rs.len()
        invariant
            j <= rs.len(),
            regions_ok(rs@),
            n == page_of(highest_end(rs@) as int),
            size == (n + 63) / 64 * 64,
            used@.len() == size,
            forall|q: int| 0 <= q < size ==> #[trigger] used@[q] == (first <= q < first + need || in_reserved_region(
                rs@.subrange(0, j as int),
                q,
            )),
        decreases rs.len() - j,
    {
        let reg = rs[j];
        let ghost before = used@;
        if !is_free_region(&reg) {
            let start_page = reg.start / PAGE_SIZE;
            let end_page = (reg.end + PAGE_SIZE - 1) / PAGE_SIZE;
            let mut page = start_page;
            while page < end_page
                invariant
                    start_page <= page,
                    page == start_page || page <= end_page,
                    end_page <= size,
                    used@.len() == size,
                    forall|q: int| 0 <= q < size ==> #[trigger] used@[q] == (before[q] || (start_page <= q < page)),
                decreases end_page - page,
            {
                used.set(page as usize, true);
                page = page + 1;
            }
        }
        proof {
            let sub = rs@.subrange(0, j + 1);
            assert forall|q: int| 0 <= q < size implies #[trigger] used@[q] == (first <= q < first + need || in_reserved_region(sub, q)) by {
                if in_reserved_region(rs@.subrange(0, j as int), q) {
                    let w = choose|w: int| 0 <= w < j && !free_region(#[trigger] rs@.subrange(0, j as int)[w]) && page_of(rs@.subrange(0, j as int)[w].start as int) <= q < pages_up(rs@.subrange(0, j as int)[w].end as int);
                    assert(sub[w] == rs@[w]);
                }
                if in_reserved_region(sub, q) {
                    let w = choose|w: int| 0 <= w < j + 1 && !free_region(#[trigger] sub[w]) && page_of(sub[w].start as int) <= q < pages_up(sub[w].end as int);
                    if w < j {
                        assert(rs@.subrange(0, j as int)[w] == rs@[w]);
                    }
                }
                if !free_region(reg) && page_of(reg.start as int) <= q < pages_up(reg.end as int) {
                    assert(sub[j as int] == reg);
                }
            }
        }
        j = j + 1;
    }
    assert(rs@.subrange(0, rs.len() as int) =~= rs@);
    Some(MemoryPlan { num_pages: n, bitset_addr: first * PAGE_SIZE, bitset_pages: need, used })
}

/// Whether laying out memory for `rs` stays in range.
pub fn check_regions(rs: &Vec<Region>) -> (r: bool)
    ensures
        r == regions_ok(rs@),
{
    let highest = highest_address(rs);
    let n = highest / PAGE_SIZE;
    let size = (n + 63) / 64 * 64;
    if size > usize::MAX as u64 {
        return false;
    }
    let mut i: usize = 0;
    while i < rs.len()
        invariant
            i <= rs.len(),
            n == page_of(highest_end(rs@) as int),
            size == (n + 63) / 64 * 64,
            size <= usize::MAX,
            forall|j: int| 0 <= j < i ==> {
                &&& (#[trigger] rs@[j]).end + PAGE_SIZE <= u64::MAX
                &&& free_region(rs@[j]) ==> pages_up(rs@[j].start as int) <= page_of(rs@[j].end as int)
                &&& !free_region(rs@[j]) ==> pages_up(rs@[j].end as int) <= size
            },
        decreases rs.len() - i,
    {
        let reg = rs[i];
        if reg.end > u64::MAX - PAGE_SIZE {
            return false;
        }
        if is_free_region(&reg) {
            let start_page = reg.start / PAGE_SIZE + if reg.start % PAGE_SIZE != 0 { 1 } else { 0 };
            if start_page > reg.end / PAGE_SIZE {
                return false;
            }
        } else {
            let end_page = reg.end / PAGE_SIZE + if reg.end % PAGE_SIZE != 0 { 1 } else { 0 };
            if end_page > size {
                return false;
            }
        }
        i = i + 1;
    }
    true
}

/// Lays out physical memory for the boot loader's regions, as `plan_memory` does for
/// the regions they describe; `None` also where those regions are not in range for
/// it (see `regions_ok`).
pub fn init_memory(regions: &[bootloader_api::info::MemoryRegion]) -> (r: Option<MemoryPlan>)
    ensures
        ({
            let rs = regions_model(regions@);
            &&& r is Some <==> (regions_ok(rs) && first_fit(rs, bitmap_pages(page_of(highest_end(rs) as int))) is Some)
            &&& r matches Some(plan) ==> plan_matches(rs, first_fit(rs, bitmap_pages(page_of(highest_end(rs) as int)))->0, plan)
        }),
{
    let mut rs: Vec<Region> = Vec::new();
    let mut i: usize = 0;
    while i < regions.len()
        invariant
            i <= regions@.len(),
            rs@ == regions_model(regions@).subrange(0, i as int),
        decreases regions@.len() - i,
    {
        rs.push(region_of(&regions[i]));
        i = i + 1;
        assert(rs@ =~= regions_model(regions@).subrange(0, i as int));
    }
    assert(rs@ =~= regions_model(regions@));
    if !check_regions(&rs) {
        return None;
    }
    plan_memory(&rs)
}

} // verus!
