use vstd::prelude::*;

verus! {

use crate::elf::{
    ElfProgramHeader, ELF_HEADER_SIZE, PROGRAM_HEADER_SIZE, is_loaded, load_segment, loaded, loaded_segments,
    read_program, segment_image, segment_pages, spec_parse_header, spec_parse_program_header, spec_segment_pages,
    spec_verify_elf_header,
};
use crate::memory::page_table::{PageTables, alloc_grows, map_page_auto, mapping_entry, same_page};
use crate::memory::paging::{PageAllocator, free_count};
use crate::scheduler::{Context, NUM_PROC, Process, ProcessState, ProcTable};

/// Where the stacks of user programs start.
pub const USER_STACK: u64 = 0x1_C000_0000;
/// The page where the registers of a user program are saved.
pub const USER_CONTEXT: u64 = 0x2_0000_0000;

/// `va` is mapped to a page.
pub open spec fn mapped(t: PageTables, va: u64) -> bool {
    t.translate(va) matches Some(Some(_))
}

/// `va` is mapped to a page with exactly the permissions asked.
pub open spec fn mapped_as(t: PageTables, va: u64, writable: bool, user: bool, executable: bool) -> bool {
    exists|pa: u64| t.page_entry(va) == Some(Some(#[trigger] mapping_entry(pa, writable, user, executable)))
}

/// `va` lies in one of the pages numbered `lo .. hi`.
pub open spec fn in_pages(va: u64, lo: int, hi: int) -> bool {
    exists|q: int| lo <= q < hi && #[trigger] same_page(va, (q * 4096) as u64)
}

/// Addresses in one page have one leaf entry and one translation.
proof fn lemma_same_page(t: PageTables, va: u64, vb: u64)
    requires
        same_page(va, vb),
    ensures
        t.page_entry(va) == t.page_entry(vb),
        t.translate(va) == t.translate(vb),
{
}

/// One step of mapping a range: mapping the page of `va`, number `p`, unless it is
/// mapped already, keeps every page mapped at the start (`orig`) as it was and leaves
/// every page mapped since within the range and with the permissions asked.
proof fn lemma_map_step(
    orig: PageTables,
    before: PageTables,
    after: PageTables,
    va: u64,
    lo: int,
    p: int,
    writable: bool,
    user: bool,
    executable: bool,
)
    requires
        va == (p * 4096) as u64,
        lo <= p,
        all_translate(before),
        forall|v: u64| mapped(orig, v) ==> #[trigger] before.page_entry(v) == orig.page_entry(v),
        forall|v: u64|
            #[trigger] mapped(before, v) && !mapped(orig, v) ==> in_pages(v, lo, p) && mapped_as(before, v, writable, user, executable),
        before.translate(va) != Some(None::<u64>) ==> after.page_entry(va) == before.page_entry(va),
        before.translate(va) == Some(None::<u64>) ==> mapped_as(after, va, writable, user, executable),
        forall|vb: u64| !same_page(vb, va) ==> #[trigger] after.page_entry(vb) == before.page_entry(vb),
    ensures
        forall|v: u64| mapped(orig, v) ==> #[trigger] after.page_entry(v) == orig.page_entry(v),
        forall|v: u64|
            #[trigger] mapped(after, v) && !mapped(orig, v) ==> in_pages(v, lo, p + 1) && mapped_as(after, v, writable, user, executable),
{
    assert forall|v: u64| mapped(orig, v) implies #[trigger] after.page_entry(v) == orig.page_entry(v) by {
        if same_page(v, va) {
            lemma_same_page(before, v, va);
            lemma_same_page(after, v, va);
            lemma_same_page(orig, v, va);
        }
    }
    assert forall|v: u64|
        #[trigger] mapped(after, v) && !mapped(orig, v) implies in_pages(v, lo, p + 1) && mapped_as(after, v, writable, user, executable) by {
        if same_page(v, va) {
            lemma_same_page(before, v, va);
            lemma_same_page(after, v, va);
            lemma_same_page(orig, v, va);
            assert(lo <= p < p + 1 && same_page(v, (p * 4096) as u64));
            if before.translate(va) != Some(None::<u64>) {
                assert(mapped(before, v));
                let pa = choose|pa: u64| before.page_entry(v) == Some(Some(#[trigger] mapping_entry(pa, writable, user, executable)));
                assert(after.page_entry(v) == Some(Some(mapping_entry(pa, writable, user, executable))));
            } else {
                let pa = choose|pa: u64| after.page_entry(va) == Some(Some(#[trigger] mapping_entry(pa, writable, user, executable)));
                assert(after.page_entry(v) == Some(Some(mapping_entry(pa, writable, user, executable))));
            }
        } else {
            assert(after.page_entry(v) == before.page_entry(v));
            assert(after.translate(v) == before.translate(v));
            assert(mapped(before, v));
            assert(in_pages(v, lo, p));
            let q = choose|q: int| lo <= q < p && #[trigger] same_page(v, (q * 4096) as u64);
            assert(lo <= q < p + 1);
            let pa = choose|pa: u64| before.page_entry(v) == Some(Some(#[trigger] mapping_entry(pa, writable, user, executable)));
            assert(after.page_entry(v) == Some(Some(mapping_entry(pa, writable, user, executable))));
        }
    }
}

/// Every page of the segment `h` is mapped.
pub open spec fn segment_mapped(t: PageTables, h: ElfProgramHeader) -> bool {
    forall|q: int| spec_segment_pages(h).0 <= q < spec_segment_pages(h).1 ==> #[trigger] mapped(t, (q * 4096) as u64)
}

/// Every address translates, to a page or to nothing.
pub open spec fn all_translate(t: PageTables) -> bool {
    forall|v: u64| #[trigger] t.translate(v) is Some
}

/// The allocator takes more pages in steps: the steps add up.
proof fn lemma_alloc_grows_trans(a: &PageAllocator, b: &PageAllocator, c: &PageAllocator, n: int, m: int)
    requires
        alloc_grows(a, b, n),
        alloc_grows(b, c, m),
    ensures
        alloc_grows(a, c, n + m),
{
}

/// Pages that mapping the pages numbered `lo .. hi` in `t` takes at most: one for each
/// page, and one for each table missing on the way to it.
pub open spec fn range_need(t: PageTables, lo: int, hi: int) -> int
    decreases hi - lo,
{
    if hi <= lo {
        0
    } else {
        range_need(t, lo, hi - 1) + 1 + t.spec_missing_tables(((hi - 1) * 4096) as u64)
    }
}

/// The need of a range is the needs of its two parts.
proof fn lemma_range_need_split(t: PageTables, lo: int, p: int, hi: int)
    requires
        lo <= p <= hi,
    ensures
        range_need(t, lo, hi) == range_need(t, lo, p) + range_need(t, p, hi),
    decreases hi - p,
{
    if p < hi {
        lemma_range_need_split(t, lo, p, hi - 1);
    }
}

/// Tables only added make no range need more.
proof fn lemma_range_need_mono(a: PageTables, b: PageTables, lo: int, hi: int)
    requires
        forall|vb: u64| #[trigger] b.spec_missing_tables(vb) <= a.spec_missing_tables(vb),
    ensures
        range_need(b, lo, hi) <= range_need(a, lo, hi),
        0 <= range_need(b, lo, hi),
    decreases hi - lo,
{
    if lo < hi {
        lemma_range_need_mono(a, b, lo, hi - 1);
        assert(b.spec_missing_tables(((hi - 1) * 4096) as u64) <= a.spec_missing_tables(((hi - 1) * 4096) as u64));
        assert(b.spec_missing_tables(((hi - 1) * 4096) as u64) >= 0);
    }
}

/// Maps the pages `lo .. hi` (by number) to newly taken pages, where they are not
/// mapped yet. Each page takes a page whether it was mapped or not.
fn map_range(
    pages: &mut PageTables,
    alloc: &mut PageAllocator,
    lo: u64,
    hi: u64,
    writable: bool,
    user: bool,
    executable: bool,
)
    requires
        old(pages).wf(&*old(alloc)),
        all_translate(*old(pages)),
        hi <= 0x10_0000_0000_0000,
        lo <= hi,
        free_count(old(alloc)@) >= range_need(*old(pages), lo as int, hi as int),
    ensures
        final(pages).wf(&*final(alloc)),
        all_translate(*final(pages)),
        alloc_grows(&*old(alloc), &*final(alloc), range_need(*old(pages), lo as int, hi as int)),
        forall|vb: u64| #[trigger] final(pages).spec_missing_tables(vb) <= old(pages).spec_missing_tables(vb),
        forall|v: u64| mapped(*old(pages), v) ==> #[trigger] mapped(*final(pages), v),
        forall|q: int| lo <= q < hi ==> #[trigger] mapped(*final(pages), (q * 4096) as u64),
        forall|v: u64| mapped(*old(pages), v) ==> #[trigger] final(pages).page_entry(v) == old(pages).page_entry(v),
        forall|v: u64|
            #[trigger] mapped(*final(pages), v) && !mapped(*old(pages), v) ==> in_pages(v, lo as int, hi as int)
                && mapped_as(*final(pages), v, writable, user, executable),
{
    let mut p = lo;
    proof {
        old(pages).lemma_wf_alloc(&*old(alloc));
    }
    while p < hi
        invariant
            lo <= p <= hi,
            hi <= 0x10_0000_0000_0000,
            pages.wf(&*alloc),
            all_translate(*pages),
            alloc_grows(&*old(alloc), &*alloc, range_need(*old(pages), lo as int, p as int)),
            free_count(alloc@) + range_need(*old(pages), lo as int, p as int) >= free_count(old(alloc)@),
            free_count(old(alloc)@) >= range_need(*old(pages), lo as int, hi as int),
            forall|vb: u64| #[trigger] pages.spec_missing_tables(vb) <= old(pages).spec_missing_tables(vb),
            forall|v: u64| mapped(*old(pages), v) ==> #[trigger] mapped(*pages, v),
            forall|q: int| lo <= q < p ==> #[trigger] mapped(*pages, (q * 4096) as u64),
            forall|v: u64| mapped(*old(pages), v) ==> #[trigger] pages.page_entry(v) == old(pages).page_entry(v),
            forall|v: u64|
                #[trigger] mapped(*pages, v) && !mapped(*old(pages), v) ==> in_pages(v, lo as int, p as int)
                    && mapped_as(*pages, v, writable, user, executable),
        decreases hi - p,
    {
        let va = p * 4096;
        let ghost before = *pages;
        let ghost a0 = *alloc;
        assert(pages.translate(va) is Some);
        proof {
            lemma_range_need_split(*old(pages), lo as int, p as int, hi as int);
            lemma_range_need_split(*old(pages), p as int, p as int + 1, hi as int);
            lemma_range_need_mono(*old(pages), *old(pages), p as int + 1, hi as int);
            assert(((p as int + 1 - 1) * 4096) as u64 == va);
            assert(range_need(*old(pages), p as int, p as int) == 0);
            assert(range_need(*old(pages), p as int, p as int + 1) == 1 + old(pages).spec_missing_tables(va));
            assert(pages.spec_missing_tables(va) <= old(pages).spec_missing_tables(va));
        }
        map_page_auto(pages, alloc, va, true, writable, user, executable);
        proof {
            lemma_alloc_grows_trans(
                &*old(alloc),
                &a0,
                &*alloc,
                range_need(*old(pages), lo as int, p as int),
                1 + old(pages).spec_missing_tables(va),
            );
            assert(((p as int + 1 - 1) * 4096) as u64 == va);
            assert(range_need(*old(pages), lo as int, p as int + 1) == range_need(*old(pages), lo as int, p as int) + 1
                + old(pages).spec_missing_tables(va));
            assert forall|vb: u64| #[trigger] pages.spec_missing_tables(vb) <= old(pages).spec_missing_tables(vb) by {
                assert(pages.spec_missing_tables(vb) <= before.spec_missing_tables(vb));
            }
            assert(mapped(*pages, va));
            assert forall|v: u64| #[trigger] pages.translate(v) is Some by {
                if same_page(v, va) {
                    assert(pages.translate(v) == pages.translate(va));
                } else {
                    assert(pages.translate(v) == before.translate(v));
                }
            }
            assert forall|v: u64| mapped(before, v) implies #[trigger] mapped(*pages, v) by {
                if same_page(v, va) {
                    assert(pages.translate(v) == pages.translate(va));
                } else {
                    assert(pages.translate(v) == before.translate(v));
                }
            }
            assert forall|v: u64| mapped(*old(pages), v) implies #[trigger] mapped(*pages, v) by {
                assert(mapped(before, v));
            }
            assert forall|q: int| lo <= q < p + 1 implies #[trigger] mapped(*pages, (q * 4096) as u64) by {
                if q < p {
                    assert(mapped(before, (q * 4096) as u64));
                } else {
                    assert((q * 4096) as u64 == va);
                }
            }
            if before.translate(va) == Some(None::<u64>) {
                let i = choose|i: int|
                    0 <= i < crate::memory::paging::NUM_PAGES && !a0@[i] && pages.translate(va) == Some(Some(crate::memory::paging::page_addr(i) as u64))
                        && pages.page_entry(va) == Some(Some(mapping_entry(crate::memory::paging::page_addr(i) as u64, writable, user, executable)));
                let pa = crate::memory::paging::page_addr(i) as u64;
                assert(pages.page_entry(va) == Some(Some(mapping_entry(pa, writable, user, executable))));
            }
            lemma_map_step(*old(pages), before, *pages, va, lo as int, p as int, writable, user, executable);
        }
        p = p + 1;
    }
}

/// `va` lies in a page of one of the segments `hs`.
pub open spec fn in_segments(hs: Seq<ElfProgramHeader>, va: u64) -> bool {
    exists|k: int| 0 <= k < hs.len() && #[trigger] in_pages(va, spec_segment_pages(hs[k]).0, spec_segment_pages(hs[k]).1)
}

/// Every page of the segment `h` that was not mapped in `t0` is mapped in `t` with
/// exactly the permissions asked.
pub open spec fn segment_mapped_as(t0: PageTables, t: PageTables, h: ElfProgramHeader, writable: bool, user: bool, executable: bool) -> bool {
    forall|q: int|
        spec_segment_pages(h).0 <= q < spec_segment_pages(h).1 && !mapped(t0, (q * 4096) as u64) ==> #[trigger] mapped_as(
            t,
            (q * 4096) as u64,
            writable,
            user,
            executable,
        )
}

/// The program's file header is one this kernel runs and the program headers it
/// names lie within the file.
pub open spec fn program_readable(program: Seq<u8>) -> bool {
    let h = spec_parse_header(program);
    &&& program.len() >= ELF_HEADER_SIZE
    &&& spec_verify_elf_header(h)
    &&& h.ph_offset + h.ph_entry_count * PROGRAM_HEADER_SIZE <= program.len()
}

/// The program headers that the loader reads from `program`.
pub open spec fn program_headers(program: Seq<u8>) -> Seq<ElfProgramHeader> {
    let h = spec_parse_header(program);
    Seq::new(h.ph_entry_count as nat, |i: int| spec_parse_program_header(program, h.ph_offset + i * PROGRAM_HEADER_SIZE))
}

/// A segment to load fits: its bytes in the file lie within the program, it takes
/// no fewer bytes in memory than in the file, and its pages lie within the address
/// space.
pub open spec fn segment_fits(program: Seq<u8>, h: ElfProgramHeader) -> bool {
    &&& h.file_size <= h.memory_size <= usize::MAX
    &&& h.offset + h.file_size <= program.len()
    &&& h.vaddr + h.memory_size <= 0xFFFF_FFFF_FFFF_F000
}

/// Every segment of the program to load fits.
pub open spec fn segments_fit(program: Seq<u8>) -> bool {
    forall|k: int| 0 <= k < loaded(program_headers(program)).len() ==> #[trigger] segment_fits(
        program,
        loaded(program_headers(program))[k],
    )
}

/// Pages that mapping the pages of the segments `hs` in `t` takes at most, one
/// segment after the other.
pub open spec fn segments_need(t: PageTables, hs: Seq<ElfProgramHeader>) -> int
    decreases hs.len(),
{
    if hs.len() == 0 {
        0
    } else {
        segments_need(t, hs.drop_last()) + range_need(t, spec_segment_pages(hs.last()).0, spec_segment_pages(hs.last()).1)
    }
}

/// Pages that starting a program whose segments to load are `hs`, with a stack of
/// `stack_size` bytes, takes at most from the tables `t`.
pub open spec fn program_need(t: PageTables, hs: Seq<ElfProgramHeader>, stack_size: int) -> int {
    segments_need(t, hs) + range_need(t, USER_STACK as int / 4096, (USER_STACK + stack_size) / 4096) + range_need(
        t,
        USER_CONTEXT as int / 4096,
        USER_CONTEXT as int / 4096 + 1,
    )
}

/// The registers a new program starts with: all zero but the program counter at
/// `entry` and the stack pointer at `sp`.
pub open spec fn user_context(entry: u64, sp: u64) -> Context {
    Context {
        ra: 0, sp, gp: 0, tp: 0, t0: 0, t1: 0, t2: 0, s0: 0, s1: 0, a0: 0, a1: 0, a2: 0, a3: 0, a4: 0, a5: 0, a6: 0,
        a7: 0, s2: 0, s3: 0, s4: 0, s5: 0, s6: 0, s7: 0, s8: 0, s9: 0, s10: 0, s11: 0, t3: 0, t4: 0, t5: 0, t6: 0,
        pc: entry, kernel_hartid: 0,
    }
}

/// A new process: its slot, the image of each segment to load with the address it
/// goes to, and the registers it starts with.
pub struct ProgramLoad {
    pub pid: usize,
    pub segments: Vec<(u64, Vec<u8>)>,
    pub context: Context,
}

/// Starts the program `program` as a new process with a stack of `stack_size`
/// bytes: takes the first free slot, maps the pages of each segment to load, of the
/// stack and of the saved registers, and makes the process ready. `None` where
/// the program is not one this kernel runs; nothing changes then.
pub fn run_program(
    table: &mut ProcTable,
    pages: &mut PageTables,
    alloc: &mut PageAllocator,
    program: &Vec<u8>,
    stack_size: u64,
) -> (r: Option<ProgramLoad>)
    requires
        old(table).wf(),
        exists|i: int| 0 <= i < NUM_PROC && #[trigger] old(table)@[i] is None,
        old(pages).wf(&*old(alloc)),
        all_translate(*old(pages)),
        stack_size % 4096 == 0,
        USER_STACK + stack_size <= u64::MAX,
        program_readable(program@) ==> {
            &&& segments_fit(program@)
            &&& free_count(old(alloc)@) >= program_need(*old(pages), loaded(program_headers(program@)), stack_size as int)
        },
    ensures
        r is None <==> !program_readable(program@),
        r is None ==> *final(table) == *old(table) && *final(pages) == *old(pages) && *final(alloc) == *old(alloc),
        r matches Some(l) ==> {
            let hs = loaded(program_headers(program@));
            &&& l.pid < NUM_PROC
            &&& old(table)@[l.pid as int] is None
            &&& forall|j: int| 0 <= j < l.pid ==> old(table)@[j] is Some
            &&& final(table).wf()
            &&& final(table)@ == old(table)@.update(
                l.pid as int,
                Some(Process { state: ProcessState::Ready, needs_paging_refresh: [true, true, true, true] }),
            )
            &&& l.segments@.len() == hs.len()
            &&& forall|k: int|
                0 <= k < hs.len() ==> (#[trigger] l.segments@[k]).0 == hs[k].vaddr && l.segments@[k].1@ == segment_image(
                    program@,
                    hs[k],
                )
            &&& l.context == user_context(spec_parse_header(program@).entry, (USER_STACK + stack_size) as u64)
            &&& final(pages).wf(&*final(alloc))
            &&& all_translate(*final(pages))
            &&& alloc_grows(&*old(alloc), &*final(alloc), program_need(*old(pages), hs, stack_size as int))
            &&& forall|k: int| 0 <= k < hs.len() ==> #[trigger] segment_mapped(*final(pages), hs[k])
            &&& forall|q: int|
                USER_STACK / 4096 <= q < (USER_STACK + stack_size) / 4096 ==> #[trigger] mapped(*final(pages), (q * 4096) as u64)
            &&& mapped(*final(pages), USER_CONTEXT)
            &&& forall|v: u64| mapped(*old(pages), v) ==> #[trigger] final(pages).page_entry(v) == old(pages).page_entry(v)
            &&& forall|k: int| 0 <= k < hs.len() ==> #[trigger] segment_mapped_as(*old(pages), *final(pages), hs[k], true, true, true)
            &&& forall|q: int|
                USER_STACK / 4096 <= q < (USER_STACK + stack_size) / 4096 && !mapped(*old(pages), (q * 4096) as u64) && !in_segments(
                    hs,
                    (q * 4096) as u64,
                ) ==> #[trigger] mapped_as(*final(pages), (q * 4096) as u64, true, true, false)
            &&& !mapped(*old(pages), USER_CONTEXT) && !in_segments(hs, USER_CONTEXT) && !in_pages(
                USER_CONTEXT,
                (USER_STACK / 4096) as int,
                ((USER_STACK + stack_size) / 4096) as int,
            ) ==> mapped_as(*final(pages), USER_CONTEXT, true, false, false)
        },
{
    let read = read_program(program);
    let (header, phs) = match read {
        Some(x) => x,
        None => {
            return None;
        },
    };
    assert(phs@ =~= program_headers(program@));
    let pid = table.add_process();
    proof {
        table.lemma_len();
        old(table).lemma_len();
    }
    let ghost t1 = table@;
    let segs = loaded_segments(&phs);
    let ghost hs = segs@;
    let ghost a0 = *alloc;
    let ghost total = program_need(*old(pages), hs, stack_size as int);
    let mut images: Vec<(u64, Vec<u8>)> = Vec::new();
    let mut i: usize = 0;
    proof {
        old(pages).lemma_wf_alloc(&*old(alloc));
        assert(hs.subrange(0, 0) =~= Seq::<ElfProgramHeader>::empty());
    }
    while i < segs.len()
        invariant
            hs == segs@,
            hs == loaded(program_headers(program@)),
            table.wf(),
            table@ == t1,
            pid < NUM_PROC,
            t1[pid as int] is Some,
            segments_fit(program@),
            i <= segs.len(),
            a0 == *old(alloc),
            total == program_need(*old(pages), hs, stack_size as int),
            free_count(a0@) >= total,
            pages.wf(&*alloc),
            all_translate(*pages),
            alloc_grows(&a0, &*alloc, segments_need(*old(pages), hs.subrange(0, i as int))),
            forall|vb: u64| #[trigger] pages.spec_missing_tables(vb) <= old(pages).spec_missing_tables(vb),
            images@.len() == i,
            forall|k: int|
                0 <= k < i ==> (#[trigger] images@[k]).0 == hs[k].vaddr && images@[k].1@ == segment_image(program@, hs[k]),
            forall|k: int| 0 <= k < i ==> #[trigger] segment_mapped(*pages, hs[k]),
            forall|v: u64| mapped(*old(pages), v) ==> #[trigger] pages.page_entry(v) == old(pages).page_entry(v),
            forall|v: u64|
                #[trigger] mapped(*pages, v) && !mapped(*old(pages), v) ==> in_segments(hs.subrange(0, i as int), v)
                    && mapped_as(*pages, v, true, true, true),
        decreases segs.len() - i,
    {
        let h = segs[i];
        proof {
            assert(segment_fits(program@, hs[i as int]));
            lemma_segments_need_prefix(*old(pages), hs, i as int);
            lemma_segments_need_bound(*old(pages), hs, i as int + 1);
            lemma_program_need_parts(*old(pages), hs, stack_size as int);
            lemma_segment_pages_order(h);
        }
        let (lo, hi) = segment_pages(&h);
        let ghost before = *pages;
        let ghost a1 = *alloc;
        proof {
            lemma_range_need_mono(*old(pages), *pages, lo as int, hi as int);
        }
        map_range(pages, alloc, lo, hi, true, true, true);
        proof {
            lemma_alloc_grows_trans(
                &a0,
                &a1,
                &*alloc,
                segments_need(*old(pages), hs.subrange(0, i as int)),
                range_need(before, lo as int, hi as int),
            );
            assert forall|vb: u64| #[trigger] pages.spec_missing_tables(vb) <= old(pages).spec_missing_tables(vb) by {
                assert(pages.spec_missing_tables(vb) <= before.spec_missing_tables(vb));
            }
        }
        let image = load_segment(program, &h);
        images.push((h.vaddr, image));
        proof {
            lemma_segments_step(*old(pages), before, *pages, hs, i as int);
            assert forall|k: int| 0 <= k < i + 1 implies #[trigger] segment_mapped(*pages, hs[k]) by {
                if k < i {
                    assert(segment_mapped(before, hs[k]));
                    assert forall|q: int| spec_segment_pages(hs[k]).0 <= q < spec_segment_pages(hs[k]).1 implies #[trigger] mapped(
                        *pages,
                        (q * 4096) as u64,
                    ) by {
                        assert(mapped(before, (q * 4096) as u64));
                    }
                }
            }
        }
        i = i + 1;
    }
    proof {
        assert(hs.subrange(0, i as int) =~= hs);
    }
    let stack_lo = USER_STACK / 4096;
    let stack_hi = (USER_STACK + stack_size) / 4096;
    let ghost before_stack = *pages;
    let ghost a2 = *alloc;
    proof {
        lemma_program_need_parts(*old(pages), hs, stack_size as int);
        lemma_range_need_mono(*old(pages), *pages, stack_lo as int, stack_hi as int);
        lemma_range_need_mono(*old(pages), *pages, (USER_CONTEXT / 4096) as int, (USER_CONTEXT / 4096 + 1) as int);
    }
    map_range(pages, alloc, stack_lo, stack_hi, true, true, false);
    proof {
        lemma_alloc_grows_trans(&a0, &a2, &*alloc, segments_need(*old(pages), hs), range_need(before_stack, stack_lo as int, stack_hi as int));
        lemma_range_need_mono(*old(pages), *pages, (USER_CONTEXT / 4096) as int, (USER_CONTEXT / 4096 + 1) as int);
        assert forall|vb: u64| #[trigger] pages.spec_missing_tables(vb) <= old(pages).spec_missing_tables(vb) by {
            assert(pages.spec_missing_tables(vb) <= before_stack.spec_missing_tables(vb));
        }
        lemma_range_need_mono(*old(pages), *pages, (USER_CONTEXT / 4096) as int, (USER_CONTEXT / 4096 + 1) as int);
    }
    let ghost before_ctx = *pages;
    let ghost a3 = *alloc;
    map_range(pages, alloc, USER_CONTEXT / 4096, USER_CONTEXT / 4096 + 1, true, false, false);
    proof {
        lemma_run_tail_segments(*old(pages), before_stack, *pages, hs);
        lemma_run_tail_stack(*old(pages), before_stack, before_ctx, *pages, hs, stack_lo as int, stack_hi as int);
        assert(((USER_CONTEXT / 4096) as int * 4096) as u64 == USER_CONTEXT);
        lemma_run_tail_context(*old(pages), before_stack, before_ctx, *pages, hs, stack_lo as int, stack_hi as int, USER_CONTEXT);
        lemma_alloc_grows_trans(
            &a0,
            &a3,
            &*alloc,
            segments_need(*old(pages), hs) + range_need(*old(pages), stack_lo as int, stack_hi as int),
            range_need(before_ctx, (USER_CONTEXT / 4096) as int, (USER_CONTEXT / 4096 + 1) as int),
        );
        assert(mapped(*pages, ((USER_CONTEXT / 4096) as int * 4096) as u64));
        assert forall|k: int| 0 <= k < hs.len() implies #[trigger] segment_mapped(*pages, hs[k]) by {
            assert(segment_mapped(before_stack, hs[k]));
            assert forall|q: int| spec_segment_pages(hs[k]).0 <= q < spec_segment_pages(hs[k]).1 implies #[trigger] mapped(
                *pages,
                (q * 4096) as u64,
            ) by {
                assert(mapped(before_stack, (q * 4096) as u64));
                assert(mapped(before_ctx, (q * 4096) as u64));
            }
        }
        assert forall|q: int| USER_STACK / 4096 <= q < (USER_STACK + stack_size) / 4096 implies #[trigger] mapped(
            *pages,
            (q * 4096) as u64,
        ) by {
            assert(mapped(before_ctx, (q * 4096) as u64));
        }
    }
    let context = Context {
        ra: 0, sp: USER_STACK + stack_size, gp: 0, tp: 0, t0: 0, t1: 0, t2: 0, s0: 0, s1: 0, a0: 0, a1: 0, a2: 0, a3: 0,
        a4: 0, a5: 0, a6: 0, a7: 0, s2: 0, s3: 0, s4: 0, s5: 0, s6: 0, s7: 0, s8: 0, s9: 0, s10: 0, s11: 0, t3: 0, t4: 0,
        t5: 0, t6: 0, pc: header.entry, kernel_hartid: 0,
    };
    table.mark_process_ready(pid);
    assert(table@ =~= old(table)@.update(
        pid as int,
        Some(Process { state: ProcessState::Ready, needs_paging_refresh: [true, true, true, true] }),
    ));
    Some(ProgramLoad { pid, segments: images, context })
}

/// Mapping the pages of segment `i` keeps the pages mapped at the start as they were,
/// and every page mapped since lies in one of the first `i + 1` segments, with every
/// permission.
proof fn lemma_segments_step(orig: PageTables, before: PageTables, after: PageTables, hs: Seq<ElfProgramHeader>, i: int)
    requires
        0 <= i < hs.len(),
        forall|v: u64| mapped(orig, v) ==> #[trigger] before.page_entry(v) == orig.page_entry(v),
        forall|v: u64|
            #[trigger] mapped(before, v) && !mapped(orig, v) ==> in_segments(hs.subrange(0, i), v) && mapped_as(before, v, true, true, true),
        forall|v: u64| mapped(before, v) ==> #[trigger] mapped(after, v),
        forall|v: u64| mapped(before, v) ==> #[trigger] after.page_entry(v) == before.page_entry(v),
        forall|v: u64|
            #[trigger] mapped(after, v) && !mapped(before, v) ==> in_pages(v, spec_segment_pages(hs[i]).0, spec_segment_pages(hs[i]).1)
                && mapped_as(after, v, true, true, true),
    ensures
        forall|v: u64| mapped(orig, v) ==> #[trigger] after.page_entry(v) == orig.page_entry(v),
        forall|v: u64|
            #[trigger] mapped(after, v) && !mapped(orig, v) ==> in_segments(hs.subrange(0, i + 1), v) && mapped_as(after, v, true, true, true),
{
    assert forall|v: u64| mapped(orig, v) implies #[trigger] after.page_entry(v) == orig.page_entry(v) by {
        assert(before.page_entry(v) == orig.page_entry(v));
        assert(before.translate(v) == orig.translate(v));
        assert(mapped(before, v));
    }
    assert forall|v: u64|
        #[trigger] mapped(after, v) && !mapped(orig, v) implies in_segments(hs.subrange(0, i + 1), v) && mapped_as(after, v, true, true, true) by {
        let s1 = hs.subrange(0, i + 1);
        if mapped(before, v) {
            assert(in_segments(hs.subrange(0, i), v));
            let k = choose|k: int|
                0 <= k < hs.subrange(0, i).len() && #[trigger] in_pages(
                    v,
                    spec_segment_pages(hs.subrange(0, i)[k]).0,
                    spec_segment_pages(hs.subrange(0, i)[k]).1,
                );
            assert(s1[k] == hs.subrange(0, i)[k]);
            assert(in_pages(v, spec_segment_pages(s1[k]).0, spec_segment_pages(s1[k]).1));
            let pa = choose|pa: u64| before.page_entry(v) == Some(Some(#[trigger] mapping_entry(pa, true, true, true)));
            assert(after.page_entry(v) == Some(Some(mapping_entry(pa, true, true, true))));
        } else {
            assert(s1[i] == hs[i]);
            assert(in_pages(v, spec_segment_pages(s1[i]).0, spec_segment_pages(s1[i]).1));
        }
    }
}

/// A page mapped in `a` that keeps its entry in `b` is mapped in `b`, with the same
/// permissions.
proof fn lemma_keeps(a: PageTables, b: PageTables, v: u64, writable: bool, user: bool, executable: bool)
    requires
        b.page_entry(v) == a.page_entry(v),
    ensures
        mapped(a, v) == mapped(b, v),
        mapped_as(a, v, writable, user, executable) ==> mapped_as(b, v, writable, user, executable),
{
    if mapped_as(a, v, writable, user, executable) {
        let pa = choose|pa: u64| a.page_entry(v) == Some(Some(#[trigger] mapping_entry(pa, writable, user, executable)));
        assert(b.page_entry(v) == Some(Some(mapping_entry(pa, writable, user, executable))));
    }
}

/// Later mappings that keep every mapped page as it was keep the pages mapped at the
/// start, and each segment's new pages with every permission.
proof fn lemma_run_tail_segments(orig: PageTables, segs: PageTables, fin: PageTables, hs: Seq<ElfProgramHeader>)
    requires
        forall|v: u64| mapped(orig, v) ==> #[trigger] segs.page_entry(v) == orig.page_entry(v),
        forall|v: u64| #[trigger] mapped(segs, v) && !mapped(orig, v) ==> in_segments(hs, v) && mapped_as(segs, v, true, true, true),
        forall|k: int| 0 <= k < hs.len() ==> #[trigger] segment_mapped(segs, hs[k]),
        forall|v: u64| mapped(segs, v) ==> #[trigger] fin.page_entry(v) == segs.page_entry(v),
    ensures
        forall|v: u64| mapped(orig, v) ==> #[trigger] fin.page_entry(v) == orig.page_entry(v),
        forall|k: int| 0 <= k < hs.len() ==> #[trigger] segment_mapped_as(orig, fin, hs[k], true, true, true),
{
    assert forall|v: u64| mapped(orig, v) implies #[trigger] fin.page_entry(v) == orig.page_entry(v) by {
        lemma_keeps(orig, segs, v, true, true, true);
    }
    assert forall|k: int| 0 <= k < hs.len() implies #[trigger] segment_mapped_as(orig, fin, hs[k], true, true, true) by {
        assert forall|q: int|
            spec_segment_pages(hs[k]).0 <= q < spec_segment_pages(hs[k]).1 && !mapped(orig, (q * 4096) as u64) implies #[trigger] mapped_as(
                fin,
                (q * 4096) as u64,
                true,
                true,
                true,
            ) by {
            let v = (q * 4096) as u64;
            assert(segment_mapped(segs, hs[k]));
            assert(mapped(segs, v));
            lemma_keeps(segs, fin, v, true, true, true);
        }
    }
}

/// The stack's new pages, where the segments did not map them, are not executable,
/// and the later mapping keeps them.
proof fn lemma_run_tail_stack(
    orig: PageTables,
    segs: PageTables,
    stack: PageTables,
    fin: PageTables,
    hs: Seq<ElfProgramHeader>,
    slo: int,
    shi: int,
)
    requires
        forall|v: u64| mapped(orig, v) ==> #[trigger] segs.page_entry(v) == orig.page_entry(v),
        forall|v: u64| #[trigger] mapped(segs, v) && !mapped(orig, v) ==> in_segments(hs, v) && mapped_as(segs, v, true, true, true),
        forall|v: u64| #[trigger] mapped(stack, v) && !mapped(segs, v) ==> in_pages(v, slo, shi) && mapped_as(stack, v, true, true, false),
        forall|q: int| slo <= q < shi ==> #[trigger] mapped(stack, (q * 4096) as u64),
        forall|v: u64| mapped(stack, v) ==> #[trigger] fin.page_entry(v) == stack.page_entry(v),
    ensures
        forall|q: int|
            slo <= q < shi && !mapped(orig, (q * 4096) as u64) && !in_segments(hs, (q * 4096) as u64) ==> #[trigger] mapped_as(
                fin,
                (q * 4096) as u64,
                true,
                true,
                false,
            ),
{
    assert forall|q: int|
        slo <= q < shi && !mapped(orig, (q * 4096) as u64) && !in_segments(hs, (q * 4096) as u64) implies #[trigger] mapped_as(
            fin,
            (q * 4096) as u64,
            true,
            true,
            false,
        ) by {
        let v = (q * 4096) as u64;
        assert(mapped(stack, v));
        if mapped(segs, v) {
            assert(in_segments(hs, v));
        }
        lemma_keeps(stack, fin, v, true, true, false);
    }
}

/// The page of the saved registers, where neither the segments nor the stack mapped
/// it, is readable and writable by the kernel only.
proof fn lemma_run_tail_context(
    orig: PageTables,
    segs: PageTables,
    stack: PageTables,
    fin: PageTables,
    hs: Seq<ElfProgramHeader>,
    slo: int,
    shi: int,
    c: u64,
)
    requires
        forall|v: u64| #[trigger] mapped(segs, v) && !mapped(orig, v) ==> in_segments(hs, v) && mapped_as(segs, v, true, true, true),
        forall|v: u64| #[trigger] mapped(stack, v) && !mapped(segs, v) ==> in_pages(v, slo, shi) && mapped_as(stack, v, true, true, false),
        mapped(fin, c),
        mapped(fin, c) && !mapped(stack, c) ==> mapped_as(fin, c, true, false, false),
    ensures
        !mapped(orig, c) && !in_segments(hs, c) && !in_pages(c, slo, shi) ==> mapped_as(fin, c, true, false, false),
{
    if !mapped(orig, c) && !in_segments(hs, c) && !in_pages(c, slo, shi) {
        assert(!mapped(segs, c));
        assert(!mapped(stack, c));
    }
}

/// The need of the first `i + 1` segments is that of the first `i` and of segment `i`.
proof fn lemma_segments_need_prefix(t: PageTables, hs: Seq<ElfProgramHeader>, i: int)
    requires
        0 <= i < hs.len(),
    ensures
        segments_need(t, hs.subrange(0, i + 1)) == segments_need(t, hs.subrange(0, i)) + range_need(
            t,
            spec_segment_pages(hs[i]).0,
            spec_segment_pages(hs[i]).1,
        ),
{
    assert(hs.subrange(0, i + 1).drop_last() =~= hs.subrange(0, i));
}

/// No need is negative, and a prefix of the segments needs no more than all of them.
proof fn lemma_segments_need_bound(t: PageTables, hs: Seq<ElfProgramHeader>, i: int)
    requires
        0 <= i <= hs.len(),
    ensures
        0 <= segments_need(t, hs.subrange(0, i)) <= segments_need(t, hs),
    decreases hs.len() - i,
{
    lemma_segments_need_nonneg(t, hs.subrange(0, i));
    if i < hs.len() {
        lemma_segments_need_bound(t, hs, i + 1);
        lemma_segments_need_prefix(t, hs, i);
        lemma_range_need_mono(t, t, spec_segment_pages(hs[i]).0, spec_segment_pages(hs[i]).1);
    } else {
        assert(hs.subrange(0, i) =~= hs);
    }
}

/// The need of segments is not negative.
proof fn lemma_segments_need_nonneg(t: PageTables, hs: Seq<ElfProgramHeader>)
    ensures
        segments_need(t, hs) >= 0,
    decreases hs.len(),
{
    if hs.len() > 0 {
        lemma_segments_need_nonneg(t, hs.drop_last());
        lemma_range_need_mono(t, t, spec_segment_pages(hs.last()).0, spec_segment_pages(hs.last()).1);
    }
}

/// The parts of a program's need are not negative.
proof fn lemma_program_need_parts(t: PageTables, hs: Seq<ElfProgramHeader>, stack_size: int)
    ensures
        segments_need(t, hs) >= 0,
        range_need(t, USER_STACK as int / 4096, (USER_STACK + stack_size) / 4096) >= 0,
        range_need(t, USER_CONTEXT as int / 4096, USER_CONTEXT as int / 4096 + 1) >= 0,
{
    lemma_segments_need_nonneg(t, hs);
    lemma_range_need_mono(t, t, USER_STACK as int / 4096, (USER_STACK + stack_size) / 4096);
    lemma_range_need_mono(t, t, USER_CONTEXT as int / 4096, USER_CONTEXT as int / 4096 + 1);
}

/// The last page of a segment comes no earlier than its first.
proof fn lemma_segment_pages_order(h: ElfProgramHeader)
    ensures
        spec_segment_pages(h).0 <= spec_segment_pages(h).1,
{
    let x = h.vaddr as int;
    let y = h.vaddr + h.memory_size + 4095;
    vstd::arithmetic::div_mod::lemma_div_is_ordered(x, y, 4096);
}

} // verus!
