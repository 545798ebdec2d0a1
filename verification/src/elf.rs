use vstd::prelude::*;

verus! {

use crate::bits::{div_ceil, spec_div_ceil};
use crate::le::{le_value, read_le};

/// Bytes in a page.
pub const PAGE_SIZE: u64 = 4096;
/// Bytes of an ELF-64 file header.
pub const ELF_HEADER_SIZE: usize = 64;
/// Bytes of an ELF-64 program header.
pub const PROGRAM_HEADER_SIZE: usize = 56;
/// Program header type of a loadable segment.
pub const PT_LOAD: u32 = 1;

/// The ELF-64 file header fields the loader reads.
#[derive(Clone, Copy, Debug)]
pub struct ElfHeader {
    pub magic: [u8; 4],
    pub bits: u8,
    pub endianness: u8,
    pub version: u8,
    pub abi: u8,
    pub abi_version: u8,
    pub elf_type: u16,
    pub machine: u16,
    pub version2: u32,
    pub entry: u64,
    pub ph_offset: u64,
    pub sh_offset: u64,
    pub flags: u32,
    pub header_size: u16,
    pub ph_entry_size: u16,
    pub ph_entry_count: u16,
    pub sh_entry_size: u16,
    pub sh_entry_count: u16,
    pub sh_str_index: u16,
}

/// An ELF-64 program header.
#[derive(Clone, Copy, Debug)]
pub struct ElfProgramHeader {
    pub p_type: u32,
    pub flags: u32,
    pub offset: u64,
    pub vaddr: u64,
    pub paddr: u64,
    pub file_size: u64,
    pub memory_size: u64,
    pub align: u64,
}

/// The little-endian field of `n` bytes at `off` of `b`.
pub open spec fn field(b: Seq<u8>, off: int, n: int) -> nat {
    le_value(b.subrange(off, off + n))
}

/// The file header that the first 64 bytes of `b` hold.
pub open spec fn spec_parse_header(b: Seq<u8>) -> ElfHeader {
    ElfHeader {
        magic: [b[0], b[1], b[2], b[3]],
        bits: b[4],
        endianness: b[5],
        version: b[6],
        abi: b[7],
        abi_version: b[8],
        elf_type: field(b, 16, 2) as u16,
        machine: field(b, 18, 2) as u16,
        version2: field(b, 20, 4) as u32,
        entry: field(b, 24, 8) as u64,
        ph_offset: field(b, 32, 8) as u64,
        sh_offset: field(b, 40, 8) as u64,
        flags: field(b, 48, 4) as u32,
        header_size: field(b, 52, 2) as u16,
        ph_entry_size: field(b, 54, 2) as u16,
        ph_entry_count: field(b, 56, 2) as u16,
        sh_entry_size: field(b, 58, 2) as u16,
        sh_entry_count: field(b, 60, 2) as u16,
        sh_str_index: field(b, 62, 2) as u16,
    }
}

/// Reads the file header at the start of `program`.
pub fn parse_elf_header(program: &Vec<u8>) -> (r: ElfHeader)
    requires
        program.len() >= ELF_HEADER_SIZE,
    ensures
        r == spec_parse_header(program@),
{
    let magic = [program[0], program[1], program[2], program[3]];
    let r = ElfHeader {
        magic,
        bits: program[4],
        endianness: program[5],
        version: program[6],
        abi: program[7],
        abi_version: program[8],
        elf_type: read_le(program, 16, 2) as u16,
        machine: read_le(program, 18, 2) as u16,
        version2: read_le(program, 20, 4) as u32,
        entry: read_le(program, 24, 8),
        ph_offset: read_le(program, 32, 8),
        sh_offset: read_le(program, 40, 8),
        flags: read_le(program, 48, 4) as u32,
        header_size: read_le(program, 52, 2) as u16,
        ph_entry_size: read_le(program, 54, 2) as u16,
        ph_entry_count: read_le(program, 56, 2) as u16,
        sh_entry_size: read_le(program, 58, 2) as u16,
        sh_entry_count: read_le(program, 60, 2) as u16,
        sh_str_index: read_le(program, 62, 2) as u16,
    };
    assert(r.magic@ =~= seq![program@[0], program@[1], program@[2], program@[3]]);
    assert(r == spec_parse_header(program@));
    r
}

/// The program header that the 56 bytes at `off` of `b` hold.
pub open spec fn spec_parse_program_header(b: Seq<u8>, off: int) -> ElfProgramHeader {
    ElfProgramHeader {
        p_type: field(b, off, 4) as u32,
        flags: field(b, off + 4, 4) as u32,
        offset: field(b, off + 8, 8) as u64,
        vaddr: field(b, off + 16, 8) as u64,
        paddr: field(b, off + 24, 8) as u64,
        file_size: field(b, off + 32, 8) as u64,
        memory_size: field(b, off + 40, 8) as u64,
        align: field(b, off + 48, 8) as u64,
    }
}

/// Reads the program header at byte `off` of `program`.
pub fn parse_program_header(program: &Vec<u8>, off: usize) -> (r: ElfProgramHeader)
    requires
        off + PROGRAM_HEADER_SIZE <= program.len(),
    ensures
        r == spec_parse_program_header(program@, off as int),
{
    ElfProgramHeader {
        p_type: read_le(program, off, 4) as u32,
        flags: read_le(program, off + 4, 4) as u32,
        offset: read_le(program, off + 8, 8),
        vaddr: read_le(program, off + 16, 8),
        paddr: read_le(program, off + 24, 8),
        file_size: read_le(program, off + 32, 8),
        memory_size: read_le(program, off + 40, 8),
        align: read_le(program, off + 48, 8),
    }
}

/// The header describes a 64-bit little-endian RISC-V executable of the current version.
pub open spec fn spec_verify_elf_header(header: ElfHeader) -> bool {
    &&& header.magic@ == seq![0x7fu8, 0x45u8, 0x4cu8, 0x46u8]
    &&& header.bits == 2
    &&& header.endianness == 1
    &&& header.version == 1
    &&& header.abi == 0
    &&& header.abi_version == 0
    &&& header.elf_type == 2
    &&& header.machine == 0xf3
    &&& header.version2 == 1
}

/// Whether the header describes a program this kernel runs.
pub fn verify_elf_header(header: &ElfHeader) -> (r: bool)
    ensures
        r == spec_verify_elf_header(*header),
{
    if header.magic[0] != 0x7f || header.magic[1] != 0x45 || header.magic[2] != 0x4c || header.magic[3] != 0x46 {
        assert(header.magic@ != seq![0x7fu8, 0x45u8, 0x4cu8, 0x46u8]) by {
            if header.magic@ == seq![0x7fu8, 0x45u8, 0x4cu8, 0x46u8] {
                assert(header.magic@[0] == 0x7f && header.magic@[1] == 0x45 && header.magic@[2] == 0x4c
                    && header.magic@[3] == 0x46);
            }
        }
        return false;
    }
    assert(header.magic@ =~= seq![0x7fu8, 0x45u8, 0x4cu8, 0x46u8]);
    if header.bits != 2 {
        return false;
    }
    if header.endianness != 1 {
        return false;
    }
    if header.version != 1 {
        return false;
    }
    if header.abi != 0 {
        return false;
    }
    if header.abi_version != 0 {
        return false;
    }
    if header.elf_type != 2 {
        return false;
    }
    if header.machine != 0xf3 {
        return false;
    }
    if header.version2 != 1 {
        return false;
    }
    true
}

/// The pages `first .. end` that a loadable segment occupies.
pub open spec fn spec_segment_pages(h: ElfProgramHeader) -> (int, int) {
    ((h.vaddr as int) / (PAGE_SIZE as int), spec_div_ceil(h.vaddr + h.memory_size, PAGE_SIZE as int))
}

/// The segment must be mapped: loadable and not empty in memory.
pub open spec fn is_loaded(h: ElfProgramHeader) -> bool {
    h.p_type == PT_LOAD && h.memory_size != 0
}

/// The pages that a segment occupies, as page numbers `first .. end`.
pub fn segment_pages(h: &ElfProgramHeader) -> (r: (u64, u64))
    requires
        h.vaddr + h.memory_size <= u64::MAX,
    ensures
        r.0 == spec_segment_pages(*h).0,
        r.1 == spec_segment_pages(*h).1,
{
    (h.vaddr / PAGE_SIZE, div_ceil(h.vaddr + h.memory_size, PAGE_SIZE))
}

/// The program's file header and its program headers, read as the loader reads them
/// (the program headers packed at `ph_offset`), or `None` when the header is not one
/// this kernel runs or the file is too short to hold the headers it names.
pub fn read_program(program: &Vec<u8>) -> (r: Option<(ElfHeader, Vec<ElfProgramHeader>)>)
    ensures
        match r {
            Some((h, phs)) => {
                &&& program.len() >= ELF_HEADER_SIZE
                &&& h == spec_parse_header(program@)
                &&& spec_verify_elf_header(h)
                &&& phs.len() == h.ph_entry_count
                &&& h.ph_offset + h.ph_entry_count * PROGRAM_HEADER_SIZE <= program.len()
                &&& forall|i: int| 0 <= i < phs.len() ==> #[trigger] phs@[i] == spec_parse_program_header(
                    program@,
                    h.ph_offset + i * PROGRAM_HEADER_SIZE,
                )
            },
            None => program.len() < ELF_HEADER_SIZE || !spec_verify_elf_header(spec_parse_header(program@))
                || spec_parse_header(program@).ph_offset + spec_parse_header(program@).ph_entry_count
                * PROGRAM_HEADER_SIZE > program.len(),
        },
{
    if program.len() < ELF_HEADER_SIZE {
        return None;
    }
    let h = parse_elf_header(program);
    if !verify_elf_header(&h) {
        return None;
    }
    let count = h.ph_entry_count as usize;
    if h.ph_offset > program.len() as u64 || (program.len() as u64 - h.ph_offset) / (PROGRAM_HEADER_SIZE as u64) < count as u64 {
        return None;
    }
    let base = h.ph_offset as usize;
    let mut phs: Vec<ElfProgramHeader> = Vec::new();
    let mut i: usize = 0;
    while i < count
        invariant
            i <= count,
            count == h.ph_entry_count,
            base == h.ph_offset,
            base + count * PROGRAM_HEADER_SIZE <= program.len(),
            phs.len() == i,
            forall|k: int| 0 <= k < i ==> #[trigger] phs@[k] == spec_parse_program_header(program@, base + k * PROGRAM_HEADER_SIZE),
        decreases count - i,
    {
        proof {
            assert(base + i * PROGRAM_HEADER_SIZE + PROGRAM_HEADER_SIZE <= base + count * PROGRAM_HEADER_SIZE) by (nonlinear_arith)
                requires
                    i < count,
            ;
        }
        let ph = parse_program_header(program, base + i * PROGRAM_HEADER_SIZE);
        phs.push(ph);
        i = i + 1;
    }
    Some((h, phs))
}

/// The program headers of the segments loaded into memory, in order.
pub open spec fn loaded(phs: Seq<ElfProgramHeader>) -> Seq<ElfProgramHeader> {
    phs.filter(|h: ElfProgramHeader| is_loaded(h))
}

/// The program headers of the segments loaded into memory: those of type `PT_LOAD`
/// that take some memory, in order.
pub fn loaded_segments(phs: &Vec<ElfProgramHeader>) -> (r: Vec<ElfProgramHeader>)
    ensures
        r@ == loaded(phs@),
{
    let mut out: Vec<ElfProgramHeader> = Vec::new();
    let mut i: usize = 0;
    while i < phs.len()
        invariant
            i <= phs.len(),
            out@ == loaded(phs@.subrange(0, i as int)),
        decreases phs.len() - i,
    {
        proof {
            reveal(Seq::filter);
            assert(phs@.subrange(0, i + 1).drop_last() =~= phs@.subrange(0, i as int));
        }
        let h = phs[i];
        if h.p_type == PT_LOAD && h.memory_size != 0 {
            out.push(h);
        }
        i = i + 1;
    }
    assert(phs@.subrange(0, phs.len() as int) =~= phs@);
    out
}

/// The bytes a loaded segment holds in memory: its bytes in the file, then zeros up
/// to its size in memory.
pub open spec fn segment_image(program: Seq<u8>, h: ElfProgramHeader) -> Seq<u8> {
    program.subrange(h.offset as int, h.offset + h.file_size) + Seq::new(
        (h.memory_size - h.file_size) as nat,
        |i: int| 0u8,
    )
}

/// The bytes the segment of `h` holds in memory once loaded.
pub fn load_segment(program: &Vec<u8>, h: &ElfProgramHeader) -> (r: Vec<u8>)
    requires
        h.file_size <= h.memory_size <= usize::MAX,
        h.offset + h.file_size <= program.len(),
    ensures
        r@ == segment_image(program@, *h),
{
    let mut out: Vec<u8> = Vec::new();
    let start = h.offset as usize;
    let fsize = h.file_size as usize;
    let mut i: usize = 0;
    while i < fsize
        invariant
            i <= fsize,
            start + fsize <= program.len(),
            start == h.offset,
            fsize == h.file_size,
            out@ == program@.subrange(start as int, start + i),
        decreases fsize - i,
    {
        out.push(program[start + i]);
        i = i + 1;
        assert(out@ =~= program@.subrange(start as int, start + i));
    }
    let zeros = (h.memory_size - h.file_size) as usize;
    let ghost head = out@;
    let mut z: usize = 0;
    while z < zeros
        invariant
            z <= zeros,
            out@ == head + Seq::new(z as nat, |i: int| 0u8),
        decreases zeros - z,
    {
        out.push(0);
        z = z + 1;
        assert(out@ =~= head + Seq::new(z as nat, |i: int| 0u8));
    }
    out
}

} // verus!
