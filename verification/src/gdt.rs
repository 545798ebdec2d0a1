use vstd::prelude::*;

verus! {

/// Bytes of each fault stack.
pub const FAULT_STACK_SIZE: u64 = 4096 * 5;
/// Descriptors the table holds.
pub const GDT_SIZE: usize = 8;
/// Bytes of the task state segment.
pub const TSS_SIZE: u16 = 104;

/// A segment descriptor in the legacy 8-byte format.
#[derive(Clone, Copy, Debug)]
pub struct SegmentDescriptor {
    pub limit_low: u16,
    pub base_low: u16,
    pub base_mid: u8,
    pub access_byte: u8,
    pub lim_h_flags: u8,
    pub base_high: u8,
}

/// The base address a descriptor encodes (32 bits).
pub open spec fn descriptor_base(d: SegmentDescriptor) -> int {
    d.base_low + d.base_mid * 0x1_0000 + d.base_high * 0x100_0000
}

/// The limit a descriptor encodes (20 bits).
pub open spec fn descriptor_limit(d: SegmentDescriptor) -> int {
    d.limit_low + (d.lim_h_flags % 16) * 0x1_0000
}

/// The flags a descriptor encodes (4 bits).
pub open spec fn descriptor_flags(d: SegmentDescriptor) -> int {
    (d.lim_h_flags / 16) as int
}

/// Packs a base, a limit, an access byte and flags into a descriptor; only the low
/// 32 bits of `base`, 20 of `limit` and 4 of `flags` are kept.
pub fn create_segment_descriptor(base: u64, limit: u32, access_byte: u8, flags: u8) -> (r: SegmentDescriptor)
    ensures
        descriptor_base(r) == base % 0x1_0000_0000,
        descriptor_limit(r) == limit % 0x10_0000,
        descriptor_flags(r) == flags % 16,
        r.access_byte == access_byte,
{
    let limit_low = (limit & 0xFFFF) as u16;
    let base_low = (base & 0xFFFF) as u16;
    let base_mid = ((base & 0xFF0000) >> 16u64) as u8;
    let lim_h_flags = ((limit & 0xF0000) >> 16u32) as u8 | ((flags & 0xF) << 4u8);
    let base_high = ((base & 0xFF000000) >> 24u64) as u8;
    assert(base_low as int + base_mid as int * 0x1_0000 + base_high as int * 0x100_0000 == base % 0x1_0000_0000)
        by (bit_vector)
        requires
            base_low == (base & 0xFFFF) as u16,
            base_mid == ((base & 0xFF0000) >> 16u64) as u8,
            base_high == ((base & 0xFF000000) >> 24u64) as u8,
    ;
    assert(limit_low as int + (lim_h_flags % 16) as int * 0x1_0000 == limit % 0x10_0000 && lim_h_flags / 16 == flags
        % 16) by (bit_vector)
        requires
            limit_low == (limit & 0xFFFF) as u16,
            lim_h_flags == ((limit & 0xF0000) >> 16u32) as u8 | ((flags & 0xF) << 4u8),
    ;
    SegmentDescriptor { limit_low, base_low, base_mid, access_byte, lim_h_flags, base_high }
}

/// The two descriptors of a 16-byte system segment (such as the task state segment):
/// the first holds the low 32 bits of `base`, the second the bits 32 to 63.
pub fn create_128_segment_descriptor(base: u64, limit: u32, access_byte: u8, flags: u8) -> (r: (
    SegmentDescriptor,
    SegmentDescriptor,
))
    ensures
        descriptor_base(r.0) == base % 0x1_0000_0000,
        descriptor_limit(r.0) == limit % 0x10_0000,
        descriptor_flags(r.0) == flags % 16,
        r.0.access_byte == access_byte,
        r.1.limit_low + r.1.base_low * 0x1_0000 == base / 0x1_0000_0000,
{
    let low = create_segment_descriptor(base, limit, access_byte, flags);
    let hb = (base >> 48u64) & 0xFFFF;
    let hl = ((base >> 32u64) & 0xFFFF) as u32;
    let high = create_segment_descriptor(hb, hl, 0, 0);
    assert(hl as int % 0x10_0000 + (hb as int % 0x1_0000_0000) % 0x1_0000 * 0x1_0000 == base / 0x1_0000_0000) by (bit_vector)
        requires
            hb == (base >> 48u64) & 0xFFFF,
            hl == ((base >> 32u64) & 0xFFFF) as u32,
    ;
    assert(hl < 0x1_0000 && hb < 0x1_0000) by (bit_vector)
        requires
            hb == (base >> 48u64) & 0xFFFF,
            hl == ((base >> 32u64) & 0xFFFF) as u32,
    ;
    assert(high.limit_low as int == hl as int);
    (low, high)
}

/// The pointer that `lgdt` loads: the table's last byte offset and its address.
#[derive(Clone, Copy, Debug)]
pub struct GDTPointer {
    pub limit: u16,
    pub base: u64,
}

/// The global descriptor table, filled in order.
pub struct GlobalDescriptorTable {
    table: Vec<SegmentDescriptor>,
    len: usize,
}

impl GlobalDescriptorTable {
    /// The descriptors appended so far.
    pub closed spec fn entries(&self) -> Seq<SegmentDescriptor> {
        self.table@.subrange(0, self.len as int)
    }

    /// The internal invariant.
    pub closed spec fn wf(&self) -> bool {
        self.table.len() == GDT_SIZE && self.len <= GDT_SIZE
    }

    /// An empty table.
    pub fn new() -> (r: GlobalDescriptorTable)
        ensures
            r.wf(),
            r.entries() == Seq::<SegmentDescriptor>::empty(),
    {
        let blank = create_segment_descriptor(0, 0, 0, 0);
        let r = GlobalDescriptorTable { table: vec![blank; GDT_SIZE], len: 0 };
        assert(r.entries() =~= Seq::<SegmentDescriptor>::empty());
        r
    }

    /// The pointer to this table, which lives at `table_addr`.
    pub fn create_pointer(&self, table_addr: u64) -> (r: GDTPointer)
        ensures
            r.limit == GDT_SIZE * 8 - 1,
            r.base == table_addr,
    {
        GDTPointer { limit: (GDT_SIZE * 8 - 1) as u16, base: table_addr }
    }

    /// Appends a descriptor; the table must not be full.
    pub fn append(&mut self, obj: SegmentDescriptor)
        requires
            old(self).wf(),
            old(self).entries().len() < GDT_SIZE,
        ensures
            final(self).wf(),
            final(self).entries() == old(self).entries().push(obj),
    {
        self.table.set(self.len, obj);
        self.len = self.len + 1;
        assert(self.entries() =~= old(self).entries().push(obj));
    }
}

/// The kernel's table: null, kernel code, kernel data, user code, user data, and the
/// two halves of the task state segment at `tss_addr`.
pub fn build_gdt(tss_addr: u64) -> (r: GlobalDescriptorTable)
    ensures
        r.wf(),
        r.entries().len() == 7,
        r.entries()[1].access_byte == 0x9B && descriptor_flags(r.entries()[1]) == 0xA,
        r.entries()[2].access_byte == 0x93 && descriptor_flags(r.entries()[2]) == 0xC,
        r.entries()[3].access_byte == 0xFB && descriptor_flags(r.entries()[3]) == 0xA,
        r.entries()[4].access_byte == 0xF3 && descriptor_flags(r.entries()[4]) == 0xC,
        r.entries()[5].access_byte == 0x89 && descriptor_base(r.entries()[5]) == tss_addr % 0x1_0000_0000,
        descriptor_limit(r.entries()[5]) == TSS_SIZE - 1,
        r.entries()[6].limit_low + r.entries()[6].base_low * 0x1_0000 == tss_addr / 0x1_0000_0000,
{
    let mut gdt = GlobalDescriptorTable::new();
    gdt.append(create_segment_descriptor(0, 0, 0, 0));
    gdt.append(create_segment_descriptor(0, 0xFFFFF, 0x9B, 0xA));
    gdt.append(create_segment_descriptor(0, 0xFFFFF, 0x93, 0xC));
    gdt.append(create_segment_descriptor(0, 0xFFFFF, 0xFB, 0xA));
    gdt.append(create_segment_descriptor(0, 0xFFFFF, 0xF3, 0xC));
    let desc = create_128_segment_descriptor(tss_addr, (TSS_SIZE - 1) as u32, 0x89, 0x0);
    gdt.append(desc.0);
    gdt.append(desc.1);
    gdt
}

/// The task state segment.
pub struct TaskStateSegment {
    pub privilege_stack_table: [u64; 3],
    pub interrupt_stack_table: [u64; 7],
    pub io_map_base_address: u16,
}

/// A task state segment whose first three interrupt stacks end `FAULT_STACK_SIZE`
/// bytes after `stacks[i]`.
pub fn create_tss(stacks: [u64; 3]) -> (r: TaskStateSegment)
    requires
        forall|i: int| 0 <= i < 3 ==> stacks[i] + FAULT_STACK_SIZE <= u64::MAX,
    ensures
        forall|i: int| 0 <= i < 3 ==> r.interrupt_stack_table[i] == stacks[i] + FAULT_STACK_SIZE,
        forall|i: int| 3 <= i < 7 ==> r.interrupt_stack_table[i] == 0,
        r.privilege_stack_table@ == seq![0u64, 0u64, 0u64],
        r.io_map_base_address == TSS_SIZE,
{
    let mut res = TaskStateSegment {
        privilege_stack_table: [0u64, 0u64, 0u64],
        interrupt_stack_table: [0u64, 0u64, 0u64, 0u64, 0u64, 0u64, 0u64],
        io_map_base_address: TSS_SIZE,
    };
    let mut i: usize = 0;
    while i < 3
        invariant
            i <= 3,
            forall|j: int| 0 <= j < 3 ==> stacks[j] + FAULT_STACK_SIZE <= u64::MAX,
            forall|j: int| 0 <= j < i ==> res.interrupt_stack_table[j] == stacks[j] + FAULT_STACK_SIZE,
            forall|j: int| i <= j < 7 ==> res.interrupt_stack_table[j] == 0,
            res.privilege_stack_table@ == seq![0u64, 0u64, 0u64],
            res.io_map_base_address == TSS_SIZE,
        decreases 3 - i,
    {
        res.interrupt_stack_table[i] = stacks[i] + FAULT_STACK_SIZE;
        i = i + 1;
    }
    res
}

} // verus!
