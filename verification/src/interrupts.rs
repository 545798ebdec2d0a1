use vstd::prelude::*;

verus! {

/// Entries in the interrupt descriptor table.
pub const IDT_SIZE: usize = 256;

/// The option bits of a gate: present (bit 15), the must-be-one bits 9 to 11, and
/// bit 8, which keeps interrupts enabled (a trap gate) when set.
pub open spec fn spec_create_options(present: bool, enable_interrupts: bool) -> u16 {
    ((if present { 0x8000u16 } else { 0u16 }) | 0x0e00u16 | (if enable_interrupts { 0x0100u16 } else { 0u16 })) as u16
}

/// The option bits of a gate.
pub fn create_options(present: bool, enable_interrupts: bool) -> (r: u16)
    ensures
        r == spec_create_options(present, enable_interrupts),
        r & 0x8000u16 != 0 <==> present,
        r & 0x0100u16 != 0 <==> enable_interrupts,
        r & 0x0e00u16 == 0x0e00u16,
{
    let present_bit: u16 = if present { 0x8000u16 } else { 0u16 };
    let interrupt_bit: u16 = if enable_interrupts { 0x0100u16 } else { 0u16 };
    let options: u16 = present_bit | 0x0e00u16 | interrupt_bit;
    assert(options == spec_create_options(present, enable_interrupts) && (options & 0x8000u16 != 0 <==> present)
        && (options & 0x0100u16 != 0 <==> enable_interrupts) && options & 0x0e00u16 == 0x0e00u16) by (bit_vector)
        requires
            options == ((if present { 0x8000u16 } else { 0u16 }) | 0x0e00u16 | (if enable_interrupts {
                0x0100u16
            } else {
                0u16
            })),
    ;
    options
}

/// A gate of the interrupt descriptor table.
#[derive(Clone, Copy, Debug)]
pub struct IDTEntry {
    pub pointer_low: u16,
    pub selector: u16,
    pub options: u16,
    pub pointer_middle: u16,
    pub pointer_high: u32,
    pub reserved: u32,
}

/// The handler address that a gate holds.
pub open spec fn entry_pointer(e: IDTEntry) -> int {
    e.pointer_low + e.pointer_middle * 0x1_0000 + e.pointer_high * 0x1_0000_0000
}

impl IDTEntry {
    /// A gate that jumps to `pointer` with code segment `selector`.
    pub fn new(pointer: u64, selector: u16, options: u16) -> (r: IDTEntry)
        ensures
            entry_pointer(r) == pointer,
            r.selector == selector,
            r.options == options,
            r.reserved == 0,
    {
        let low = pointer as u16;
        let middle = (pointer >> 16u64) as u16;
        let high = (pointer >> 32u64) as u32;
        assert(low as int + middle as int * 0x1_0000 + high as int * 0x1_0000_0000 == pointer as int) by (bit_vector)
            requires
                low == pointer as u16,
                middle == (pointer >> 16u64) as u16,
                high == (pointer >> 32u64) as u32,
        ;
        IDTEntry { pointer_low: low, selector, options, pointer_middle: middle, pointer_high: high, reserved: 0 }
    }
}

/// A present gate to `pointer` in segment 0x08 that runs with interrupts masked.
pub fn handler_entry(pointer: u64) -> (r: IDTEntry)
    ensures
        entry_pointer(r) == pointer,
        r.selector == 0x08,
        r.options == spec_create_options(true, false),
        r.reserved == 0,
{
    IDTEntry::new(pointer, 0x08, create_options(true, false))
}

/// A gate that is not present and points nowhere, with interrupts left enabled.
pub open spec fn empty_gate() -> IDTEntry {
    IDTEntry {
        pointer_low: 0,
        selector: 0,
        options: spec_create_options(false, true),
        pointer_middle: 0,
        pointer_high: 0,
        reserved: 0,
    }
}

/// The interrupt descriptor table.
pub struct InterruptTable {
    pub entries: Vec<IDTEntry>,
}

impl InterruptTable {
    /// A table of `IDT_SIZE` empty gates.
    pub fn new() -> (r: InterruptTable)
        ensures
            r.entries@.len() == IDT_SIZE,
            forall|i: int| 0 <= i < IDT_SIZE ==> #[trigger] r.entries@[i] == empty_gate(),
    {
        let mut entries: Vec<IDTEntry> = Vec::new();
        let empty = IDTEntry::new(0, 0, create_options(false, true));
        assert(empty == empty_gate()) by {
            assert(empty.pointer_low == 0 && empty.pointer_middle == 0 && empty.pointer_high == 0) by (nonlinear_arith)
                requires
                    empty.pointer_low + empty.pointer_middle * 0x1_0000 + empty.pointer_high * 0x1_0000_0000 == 0,
            ;
        }
        let mut i: usize = 0;
        while i < IDT_SIZE
            invariant
                i <= IDT_SIZE,
                entries@.len() == i,
                forall|j: int| 0 <= j < i ==> #[trigger] entries@[j] == empty_gate(),
                empty == empty_gate(),
            decreases IDT_SIZE - i,
        {
            entries.push(empty);
            i = i + 1;
        }
        InterruptTable { entries }
    }

    /// Points gate `index` at the handler at `pointer`.
    pub fn set_idt_entry(&mut self, index: usize, pointer: u64)
        requires
            index < old(self).entries@.len(),
        ensures
            final(self).entries@.len() == old(self).entries@.len(),
            forall|i: int| 0 <= i < old(self).entries@.len() && i != index ==> #[trigger] final(self).entries@[i] == old(self).entries@[i],
            entry_pointer(final(self).entries@[index as int]) == pointer,
            final(self).entries@[index as int].selector == 0x08,
            final(self).entries@[index as int].options == spec_create_options(true, false),
            final(self).entries@[index as int].reserved == 0,
    {
        self.entries.set(index, handler_entry(pointer));
    }

    /// Points the gates of the 32 processor exceptions at their handlers, in order.
    pub fn set_exception_handlers(&mut self, handlers: &Vec<u64>)
        requires
            old(self).entries@.len() == IDT_SIZE,
            handlers@.len() == 32,
        ensures
            final(self).entries@.len() == IDT_SIZE,
            forall|i: int| 0 <= i < 32 ==> entry_pointer(#[trigger] final(self).entries@[i]) == handlers@[i] && final(self).entries@[i].selector == 0x08
                && final(self).entries@[i].options == spec_create_options(true, false) && final(self).entries@[i].reserved == 0,
            forall|i: int| 32 <= i < IDT_SIZE ==> #[trigger] final(self).entries@[i] == old(self).entries@[i],
    {
        let mut i: usize = 0;
        while i < 32
            invariant
                i <= 32,
                handlers@.len() == 32,
                self.entries@.len() == IDT_SIZE,
                forall|j: int| 0 <= j < i ==> entry_pointer(#[trigger] self.entries@[j]) == handlers@[j] && self.entries@[j].selector == 0x08
                    && self.entries@[j].options == spec_create_options(true, false) && self.entries@[j].reserved == 0,
                forall|j: int| i <= j < IDT_SIZE ==> #[trigger] self.entries@[j] == old(self).entries@[j],
            decreases 32 - i,
        {
            self.set_idt_entry(i, handlers[i]);
            i = i + 1;
        }
    }
}

/// The port writes that remap the interrupts of the two 8259 controllers to vectors
/// 0x20 to 0x2F, in order.
pub fn pic_remap_sequence() -> (r: Vec<(u16, u8)>)
    ensures
        r@ == seq![
            (0x20u16, 0x11u8),
            (0x21u16, 0x20u8),
            (0x21u16, 0x04u8),
            (0x21u16, 0x01u8),
            (0x21u16, 0x00u8),
            (0xA0u16, 0x11u8),
            (0xA1u16, 0x28u8),
            (0xA1u16, 0x02u8),
            (0xA1u16, 0x01u8),
            (0xA1u16, 0x00u8),
        ],
{
    let r = vec![
        (0x20u16, 0x11u8),
        (0x21u16, 0x20u8),
        (0x21u16, 0x04u8),
        (0x21u16, 0x01u8),
        (0x21u16, 0x00u8),
        (0xA0u16, 0x11u8),
        (0xA1u16, 0x28u8),
        (0xA1u16, 0x02u8),
        (0xA1u16, 0x01u8),
        (0xA1u16, 0x00u8),
    ];
    assert(r@ =~= seq![
        (0x20u16, 0x11u8),
        (0x21u16, 0x20u8),
        (0x21u16, 0x04u8),
        (0x21u16, 0x01u8),
        (0x21u16, 0x00u8),
        (0xA0u16, 0x11u8),
        (0xA1u16, 0x28u8),
        (0xA1u16, 0x02u8),
        (0xA1u16, 0x01u8),
        (0xA1u16, 0x00u8),
    ]);
    r
}

} // verus!
