//! Interrupt descriptor options, and the frames that the processor pushes
//! on an interrupt or a trap.
use vstd::prelude::*;

verus! {

/// The option bits of an interrupt gate descriptor: present (bit 7),
/// privilege level (bits 5 and 6) and gate type (bits 0 to 3).
#[derive(Clone, Copy, Debug)]
pub struct GateDescriptorOptions {
    bits: u8,
}

impl View for GateDescriptorOptions {
    type V = u8;

    closed spec fn view(&self) -> u8 {
        self.bits
    }
}

impl GateDescriptorOptions {
    /// Options of a present gate of the given type.
    pub fn new(gate_type: u8) -> (r: GateDescriptorOptions)
        requires
            gate_type < 16,
        ensures
            r@ == 0x80 | gate_type,
    {
        let mut options = GateDescriptorOptions { bits: 0b1000_0000 };
        options.set_present(true).set_gate_type(gate_type);
        proof {
            assert(((0x80u8 | 0x8Fu8) & 0xF0u8) | gate_type == 0x80u8 | gate_type) by (bit_vector);
        }
        options
    }

    /// The option bits.
    pub fn bits(&self) -> (r: u8)
        ensures
            r == self@,
    {
        self.bits
    }

    /// Sets or clears the present bit. Setting it also sets the low four bits.
    pub fn set_present(&mut self, present: bool) -> (r: &mut Self)
        ensures
            r@ == if present {
                old(self)@ | 0x8F
            } else {
                old(self)@ & 0x7F
            },
            *final(self) == *final(r),
    {
        if present {
            self.bits = self.bits | 0x8F;
        } else {
            self.bits = self.bits & 0x7F;
        }
        self
    }

    /// Sets the privilege-level bits from bit 1 of `descriptor_privilege_level`.
    pub fn set_privilege_level(&mut self, descriptor_privilege_level: u8) -> (r: &mut Self)
        ensures
            r@ == (old(self)@ & 0x9F) | ((descriptor_privilege_level & 0x02) << 4),
            *final(self) == *final(r),
    {
        self.bits = self.bits & 0x9F;
        self.bits = self.bits | ((descriptor_privilege_level & 0x02) << 4);
        self
    }

    /// Puts `gate_type` in bits 0 to 3.
    pub fn set_gate_type(&mut self, gate_type: u8) -> (r: &mut Self)
        requires
            gate_type < 16,
        ensures
            r@ == (old(self)@ & 0xF0) | gate_type,
            *final(self) == *final(r),
    {
        self.bits = self.bits & 0xF0;
        self.bits = self.bits | gate_type;
        self
    }
}

/// Entries in the interrupt descriptor table.
pub const IDT_ENTRIES: usize = 256;

/// Type bits of a 32-bit interrupt gate.
pub const INTERRUPT_GATE: u8 = 0xE;

/// One entry of the interrupt descriptor table.
#[derive(Clone, Copy, Debug)]
pub struct GateDescriptor {
    pub pointer_low: u16,
    pub gdt_selector: u16,
    pub reserved: u8,
    pub options: GateDescriptorOptions,
    pub pointer_high: u16,
}

impl GateDescriptor {
    /// An entry with no handler: null selector, null address.
    pub fn missing(gate_type: u8) -> (r: GateDescriptor)
        requires
            gate_type < 16,
        ensures
            r.pointer_low == 0 && r.pointer_high == 0 && r.reserved == 0,
            r.gdt_selector == 0,
            r.options@ == 0x80 | gate_type,
    {
        GateDescriptor {
            pointer_low: 0,
            gdt_selector: 0,
            reserved: 0,
            options: GateDescriptorOptions::new(gate_type),
            pointer_high: 0,
        }
    }

    /// An entry that sends the interrupt to the handler at address `handler`,
    /// through the code segment `gdt_selector`.
    pub fn new(gate_type: u8, gdt_selector: u16, handler: u32) -> (r: GateDescriptor)
        requires
            gate_type < 16,
        ensures
            r.pointer_low == handler % 0x10000,
            r.pointer_high == handler / 0x10000,
            r.gdt_selector == gdt_selector,
            r.reserved == 0,
            r.options@ == 0x80 | gate_type,
    {
        let low = (handler & 0xFFFF) as u16;
        let high = (handler >> 16) as u16;
        assert(handler & 0xFFFF == handler % 0x10000 && handler >> 16 == handler / 0x10000) by (bit_vector);
        GateDescriptor {
            pointer_low: low,
            gdt_selector,
            reserved: 0,
            options: GateDescriptorOptions::new(gate_type),
            pointer_high: high,
        }
    }
}

/// The interrupt descriptor table.
pub struct Idt {
    entries: Vec<GateDescriptor>,
}

impl View for Idt {
    type V = Seq<GateDescriptor>;

    closed spec fn view(&self) -> Seq<GateDescriptor> {
        self.entries@
    }
}

impl Idt {
    /// A table of 256 missing 32-bit interrupt gates.
    pub fn new() -> (r: Idt)
        ensures
            r@.len() == 256,
            forall|i: int|
                0 <= i < 256 ==> (#[trigger] r@[i]).pointer_low == 0 && r@[i].pointer_high == 0
                    && r@[i].gdt_selector == 0 && r@[i].options@ == 0x8E,
    {
        let mut entries: Vec<GateDescriptor> = Vec::new();
        let mut i: usize = 0;
        while i < IDT_ENTRIES
            invariant
                i <= IDT_ENTRIES,
                entries@.len() == i,
                forall|j: int|
                    0 <= j < i ==> (#[trigger] entries@[j]).pointer_low == 0 && entries@[j].pointer_high
                        == 0 && entries@[j].gdt_selector == 0 && entries@[j].options@ == 0x8E,
            decreases IDT_ENTRIES - i,
        {
            entries.push(GateDescriptor::missing(INTERRUPT_GATE));
            assert(0x80u8 | 0xEu8 == 0x8Eu8) by (bit_vector);
            i = i + 1;
        }
        Idt { entries }
    }

    /// The entry for vector `entry`.
    pub fn entry(&self, entry: u8) -> (r: GateDescriptor)
        requires
            self@.len() == 256,
        ensures
            r == self@[entry as int],
    {
        self.entries[entry as usize]
    }

    /// Installs the handler at address `handler` for vector `entry`, as a
    /// 32-bit interrupt gate through code segment `code_selector`, and hands
    /// back its options for further setting.
    pub fn set_handler(&mut self, entry: u8, code_selector: u16, handler: u32) -> (r:
        &mut GateDescriptorOptions)
        requires
            old(self)@.len() == 256,
        ensures
            final(self)@.len() == 256,
            forall|i: int| 0 <= i < 256 && i != entry ==> #[trigger] final(self)@[i] == old(self)@[i],
            final(self)@[entry as int].pointer_low == handler % 0x10000,
            final(self)@[entry as int].pointer_high == handler / 0x10000,
            final(self)@[entry as int].gdt_selector == code_selector,
            r@ == 0x8E,
            final(self)@[entry as int].options == *final(r),
    {
        let gate = GateDescriptor::new(INTERRUPT_GATE, code_selector, handler);
        assert(0x80u8 | 0xEu8 == 0x8Eu8) by (bit_vector);
        self.entries[entry as usize] = gate;
        &mut self.entries[entry as usize].options
    }
}

/// What the processor pushes when it takes an interrupt.
#[derive(Clone, Copy, Debug)]
pub struct InterruptStackFrame {
    pub instruction_pointer: u32,
    pub code_segment: u32,
    pub cpu_flags: u32,
    pub stack_pointer: u32,
    pub stack_segment: u32,
}

} // verus!
