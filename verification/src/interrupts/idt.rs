//! The interrupt descriptor table: for every interrupt vector the address
//! of its handler and the options it is called with.

use vstd::prelude::*;
use crate::interrupts::bitfield::{field_mask, get_bit, get_bits, set_bit, set_bits};

verus! {

/// The number of entries in the table.
pub const IDT_ENTRIES: usize = 40;

/// The options of an entry, with only the bits that must be one set.
pub const MINIMAL_OPTIONS: u16 = 0x0e00;

/// The options field of an entry of the table.
#[derive(Debug, Clone, Copy, PartialEq, Eq, Structural)]
pub struct EntryOptions(pub u16);

impl EntryOptions {
    /// The options as bits.
    pub open spec fn view(self) -> u16 {
        self.0
    }

    /// Whether the entry is present.
    pub open spec fn present_spec(self) -> bool {
        self@ & 0x8000 != 0
    }

    /// The index of the stack that the handler is called on, as the hardware
    /// counts it: from 1, with 0 for no stack of its own.
    pub open spec fn stack_bits(self) -> u16 {
        self@ & 0x7
    }

    /// Returns options with the bits that must be one set.
    pub fn minimal() -> (options: EntryOptions)
        ensures
            options@ == MINIMAL_OPTIONS,
    {
        EntryOptions(MINIMAL_OPTIONS)
    }

    /// Returns options with `present` set and the interrupts disabled.
    pub fn new() -> (options: EntryOptions)
        ensures
            options@ == 0x8e00,
    {
        let mut options = Self::minimal();
        options.set_present(true);
        options.disable_interrupts(true);
        assert((0x0e00u16 | 0x8000) & 0xfeff == 0x8e00) by (bit_vector);
        options
    }

    /// Sets or resets the `present` bit.
    pub fn set_present(&mut self, present: bool)
        ensures
            final(self)@ == if present {
                old(self)@ | 0x8000
            } else {
                old(self)@ & 0x7fff
            },
            final(self).present_spec() == present,
    {
        let bits = self.0;
        self.0 = set_bit(bits, 15, present);
        assert(1u16 << 15 == 0x8000 && !(1u16 << 15) == 0x7fff && (bits | 0x8000) & 0x8000 != 0
            && (bits & 0x7fff) & 0x8000 == 0) by (bit_vector);
    }

    /// Tells whether the entry is present.
    pub fn is_present(&self) -> (present: bool)
        ensures
            present == self.present_spec(),
    {
        assert(1u16 << 15 == 0x8000) by (bit_vector);
        get_bit(self.0, 15)
    }

    /// Lets the processor disable the hardware interrupts when the handler
    /// is called, or not: bit 8 is cleared where it is to disable them.
    pub fn disable_interrupts(&mut self, disable: bool)
        ensures
            final(self)@ == if disable {
                old(self)@ & 0xfeff
            } else {
                old(self)@ | 0x0100
            },
    {
        let bits = self.0;
        self.0 = set_bit(bits, 8, !disable);
        assert(1u16 << 8 == 0x0100 && !(1u16 << 8) == 0xfeff) by (bit_vector);
    }

    /// Sets the privilege level that is needed to call the handler, which is
    /// 3 at most: the bits 13 and 14.
    pub fn set_privilege_level(&mut self, dpl: u16)
        requires
            dpl <= 3,
        ensures
            final(self)@ == (old(self)@ & 0x9fff) | (dpl << 13),
    {
        let bits = self.0;
        assert((dpl << ((16 - (15 - 13)) as u16)) >> ((16 - (15 - 13)) as u16) == dpl) by (bit_vector)
            requires
                dpl <= 3,
        ;
        assert(!field_mask(13, 15) == 0x9fff) by (bit_vector);
        self.0 = set_bits(bits, 13, 15, dpl);
    }

    /// Assigns a stack of the interrupt stack table to the handler: the one
    /// with the given index, which is 6 at most. The hardware counts the stacks
    /// from 1, so that the bits 0 to 2 hold the index plus one.
    pub fn set_stack_index(&mut self, index: u16)
        requires
            index <= 6,
        ensures
            final(self)@ == (old(self)@ & 0xfff8) | ((index + 1) as u16),
            final(self).stack_bits() == index + 1,
    {
        let bits = self.0;
        let stack: u16 = index + 1;
        assert((stack << ((16 - (3 - 0)) as u16)) >> ((16 - (3 - 0)) as u16) == stack && stack << 0
            == stack && ((bits & 0xfff8) | stack) & 0x7 == stack) by (bit_vector)
            requires
                stack <= 7,
        ;
        assert(!field_mask(0, 3) == 0xfff8) by (bit_vector);
        self.0 = set_bits(bits, 0, 3, stack);
    }

    /// Gets the index of the stack that is assigned to the handler, if one
    /// is.
    pub fn get_stack_index(&self) -> (index: Option<u16>)
        ensures
            index == if self.stack_bits() == 0 {
                None
            } else {
                Some((self.stack_bits() - 1) as u16)
            },
    {
        let bits = self.0;
        let stack = get_bits(bits, 0, 3);
        assert(((bits << ((16 - 3) as u16)) >> ((16 - 3) as u16)) >> 0 == bits & 0x7) by (bit_vector);
        if stack == 0 {
            None
        } else {
            Some(stack - 1)
        }
    }
}

/// An entry of the interrupt descriptor table.
#[derive(Debug, Clone, Copy, PartialEq, Eq, Structural)]
pub struct Entry {
    /// The lowest 16 bits of the address of the handler.
    pub pointer_low: u16,
    /// The selector of the code segment that the handler runs in.
    pub gdt_selector: u16,
    /// The options of the entry.
    pub options: EntryOptions,
    /// The middle 16 bits of the address of the handler.
    pub pointer_middle: u16,
    /// The high 32 bits of the address of the handler.
    pub pointer_high: u32,
    /// Must be zero.
    pub reserved: u32,
}

impl Entry {
    /// The address of the handler, put together from its three parts.
    pub open spec fn pointer(self) -> u64 {
        ((self.pointer_high as u64) << 32) | ((self.pointer_middle as u64) << 16) | (
        self.pointer_low as u64)
    }

    /// Creates the entry for the handler at the given address, which runs
    /// in the code segment with the given selector.
    pub fn new(gdt_selector_index: u16, handler: u64) -> (entry: Entry)
        ensures
            entry.gdt_selector == gdt_selector_index,
            entry.pointer() == handler,
            entry.options@ == 0x8e00,
            entry.reserved == 0,
    {
        let low = (handler & 0xffff) as u16;
        let middle = ((handler >> 16) & 0xffff) as u16;
        let high = (handler >> 32) as u32;
        assert((((handler >> 32) as u32 as u64) << 32) | ((((handler >> 16) & 0xffff) as u16 as u64)
            << 16) | ((handler & 0xffff) as u16 as u64) == handler) by (bit_vector);
        Entry {
            gdt_selector: gdt_selector_index,
            pointer_low: low,
            pointer_middle: middle,
            pointer_high: high,
            options: EntryOptions::new(),
            reserved: 0,
        }
    }

    /// Returns an entry without a handler.
    pub fn missing() -> (entry: Entry)
        ensures
            entry.gdt_selector == 0,
            entry.pointer_low == 0,
            entry.pointer_middle == 0,
            entry.pointer_high == 0,
            entry.options@ == MINIMAL_OPTIONS,
            entry.reserved == 0,
            !entry.options.present_spec(),
    {
        assert(0x0e00u16 & 0x8000 == 0) by (bit_vector);
        Entry {
            gdt_selector: 0,
            pointer_low: 0,
            pointer_middle: 0,
            pointer_high: 0,
            options: EntryOptions::minimal(),
            reserved: 0,
        }
    }

    /// The address of the handler, where the entry is present.
    pub fn func(self) -> (handler: Option<u64>)
        ensures
            handler == if self.options.present_spec() {
                Some(self.pointer())
            } else {
                None
            },
    {
        if self.options.is_present() {
            Some(
                ((self.pointer_high as u64) << 32) | ((self.pointer_middle as u64) << 16) | (
                self.pointer_low as u64),
            )
        } else {
            None
        }
    }

    /// The options of the entry.
    pub fn options(&self) -> (options: &EntryOptions)
        ensures
            *options == self.options,
    {
        &self.options
    }
}

/// The interrupt descriptor table.
pub struct Idt(pub [Entry; 40]);

impl Idt {
    /// Creates a new table, each entry without a handler.
    pub fn new() -> (idt: Idt)
        ensures
            forall|i: int|
                0 <= i < IDT_ENTRIES ==> {
                    &&& !(#[trigger] idt.0[i]).options.present_spec()
                    &&& idt.0[i].pointer_low == 0
                    &&& idt.0[i].pointer_middle == 0
                    &&& idt.0[i].pointer_high == 0
                    &&& idt.0[i].gdt_selector == 0
                    &&& idt.0[i].options@ == MINIMAL_OPTIONS
                },
    {
        Idt([Entry::missing();40])
    }

    /// Makes the entry for the given vector present, with the handler at the
    /// given address, which runs in the code segment with the given selector.
    /// The vector has to be one of the table. Returns the options of the entry
    /// as they are now.
    pub fn set_handler(&mut self, entry: u8, code_selector: u16, handler: u64) -> (options:
        EntryOptions)
        requires
            entry < IDT_ENTRIES,
        ensures
            final(self).0@ == old(self).0@.update(
                entry as int,
                final(self).0[entry as int],
            ),
            final(self).0[entry as int].pointer() == handler,
            final(self).0[entry as int].gdt_selector == code_selector,
            final(self).0[entry as int].options == options,
            options@ == 0x8e00,
    {
        let new_entry = Entry::new(code_selector, handler);
        self.0[entry as usize] = new_entry;
        new_entry.options
    }

    /// The entry for the given vector, which has to be one of the table.
    pub fn get_handler(&self, entry: u8) -> (handler: Entry)
        requires
            entry < IDT_ENTRIES,
        ensures
            handler == self.0[entry as int],
    {
        self.0[entry as usize]
    }
}

} // verus!
