//! The global descriptor table: the segments of the kernel.

use vstd::prelude::*;
use crate::interrupts::bitfield::{get_bits_64, set_bits_64};

verus! {

/// The segment may be called from less privileged code.
pub const CONFORMING: u64 = 0x0000_0400_0000_0000;

/// The segment holds code.
pub const EXECUTABLE: u64 = 0x0000_0800_0000_0000;

/// The segment is one of code or data, and no system segment.
pub const USER_SEGMENT: u64 = 0x0000_1000_0000_0000;

/// The segment is present.
pub const PRESENT: u64 = 0x0000_8000_0000_0000;

/// The segment holds 64-bit code.
pub const LONG_MODE: u64 = 0x0020_0000_0000_0000;

/// The number of words in the table.
pub const GDT_WORDS: usize = 8;

/// The size of a task state segment in bytes, less one: the limit of its
/// descriptor.
pub const TSS_LIMIT: u64 = 103;

/// A descriptor of the table.
#[derive(Debug, Clone, Copy, PartialEq, Eq, Structural)]
pub enum Descriptor {
    /// A segment of code or data, in one word.
    UserSegment(u64),
    /// A system segment, in two words.
    SystemSegment(u64, u64),
}

/// The lower word of the descriptor of the task state segment at the given
/// address: present, of type 9, with the limit of the segment and the lower
/// 32 bits of the address.
pub open spec fn tss_low(address: u64) -> u64 {
    PRESENT | ((address & 0xff_ffff) << 16) | (((address >> 24) & 0xff) << 56) | TSS_LIMIT | (
    0x9u64 << 40)
}

impl Descriptor {
    /// The descriptor of the code segment of the kernel.
    pub fn kernel_code_segment() -> (descriptor: Descriptor)
        ensures
            descriptor == Descriptor::UserSegment(USER_SEGMENT | PRESENT | EXECUTABLE | LONG_MODE),
            descriptor == Descriptor::UserSegment(0x0020_9800_0000_0000),
    {
        let flags = USER_SEGMENT | PRESENT | EXECUTABLE | LONG_MODE;
        assert(0x0000_1000_0000_0000u64 | 0x0000_8000_0000_0000 | 0x0000_0800_0000_0000
            | 0x0020_0000_0000_0000 == 0x0020_9800_0000_0000) by (bit_vector);
        Descriptor::UserSegment(flags)
    }

    /// The descriptor of the task state segment at the given address.
    pub fn tss_segment(address: u64) -> (descriptor: Descriptor)
        ensures
            descriptor == Descriptor::SystemSegment(tss_low(address), address >> 32),
    {
        let base_low = get_bits_64(address, 0, 24);
        let base_middle = get_bits_64(address, 24, 32);
        let base_high = get_bits_64(address, 32, 64);
        assert(base_low == address & 0xff_ffff && base_middle == (address >> 24) & 0xff
            && base_high == address >> 32 && (base_low << 40) >> 40 == base_low && (base_middle
            << 56) >> 56 == base_middle && (base_high << 32) >> 32 == base_high && (103u64 << 48)
            >> 48 == 103 && (0x9u64 << 60) >> 60 == 0x9) by (bit_vector)
            requires
                base_low == ((address << 40) >> 40) >> 0,
                base_middle == ((address << 32) >> 32) >> 24,
                base_high == ((address << 0) >> 0) >> 32,
        ;
        let low = PRESENT;
        // base
        let with_base = set_bits_64(low, 16, 40, base_low);
        let with_bases = set_bits_64(with_base, 56, 64, base_middle);
        // limit (the bound is inclusive)
        let with_limit = set_bits_64(with_bases, 0, 16, tss_size() - 1);
        // type (0b1001 = available 64 bit tss)
        let low = set_bits_64(with_limit, 40, 44, 0x9);
        let high = set_bits_64(0, 0, 32, base_high);
        assert(low == 0x0000_8000_0000_0000u64 | (base_low << 16) | (base_middle << 56) | 103 | (
        0x9u64 << 40) && high == base_high) by (bit_vector)
            requires
                base_low == address & 0xff_ffff,
                base_middle == (address >> 24) & 0xff,
                base_high == address >> 32,
                with_base == (0x0000_8000_0000_0000u64 & !((((0xffff_ffff_ffff_ffffu64 << 24)
                    >> 24) >> 16) << 16)) | (base_low << 16),
                with_bases == (with_base & !((((0xffff_ffff_ffff_ffffu64 << 0) >> 0) >> 56)
                    << 56)) | (base_middle << 56),
                with_limit == (with_bases & !((((0xffff_ffff_ffff_ffffu64 << 48) >> 48) >> 0)
                    << 0)) | (103u64 << 0),
                low == (with_limit & !((((0xffff_ffff_ffff_ffffu64 << 20) >> 20) >> 40) << 40))
                    | (0x9u64 << 40),
                high == (0u64 & !((((0xffff_ffff_ffff_ffffu64 << 32) >> 32) >> 0) << 0)) | (
                base_high << 0),
        ;
        Descriptor::SystemSegment(low, high)
    }
}

/// Asks `core::mem::size_of` for the size of the `TaskStateSegment` of the
/// `x86_64` crate in bytes: 104, which is what the fields of that structure
/// take, packed as the processor wants them.
#[verifier::external_body]
pub(crate) fn tss_size() -> (size: u64)
    ensures
        size == TSS_LIMIT + 1,
{
    core::mem::size_of::<x86_64::structures::tss::TaskStateSegment>() as u64
}

/// Calls `SegmentSelector::new` of the `x86_64` crate with ring 0 and returns
/// the selector as a number: the index of the descriptor, moved up by three
/// bits.
#[verifier::external_body]
pub(crate) fn ring0_selector(index: u16) -> (selector: u16)
    ensures
        selector == index << 3,
{
    x86_64::structures::gdt::SegmentSelector::new(index, x86_64::PrivilegeLevel::Ring0).0
}

/// The global descriptor table. Its first word stays zero.
pub struct Gdt {
    table: [u64; 8],
    index: usize,
}

impl Gdt {
    #[verifier::type_invariant]
    spec fn in_table(self) -> bool {
        1 <= self.index <= GDT_WORDS
    }

    /// The words of the table.
    pub closed spec fn table(self) -> Seq<u64> {
        self.table@
    }

    /// The number of words of the table that are in use.
    pub closed spec fn used(self) -> usize {
        self.index
    }

    /// A table without descriptors.
    pub fn new() -> (gdt: Gdt)
        ensures
            gdt.used() == 1,
            gdt.table() == Seq::new(8, |i: int| 0u64),
    {
        let gdt = Gdt { table: [0;8], index: 1 };
        assert(gdt.table() =~= Seq::new(8, |i: int| 0u64));
        gdt
    }

    /// The number of words of the table that are in use, as a number.
    pub fn len(&self) -> (used: usize)
        ensures
            used == self.used(),
            1 <= used <= GDT_WORDS,
    {
        proof {
            use_type_invariant(self);
        }
        self.index
    }

    /// The word at the given place of the table.
    pub fn word(&self, index: usize) -> (word: u64)
        requires
            index < GDT_WORDS,
        ensures
            word == self.table()[index as int],
    {
        self.table[index]
    }

    /// Puts a word into the table, which has to have room for it, and
    /// returns its place.
    fn push(&mut self, value: u64) -> (index: usize)
        requires
            old(self).used() < GDT_WORDS,
        ensures
            index == old(self).used(),
            final(self).used() == old(self).used() + 1,
            final(self).table() == old(self).table().update(index as int, value),
    {
        proof {
            use_type_invariant(&*self);
        }
        let index = self.index;
        self.table[index] = value;
        self.index = index + 1;
        index
    }

    /// Adds a descriptor to the table and returns its selector, for ring 0.
    /// Returns `None`, and leaves the table as it is, where the table has no
    /// room for the descriptor.
    pub fn add_entry(&mut self, entry: Descriptor) -> (selector: Option<u16>)
        ensures
            match entry {
                Descriptor::UserSegment(value) => if old(self).used() < GDT_WORDS {
                    &&& selector == Some((old(self).used() as u16) << 3)
                    &&& final(self).used() == old(self).used() + 1
                    &&& final(self).table() == old(self).table().update(
                        old(self).used() as int,
                        value,
                    )
                } else {
                    &&& selector is None
                    &&& final(self).used() == old(self).used()
                    &&& final(self).table() == old(self).table()
                },
                Descriptor::SystemSegment(low, high) => if old(self).used() + 1 < GDT_WORDS {
                    &&& selector == Some((old(self).used() as u16) << 3)
                    &&& final(self).used() == old(self).used() + 2
                    &&& final(self).table() == old(self).table().update(
                        old(self).used() as int,
                        low,
                    ).update(old(self).used() + 1, high)
                } else {
                    &&& selector is None
                    &&& final(self).used() == old(self).used()
                    &&& final(self).table() == old(self).table()
                },
            },
    {
        proof {
            use_type_invariant(&*self);
        }
        let index = match entry {
            Descriptor::UserSegment(value) => {
                if self.index >= GDT_WORDS {
                    return None;
                }
                self.push(value)
            },
            Descriptor::SystemSegment(low, high) => {
                if self.index + 1 >= GDT_WORDS {
                    return None;
                }
                let index = self.push(low);
                self.push(high);
                index
            },
        };
        Some(ring0_selector(index as u16))
    }
}

} // verus!
