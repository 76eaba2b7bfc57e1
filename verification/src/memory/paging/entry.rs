//! The entries of a page table: a frame and the flags that say how it is
//! mapped, in one 64-bit word.

use vstd::prelude::*;
use crate::memory::{Frame, FRAME_COUNT, PAGE_SIZE};
use crate::vmm::{
    Protection,
    PROTECTION_EXECUTABLE,
    PROTECTION_USER_ACCESSIBLE,
    PROTECTION_WRITABLE,
};

verus! {

/// The page exists in the table.
pub const PRESENT: u64 = 0x1;

/// The page can be written to; it is read-only otherwise.
pub const WRITABLE: u64 = 0x2;

/// The page is accessible from every ring.
pub const USER_ACCESSIBLE: u64 = 0x4;

/// Writes go straight to memory rather than to the cache.
pub const WRITE_THROUGH: u64 = 0x8;

/// The page is not cached at all.
pub const CACHE_DISABLED: u64 = 0x10;

/// The page was read or written.
pub const ACCESSED: u64 = 0x20;

/// The page was written to.
pub const DIRTY: u64 = 0x40;

/// The entry maps a huge page instead of pointing to a table.
pub const HUGE_PAGE: u64 = 0x80;

/// The translation survives a change of the address space.
pub const GLOBAL: u64 = 0x100;

/// Executing code in the page faults.
pub const NO_EXECUTE: u64 = 0x8000_0000_0000_0000;

/// Every bit of an entry that is a flag.
pub const ALL_FLAGS: u64 = 0x8000_0000_0000_01ff;

/// The bits of an entry that hold the address of the frame.
pub const ADDRESS_MASK: u64 = 0x000f_ffff_ffff_f000;

/// Whether the word of an entry has its present bit set.
pub open spec fn word_present(word: u64) -> bool {
    word & PRESENT != 0
}

/// Whether the word of an entry has its huge-page bit set.
pub open spec fn word_huge(word: u64) -> bool {
    word & HUGE_PAGE != 0
}

/// The index of the frame that the word of an entry names.
pub open spec fn word_frame(word: u64) -> u64 {
    (word & ADDRESS_MASK) / PAGE_SIZE
}

/// The flags in the word of an entry.
pub open spec fn word_flags(word: u64) -> u64 {
    word & ALL_FLAGS
}

/// The word of an entry that names the frame with the given index and carries
/// the given flags.
pub open spec fn entry_word(frame: u64, flags: u64) -> u64 {
    ((frame * PAGE_SIZE) as u64) | flags
}

/// What can be read back from the word of an entry that was put together
/// from a frame and flags.
pub proof fn lemma_entry_word(frame: u64, flags: u64)
    requires
        frame < FRAME_COUNT,
        flags & !ALL_FLAGS == 0,
    ensures
        word_frame(entry_word(frame, flags)) == frame,
        word_flags(entry_word(frame, flags)) == flags,
        word_present(entry_word(frame, flags)) == (flags & PRESENT != 0),
        word_huge(entry_word(frame, flags)) == (flags & HUGE_PAGE != 0),
        flags & PRESENT != 0 ==> entry_word(frame, flags) != 0,
{
    let shifted: u64 = (frame * PAGE_SIZE) as u64;
    assert(shifted == frame << 12 && (frame << 12) >> 12 == frame
        && (frame << 12) & !0x000f_ffff_ffff_f000u64 == 0)
        by (bit_vector)
        requires
            frame < 0x100_0000_0000u64,
            shifted == (frame * 4096) as u64,
    ;
    let word = shifted | flags;
    assert((word & 0x000f_ffff_ffff_f000u64) / 4096 == frame && word & 0x8000_0000_0000_01ffu64
        == flags && (word & 1 != 0) == (flags & 1 != 0) && (word & 0x80 != 0) == (flags & 0x80
        != 0) && (flags & 1 != 0 ==> word != 0)) by (bit_vector)
        requires
            shifted == frame << 12,
            (frame << 12) >> 12 == frame,
            frame < 0x100_0000_0000u64,
            flags & !0x8000_0000_0000_01ffu64 == 0,
            word == shifted | flags,
    ;
}

/// What the bits of the flags used most are.
pub proof fn lemma_flag_facts()
    ensures
        (PRESENT | WRITABLE) & !ALL_FLAGS == 0,
        (PRESENT | WRITABLE) & PRESENT != 0,
        (PRESENT | WRITABLE) & HUGE_PAGE == 0,
        (PRESENT | WRITABLE) & ALL_FLAGS == PRESENT | WRITABLE,
        !word_present(0),
        !word_huge(0),
        0u64 & !ALL_FLAGS == 0,
        WRITABLE & ALL_FLAGS == WRITABLE,
        WRITABLE & ALL_FLAGS & HUGE_PAGE == 0,
        PRESENT & ALL_FLAGS == PRESENT,
        PRESENT & ALL_FLAGS & HUGE_PAGE == 0,
{
    assert((0x1u64 | 0x2) & !0x8000_0000_0000_01ffu64 == 0 && (0x1u64 | 0x2) & 0x1 != 0 && (0x1u64
        | 0x2) & 0x80 == 0 && (0x1u64 | 0x2) & 0x8000_0000_0000_01ffu64 == 0x1u64 | 0x2 && 0u64
        & 0x1 == 0 && 0u64 & 0x80 == 0 && 0x2u64 & 0x8000_0000_0000_01ffu64 == 0x2 && 0u64
        & !0x8000_0000_0000_01ffu64 == 0 && 0x2u64 & 0x8000_0000_0000_01ffu64 & 0x80 == 0 && 0x1u64
        & 0x8000_0000_0000_01ffu64 == 0x1 && 0x1u64 & 0x8000_0000_0000_01ffu64 & 0x80 == 0)
        by (bit_vector);
}

/// Reading the present and the huge-page flag from the flags of a word
/// tells whether the word has those bits; and the address in a word lies
/// below the end of physical memory.
pub proof fn lemma_has_huge(word: u64)
    ensures
        ((word & ALL_FLAGS) & HUGE_PAGE == HUGE_PAGE) == word_huge(word),
        ((word & ALL_FLAGS) & PRESENT == PRESENT) == word_present(word),
        word & ADDRESS_MASK < 0x10_0000_0000_0000,
        (word & ALL_FLAGS) & !ALL_FLAGS == 0,
{
    assert((((word & 0x8000_0000_0000_01ffu64) & 0x80 == 0x80) == (word & 0x80 != 0)) && (((word
        & 0x8000_0000_0000_01ffu64) & 0x1 == 0x1) == (word & 0x1 != 0)) && word
        & 0x000f_ffff_ffff_f000u64 < 0x10_0000_0000_0000u64 && (word & 0x8000_0000_0000_01ffu64)
        & !0x8000_0000_0000_01ffu64 == 0) by (bit_vector);
}

/// Flags stay flags when the present flag is added to them, and do not
/// gain the huge-page flag by it.
pub proof fn lemma_with_present(bits: u64)
    requires
        bits & !ALL_FLAGS == 0,
    ensures
        (bits | PRESENT) & !ALL_FLAGS == 0,
        (bits | PRESENT) & PRESENT != 0,
        bits & HUGE_PAGE == 0 ==> (bits | PRESENT) & HUGE_PAGE == 0,
{
    assert((bits | 0x1) & !0x8000_0000_0000_01ffu64 == 0 && (bits | 0x1) & 0x1 != 0 && (bits & 0x80
        == 0 ==> (bits | 0x1) & 0x80 == 0)) by (bit_vector)
        requires
            bits & !0x8000_0000_0000_01ffu64 == 0,
    ;
}

/// The flags of an entry. Only the bits that are flags are ever set.
#[derive(Clone, Copy, Debug, PartialEq, Eq, Structural)]
pub struct EntryFlags {
    bits: u64,
}

impl EntryFlags {
    #[verifier::type_invariant]
    spec fn only_flags(self) -> bool {
        self.bits & !ALL_FLAGS == 0
    }

    /// The flags as the bits of an entry.
    pub closed spec fn view(self) -> u64 {
        self.bits
    }

    /// No flag at all.
    pub fn empty() -> (flags: EntryFlags)
        ensures
            flags@ == 0,
    {
        proof {
            lemma_flag_facts();
        }
        EntryFlags { bits: 0 }
    }

    /// The flags among the given bits; the bits that are no flags are dropped.
    pub fn from_bits_truncate(bits: u64) -> (flags: EntryFlags)
        ensures
            flags@ == bits & ALL_FLAGS,
    {
        let kept = bits & ALL_FLAGS;
        proof {
            lemma_has_huge(bits);
        }
        EntryFlags { bits: kept }
    }

    /// The flags as the bits of an entry.
    pub fn bits(&self) -> (bits: u64)
        ensures
            bits == self@,
            bits & !ALL_FLAGS == 0,
    {
        proof {
            use_type_invariant(self);
        }
        self.bits
    }

    /// Whether every flag of `other` is among these flags.
    pub fn contains(&self, other: EntryFlags) -> (all: bool)
        ensures
            all == (self@ & other@ == other@),
    {
        self.bits & other.bits == other.bits
    }

    /// Whether every one of the given bits is among these flags.
    pub fn has(&self, bits: u64) -> (all: bool)
        ensures
            all == (self@ & bits == bits),
    {
        self.bits & bits == bits
    }

    /// The flags of both.
    pub fn union(self, other: EntryFlags) -> (flags: EntryFlags)
        ensures
            flags@ == self@ | other@,
    {
        proof {
            use_type_invariant(&self);
            use_type_invariant(&other);
        }
        let a = self.bits;
        let b = other.bits;
        assert((a | b) & !0x8000_0000_0000_01ffu64 == 0) by (bit_vector)
            requires
                a & !0x8000_0000_0000_01ffu64 == 0,
                b & !0x8000_0000_0000_01ffu64 == 0,
        ;
        EntryFlags { bits: a | b }
    }

    /// The flags that the protection of a region asks for: writable and
    /// accessible to the user where the region is, and not executable unless
    /// the region is.
    pub fn from_protection(protection: Protection) -> (flags: EntryFlags)
        ensures
            flags@ == (if protection@ & PROTECTION_WRITABLE == PROTECTION_WRITABLE {
                WRITABLE
            } else {
                0
            }) | (if protection@ & PROTECTION_USER_ACCESSIBLE == PROTECTION_USER_ACCESSIBLE {
                USER_ACCESSIBLE
            } else {
                0
            }) | (if protection@ & PROTECTION_EXECUTABLE == PROTECTION_EXECUTABLE {
                0
            } else {
                NO_EXECUTE
            }),
            flags@ & HUGE_PAGE == 0,
    {
        let w: u64 = if protection.has(PROTECTION_WRITABLE) {
            WRITABLE
        } else {
            0
        };
        let u: u64 = if protection.has(PROTECTION_USER_ACCESSIBLE) {
            USER_ACCESSIBLE
        } else {
            0
        };
        let x: u64 = if protection.has(PROTECTION_EXECUTABLE) {
            0
        } else {
            NO_EXECUTE
        };
        let bits = w | u | x;
        assert(bits & 0x8000_0000_0000_01ffu64 == bits && bits & 0x80 == 0) by (bit_vector)
            requires
                w == 0 || w == 0x2,
                u == 0 || u == 0x4,
                x == 0 || x == 0x8000_0000_0000_0000u64,
                bits == w | u | x,
        ;
        EntryFlags::from_bits_truncate(bits)
    }

    /// The flags that a loaded section of the kernel image asks for: present
    /// where the section is allocated, writable where it is, and not
    /// executable unless the section holds code.
    pub fn from_elf_section_flags(allocated: bool, writable: bool, executable: bool) -> (flags:
        EntryFlags)
        ensures
            flags@ == (if allocated {
                PRESENT
            } else {
                0
            }) | (if writable {
                WRITABLE
            } else {
                0
            }) | (if executable {
                0
            } else {
                NO_EXECUTE
            }),
            flags@ & HUGE_PAGE == 0,
    {
        let a: u64 = if allocated {
            PRESENT
        } else {
            0
        };
        let w: u64 = if writable {
            WRITABLE
        } else {
            0
        };
        let x: u64 = if executable {
            0
        } else {
            NO_EXECUTE
        };
        let bits = a | w | x;
        assert(bits & 0x8000_0000_0000_01ffu64 == bits && bits & 0x80 == 0) by (bit_vector)
            requires
                a == 0 || a == 0x1,
                w == 0 || w == 0x2,
                x == 0 || x == 0x8000_0000_0000_0000u64,
                bits == a | w | x,
        ;
        EntryFlags::from_bits_truncate(bits)
    }
}

/// An entry of a page table.
#[derive(Clone, Copy, Debug, PartialEq, Eq, Structural)]
pub struct Entry(pub u64);

impl Entry {
    /// The word that the entry is.
    pub open spec fn view(self) -> u64 {
        self.0
    }

    /// Checks if an entry is unused.
    pub fn is_unused(&self) -> (unused: bool)
        ensures
            unused == (self@ == 0),
    {
        self.0 == 0
    }

    /// Zeros an entry, setting it to unused.
    pub fn set_unused(&mut self)
        ensures
            final(self)@ == 0,
    {
        self.0 = 0;
    }

    /// Gets the flags of the entry.
    pub fn flags(&self) -> (flags: EntryFlags)
        ensures
            flags@ == word_flags(self@),
    {
        EntryFlags::from_bits_truncate(self.0)
    }

    /// Returns the frame that the entry maps: the one it names, where it is
    /// present.
    pub fn pointed_frame(&self) -> (frame: Option<Frame>)
        ensures
            match frame {
                Some(f) => word_present(self@) && f.number() == word_frame(self@),
                None => !word_present(self@),
            },
    {
        let word = self.0;
        proof {
            lemma_has_huge(word);
        }
        if self.flags().has(PRESENT) {
            let address = word & ADDRESS_MASK;
            Some(Frame::containing_address(address))
        } else {
            None
        }
    }

    /// Sets the entry to point to the given frame with the given flags.
    pub fn set(&mut self, frame: Frame, flags: EntryFlags)
        ensures
            final(self)@ == entry_word(frame.number(), flags@),
    {
        self.0 = frame.start_address() | flags.bits();
    }
}

} // verus!
