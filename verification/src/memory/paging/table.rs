//! Page tables, and the physical memory that holds them.
//!
//! A table is 512 entries in one frame. The memory is kept word by word, and
//! a frame that was never written reads as zeros. A `Table` names the frame of
//! a table and the level at which it is used: level 4 is the top of the
//! hierarchy, level 1 maps frames.

use std::collections::HashMap;
use vstd::prelude::*;
use crate::memory::paging::entry::{
    entry_word,
    word_frame,
    word_huge,
    word_present,
    Entry,
    EntryFlags,
    PRESENT,
    WRITABLE,
};
use crate::memory::paging::ENTRY_COUNT;
use crate::memory::{Frame, FrameAllocate};
use crate::vmm::VmmError;

verus! {

broadcast use vstd::std_specs::hash::group_hash_axioms;

/// The place in memory of the entry with the given index in the table that the
/// frame with the given index holds.
pub open spec fn cell(frame: u64, index: int) -> int {
    frame * 512 + index
}

/// Memory in which every word is zero.
pub open spec fn zero_memory() -> Map<int, u64> {
    Map::total(|c: int| 0u64)
}

/// The memory `mem` after every entry of the table in `frame` was set to zero.
pub open spec fn zeroed(mem: Map<int, u64>, frame: u64) -> Map<int, u64> {
    Map::total(
        |c: int|
            if cell(frame, 0) <= c < cell(frame, 512) {
                0u64
            } else {
                mem[c]
            },
    )
}

/// The frame of the table that the entry `index` of the table in `table`
/// points to: the entry is present and maps no huge page.
pub open spec fn child_table(mem: Map<int, u64>, table: u64, index: int) -> Option<u64> {
    let word = mem[cell(table, index)];
    if word_present(word) && !word_huge(word) {
        Some(word_frame(word))
    } else {
        None
    }
}

/// The physical memory that page tables live in.
pub struct PhysicalMemory {
    words: HashMap<u64, u64>,
}

impl PhysicalMemory {
    /// What the memory holds: the word in every cell.
    pub closed spec fn view(&self) -> Map<int, u64> {
        Map::total(
            |c: int|
                if 0 <= c <= u64::MAX && self.words@.contains_key(c as u64) {
                    self.words@[c as u64]
                } else {
                    0u64
                },
        )
    }

    /// The memory has a word in every cell.
    pub proof fn lemma_total(self)
        ensures
            self@.dom() == Set::<int>::full(),
    {
        assert(self@.dom() =~= Set::<int>::full());
    }

    /// Memory that nothing was written to.
    pub fn new() -> (memory: PhysicalMemory)
        ensures
            memory@ == zero_memory(),
    {
        let memory = PhysicalMemory { words: HashMap::new() };
        assert(memory@ =~= zero_memory());
        memory
    }

    /// Reads the entry `index` of the table in `frame`.
    pub fn read(&self, frame: &Frame, index: usize) -> (entry: Entry)
        requires
            index < ENTRY_COUNT,
        ensures
            entry@ == self@[cell(frame.number(), index as int)],
    {
        let key: u64 = frame.index() * 512 + index as u64;
        match self.words.get(&key) {
            Some(word) => Entry(*word),
            None => Entry(0),
        }
    }

    /// Writes the entry `index` of the table in `frame`.
    pub fn write(&mut self, frame: &Frame, index: usize, entry: Entry)
        requires
            index < ENTRY_COUNT,
        ensures
            final(self)@ == old(self)@.insert(cell(frame.number(), index as int), entry@),
    {
        let key: u64 = frame.index() * 512 + index as u64;
        self.words.insert(key, entry.0);
        assert(self@ =~= old(self)@.insert(cell(frame.number(), index as int), entry@));
    }

    /// Sets every entry of the table in `frame` to zero.
    pub fn zero(&mut self, frame: &Frame)
        ensures
            final(self)@ == zeroed(old(self)@, frame.number()),
    {
        let base: u64 = frame.index() * 512;
        let mut i: u64 = 0;
        while i < 512
            invariant
                i <= 512,
                base == frame.number() * 512,
                base + 512 <= u64::MAX,
                forall|k: u64|
                    self.words@.contains_key(k) <==> old(self).words@.contains_key(k) && !(base
                        <= k < base + i),
                forall|k: u64|
                    self.words@.contains_key(k) ==> self.words@[k] == old(self).words@[k],
            decreases 512 - i,
        {
            let key: u64 = base + i;
            self.words.remove(&key);
            i = i + 1;
        }
        assert(self@ =~= zeroed(old(self)@, frame.number()));
    }
}

/// A page table: the frame it lives in and the level it is used at.
#[derive(Debug)]
pub struct Table {
    frame: Frame,
    level: u8,
}

impl Table {
    #[verifier::type_invariant]
    spec fn level_exists(self) -> bool {
        1 <= self.level <= 4
    }

    /// The index of the frame that holds the table.
    pub closed spec fn frame_number(self) -> u64 {
        self.frame.number()
    }

    /// The level of the table, from 4 at the top down to 1.
    pub closed spec fn level(self) -> u8 {
        self.level
    }

    /// The table of the top level that lives in `frame`.
    pub fn top_level(frame: Frame) -> (table: Table)
        ensures
            table.frame_number() == frame.number(),
            table.level() == 4,
    {
        Table { frame, level: 4 }
    }

    /// The table of the lowest level that lives in `frame`: its entries are
    /// read and written, and never followed.
    pub fn lowest_level(frame: Frame) -> (table: Table)
        ensures
            table.frame_number() == frame.number(),
            table.level() == 1,
    {
        Table { frame, level: 1 }
    }

    /// The frame that holds the table.
    pub fn frame(&self) -> (frame: Frame)
        ensures
            frame.number() == self.frame_number(),
    {
        self.frame.clone()
    }

    /// The level of the table, from 4 at the top down to 1.
    pub fn depth(&self) -> (level: u8)
        ensures
            level == self.level(),
            1 <= level <= 4,
    {
        proof {
            use_type_invariant(self);
        }
        self.level
    }

    /// Sets each entry of the table to unused.
    pub fn zero(&self, memory: &mut PhysicalMemory)
        ensures
            final(memory)@ == zeroed(old(memory)@, self.frame_number()),
    {
        memory.zero(&self.frame);
    }

    /// The entry at `index`.
    pub fn entry(&self, memory: &PhysicalMemory, index: usize) -> (entry: Entry)
        requires
            index < ENTRY_COUNT,
        ensures
            entry@ == memory@[cell(self.frame_number(), index as int)],
    {
        memory.read(&self.frame, index)
    }

    /// Replaces the entry at `index`.
    pub fn set_entry(&self, memory: &mut PhysicalMemory, index: usize, entry: Entry)
        requires
            index < ENTRY_COUNT,
        ensures
            final(memory)@ == old(memory)@.insert(cell(self.frame_number(), index as int), entry@),
    {
        memory.write(&self.frame, index, entry);
    }

    /// Makes a frame of `allocator` a table that shares the higher half with
    /// this one: its entries from 256 on are those of this table, and the
    /// entries below are unused. Fails with `OutOfPhysicalMemory`, and changes
    /// nothing, where the allocator has no frame.
    pub fn clone_higher_half<A: FrameAllocate>(
        &self,
        memory: &mut PhysicalMemory,
        allocator: &mut A,
    ) -> (result: Result<Table, VmmError>)
        requires
            !old(allocator).free_frames().contains(self.frame_number()),
        ensures
            match result {
                Ok(table) => {
                    &&& old(allocator).free_frames().contains(table.frame_number())
                    &&& final(allocator).free_frames() == old(allocator).free_frames().remove(
                        table.frame_number(),
                    )
                    &&& table.level() == self.level()
                    &&& forall|i: int|
                        0 <= i < 256 ==> #[trigger] final(memory)@[cell(table.frame_number(), i)]
                            == 0
                    &&& forall|i: int|
                        256 <= i < 512 ==> #[trigger] final(memory)@[cell(table.frame_number(), i)]
                            == old(memory)@[cell(self.frame_number(), i)]
                    &&& forall|c: int|
                        !(cell(table.frame_number(), 0) <= c < cell(table.frame_number(), 512))
                            ==> #[trigger] final(memory)@[c] == old(memory)@[c]
                },
                Err(e) => {
                    &&& e == VmmError::OutOfPhysicalMemory
                    &&& old(allocator).free_frames() == Set::<u64>::empty()
                    &&& final(allocator).free_frames() == old(allocator).free_frames()
                    &&& final(memory)@ == old(memory)@
                },
            },
    {
        proof {
            use_type_invariant(self);
        }
        let frame = match allocator.allocate_frame() {
            Some(frame) => frame,
            None => {
                return Err(VmmError::OutOfPhysicalMemory);
            },
        };
        let table = Table { frame, level: self.level };
        table.zero(memory);
        let ghost target = table.frame_number();
        let ghost source = self.frame_number();
        let mut i: usize = 256;
        while i < ENTRY_COUNT
            invariant
                256 <= i <= 512,
                target == table.frame_number(),
                source == self.frame_number(),
                target != source,
                forall|j: int| 0 <= j < 256 ==> #[trigger] memory@[cell(target, j)] == 0,
                forall|j: int|
                    256 <= j < i ==> #[trigger] memory@[cell(target, j)] == old(memory)@[cell(
                        source,
                        j,
                    )],
                forall|c: int|
                    !(cell(target, 0) <= c < cell(target, 512)) ==> #[trigger] memory@[c] == old(memory)@[c],
            decreases 512 - i,
        {
            let entry = self.entry(memory, i);
            table.set_entry(memory, i, entry);
            i = i + 1;
        }
        Ok(table)
    }

    /// Returns the table that the entry at `index` points to, if that entry is
    /// present and maps no huge page. Only a table above level 1 has tables
    /// below it.
    pub fn next_table(&self, memory: &PhysicalMemory, index: usize) -> (next: Option<Table>)
        requires
            self.level() > 1,
            index < ENTRY_COUNT,
        ensures
            match next {
                Some(t) => {
                    &&& child_table(memory@, self.frame_number(), index as int) == Some(
                        t.frame_number(),
                    )
                    &&& t.level() == self.level() - 1
                    &&& t.frame_number() < crate::memory::FRAME_COUNT
                },
                None => child_table(memory@, self.frame_number(), index as int).is_none(),
            },
    {
        proof {
            use_type_invariant(self);
        }
        let entry = memory.read(&self.frame, index);
        let word = entry.0;
        proof {
            crate::memory::paging::entry::lemma_has_huge(word);
        }
        if entry.flags().has(crate::memory::paging::entry::HUGE_PAGE) {
            None
        } else {
            match entry.pointed_frame() {
                Some(frame) => {
                    proof {
                        use_type_invariant(&frame);
                    }
                    Some(Table { frame, level: self.level - 1 })
                },
                None => None,
            }
        }
    }

    /// Returns the table that the entry at `index` points to. Where the entry
    /// is not present, a frame from `allocator` becomes that table: the entry
    /// is made to point to it, present and writable, and the new table is
    /// zeroed. Where a huge page is mapped at the entry, nothing changes and
    /// the result is `AlreadyMapped`; where a frame is needed and none is
    /// left, nothing changes and the result is `OutOfPhysicalMemory`.
    pub fn next_table_create<A: FrameAllocate>(
        &self,
        memory: &mut PhysicalMemory,
        index: usize,
        allocator: &mut A,
    ) -> (next: Result<Table, VmmError>)
        requires
            self.level() > 1,
            index < ENTRY_COUNT,
            !old(allocator).free_frames().contains(self.frame_number()),
        ensures
            match child_table(old(memory)@, self.frame_number(), index as int) {
                Some(child) => {
                    &&& next is Ok
                    &&& next->Ok_0.frame_number() == child
                    &&& final(memory)@ == old(memory)@
                    &&& final(allocator).free_frames() == old(allocator).free_frames()
                },
                None => if word_present(old(memory)@[cell(self.frame_number(), index as int)]) {
                    &&& next == Err::<Table, VmmError>(VmmError::AlreadyMapped)
                    &&& final(memory)@ == old(memory)@
                    &&& final(allocator).free_frames() == old(allocator).free_frames()
                } else {
                    match next {
                        Ok(t) => {
                            &&& old(allocator).free_frames().contains(t.frame_number())
                            &&& final(allocator).free_frames()
                                == old(allocator).free_frames().remove(t.frame_number())
                            &&& final(memory)@ == zeroed(
                                old(memory)@.insert(
                                    cell(self.frame_number(), index as int),
                                    entry_word(t.frame_number(), PRESENT | WRITABLE),
                                ),
                                t.frame_number(),
                            )
                        },
                        Err(e) => {
                            &&& e == VmmError::OutOfPhysicalMemory
                            &&& old(allocator).free_frames() == Set::<u64>::empty()
                            &&& final(memory)@ == old(memory)@
                            &&& final(allocator).free_frames() == old(allocator).free_frames()
                        },
                    }
                },
            },
            next is Ok ==> {
                &&& next->Ok_0.level() == self.level() - 1
                &&& next->Ok_0.frame_number() < crate::memory::FRAME_COUNT
                &&& child_table(final(memory)@, self.frame_number(), index as int) == Some(
                    next->Ok_0.frame_number(),
                )
            },
    {
        proof {
            use_type_invariant(self);
        }
        match self.next_table(memory, index) {
            Some(table) => Ok(table),
            None => {
                let entry = memory.read(&self.frame, index);
                if entry.pointed_frame().is_some() {
                    return Err(VmmError::AlreadyMapped);
                }
                match allocator.allocate_frame() {
                    None => Err(VmmError::OutOfPhysicalMemory),
                    Some(frame) => {
                        let flags = EntryFlags::from_bits_truncate(PRESENT | WRITABLE);
                        proof {
                            crate::memory::paging::entry::lemma_flag_facts();
                        }
                        let mut entry = Entry(0);
                        entry.set(frame.clone(), flags);
                        memory.write(&self.frame, index, entry);
                        memory.zero(&frame);
                        proof {
                            use_type_invariant(&frame);
                            crate::memory::paging::entry::lemma_entry_word(
                                frame.number(),
                                PRESENT | WRITABLE,
                            );
                        }
                        Ok(Table { frame, level: self.level - 1 })
                    },
                }
            },
        }
    }
}

} // verus!
