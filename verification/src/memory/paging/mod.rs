//! Virtual pages and the four-level page table that maps them to frames.

use vstd::prelude::*;
use crate::memory::paging::entry::{entry_word, lemma_entry_word, EntryFlags, PRESENT, WRITABLE};
use crate::memory::paging::entry::lemma_flag_facts;
use crate::memory::paging::mapper::{
    all_unnamed,
    carried_out,
    consistent,
    entries_accounted,
    unique_references,
    leaf_cell,
    lemma_temporary_walk,
    new_entries_name,
    unique_except,
    unnamed_outside,
    lemma_walk_same,
    mapped_flags,
    mapped_small,
    others_kept,
    slot_taken,
    root_referenced_once,
    translate_in,
    unreferenced,
    walk_cells,
    Mapper,
    RECURSIVE_INDEX,
};
use crate::memory::paging::table::{cell, child_table, zero_memory};
use crate::memory::paging::temporary_page::TemporaryPage;
use crate::memory::{ArchSpecificVMM, Frame, FrameAllocate, FrameDeallocate, PAGE_SIZE};
use crate::vmm::VmmError;

pub mod entry;
pub mod mapper;
pub mod table;
pub mod temporary_page;

verus! {

/// A virtual address. Every pointer is one.
pub type VirtualAddress = u64;

/// How many entries are in each table.
pub const ENTRY_COUNT: usize = 512;

/// The first address above the lower half of the address space.
pub const LOWER_HALF_END: u64 = 0x0000_8000_0000_0000;

/// The first address of the higher half of the address space.
pub const HIGHER_HALF_START: u64 = 0xffff_8000_0000_0000;

/// The index of the first page above the lower half.
pub const LOWER_HALF_PAGES: u64 = 0x8_0000_0000;

/// The index of the first page of the higher half.
pub const HIGHER_HALF_FIRST_PAGE: u64 = 0xf_fff8_0000_0000;

/// The number of pages below the end of the address space.
pub const PAGE_COUNT: u64 = 0x10_0000_0000_0000;

/// An address is canonical when its bits 48 to 63 all equal its bit 47.
pub open spec fn is_canonical(address: u64) -> bool {
    address < LOWER_HALF_END || address >= HIGHER_HALF_START
}

/// The indices of the pages whose addresses are canonical.
pub open spec fn is_canonical_page(number: int) -> bool {
    0 <= number < LOWER_HALF_PAGES || HIGHER_HALF_FIRST_PAGE <= number < PAGE_COUNT
}

/// The index into the table of the given level (4 for the top-level table, 1
/// for the table that maps frames) that the page with the given index selects.
pub open spec fn table_index(number: u64, level: int) -> usize {
    if level == 4 {
        ((number >> 27) & 0o777) as usize
    } else if level == 3 {
        ((number >> 18) & 0o777) as usize
    } else if level == 2 {
        ((number >> 9) & 0o777) as usize
    } else {
        (number & 0o777) as usize
    }
}

/// The index into a table is below the number of its entries.
pub proof fn lemma_index_bounds(number: u64)
    ensures
        (number >> 27) & 0o777 < 512,
        (number >> 18) & 0o777 < 512,
        (number >> 9) & 0o777 < 512,
        number & 0o777 < 512,
        table_index(number, 4) < 512,
        table_index(number, 3) < 512,
        table_index(number, 2) < 512,
        table_index(number, 1) < 512,
{
    assert(((number >> 27) & 0o777) < 512 && ((number >> 18) & 0o777) < 512 && ((number >> 9)
        & 0o777) < 512 && (number & 0o777) < 512) by (bit_vector);
}

/// Tells whether an address is canonical.
pub fn address_is_canonical(address: VirtualAddress) -> (canonical: bool)
    ensures
        canonical == is_canonical(address),
{
    address < LOWER_HALF_END || address >= HIGHER_HALF_START
}

/// A virtual page, named by its index. The address of every page is canonical.
#[derive(Debug, Clone, Copy, PartialEq, Eq, PartialOrd, Ord, Structural)]
pub struct Page(u64);

impl Page {
    #[verifier::type_invariant]
    spec fn canonical(self) -> bool {
        is_canonical_page(self.0 as int)
    }

    /// The index of the page.
    pub closed spec fn number(self) -> u64 {
        self.0
    }

    /// The index of the page, as a number.
    pub fn index(&self) -> (n: u64)
        ensures
            n == self.number(),
            is_canonical_page(n as int),
    {
        proof {
            use_type_invariant(self);
        }
        self.0
    }

    /// Returns the first address in the page.
    pub fn start_address(&self) -> (address: VirtualAddress)
        ensures
            address == self.number() * PAGE_SIZE,
            is_canonical(address),
    {
        proof {
            use_type_invariant(self);
        }
        self.0 * PAGE_SIZE
    }

    /// Returns the page that contains the address given, which has to be
    /// canonical.
    pub fn containing_address(address: VirtualAddress) -> (page: Page)
        requires
            is_canonical(address),
        ensures
            page.number() == address / PAGE_SIZE,
    {
        Page(address / PAGE_SIZE)
    }

    /// The page's index into the top-level table.
    pub fn p4_index(&self) -> (i: usize)
        ensures
            i == table_index(self.number(), 4),
            i < ENTRY_COUNT,
    {
        let n: u64 = self.0;
        let i: u64 = (n >> 27) & 0o777;
        proof {
            lemma_index_bounds(n);
        }
        i as usize
    }

    /// The page's index into the table of level 3.
    pub fn p3_index(&self) -> (i: usize)
        ensures
            i == table_index(self.number(), 3),
            i < ENTRY_COUNT,
    {
        let n: u64 = self.0;
        let i: u64 = (n >> 18) & 0o777;
        proof {
            lemma_index_bounds(n);
        }
        i as usize
    }

    /// The page's index into the table of level 2.
    pub fn p2_index(&self) -> (i: usize)
        ensures
            i == table_index(self.number(), 2),
            i < ENTRY_COUNT,
    {
        let n: u64 = self.0;
        let i: u64 = (n >> 9) & 0o777;
        proof {
            lemma_index_bounds(n);
        }
        i as usize
    }

    /// The page's index into the table of level 1.
    pub fn p1_index(&self) -> (i: usize)
        ensures
            i == table_index(self.number(), 1),
            i < ENTRY_COUNT,
    {
        let n: u64 = self.0;
        let i: u64 = n & 0o777;
        proof {
            lemma_index_bounds(n);
        }
        i as usize
    }

    /// The page that lies `count` pages above this one, where that page exists.
    pub fn add(self, count: u64) -> (page: Page)
        requires
            is_canonical_page(self.number() + count),
        ensures
            page.number() == self.number() + count,
    {
        Page(self.0 + count)
    }

    /// Maps this page to the given frame in the active table of the
    /// controller, as `Mapper::map_to` does.
    pub fn map_to(self, controller: &mut ArchSpecificVMM, frame: Frame, flags: EntryFlags) -> (result:
        Result<(), VmmError>)
        requires
            old(controller).active_table.mapper.wf(),
            old(controller).active_table.mapper.separate_from(
                old(controller).frame_allocator.free_frames(),
            ),
            !old(controller).frame_allocator.free_frames().contains(frame.number()),
        ensures
            final(controller).stack_allocator == old(controller).stack_allocator,
            Mapper::mapped_to(
                old(controller).active_table.mapper,
                final(controller).active_table.mapper,
                old(controller).frame_allocator.free_frames(),
                final(controller).frame_allocator.free_frames(),
                self.number(),
                frame.number(),
                flags@,
                result,
            ),
    {
        controller.active_table.mapper.map_to(self, frame, flags, &mut controller.frame_allocator)
    }

    /// Maps this page to any free frame of the controller, as `Mapper::map`
    /// does.
    pub fn map(self, controller: &mut ArchSpecificVMM, flags: EntryFlags) -> (result: Result<
        (),
        VmmError,
    >)
        requires
            old(controller).wf(),
        ensures
            final(controller).wf(),
            final(controller).stack_allocator == old(controller).stack_allocator,
            final(controller).active_table.mapper.root() == old(controller).active_table.mapper.root(),
            forall|other: u64|
                old(controller).translate_page_spec(other) is Some
                    ==> final(controller).translate_page_spec(other)
                        == old(controller).translate_page_spec(other),
            (result == Err::<(), VmmError>(VmmError::AlreadyMapped)) == slot_taken(
                old(controller).active_table.mapper.memory(),
                old(controller).active_table.mapper.p4_number(),
                self.number(),
            ),
            result == Err::<(), VmmError>(VmmError::AlreadyMapped) ==> {
                &&& final(controller).active_table.mapper.memory()
                    == old(controller).active_table.mapper.memory()
                &&& final(controller).frame_allocator.free_frames()
                    == old(controller).frame_allocator.free_frames()
            },
            result == Err::<(), VmmError>(VmmError::OutOfPhysicalMemory)
                ==> final(controller).frame_allocator.free_frames() == Set::<u64>::empty(),
            table_index(self.number(), 4) != RECURSIVE_INDEX ==> others_kept(
                old(controller).active_table.mapper.memory(),
                final(controller).active_table.mapper.memory(),
                old(controller).active_table.mapper.p4_number(),
                self.number(),
            ),
            match result {
                Ok(()) => {
                    &&& old(controller).translate_page_spec(self.number()) is None
                    &&& final(controller).translate_page_spec(self.number()) is Some
                    &&& old(controller).frame_allocator.free_frames().contains(
                        final(controller).translate_page_spec(self.number())->Some_0,
                    )
                    &&& mapped_flags(
                        final(controller).active_table.mapper.memory(),
                        final(controller).active_table.mapper.p4_number(),
                        self.number(),
                    ) == Some(flags@ | PRESENT)
                },
                Err(e) => e == VmmError::AlreadyMapped || e == VmmError::OutOfPhysicalMemory,
            },
    {
        controller.active_table.mapper.map(self, flags, &mut controller.frame_allocator)
    }

    /// Unmaps this page in the active table of the controller and hands its
    /// frame back to the allocator of frames, where that has a bit for it.
    pub fn unmap(self, controller: &mut ArchSpecificVMM) -> (result: Result<(), VmmError>)
        requires
            old(controller).active_table.mapper.wf(),
        ensures
            final(controller).stack_allocator == old(controller).stack_allocator,
            match result {
                Ok(()) => mapped_small(
                    old(controller).active_table.mapper.memory(),
                    old(controller).active_table.mapper.p4_number(),
                    self.number(),
                ) is Some,
                Err(e) => {
                    &&& mapped_small(
                        old(controller).active_table.mapper.memory(),
                        old(controller).active_table.mapper.p4_number(),
                        self.number(),
                    ) is None
                    &&& e == VmmError::NotMapped
                    &&& final(controller).active_table.mapper.memory()
                        == old(controller).active_table.mapper.memory()
                    &&& final(controller).frame_allocator.free_frames()
                        == old(controller).frame_allocator.free_frames()
                },
            },
            result is Ok ==> Mapper::unmapped(
                old(controller).active_table.mapper,
                final(controller).active_table.mapper,
                Set::empty(),
                set![mapped_small(
                    old(controller).active_table.mapper.memory(),
                    old(controller).active_table.mapper.p4_number(),
                    self.number(),
                )->Some_0],
                self.number(),
                result,
            ),
            result is Ok ==> {
                let frame = mapped_small(
                    old(controller).active_table.mapper.memory(),
                    old(controller).active_table.mapper.p4_number(),
                    self.number(),
                )->Some_0;
                final(controller).frame_allocator.free_frames()
                    == if frame < old(controller).frame_allocator.capacity() {
                    old(controller).frame_allocator.free_frames().insert(frame)
                } else {
                    old(controller).frame_allocator.free_frames()
                }
            },
    {
        let capacity = controller.frame_allocator.frame_capacity();
        match controller.active_table.mapper.unmap_page(self) {
            Ok(frame) => {
                if frame.index() < capacity {
                    proof {
                        assert forall|m: u64| set![frame.number()].contains(m) implies m
                            < capacity by {}
                    }
                    controller.frame_allocator.deallocate_frame(frame);
                }
                Ok(())
            },
            Err(e) => Err(e),
        }
    }

    /// Returns an iterator over the pages from `start` to `end`, both
    /// included, in increasing order. The two lie in the same half of the
    /// address space, unless the run is empty.
    pub fn range_inclusive(start: Page, end: Page) -> (iter: PageIter)
        requires
            start.number() <= end.number() ==> (start.number() < LOWER_HALF_PAGES
                <==> end.number() < LOWER_HALF_PAGES),
        ensures
            iter.next_number() == start.number(),
            iter.last_number() == end.number(),
    {
        proof {
            use_type_invariant(&start);
            use_type_invariant(&end);
        }
        PageIter { next: start.0, end: end.0 }
    }
}

/// An iterator across a contiguous run of pages.
#[derive(Clone, Copy)]
pub struct PageIter {
    next: u64,
    end: u64,
}

impl PageIter {
    #[verifier::type_invariant]
    spec fn within_one_half(self) -> bool {
        self.next <= self.end ==> {
            &&& is_canonical_page(self.next as int)
            &&& is_canonical_page(self.end as int)
            &&& (self.next < LOWER_HALF_PAGES <==> self.end < LOWER_HALF_PAGES)
        }
    }

    /// The index of the page that comes out next, if one does.
    pub closed spec fn next_number(self) -> u64 {
        self.next
    }

    /// The index of the last page of the run.
    pub closed spec fn last_number(self) -> u64 {
        self.end
    }

    /// The number of pages that are still to come.
    pub open spec fn remaining(self) -> nat {
        if self.next_number() <= self.last_number() {
            (self.last_number() - self.next_number() + 1) as nat
        } else {
            0
        }
    }

    /// The index of the last page of the run, as a number.
    pub fn last(&self) -> (number: u64)
        ensures
            number == self.last_number(),
    {
        self.end
    }

    /// The number of pages that are still to come, as a number.
    pub fn pages_left(&self) -> (count: u64)
        ensures
            count == self.remaining(),
            count > 0 ==> {
                &&& is_canonical_page(self.next_number() as int)
                &&& is_canonical_page(self.last_number() as int)
                &&& (self.next_number() < LOWER_HALF_PAGES <==> self.last_number()
                    < LOWER_HALF_PAGES)
            },
    {
        proof {
            use_type_invariant(self);
        }
        if self.next <= self.end {
            self.end - self.next + 1
        } else {
            0
        }
    }

    /// Hands out the next page of the run, or `None` once the run is over.
    pub fn next(&mut self) -> (page: Option<Page>)
        ensures
            final(self).last_number() == old(self).last_number(),
            match page {
                Some(p) => {
                    &&& old(self).next_number() <= old(self).last_number()
                    &&& p.number() == old(self).next_number()
                    &&& final(self).next_number() == old(self).next_number() + 1
                    &&& is_canonical_page(old(self).last_number() as int)
                    &&& (p.number() < LOWER_HALF_PAGES) == (old(self).last_number()
                        < LOWER_HALF_PAGES)
                },
                None => {
                    &&& old(self).next_number() > old(self).last_number()
                    &&& *final(self) == *old(self)
                },
            },
    {
        proof {
            use_type_invariant(&*self);
        }
        if self.next <= self.end {
            let page = Page(self.next);
            self.next = self.next + 1;
            Some(page)
        } else {
            None
        }
    }

    /// Skips `n` pages and hands out the one after them, or `None` where the
    /// run is over before that. In that case the run is used up.
    pub fn nth(&mut self, n: u64) -> (page: Option<Page>)
        ensures
            final(self).last_number() == old(self).last_number(),
            match page {
                Some(p) => {
                    &&& n < old(self).remaining()
                    &&& p.number() == old(self).next_number() + n
                    &&& final(self).next_number() == old(self).next_number() + n + 1
                    &&& is_canonical_page(old(self).last_number() as int)
                    &&& (p.number() < LOWER_HALF_PAGES) == (old(self).last_number()
                        < LOWER_HALF_PAGES)
                },
                None => {
                    &&& n >= old(self).remaining()
                    &&& final(self).remaining() == 0
                },
            },
    {
        proof {
            use_type_invariant(&*self);
        }
        if self.next <= self.end && n <= self.end - self.next {
            let page = Page(self.next + n);
            self.next = self.next + n + 1;
            Some(page)
        } else {
            if self.next <= self.end {
                self.next = self.end + 1;
            }
            None
        }
    }
}

/// The index of the page at which the top-level table appears through its
/// own entry 510.
pub const P4_PAGE: u64 = 0xf_ffff_f7fb_fdfe;

/// The address at which the top-level table appears through its own entry
/// 510.
pub const P4_ADDRESS: u64 = 0xffff_ff7f_bfdf_e000;

/// A request to map a page to a frame with the given flags.
pub struct Mapping {
    /// The page to map.
    pub page: Page,
    /// The frame that the page is to be mapped to.
    pub frame: Frame,
    /// The flags of the mapping.
    pub flags: EntryFlags,
    /// Whether the one who asks cannot go on without the mapping.
    pub required: bool,
}

/// A top-level table that is not in use: the frame that holds it.
pub struct InactivePageTable {
    /// The frame of the top-level table.
    pub p4_frame: Frame,
}

impl InactivePageTable {
    /// The table is ready to be switched to: its entry 510 points back at it.
    pub open spec fn valid_in(self, mem: Map<int, u64>) -> bool {
        mem[cell(self.p4_frame.number(), RECURSIVE_INDEX as int)] == entry_word(
            self.p4_frame.number(),
            PRESENT | WRITABLE,
        )
    }

    /// Makes the table in `frame` a top-level table that is not in use: the
    /// frame is mapped at the temporary page, zeroed and given its entry 510,
    /// which points back at it, present and writable. The temporary page is
    /// unmapped again and its allocator flushed, so that the new table is the
    /// only owner of the frame.
    ///
    /// Fails, with what mapping the temporary page fails with; nothing is
    /// written to the frame then.
    pub fn new(
        frame: Frame,
        active_table: &mut ActivePageTable,
        temporary_page: &mut TemporaryPage,
    ) -> (result: Result<InactivePageTable, VmmError>)
        requires
            old(active_table).wf(),
            old(active_table).mapper.separate_from(old(temporary_page).allocator.free_frames()),
            old(active_table).mapper.separate_from(set![frame.number()]),
            !old(temporary_page).allocator.free_frames().contains(frame.number()),
            old(temporary_page).allocator.accepts_all(set![frame.number()]) || leaf_cell(
                old(active_table).mapper.memory(),
                old(active_table).mapper.root(),
                old(temporary_page).page().number(),
            ) is None,
        ensures
            final(active_table).wf(),
            final(active_table).mapper.root() == old(active_table).mapper.root(),
            final(temporary_page).page() == old(temporary_page).page(),
            new_entries_name(
                old(active_table).mapper.memory(),
                final(active_table).mapper.memory(),
                old(temporary_page).allocator.free_frames().insert(frame.number()),
                None,
            ),
            forall|e: Set<int>|
                #[trigger] unique_except(old(active_table).mapper.memory(), e) ==> unique_except(
                    final(active_table).mapper.memory(),
                    e,
                ),
            match result {
                Ok(table) => {
                    &&& table.p4_frame.number() == frame.number()
                    &&& table.valid_in(final(active_table).mapper.memory())
                    &&& forall|i: int|
                        0 <= i < 512 && i != RECURSIVE_INDEX
                            ==> #[trigger] final(active_table).mapper.memory()[cell(frame.number(), i)] == 0
                    &&& final(temporary_page).allocator.free_frames() == Set::<u64>::empty()
                    &&& final(active_table).mapper.translate_page_spec(
                        old(temporary_page).page().number(),
                    ) is None
                    &&& leaf_cell(
                        final(active_table).mapper.memory(),
                        final(active_table).mapper.root(),
                        old(temporary_page).page().number(),
                    ) is Some
                    &&& !slot_taken(
                        final(active_table).mapper.memory(),
                        final(active_table).mapper.root(),
                        old(temporary_page).page().number(),
                    )
                },
                Err(e) => {
                    &&& e == VmmError::AlreadyMapped || e == VmmError::OutOfPhysicalMemory
                    &&& Mapper::mapped_to(
                        old(active_table).mapper,
                        final(active_table).mapper,
                        old(temporary_page).allocator.free_frames(),
                        final(temporary_page).allocator.free_frames(),
                        old(temporary_page).page().number(),
                        frame.number(),
                        WRITABLE,
                        Err(e),
                    )
                },
            },
    {
        let ghost n = frame.number();
        let number = frame.index();
        let ghost mem0 = active_table.mapper.memory();
        let ghost root = active_table.mapper.root();
        let ghost free0 = temporary_page.allocator.free_frames();
        let ghost page = temporary_page.page().number();
        proof {
            assert(set![n].contains(n));
            lemma_flag_facts();
            lemma_entry_word(n, PRESENT | WRITABLE);
        }
        let table = match temporary_page.map_table_frame(frame.clone(), active_table) {
            Ok(table) => table,
            Err(e) => {
                return Err(e);
            },
        };
        let ghost mem1 = active_table.mapper.memory();
        let ghost free1 = temporary_page.allocator.free_frames();
        // Now that it is mapped we can zero it
        active_table.mapper.zero_table(&table);
        // Now set up recursive mapping for the table
        active_table.mapper.set_table_entry(
            &table,
            RECURSIVE_INDEX,
            frame.clone(),
            EntryFlags::from_bits_truncate(PRESENT | WRITABLE),
        );
        let ghost mem2 = active_table.mapper.memory();
        proof {
            crate::memory::paging::mapper::lemma_table_frame_initialised(
                mem0,
                mem1,
                mem2,
                root,
                free0,
                page,
                n,
            );
            crate::memory::paging::mapper::lemma_small_mapping_translates(mem2, root, page);
            assert(free1.subset_of(free0));
            old(temporary_page).allocator.lemma_finite();
            if old(temporary_page).allocator.accepts_all(set![n]) {
                temporary_page.allocator.lemma_room_kept(free0, set![n]);
            } else {
                let table = choose|table: u64| free0.contains(table) && !free1.contains(table);
                assert(free1.subset_of(free0.remove(table)));
                assert(set![n].len() == 1);
                assert(set![n].disjoint(free0.remove(table)));
                temporary_page.allocator.lemma_room_kept(free0.remove(table), set![n]);
            }
        }
        let ghost leaf = leaf_cell(mem1, root, page)->Some_0;
        let unmapped = temporary_page.unmap(active_table);
        // At this point the frame of the new table is in the allocator:
        // flush it, so that the new table is the only owner.
        let _ = temporary_page.allocator.flush();
        proof {
            assert(unmapped is Ok);
            let mem3 = active_table.mapper.memory();
            assert forall|c: int| #![trigger mem3[c]] c != leaf implies mem3[c] == mem2[c] by {}
            assert(mem3[leaf] == 0);
            assert forall|c: int| #![trigger mem2[c]] c != cell(n, 510) && !(cell(n, 0) <= c < cell(
                n,
                512,
            )) implies mem2[c] == mem1[c] by {}
            assert(new_entries_name(mem0, mem3, free0.insert(n), None)) by {
                assert forall|c: int|
                    #![trigger mem3[c]]
                    crate::memory::paging::entry::word_present(mem3[c]) implies mem3[c] == mem0[c]
                    || free0.insert(n).contains(
                    crate::memory::paging::entry::word_frame(mem3[c]),
                ) by {
                    if c == cell(n, 510) {
                    } else {
                        assert(mem3[c] == mem2[c]);
                        assert(mem2[c] == mem1[c]);
                    }
                }
            }
            assert forall|e: Set<int>|
                #[trigger] unique_except(mem0, e) implies unique_except(mem3, e) by {
                assert(unique_except(mem1, e.insert(leaf)));
                assert forall|c1: int, c2: int|
                    #![trigger mem3[c1], mem3[c2]]
                    c1 != c2 && !e.contains(c1) && !e.contains(c2)
                        && crate::memory::paging::entry::word_present(mem3[c1])
                        && crate::memory::paging::entry::word_present(
                        mem3[c2],
                    ) implies crate::memory::paging::entry::word_frame(mem3[c1])
                    != crate::memory::paging::entry::word_frame(mem3[c2]) by {
                    assert(c1 != leaf && c2 != leaf);
                    assert(mem3[c1] == mem2[c1] && mem3[c2] == mem2[c2]);
                    if c1 == cell(n, 510) {
                        assert(mem2[c2] == mem1[c2]);
                        assert(crate::memory::paging::entry::word_frame(mem1[c2]) != n);
                    } else if c2 == cell(n, 510) {
                        assert(mem2[c1] == mem1[c1]);
                        assert(crate::memory::paging::entry::word_frame(mem1[c1]) != n);
                    } else {
                        assert(mem2[c1] == mem1[c1]);
                        assert(mem2[c2] == mem1[c2]);
                        assert(!e.insert(leaf).contains(c1));
                        assert(!e.insert(leaf).contains(c2));
                    }
                }
            }
        }
        Ok(InactivePageTable { p4_frame: frame })
    }
}

/// The page table that the processor walks. There is only one.
pub struct ActivePageTable {
    /// The operations on the table.
    pub mapper: Mapper,
}

impl ActivePageTable {
    /// The table in the root register is its own top-level table: its entry
    /// 510 points back at it.
    pub open spec fn wf(self) -> bool {
        &&& self.mapper.wf()
        &&& self.mapper.p4_number() == self.mapper.root()
        &&& self.mapper.memory()[cell(self.mapper.root(), RECURSIVE_INDEX as int)] == entry_word(
            self.mapper.root(),
            PRESENT | WRITABLE,
        )
    }

    /// The active table as the boot code leaves it: the table in `root` is
    /// empty but for its entry 510, which points back at it.
    pub fn new(root: Frame) -> (table: ActivePageTable)
        ensures
            table.wf(),
            table.mapper.root() == root.number(),
            table.mapper.memory() == zero_memory().insert(
                cell(root.number(), RECURSIVE_INDEX as int),
                entry_word(root.number(), PRESENT | WRITABLE),
            ),
            forall|number: u64|
                table_index(number, 4) != RECURSIVE_INDEX ==> table.mapper.translate_page_spec(
                    number,
                ) is None,
            forall|free: Set<u64>| !free.contains(root.number()) ==> table.mapper.separate_from(free),
    {
        ActivePageTable { mapper: Mapper::new(root) }
    }

    /// Carries out the given requests in the given table, which is not in
    /// use, in place of the active one.
    ///
    /// The active table is mapped at the temporary page, and its entry 510 is
    /// made to point at the given table, so that the operations of the mapper
    /// walk into that table. The requests are carried out as `map_all` does.
    /// Then entry 510 of the active table is made to point back at the active
    /// table, through the temporary page, and the temporary page is unmapped
    /// and its allocator flushed.
    ///
    /// Returns what each request came to. What a request that was carried
    /// out is mapped to is told of the memory as it was while the requests
    /// were carried out: with entry 510 of the active table pointing at the
    /// given table, and the temporary page mapped to the active table. Fails,
    /// before anything is redirected, with what mapping the temporary page
    /// fails with.
    pub fn with<A: FrameAllocate>(
        &mut self,
        table: &InactivePageTable,
        temporary_page: &mut TemporaryPage,
        mappings: &Vec<Mapping>,
        allocator: &mut A,
    ) -> (result: Result<Vec<Result<(), VmmError>>, VmmError>)
        requires
            old(self).wf(),
            root_referenced_once(old(self).mapper.memory(), old(self).mapper.root()),
            table.valid_in(old(self).mapper.memory()),
            table_index(old(temporary_page).page().number(), 4) != RECURSIVE_INDEX,
            old(self).mapper.separate_from(old(temporary_page).allocator.free_frames()),
            old(temporary_page).allocator.accepts_all(set![old(self).mapper.root()]),
            !old(temporary_page).allocator.free_frames().contains(table.p4_frame.number()),
            old(self).mapper.separate_from(old(allocator).free_frames()),
            !old(allocator).free_frames().contains(table.p4_frame.number()),
            old(allocator).free_frames().disjoint(old(temporary_page).allocator.free_frames()),
            forall|i: int|
                0 <= i < mappings.len() ==> {
                    &&& !old(allocator).free_frames().contains(
                        (#[trigger] mappings[i]).frame.number(),
                    )
                    &&& !old(temporary_page).allocator.free_frames().contains(
                        mappings[i].frame.number(),
                    )
                },
        ensures
            final(self).wf(),
            final(self).mapper.root() == old(self).mapper.root(),
            final(temporary_page).page() == old(temporary_page).page(),
            final(allocator).free_frames().subset_of(old(allocator).free_frames()),
            final(self).mapper.separate_from(final(allocator).free_frames()),
            table.valid_in(final(self).mapper.memory()),
            match result {
                Ok(results) => {
                    &&& results.len() == mappings.len()
                    &&& forall|i: int|
                        0 <= i < mappings.len() && #[trigger] results[i] == Err::<(), VmmError>(
                            VmmError::OutOfPhysicalMemory,
                        ) ==> final(allocator).free_frames() == Set::<u64>::empty()
                    &&& exists|states: Seq<Mapper>, frees: Seq<Set<u64>>|
                        {
                            &&& #[trigger] carried_out(states, frees, mappings@, results@)
                            &&& states[0].p4_number() == table.p4_frame.number()
                            &&& states[0].root() == old(self).mapper.root()
                            &&& states[mappings.len() as int].memory() == final(self).mapper.memory().insert(
                                cell(final(self).mapper.root(), RECURSIVE_INDEX as int),
                                entry_word(table.p4_frame.number(), PRESENT | WRITABLE),
                            ).insert(
                                leaf_cell(
                                    final(self).mapper.memory(),
                                    final(self).mapper.root(),
                                    old(temporary_page).page().number(),
                                )->Some_0,
                                entry_word(final(self).mapper.root(), WRITABLE | PRESENT),
                            )
                            &&& frees[0] == old(allocator).free_frames()
                            &&& frees[mappings.len() as int] == final(allocator).free_frames()
                        }
                    &&& entries_accounted(
                        old(self).mapper.memory(),
                        final(self).mapper.memory(),
                        old(temporary_page).allocator.free_frames() + old(allocator).free_frames(),
                        mappings@,
                        results@,
                        mappings.len() as int,
                    )
                    &&& unique_references(old(self).mapper.memory()) && consistent(mappings@)
                        && all_unnamed(
                        old(self).mapper.memory(),
                        set![cell(old(self).mapper.root(), RECURSIVE_INDEX as int)],
                        mappings@,
                    ) ==> unique_except(
                        final(self).mapper.memory(),
                        set![cell(old(self).mapper.root(), RECURSIVE_INDEX as int)],
                    )
                    &&& final(temporary_page).allocator.free_frames() == Set::<u64>::empty()
                    &&& final(self).mapper.translate_page_spec(old(temporary_page).page().number())
                        is None
                    &&& forall|i: int|
                        0 <= i < mappings.len() ==> match #[trigger] results[i] {
                            Ok(()) => translate_in(
                                final(self).mapper.memory().insert(
                                    cell(final(self).mapper.root(), RECURSIVE_INDEX as int),
                                    entry_word(table.p4_frame.number(), PRESENT | WRITABLE),
                                ).insert(
                                    leaf_cell(
                                        final(self).mapper.memory(),
                                        final(self).mapper.root(),
                                        old(temporary_page).page().number(),
                                    )->Some_0,
                                    entry_word(final(self).mapper.root(), WRITABLE | PRESENT),
                                ),
                                table.p4_frame.number(),
                                mappings[i].page.number(),
                            ) == Some(mappings[i].frame.number()),
                            Err(e) => e == VmmError::AlreadyMapped || e
                                == VmmError::OutOfPhysicalMemory,
                        }
                },
                Err(e) => {
                    &&& e == VmmError::AlreadyMapped || e == VmmError::OutOfPhysicalMemory
                    &&& Mapper::mapped_to(
                        old(self).mapper,
                        final(self).mapper,
                        old(temporary_page).allocator.free_frames(),
                        final(temporary_page).allocator.free_frames(),
                        old(temporary_page).page().number(),
                        old(self).mapper.root(),
                        WRITABLE,
                        Err(e),
                    )
                    &&& final(allocator).free_frames() == old(allocator).free_frames()
                },
            },
    {
        let ghost mem0 = self.mapper.memory();
        let ghost root = self.mapper.root();
        let ghost n = table.p4_frame.number();
        let ghost page = temporary_page.page().number();
        let ghost tiny0 = temporary_page.allocator.free_frames();
        let ghost free0 = allocator.free_frames();
        // Save the table
        let backup = self.mapper.root_frame();
        let number = table.p4_frame.index();
        let root_number = backup.index();
        proof {
            lemma_flag_facts();
            lemma_entry_word(n, PRESENT | WRITABLE);
            lemma_entry_word(root, PRESENT | WRITABLE);
            assert(set![root].contains(root));
            assert(cell(n, 510) / 512 == n);
            assert(cell(root, 510) / 512 == root);
        }
        // Map the temporary page to the current table
        let p4_table = match temporary_page.map_table_frame(backup.clone(), self) {
            Ok(table) => table,
            Err(e) => {
                proof {
                    let mem1 = self.mapper.memory();
                    assert(mem1[cell(n, 510)] == mem0[cell(n, 510)]);
                    assert(mem1[cell(root, 510)] == mem0[cell(root, 510)]);
                    assert(unreferenced(mem1, root, free0)) by {
                        assert forall|c: int|
                            #![trigger mem1[c]]
                            crate::memory::paging::entry::word_present(
                                mem1[c],
                            ) implies !free0.contains(
                            crate::memory::paging::entry::word_frame(mem1[c]),
                        ) by {
                            if mem1[c] != mem0[c] {
                                assert(tiny0.contains(
                                    crate::memory::paging::entry::word_frame(mem1[c]),
                                ));
                            }
                        }
                    }
                }
                return Err(e);
            },
        };
        let ghost mem1 = self.mapper.memory();
        let ghost tiny1 = temporary_page.allocator.free_frames();
        let ghost leaf = leaf_cell(mem1, root, page)->Some_0;
        let ghost cells = walk_cells(mem1, root, page);
        proof {
            assert(unreferenced(mem1, root, free0)) by {
                assert forall|c: int| #![trigger mem1[c]] crate::memory::paging::entry::word_present(mem1[c])
                    implies !free0.contains(crate::memory::paging::entry::word_frame(mem1[c])) by {
                    if mem1[c] != mem0[c] && Some(c) != leaf_cell(mem1, root, page) {
                        assert(tiny0.contains(crate::memory::paging::entry::word_frame(mem1[c])));
                    }
                }
            }
            lemma_temporary_walk(mem0, mem1, root, tiny0, page, free0);
            assert(mem1[cell(n, 510)] == mem0[cell(n, 510)]);
        }
        // Overwrite recursive mapping
        let p4 = self.mapper.p4();
        self.mapper.set_table_entry(
            &p4,
            RECURSIVE_INDEX,
            table.p4_frame.clone(),
            EntryFlags::from_bits_truncate(PRESENT | WRITABLE),
        );
        let ghost mem2 = self.mapper.memory();
        proof {
            assert(mem2[cell(n, 510)] == if n == root {
                entry_word(n, PRESENT | WRITABLE)
            } else {
                mem1[cell(n, 510)]
            });
            assert(self.mapper.p4_number() == n);
            assert(self.mapper.wf());
            assert(unreferenced(mem2, root, free0)) by {
                assert forall|c: int| #![trigger mem2[c]] crate::memory::paging::entry::word_present(mem2[c])
                    implies !free0.contains(crate::memory::paging::entry::word_frame(mem2[c])) by {
                    if c != cell(root, 510) {
                        assert(mem2[c] == mem1[c]);
                    }
                }
            }
            assert forall|k: int| 0 <= k < 4 implies mem2[#[trigger] cells[k]] == mem1[cells[k]] by {}
        }
        // Carry out the requests in the new context
        let ghost table2 = self.mapper;
        let results = self.mapper.map_all(mappings, allocator);
        let ghost mem3 = self.mapper.memory();
        let ghost free3 = allocator.free_frames();
        let ghost table3 = self.mapper;
        let ghost chain = choose|states: Seq<Mapper>, frees: Seq<Set<u64>>|
            {
                &&& #[trigger] carried_out(states, frees, mappings@, results@)
                &&& states[0] == table2
                &&& states[mappings.len() as int] == table3
                &&& frees[0] == free0
                &&& frees[mappings.len() as int] == free3
            };
        proof {
            assert forall|k: int| 0 <= k < 4 implies mem3[#[trigger] cells[k]] == mem1[cells[k]] by {
                assert(mem2[cells[k]] == mem1[cells[k]]);
                assert(cells[k] / 512 >= 0);
            }
            assert(mem3[cell(root, 510)] == mem2[cell(root, 510)]);
            self.mapper.lemma_memory_total();
        }
        // Restore recursive mapping
        self.mapper.set_table_entry(
            &p4_table,
            RECURSIVE_INDEX,
            backup,
            EntryFlags::from_bits_truncate(PRESENT | WRITABLE),
        );
        let ghost mem4 = self.mapper.memory();
        proof {
            assert forall|k: int| 0 <= k < 4 implies mem4[#[trigger] cells[k]] == mem1[cells[k]] by {
                assert(mem3[cells[k]] == mem1[cells[k]]);
            }
            lemma_walk_same(mem1, mem4, root, page);
            assert(self.wf());
            assert(tiny1.subset_of(tiny0));
            old(temporary_page).allocator.lemma_finite();
            temporary_page.allocator.lemma_room_kept(tiny0, set![root]);
            self.mapper.lemma_memory_total();
        }
        let unmapped = temporary_page.unmap(self);
        let _ = temporary_page.allocator.flush();
        proof {
            let mem5 = self.mapper.memory();
            assert(unmapped is Ok);
            let word = mem1[leaf];
            assert(word == entry_word(root, WRITABLE | PRESENT));
            let redirected = mem5.insert(cell(root, 510), entry_word(n, PRESENT | WRITABLE)).insert(
                leaf,
                word,
            );
            assert(mem4[leaf] == word);
            assert(redirected =~= mem3);
            assert(carried_out(chain.0, chain.1, mappings@, results@));
            assert(chain.0[0].p4_number() == n && chain.0[0].root() == root);
            assert(chain.0[mappings.len() as int].memory() == redirected);
            assert forall|k: int| 0 <= k < 3 implies mem5[#[trigger] cells[k]] == mem1[cells[k]] by {
                assert(mem4[cells[k]] == mem1[cells[k]]);
            }
            crate::memory::paging::mapper::lemma_leaf_same(mem1, mem5, root, page);
            let own = cell(root, 510);
            assert forall|c: int| #![trigger mem5[c]] c != leaf implies mem5[c] == mem4[c] by {}
            assert forall|c: int| #![trigger mem4[c]] c != own implies mem4[c] == mem3[c] by {}
            assert forall|c: int| #![trigger mem2[c]] c != own implies mem2[c] == mem1[c] by {}
            assert(mem5[own] == mem0[own]);
            assert(mem5[cell(n, 510)] == mem0[cell(n, 510)]) by {
                if n != root {
                    assert(mem2[cell(n, 510)] == mem1[cell(n, 510)]);
                    assert(mem3[cell(n, 510)] == mem2[cell(n, 510)]);
                }
            }
            assert(unreferenced(mem5, root, free3)) by {
                assert forall|c: int|
                    #![trigger mem5[c]]
                    crate::memory::paging::entry::word_present(mem5[c]) implies !free3.contains(
                    crate::memory::paging::entry::word_frame(mem5[c]),
                ) by {
                    if c != own {
                        assert(mem5[c] == mem3[c]);
                    }
                }
            }
            let both = tiny0 + free0;
            assert(entries_accounted(mem0, mem5, both, mappings@, results@, mappings.len() as int)) by {
                assert forall|c: int|
                    #![trigger mem5[c]]
                    crate::memory::paging::entry::word_present(mem5[c]) implies mem5[c] == mem0[c]
                    || both.contains(crate::memory::paging::entry::word_frame(mem5[c]))
                    || exists|k: int|
                    0 <= k < mappings.len() && (#[trigger] results@[k]) is Ok
                        && mappings@[k].frame.number() == crate::memory::paging::entry::word_frame(
                        mem5[c],
                    ) by {
                    if c != own {
                        assert(mem5[c] == mem3[c]);
                        if mem3[c] == mem2[c] {
                            assert(mem2[c] == mem1[c]);
                            if mem1[c] != mem0[c] {
                                assert(tiny0.contains(
                                    crate::memory::paging::entry::word_frame(mem1[c]),
                                ));
                            }
                        }
                    }
                }
            }
            let e1 = set![own];
            let e2 = set![own].insert(leaf);
            if unique_references(mem0) && consistent(mappings@) && all_unnamed(mem0, e1, mappings@) {
                assert(unique_except(mem0, e1));
                assert(unique_except(mem1, e2));
                assert(unique_except(mem2, e2)) by {
                    assert forall|c1: int, c2: int|
                        #![trigger mem2[c1], mem2[c2]]
                        c1 != c2 && !e2.contains(c1) && !e2.contains(c2)
                            && crate::memory::paging::entry::word_present(mem2[c1])
                            && crate::memory::paging::entry::word_present(
                            mem2[c2],
                        ) implies crate::memory::paging::entry::word_frame(mem2[c1])
                        != crate::memory::paging::entry::word_frame(mem2[c2]) by {
                        assert(mem2[c1] == mem1[c1] && mem2[c2] == mem1[c2]);
                    }
                }
                assert(all_unnamed(mem2, e2, mappings@)) by {
                    assert forall|j: int| 0 <= j < mappings@.len() implies unnamed_outside(
                        mem2,
                        e2,
                        (#[trigger] mappings@[j]).frame.number(),
                    ) by {
                        let f = mappings@[j].frame.number();
                        assert(unnamed_outside(mem0, e1, f));
                        assert forall|c: int|
                            #![trigger mem2[c]]
                            crate::memory::paging::entry::word_present(mem2[c]) && !e2.contains(
                                c,
                            ) implies crate::memory::paging::entry::word_frame(mem2[c]) != f by {
                            assert(mem2[c] == mem1[c]);
                            if mem1[c] != mem0[c] {
                                assert(tiny0.contains(
                                    crate::memory::paging::entry::word_frame(mem1[c]),
                                ));
                            }
                        }
                    }
                }
                assert(unique_except(mem3, e2));
                assert(unique_except(mem4, e2)) by {
                    assert forall|c1: int, c2: int|
                        #![trigger mem4[c1], mem4[c2]]
                        c1 != c2 && !e2.contains(c1) && !e2.contains(c2)
                            && crate::memory::paging::entry::word_present(mem4[c1])
                            && crate::memory::paging::entry::word_present(
                            mem4[c2],
                        ) implies crate::memory::paging::entry::word_frame(mem4[c1])
                        != crate::memory::paging::entry::word_frame(mem4[c2]) by {
                        assert(mem4[c1] == mem3[c1] && mem4[c2] == mem3[c2]);
                    }
                }
                assert(unique_except(mem5, e2));
                assert(unique_except(mem5, e1)) by {
                    assert forall|c1: int, c2: int|
                        #![trigger mem5[c1], mem5[c2]]
                        c1 != c2 && !e1.contains(c1) && !e1.contains(c2)
                            && crate::memory::paging::entry::word_present(mem5[c1])
                            && crate::memory::paging::entry::word_present(
                            mem5[c2],
                        ) implies crate::memory::paging::entry::word_frame(mem5[c1])
                        != crate::memory::paging::entry::word_frame(mem5[c2]) by {
                        assert(c1 != leaf && c2 != leaf);
                        assert(!e2.contains(c1) && !e2.contains(c2));
                    }
                }
            }
        }
        Ok(results)
    }

    /// Puts the given table into the root register, and returns the table
    /// that was active until now.
    pub fn switch(&mut self, new_table: InactivePageTable) -> (old_table: InactivePageTable)
        requires
            old(self).wf(),
            new_table.valid_in(old(self).mapper.memory()),
        ensures
            final(self).wf(),
            final(self).mapper.root() == new_table.p4_frame.number(),
            final(self).mapper.memory() == old(self).mapper.memory(),
            old_table.p4_frame.number() == old(self).mapper.root(),
            old_table.valid_in(final(self).mapper.memory()),
    {
        let ghost n = new_table.p4_frame.number();
        let number = new_table.p4_frame.index();
        proof {
            let mem = self.mapper.memory();
            lemma_flag_facts();
            lemma_entry_word(n, PRESENT | WRITABLE);
            assert(child_table(mem, n, RECURSIVE_INDEX as int) == Some(n));
        }
        let previous = self.mapper.set_root(new_table.p4_frame);
        InactivePageTable { p4_frame: previous }
    }
}

/// The address of the top-level table, as its own entry 510 shows it, is
/// mapped to the frame in the root register: the recursive mapping holds.
pub proof fn lemma_self_map_translates(table: ActivePageTable)
    requires
        table.wf(),
    ensures
        table.mapper.translate_page_spec(P4_PAGE) == Some(table.mapper.root()),
        table.mapper.translate_spec(P4_ADDRESS) == Some(
            (table.mapper.root() * PAGE_SIZE) as u64,
        ),
        P4_ADDRESS / PAGE_SIZE == P4_PAGE,
{
    assert(((0xf_ffff_f7fb_fdfeu64 >> 27) & 0o777) == 510 && ((0xf_ffff_f7fb_fdfeu64 >> 18)
        & 0o777) == 510 && ((0xf_ffff_f7fb_fdfeu64 >> 9) & 0o777) == 510 && (0xf_ffff_f7fb_fdfeu64
        & 0o777) == 510) by (bit_vector);
    let mem = table.mapper.memory();
    let root = table.mapper.root();
    assert(child_table(mem, root, 510) == Some(root));
}

} // verus!
