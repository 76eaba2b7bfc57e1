//! Stacks for the threads of the kernel: each is a run of mapped pages with
//! a page below it that stays unmapped, so that a stack that overflows
//! faults at once.

use vstd::prelude::*;
use crate::memory::paging::entry::{EntryFlags, WRITABLE};
use crate::memory::paging::entry::lemma_flag_facts;
use crate::memory::paging::entry::PRESENT;
use crate::memory::paging::mapper::{
    lemma_same_place_same_page,
    lemma_small_mapping_kept,
    lemma_small_mapping_translates,
    mapped_flags,
    mapped_small,
    others_kept,
    same_place,
    slot_taken,
    unique_except,
    unique_references,
    RECURSIVE_INDEX,
};
use crate::memory::paging::{
    is_canonical_page,
    table_index,
    ActivePageTable,
    Page,
    PageIter,
    LOWER_HALF_PAGES,
    PAGE_COUNT,
};
use crate::memory::{FrameAllocate, PAGE_SIZE};
use crate::vmm::VmmError;

verus! {

/// A stack: the address above its last byte, and the address of its first.
/// The stack grows down from the top.
#[derive(Debug)]
pub struct Stack {
    top: u64,
    bottom: u64,
}

impl Stack {
    #[verifier::type_invariant]
    spec fn not_empty(self) -> bool {
        self.top > self.bottom
    }

    /// The address above the last byte of the stack.
    pub closed spec fn top_spec(self) -> u64 {
        self.top
    }

    /// The address of the first byte of the stack.
    pub closed spec fn bottom_spec(self) -> u64 {
        self.bottom
    }

    /// Creates a stack with the given top and bottom. Both have to be the
    /// addresses of pages that are in use for nothing else.
    pub fn new(top: u64, bottom: u64) -> (stack: Stack)
        requires
            top > bottom,
        ensures
            stack.top_spec() == top,
            stack.bottom_spec() == bottom,
    {
        Stack { top, bottom }
    }

    /// The address above the last byte of the stack.
    pub fn top(&self) -> (address: u64)
        ensures
            address == self.top_spec(),
            address > self.bottom_spec(),
    {
        proof {
            use_type_invariant(self);
        }
        self.top
    }

    /// The address of the first byte of the stack.
    pub fn bottom(&self) -> (address: u64)
        ensures
            address == self.bottom_spec(),
            address < self.top_spec(),
    {
        proof {
            use_type_invariant(self);
        }
        self.bottom
    }
}

/// Why no stack was allocated.
#[derive(Debug, Clone, Copy, PartialEq, Eq, Structural)]
pub enum StackError {
    /// A stack of no pages was asked for.
    ZeroSized,
    /// The allocator has too few pages left for the stack and its guard page.
    NotEnoughPages,
    /// A page of the stack could not be mapped.
    Mapping(VmmError),
}

/// None of the pages from `from` to `to` lies where the tables themselves
/// appear: none selects entry 510 of the top-level table.
pub open spec fn run_outside_recursion(from: int, to: int) -> bool {
    forall|n: u64| from <= n <= to ==> #[trigger] table_index(n, 4) != RECURSIVE_INDEX
}

/// The pages of the lower half of the address space lie outside the
/// recursive region.
pub proof fn lemma_lower_half_outside_recursion(from: int, to: int)
    requires
        to < LOWER_HALF_PAGES,
    ensures
        run_outside_recursion(from, to),
{
    assert forall|n: u64| from <= n <= to implies #[trigger] table_index(n, 4)
        != RECURSIVE_INDEX by {
        crate::memory::paging::lemma_index_bounds(n);
        assert((n >> 27) & 0o777 != 510) by (bit_vector)
            requires
                n < 0x8_0000_0000u64,
        ;
    }
}

/// An allocator of stacks, which takes their pages from a run of pages.
pub struct StackAllocator {
    range: PageIter,
}

impl StackAllocator {
    #[verifier::type_invariant]
    spec fn below_the_end(self) -> bool {
        self.range.remaining() > 0 ==> self.range.last_number() < PAGE_COUNT - 1
    }

    /// The pages that are left for stacks.
    pub closed spec fn range(self) -> PageIter {
        self.range
    }

    /// An allocator that takes the pages of stacks from the given run, which
    /// ends below the last page of the address space.
    pub fn new(page_range: PageIter) -> (allocator: StackAllocator)
        requires
            page_range.remaining() > 0 ==> page_range.last_number() < PAGE_COUNT - 1,
        ensures
            allocator.range() == page_range,
    {
        StackAllocator { range: page_range }
    }

    /// Creates a stack of `size` pages. The first page of the run is left
    /// unmapped as the guard page of the stack; the `size` pages after it are
    /// mapped, writable, to frames from `allocator`.
    ///
    /// Fails with `ZeroSized` where `size` is zero, and with `NotEnoughPages`
    /// where fewer than `size + 1` pages are left; nothing changes then. Fails
    /// with `Mapping` where a page cannot be mapped; the pages are used up then, and
    /// the pages before that one stay mapped. The error within `Mapping` is
    /// `OutOfPhysicalMemory` where no frame is left, as the allocator then has
    /// none, and `AlreadyMapped` where something stands in the place of a page
    /// of the stack.
    ///
    /// Where no frame is referred to twice and the pages lie outside the
    /// recursive region, `AlreadyMapped` comes only where something stood in
    /// the place of a page of the stack before, and every other page that was
    /// not mapped, the guard page among them, stays unmapped.
    #[verifier::loop_isolation(false)]
    #[verifier::rlimit(60)]
    pub fn alloc_stack<FA: FrameAllocate>(
        &mut self,
        active_table: &mut ActivePageTable,
        allocator: &mut FA,
        size: usize,
    ) -> (result: Result<Stack, StackError>)
        requires
            old(active_table).mapper.wf(),
            old(active_table).mapper.separate_from(old(allocator).free_frames()),
        ensures
            final(active_table).mapper.wf(),
            old(active_table).wf() ==> final(active_table).wf(),
            final(active_table).mapper.root() == old(active_table).mapper.root(),
            final(active_table).mapper.p4_number() == old(active_table).mapper.p4_number(),
            final(active_table).mapper.separate_from(final(allocator).free_frames()),
            final(allocator).free_frames().subset_of(old(allocator).free_frames()),
            final(self).range().last_number() == old(self).range().last_number(),
            forall|other: u64|
                old(active_table).mapper.translate_page_spec(other) is Some
                    ==> final(active_table).mapper.translate_page_spec(other)
                        == old(active_table).mapper.translate_page_spec(
                    other,
                ),
            forall|e: Set<int>|
                #[trigger] unique_except(old(active_table).mapper.memory(), e) ==> unique_except(
                    final(active_table).mapper.memory(),
                    e,
                ),
            size == 0 ==> result == Err::<Stack, StackError>(StackError::ZeroSized),
            size > 0 && old(self).range().remaining() < size + 1 ==> result == Err::<
                Stack,
                StackError,
            >(StackError::NotEnoughPages),
            size > 0 && old(self).range().remaining() >= size + 1 ==> {
                &&& final(self).range().next_number() == old(self).range().next_number() + size
                    + 1
                &&& match result {
                    Ok(stack) => {
                        &&& stack.bottom_spec() == (old(self).range().next_number() + 1)
                            * PAGE_SIZE
                        &&& stack.top_spec() == (old(self).range().next_number() + 1 + size)
                            * PAGE_SIZE
                        &&& forall|n: u64|
                            old(self).range().next_number() < n <= old(self).range().next_number()
                                + size ==> {
                                &&& #[trigger] final(active_table).mapper.translate_page_spec(n)
                                    is Some
                                &&& old(active_table).mapper.translate_page_spec(n) is None
                                &&& old(allocator).free_frames().contains(
                                    final(active_table).mapper.translate_page_spec(n)->Some_0,
                                )
                                &&& mapped_flags(
                                    final(active_table).mapper.memory(),
                                    final(active_table).mapper.p4_number(),
                                    n,
                                ) == Some(WRITABLE | PRESENT)
                            }
                    },
                    Err(e) => e == StackError::Mapping(VmmError::AlreadyMapped) || e
                        == StackError::Mapping(VmmError::OutOfPhysicalMemory),
                }
            },
            result == Err::<Stack, StackError>(StackError::Mapping(VmmError::OutOfPhysicalMemory))
                ==> final(allocator).free_frames() == Set::<u64>::empty(),
            size > 0 && old(self).range().remaining() >= size + 1 && slot_taken(
                old(active_table).mapper.memory(),
                old(active_table).mapper.p4_number(),
                (old(self).range().next_number() + 1) as u64,
            ) ==> {
                &&& result == Err::<Stack, StackError>(
                    StackError::Mapping(VmmError::AlreadyMapped),
                )
                &&& final(active_table).mapper.memory() == old(active_table).mapper.memory()
                &&& final(allocator).free_frames() == old(allocator).free_frames()
            },
            unique_references(old(active_table).mapper.memory()) && run_outside_recursion(
                old(self).range().next_number() as int,
                old(self).range().next_number() + size,
            ) ==> {
                &&& result == Err::<Stack, StackError>(
                    StackError::Mapping(VmmError::AlreadyMapped),
                ) ==> exists|n: u64|
                    old(self).range().next_number() < n <= old(self).range().next_number() + size
                        && slot_taken(
                        old(active_table).mapper.memory(),
                        old(active_table).mapper.p4_number(),
                        n,
                    )
                &&& forall|other: u64|
                    table_index(other, 4) != RECURSIVE_INDEX && is_canonical_page(other as int)
                        && !(old(self).range().next_number() < other <= old(self).range().next_number()
                        + size) && #[trigger] old(active_table).mapper.translate_page_spec(other)
                        is None ==> final(active_table).mapper.translate_page_spec(other)
                        is None
            },
            result is Err && !(result->Err_0 is Mapping) ==> {
                &&& final(self).range() == old(self).range()
                &&& final(active_table).mapper == old(active_table).mapper
                &&& final(allocator).free_frames() == old(allocator).free_frames()
            },
    {
        proof {
            use_type_invariant(&*self);
        }
        if size == 0 {
            return Err(StackError::ZeroSized);
        }
        // Only mutate in success
        let mut range = self.range;
        let available = range.pages_left();
        if available < 2 || (size as u64) > available - 1 {
            return Err(StackError::NotEnoughPages);
        }
        let guard_page = range.next();
        let stack_start = range.next();
        let stack_end = if size == 1 {
            stack_start
        } else {
            range.nth((size - 2) as u64)
        };
        let (start, end) = match (guard_page, stack_start, stack_end) {
            (Some(_), Some(start), Some(end)) => (start, end),
            _ => {
                return Err(StackError::NotEnoughPages);
            },
        };
        // Success, mutate and return
        self.range = range;
        proof {
            lemma_flag_facts();
        }
        let writable = EntryFlags::from_bits_truncate(WRITABLE);
        let ghost first = start.number();
        let ghost table0 = active_table.mapper;
        let ghost mem0 = table0.memory();
        let ghost p4 = table0.p4_number();
        let ghost free0 = allocator.free_frames();
        let ghost apart = unique_references(mem0) && run_outside_recursion(
            first - 1,
            first - 1 + size,
        );
        proof {
            assert forall|n: u64| first - 1 <= n <= first - 1 + size implies is_canonical_page(
                n as int,
            ) by {}
        }
        // Map to physical pages
        let mut pages = Page::range_inclusive(start, end);
        loop
            invariant
                free0 == old(allocator).free_frames(),
                forall|n: u64|
                    #![trigger active_table.mapper.translate_page_spec(n)]
                    first <= n < pages.next_number() ==> {
                        &&& table0.translate_page_spec(n) is None
                        &&& free0.contains(active_table.mapper.translate_page_spec(n)->Some_0)
                        &&& mapped_small(active_table.mapper.memory(), p4, n) is Some
                        &&& mapped_flags(active_table.mapper.memory(), p4, n) == Some(
                            WRITABLE | PRESENT,
                        )
                    },
                pages.next_number() == first ==> active_table.mapper.memory() == mem0
                    && allocator.free_frames() == free0,
                pages.next_number() > first ==> !slot_taken(mem0, p4, first),
                apart ==> forall|n: u64|
                    pages.next_number() <= n <= end.number() && #[trigger] slot_taken(
                        active_table.mapper.memory(),
                        p4,
                        n,
                    ) ==> slot_taken(mem0, p4, n),
                apart ==> forall|other: u64|
                    table_index(other, 4) != RECURSIVE_INDEX && is_canonical_page(other as int)
                        && !(first <= other <= end.number()) && #[trigger] table0.translate_page_spec(
                        other,
                    ) is None ==> active_table.mapper.translate_page_spec(other) is None,
                first == old(self).range().next_number() + 1,
                pages.last_number() == end.number(),
                end.number() == first + size - 1,
                first <= pages.next_number() <= end.number() + 1,
                table0 == old(active_table).mapper,
                active_table.mapper.wf(),
                old(active_table).wf() ==> active_table.wf(),
                active_table.mapper.root() == table0.root(),
                active_table.mapper.p4_number() == table0.p4_number(),
                active_table.mapper.separate_from(allocator.free_frames()),
                allocator.free_frames().subset_of(old(allocator).free_frames()),
                forall|other: u64|
                    table0.translate_page_spec(other) is Some
                        ==> active_table.mapper.translate_page_spec(other)
                        == table0.translate_page_spec(other),
                forall|e: Set<int>|
                    #[trigger] unique_except(table0.memory(), e) ==> unique_except(
                        active_table.mapper.memory(),
                        e,
                    ),
                forall|n: u64|
                    first <= n < pages.next_number() ==> active_table.mapper.translate_page_spec(n)
                        is Some,
            decreases end.number() + 1 - pages.next_number(),
        {
            let page = match pages.next() {
                Some(page) => page,
                None => {
                    break ;
                },
            };
            let ghost before = active_table.mapper;
            let ghost free1 = allocator.free_frames();
            let ghost m = page.number();
            let mapped = active_table.mapper.map(page, writable, allocator);
            proof {
                let mem1 = before.memory();
                let mem2 = active_table.mapper.memory();
                if apart {
                    assert(unique_references(mem1));
                    assert(table_index(m, 4) != RECURSIVE_INDEX);
                    assert(others_kept(mem1, mem2, p4, m));
                    assert forall|other: u64|
                        table_index(other, 4) != RECURSIVE_INDEX && is_canonical_page(other as int)
                            && !(first <= other <= end.number()) && #[trigger] table0.translate_page_spec(
                            other,
                        ) is None implies active_table.mapper.translate_page_spec(other)
                        is None by {
                        assert(before.translate_page_spec(other) is None);
                        if same_place(other, m) {
                            lemma_same_place_same_page(other, m);
                        }
                    }
                }
            }
            match mapped {
                Ok(()) => {},
                Err(e) => {
                    proof {
                        if e == VmmError::AlreadyMapped && apart {
                            assert(slot_taken(before.memory(), p4, m));
                            assert(slot_taken(mem0, p4, m));
                        }
                    }
                    return Err(StackError::Mapping(e));
                },
            }
            proof {
                let mem1 = before.memory();
                let mem2 = active_table.mapper.memory();
                lemma_small_mapping_translates(mem2, p4, m);
                assert forall|n: u64|
                    first <= n < pages.next_number() implies active_table.mapper.translate_page_spec(
                    n,
                ) is Some by {
                    if n != page.number() {
                        assert(before.translate_page_spec(n) is Some);
                    }
                }
                assert forall|n: u64|
                    #![trigger active_table.mapper.translate_page_spec(n)]
                    first <= n < pages.next_number() implies {
                    &&& table0.translate_page_spec(n) is None
                    &&& free0.contains(active_table.mapper.translate_page_spec(n)->Some_0)
                    &&& mapped_small(mem2, p4, n) is Some
                    &&& mapped_flags(mem2, p4, n) == Some(WRITABLE | PRESENT)
                } by {
                    if n != m {
                        assert(before.translate_page_spec(n) is Some);
                        lemma_small_mapping_kept(mem1, mem2, table0.root(), free1, p4, n);
                    }
                }
                if apart {
                    assert forall|n: u64|
                        pages.next_number() <= n <= end.number() && #[trigger] slot_taken(
                            mem2,
                            p4,
                            n,
                        ) implies slot_taken(mem0, p4, n) by {
                        if same_place(n, m) {
                            lemma_same_place_same_page(n, m);
                        }
                        assert(slot_taken(mem1, p4, n));
                    }
                }
            }
        }
        // Create stack and return
        //
        // The stack grows downward
        let stack_top = end.start_address() + PAGE_SIZE;
        let stack_bottom = start.start_address();
        Ok(Stack::new(stack_top, stack_bottom))
    }
}

} // verus!
