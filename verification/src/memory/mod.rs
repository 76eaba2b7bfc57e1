//! Physical frames, the allocator interfaces and the constants of the
//! address space.

use vstd::prelude::*;
use crate::memory::frame_bitmap::FrameBitmap;
use crate::memory::paging::entry::EntryFlags;
use crate::memory::boot::protection_flags;
use crate::memory::paging::entry::PRESENT;
use crate::memory::paging::mapper::{
    leaf_cell,
    lemma_free_slot_unmapped,
    lemma_same_place_same_page,
    lemma_small_mapping_kept,
    lemma_small_mapping_translates,
    mapped_flags,
    mapped_small,
    others_kept,
    same_place,
    slot_taken,
    referenced,
    unique_except,
    unique_references,
    unnamed_outside,
    unreferenced,
    RECURSIVE_INDEX,
};
use crate::memory::paging::table::{cell, child_table};
use crate::memory::paging::{
    address_is_canonical,
    is_canonical,
    is_canonical_page,
    lemma_index_bounds,
    table_index,
    ActivePageTable,
    Page,
    PageIter,
    LOWER_HALF_END,
    P4_PAGE,
};
use crate::memory::paging::entry::WRITABLE;
use crate::memory::stack_allocator::{run_outside_recursion, Stack, StackAllocator, StackError};
use crate::vmm::{Region, VmmError};

pub mod area_frame_allocator;
pub mod boot;
pub mod frame_bitmap;
pub mod paging;
pub mod stack_allocator;

verus! {

/// A physical address. Only the kernel ever sees one.
pub type PhysicalAddress = u64;

/// The kernel is linked to `KERNEL_BASE + 1M`.
pub const KERNEL_BASE: u64 = 0xFFFF_FFFF_8000_0000;

/// The size of a single page (or physical frame) in bytes.
pub const PAGE_SIZE: u64 = 4096;

/// The number of physical frames that the architecture can address: physical
/// addresses are at most 52 bits wide.
pub const FRAME_COUNT: u64 = 0x100_0000_0000;

/// The first physical address that lies beyond every frame.
pub const PHYSICAL_LIMIT: u64 = 0x10_0000_0000_0000;

/// A physical frame: a claim on 4096 bytes of physical memory, named by its
/// index. A frame is never copied implicitly; `clone` duplicates it on purpose.
#[derive(Debug, PartialEq, Eq, PartialOrd, Ord, Structural)]
pub struct Frame(u64);

impl Frame {
    #[verifier::type_invariant]
    spec fn addressable(self) -> bool {
        self.0 < FRAME_COUNT
    }

    /// The index of the frame.
    pub closed spec fn number(self) -> u64 {
        self.0
    }

    /// Returns the frame that contains the physical address given.
    pub fn containing_address(address: PhysicalAddress) -> (frame: Frame)
        requires
            address < PHYSICAL_LIMIT,
        ensures
            frame.number() == address / PAGE_SIZE,
    {
        Frame(address / PAGE_SIZE)
    }

    /// Returns the first address in the frame.
    pub fn start_address(&self) -> (address: PhysicalAddress)
        ensures
            address == self.number() * PAGE_SIZE,
            address < PHYSICAL_LIMIT,
    {
        proof {
            use_type_invariant(self);
        }
        self.0 * PAGE_SIZE
    }

    /// The index of the frame, as a number.
    pub fn index(&self) -> (n: u64)
        ensures
            n == self.number(),
            n < FRAME_COUNT,
    {
        proof {
            use_type_invariant(self);
        }
        self.0
    }

    /// Returns an iterator over the frames from `start` to `end`, both
    /// included, in increasing order.
    pub fn range_inclusive(start: Frame, end: Frame) -> (iter: FrameIter)
        ensures
            iter.next_number() == start.number(),
            iter.last_number() == end.number(),
    {
        proof {
            use_type_invariant(&start);
            use_type_invariant(&end);
        }
        FrameIter { next: start.0, end: end.0 }
    }

    /// Duplicates the frame. The caller answers for the two claims on the
    /// same memory that exist from now on.
    pub fn clone(&self) -> (frame: Frame)
        ensures
            frame == *self,
    {
        proof {
            use_type_invariant(self);
        }
        Frame(self.0)
    }
}

/// An iterator across a contiguous run of frames.
pub struct FrameIter {
    next: u64,
    end: u64,
}

impl FrameIter {
    #[verifier::type_invariant]
    spec fn bounded(self) -> bool {
        self.end < FRAME_COUNT
    }

    /// The index of the frame that comes out next, if one does.
    pub closed spec fn next_number(self) -> u64 {
        self.next
    }

    /// The index of the last frame of the run.
    pub closed spec fn last_number(self) -> u64 {
        self.end
    }

    /// The indices of the frames that are still to come, in order.
    pub open spec fn remaining(self) -> Seq<u64> {
        Seq::new(
            if self.next_number() <= self.last_number() {
                (self.last_number() - self.next_number() + 1) as nat
            } else {
                0
            },
            |i: int| (self.next_number() + i) as u64,
        )
    }

    /// Hands out the next frame of the run, or `None` once the run is over.
    pub fn next(&mut self) -> (frame: Option<Frame>)
        ensures
            final(self).last_number() == old(self).last_number(),
            match frame {
                Some(f) => {
                    &&& old(self).next_number() <= old(self).last_number()
                    &&& f.number() == old(self).next_number()
                    &&& final(self).next_number() == old(self).next_number() + 1
                    &&& final(self).remaining() == old(self).remaining().skip(1)
                },
                None => {
                    &&& old(self).next_number() > old(self).last_number()
                    &&& *final(self) == *old(self)
                    &&& old(self).remaining().len() == 0
                },
            },
    {
        proof {
            use_type_invariant(&*self);
        }
        if self.next <= self.end {
            let frame = Frame(self.next);
            self.next = self.next + 1;
            assert(self.remaining() =~= old(self).remaining().skip(1));
            Some(frame)
        } else {
            None
        }
    }
}

/// A source of physical frames.
pub trait FrameAllocate {
    /// The indices of the frames that the allocator can still hand out.
    spec fn free_frames(&self) -> Set<u64>;

    /// Hands out a frame that was free and is free no longer, or `None` when no
    /// frame is free.
    fn allocate_frame(&mut self) -> (frame: Option<Frame>)
        ensures
            match frame {
                Some(f) => {
                    &&& old(self).free_frames().contains(f.number())
                    &&& final(self).free_frames() == old(self).free_frames().remove(f.number())
                },
                None => {
                    &&& old(self).free_frames() == Set::<u64>::empty()
                    &&& final(self).free_frames() == old(self).free_frames()
                },
            },
    ;
}

/// Whether the frames of `yielded` can come out of an allocator with the
/// free frames `free`, one after the other: each is free when it comes out,
/// and is free no longer after that.
pub open spec fn allocations(free: Set<u64>, yielded: Seq<u64>) -> bool
    decreases yielded.len(),
{
    yielded.len() == 0 || (free.contains(yielded[0]) && allocations(
        free.remove(yielded[0]),
        yielded.subrange(1, yielded.len() as int),
    ))
}

/// The frames that are still free after the frames of `yielded` came out.
pub open spec fn remaining(free: Set<u64>, yielded: Seq<u64>) -> Set<u64>
    decreases yielded.len(),
{
    if yielded.len() == 0 {
        free
    } else {
        remaining(free.remove(yielded[0]), yielded.subrange(1, yielded.len() as int))
    }
}

/// What comes out of an allocator was free, comes out once, and is what is
/// missing afterwards.
pub proof fn lemma_allocations(free: Set<u64>, yielded: Seq<u64>)
    requires
        free.finite(),
        allocations(free, yielded),
    ensures
        forall|i: int| 0 <= i < yielded.len() ==> free.contains(#[trigger] yielded[i]),
        forall|i: int, j: int|
            0 <= i < j < yielded.len() ==> #[trigger] yielded[i] != #[trigger] yielded[j],
        forall|n: u64|
            remaining(free, yielded).contains(n) <==> free.contains(n) && !yielded.contains(n),
        remaining(free, yielded).finite(),
        remaining(free, yielded).len() + yielded.len() == free.len(),
    decreases yielded.len(),
{
    if yielded.len() > 0 {
        let first = yielded[0];
        let rest = yielded.subrange(1, yielded.len() as int);
        lemma_allocations(free.remove(first), rest);
        assert forall|i: int| 0 <= i < yielded.len() implies free.contains(
            #[trigger] yielded[i],
        ) by {
            if i > 0 {
                assert(rest[i - 1] == yielded[i]);
            }
        }
        assert forall|i: int, j: int| 0 <= i < j < yielded.len() implies #[trigger] yielded[i]
            != #[trigger] yielded[j] by {
            assert(rest[j - 1] == yielded[j]);
            if i > 0 {
                assert(rest[i - 1] == yielded[i]);
            } else {
                assert(free.remove(first).contains(rest[j - 1]));
            }
        }
        assert forall|n: u64|
            remaining(free, yielded).contains(n) <==> free.contains(n) && !yielded.contains(
                n,
            ) by {
            if yielded.contains(n) {
                let i = choose|i: int| 0 <= i < yielded.len() && yielded[i] == n;
                if i > 0 {
                    assert(rest[i - 1] == n);
                }
            }
            if rest.contains(n) {
                let i = choose|i: int| 0 <= i < rest.len() && rest[i] == n;
                assert(yielded[i + 1] == n);
            }
        }
    }
}

/// Conservation of frames: a frame that was given back to an allocator comes
/// out again exactly once. It is yielded once at most; until it is yielded
/// it stays free; and once as many frames came out as were free, it is among
/// them.
pub proof fn lemma_conservation(free: Set<u64>, frame: u64, yielded: Seq<u64>)
    requires
        free.finite(),
        allocations(free.insert(frame), yielded),
    ensures
        forall|i: int, j: int|
            0 <= i < yielded.len() && 0 <= j < yielded.len() && yielded[i] == frame && yielded[j]
                == frame ==> i == j,
        !yielded.contains(frame) ==> remaining(free.insert(frame), yielded).contains(frame),
        yielded.len() == free.insert(frame).len() ==> yielded.contains(frame),
        yielded.len() <= free.insert(frame).len(),
{
    lemma_allocations(free.insert(frame), yielded);
    assert forall|i: int, j: int|
        0 <= i < yielded.len() && 0 <= j < yielded.len() && yielded[i] == frame && yielded[j]
            == frame implies i == j by {
        if i < j {
            assert(yielded[i] != yielded[j]);
        } else if j < i {
            assert(yielded[j] != yielded[i]);
        }
    }
    if yielded.len() == free.insert(frame).len() {
        assert(remaining(free.insert(frame), yielded).len() == 0);
        assert(!remaining(free.insert(frame), yielded).contains(frame));
    }
}

/// A set of frames whose indices are all below a bound is finite.
pub proof fn lemma_bounded_frames_finite(frames: Set<u64>, bound: u64)
    requires
        forall|n: u64| frames.contains(n) ==> n < bound,
    ensures
        frames.finite(),
{
    let range = vstd::set_lib::set_int_range(0, bound as int);
    vstd::set_lib::lemma_int_range(0, bound as int);
    let image = range.map(|i: int| i as u64);
    range.lemma_map_finite(|i: int| i as u64);
    assert forall|n: u64| frames.contains(n) implies image.contains(n) by {
        assert(range.contains(n as int));
        assert((n as int) as u64 == n);
    }
    vstd::set_lib::lemma_len_subset(frames, image);
}

/// A sink for physical frames that are no longer in use.
pub trait FrameDeallocate: FrameAllocate {
    /// Whether the allocator can take back all the frames with these
    /// indices, one after the other: it has room for them and holds none of
    /// them already.
    spec fn accepts_all(&self, numbers: Set<u64>) -> bool;

    /// An allocator that can take some frames back can take fewer.
    proof fn lemma_accepts_fewer(&self, numbers: Set<u64>, fewer: Set<u64>)
        requires
            self.accepts_all(numbers),
            fewer.subset_of(numbers),
        ensures
            self.accepts_all(fewer),
    ;

    /// Takes a frame back. It is free from now on, and the allocator can
    /// still take what it could take together with this frame.
    fn deallocate_frame(&mut self, frame: Frame)
        requires
            old(self).accepts_all(set![frame.number()]),
        ensures
            final(self).free_frames() == old(self).free_frames().insert(frame.number()),
            forall|rest: Set<u64>|
                #[trigger] old(self).accepts_all(rest.insert(frame.number())) && !rest.contains(
                    frame.number(),
                ) ==> final(self).accepts_all(rest),
    ;
}

/// The beginning of the kernel heap.
pub const HEAP_START: u64 = 0x20_0000;

/// The size of the kernel heap.
pub const HEAP_SIZE: u64 = 0x1_9000;

/// The physical and virtual memory managers of the kernel: the active page
/// table, the allocator of frames and the allocator of stacks.
pub struct ArchSpecificVMM {
    /// The page table that the processor walks.
    pub active_table: ActivePageTable,
    /// The allocator of physical frames.
    pub frame_allocator: FrameBitmap,
    /// The allocator of stacks.
    pub stack_allocator: StackAllocator,
}

impl ArchSpecificVMM {
    /// The managers fit together: the active table is recursively mapped, no
    /// frame is referred to by two entries, and no frame that is free is
    /// referred to at all.
    pub open spec fn wf(self) -> bool {
        &&& self.active_table.wf()
        &&& unique_references(self.active_table.mapper.memory())
        &&& self.active_table.mapper.separate_from(self.frame_allocator.free_frames())
    }

    /// The index of the frame that the page with index `number` is mapped to.
    pub open spec fn translate_page_spec(self, number: u64) -> Option<u64> {
        self.active_table.mapper.translate_page_spec(number)
    }
}

/// The indices of the first and the last page of a region, where both of its
/// bounds are canonical and lie in the same half of the address space.
pub open spec fn region_pages(region: Region) -> Option<(u64, u64)> {
    if is_canonical(region.start) && is_canonical(region.end) && (region.start < LOWER_HALF_END
        <==> region.end < LOWER_HALF_END) {
        Some((region.start / PAGE_SIZE, region.end / PAGE_SIZE))
    } else {
        None
    }
}

/// Whether the page with index `number` is one of the region.
pub open spec fn in_region(region: Region, number: u64) -> bool {
    region_pages(region) is Some && region_pages(region)->Some_0.0 <= number <= region_pages(
        region,
    )->Some_0.1
}

/// The pages of a region, from the one that holds its first address to the
/// one that holds its last; `None` where a bound of the region is not
/// canonical or the two lie in different halves of the address space.
pub fn region_range(region: Region) -> (range: Option<PageIter>)
    ensures
        match range {
            Some(pages) => region_pages(region) == Some(
                (pages.next_number(), pages.last_number()),
            ),
            None => region_pages(region) is None,
        },
{
    if !address_is_canonical(region.start) || !address_is_canonical(region.end) {
        return None;
    }
    if (region.start < LOWER_HALF_END) != (region.end < LOWER_HALF_END) {
        return None;
    }
    Some(
        Page::range_inclusive(
            Page::containing_address(region.start),
            Page::containing_address(region.end),
        ),
    )
}

/// Only the page at which the top-level table appears has its level-1
/// entry in the entry 510 of that table, where no frame is referred to twice.
pub proof fn lemma_self_map_page(mem: Map<int, u64>, root: u64, number: u64)
    requires
        child_table(mem, root, RECURSIVE_INDEX as int) == Some(root),
        unique_references(mem),
        is_canonical_page(number as int),
        leaf_cell(mem, root, number) == Some(cell(root, RECURSIVE_INDEX as int)),
    ensures
        number == P4_PAGE,
{
    lemma_index_bounds(number);
    let i4 = table_index(number, 4) as int;
    let i3 = table_index(number, 3) as int;
    let i2 = table_index(number, 2) as int;
    let i1 = table_index(number, 1) as int;
    let own = cell(root, 510);
    let c4 = cell(root, i4);
    let p3 = crate::memory::paging::entry::word_frame(mem[c4]);
    let c3 = cell(p3, i3);
    let p2 = crate::memory::paging::entry::word_frame(mem[c3]);
    let c2 = cell(p2, i2);
    let p1 = crate::memory::paging::entry::word_frame(mem[c2]);
    assert(cell(p1, i1) == own);
    assert(p1 == root && i1 == 510);
    assert(c2 == own) by {
        if c2 != own {
            assert(crate::memory::paging::entry::word_frame(mem[c2])
                != crate::memory::paging::entry::word_frame(mem[own]));
        }
    }
    assert(p2 == root && i2 == 510);
    assert(c3 == own) by {
        if c3 != own {
            assert(crate::memory::paging::entry::word_frame(mem[c3])
                != crate::memory::paging::entry::word_frame(mem[own]));
        }
    }
    assert(p3 == root && i3 == 510);
    assert(c4 == own) by {
        if c4 != own {
            assert(crate::memory::paging::entry::word_frame(mem[c4])
                != crate::memory::paging::entry::word_frame(mem[own]));
        }
    }
    assert(i4 == 510);
    assert(number == 0xf_ffff_f7fb_fdfeu64) by (bit_vector)
        requires
            ((number >> 27) & 0o777) == 510,
            ((number >> 18) & 0o777) == 510,
            ((number >> 9) & 0o777) == 510,
            (number & 0o777) == 510,
            number < 0x8_0000_0000u64 || (0xf_fff8_0000_0000u64 <= number && number
                < 0x10_0000_0000_0000u64),
    ;
}

impl ArchSpecificVMM {
    /// Whether something stands in the place of the page with index
    /// `number` in the active table: a huge page on the way to its level-1
    /// entry, or a level-1 entry that is in use.
    pub open spec fn taken(self, number: u64) -> bool {
        slot_taken(
            self.active_table.mapper.memory(),
            self.active_table.mapper.p4_number(),
            number,
        )
    }

    /// The flags of the level-1 entry that the page with index `number` is
    /// mapped through in the active table, where it is mapped through one.
    pub open spec fn flags_of(self, number: u64) -> Option<u64> {
        mapped_flags(
            self.active_table.mapper.memory(),
            self.active_table.mapper.p4_number(),
            number,
        )
    }
}

/// No page of the region lies where the tables themselves appear: none
/// selects entry 510 of the top-level table.
pub open spec fn outside_recursion(region: Region) -> bool {
    forall|n: u64| #[trigger] in_region(region, n) ==> table_index(n, 4) != RECURSIVE_INDEX
}

/// A region in the lower half of the address space lies outside the
/// recursive region.
pub proof fn lemma_lower_half_region(region: Region)
    requires
        region.end < LOWER_HALF_END,
    ensures
        outside_recursion(region),
{
    assert forall|n: u64| #[trigger] in_region(region, n) implies table_index(n, 4)
        != RECURSIVE_INDEX by {
        crate::memory::stack_allocator::lemma_lower_half_outside_recursion(n as int, n as int);
    }
}

/// The pages of a region have canonical addresses.
pub proof fn lemma_region_pages_canonical(region: Region, n: u64)
    requires
        in_region(region, n),
    ensures
        is_canonical_page(n as int),
{
}

/// Maps every page of the region to a free frame, with the flags that the
/// protection of the region asks for and the present flag.
///
/// Fails with `InvalidAddress` exactly where the region has no pages to
/// name, and with `AlreadyMapped` where something stands in the place of a
/// page of the region; nothing changes then. For a region outside the
/// recursive region that is the only way to fail with `AlreadyMapped`. Fails
/// with `OutOfPhysicalMemory` where no frame is left for a page or a table:
/// the allocator is empty then, and the pages before that one stay mapped.
#[verifier::loop_isolation(false)]
#[verifier::rlimit(60)]
pub fn arch_map(arch_specific: &mut ArchSpecificVMM, region: Region) -> (result: Result<
    (),
    VmmError,
>)
    requires
        old(arch_specific).wf(),
    ensures
        final(arch_specific).wf(),
        final(arch_specific).active_table.mapper.root() == old(arch_specific).active_table.mapper.root(),
        final(arch_specific).stack_allocator == old(arch_specific).stack_allocator,
        final(arch_specific).frame_allocator.free_frames().subset_of(
            old(arch_specific).frame_allocator.free_frames(),
        ),
        forall|other: u64|
            old(arch_specific).translate_page_spec(other) is Some
                ==> final(arch_specific).translate_page_spec(other)
                    == old(arch_specific).translate_page_spec(other),
        (result == Err::<(), VmmError>(VmmError::InvalidAddress)) == (region_pages(region) is None),
        region_pages(region) is Some && (exists|n: u64|
            in_region(region, n) && old(arch_specific).taken(n)) ==> result == Err::<(), VmmError>(
            VmmError::AlreadyMapped,
        ),
        result == Err::<(), VmmError>(VmmError::AlreadyMapped) && outside_recursion(region)
            ==> exists|n: u64| in_region(region, n) && old(arch_specific).taken(n),
        region_pages(region) is Some && (exists|n: u64|
            in_region(region, n) && old(arch_specific).translate_page_spec(n) is Some) ==> result
            == Err::<(), VmmError>(VmmError::AlreadyMapped),
        result == Err::<(), VmmError>(VmmError::InvalidAddress) || (result == Err::<(), VmmError>(
            VmmError::AlreadyMapped,
        ) && exists|n: u64| in_region(region, n) && old(arch_specific).taken(n)) ==> {
            &&& final(arch_specific).active_table.mapper == old(arch_specific).active_table.mapper
            &&& final(arch_specific).frame_allocator.free_frames()
                == old(arch_specific).frame_allocator.free_frames()
        },
        result == Err::<(), VmmError>(VmmError::OutOfPhysicalMemory)
            ==> final(arch_specific).frame_allocator.free_frames() == Set::<u64>::empty(),
        result is Ok ==> forall|n: u64|
            in_region(region, n) ==> {
                &&& old(arch_specific).translate_page_spec(n) is None
                &&& final(arch_specific).translate_page_spec(n) is Some
                &&& old(arch_specific).frame_allocator.free_frames().contains(
                    final(arch_specific).translate_page_spec(n)->Some_0,
                )
                &&& final(arch_specific).flags_of(n) == Some(
                    protection_flags(region.protection@) | PRESENT,
                )
            },
        outside_recursion(region) ==> forall|other: u64|
            table_index(other, 4) != RECURSIVE_INDEX && is_canonical_page(other as int)
                && !in_region(region, other) && #[trigger] old(arch_specific).translate_page_spec(
                other,
            ) is None ==> final(arch_specific).translate_page_spec(other) is None,
        result is Err ==> result->Err_0 == VmmError::InvalidAddress || result->Err_0
            == VmmError::AlreadyMapped || result->Err_0 == VmmError::OutOfPhysicalMemory,
{
    let flags = EntryFlags::from_protection(region.protection);
    let range = match region_range(region) {
        Some(range) => range,
        None => {
            return Err(VmmError::InvalidAddress);
        },
    };
    let ghost first = range.next_number();
    let ghost last = range.last_number();
    let ghost table0 = arch_specific.active_table.mapper;
    let ghost free0 = arch_specific.frame_allocator.free_frames();
    let ghost p4 = table0.p4_number();
    let ghost outside = outside_recursion(region);
    let mut check = range;
    loop
        invariant
            check.last_number() == last,
            first <= check.next_number() || check.remaining() == 0,
            check.next_number() >= first,
            forall|n: u64|
                first <= n < check.next_number() && n <= last ==> !#[trigger] old(arch_specific).taken(n),
        decreases check.remaining(),
    {
        let page = match check.next() {
            Some(page) => page,
            None => {
                break ;
            },
        };
        if arch_specific.active_table.mapper.is_taken(page) {
            assert(in_region(region, page.number()));
            return Err(VmmError::AlreadyMapped);
        }
    }
    proof {
        assert forall|n: u64| in_region(region, n) implies !#[trigger] old(arch_specific).taken(
            n,
        ) by {
            assert(first <= n < check.next_number() && n <= last);
        }
        assert forall|n: u64| in_region(region, n) implies #[trigger] table0.translate_page_spec(
            n,
        ) is None by {
            assert(!old(arch_specific).taken(n));
            lemma_free_slot_unmapped(table0.memory(), p4, n);
        }
    }
    let mut pages = range;
    loop
        invariant
            pages.last_number() == last,
            pages.next_number() >= first,
            arch_specific.wf(),
            arch_specific.active_table.mapper.root() == table0.root(),
            arch_specific.active_table.mapper.p4_number() == p4,
            arch_specific.stack_allocator == old(arch_specific).stack_allocator,
            arch_specific.frame_allocator.free_frames().subset_of(free0),
            forall|other: u64|
                table0.translate_page_spec(other) is Some ==> arch_specific.translate_page_spec(
                    other,
                ) == table0.translate_page_spec(other),
            forall|n: u64|
                #![trigger arch_specific.translate_page_spec(n)]
                first <= n < pages.next_number() && n <= last ==> {
                    &&& arch_specific.translate_page_spec(n) is Some
                    &&& free0.contains(arch_specific.translate_page_spec(n)->Some_0)
                    &&& mapped_small(arch_specific.active_table.mapper.memory(), p4, n) is Some
                    &&& arch_specific.flags_of(n) == Some(flags@ | PRESENT)
                },
            outside ==> forall|n: u64|
                pages.next_number() <= n <= last ==> !#[trigger] arch_specific.taken(n),
            outside ==> forall|other: u64|
                table_index(other, 4) != RECURSIVE_INDEX && is_canonical_page(other as int)
                    && !in_region(region, other) && #[trigger] table0.translate_page_spec(other)
                    is None ==> arch_specific.translate_page_spec(other) is None,
        decreases pages.remaining(),
    {
        let page = match pages.next() {
            Some(page) => page,
            None => {
                break ;
            },
        };
        let ghost before = *arch_specific;
        let ghost m = page.number();
        proof {
            assert(in_region(region, m));
        }
        let mapped = arch_specific.active_table.mapper.map(
            page,
            flags,
            &mut arch_specific.frame_allocator,
        );
        proof {
            let mem1 = before.active_table.mapper.memory();
            let mem2 = arch_specific.active_table.mapper.memory();
            if outside {
                assert(table_index(m, 4) != RECURSIVE_INDEX);
                assert(others_kept(mem1, mem2, p4, m));
                assert forall|other: u64|
                    table_index(other, 4) != RECURSIVE_INDEX && is_canonical_page(other as int)
                        && !in_region(region, other) && #[trigger] table0.translate_page_spec(
                        other,
                    ) is None implies arch_specific.translate_page_spec(other) is None by {
                    assert(before.translate_page_spec(other) is None);
                    if same_place(other, m) {
                        lemma_region_pages_canonical(region, m);
                        lemma_same_place_same_page(other, m);
                    }
                }
            }
        }
        match mapped {
            Ok(()) => {},
            Err(e) => {
                proof {
                    if e == VmmError::AlreadyMapped && outside {
                        assert(before.taken(m));
                    }
                }
                return Err(e);
            },
        }
        proof {
            let mem1 = before.active_table.mapper.memory();
            let mem2 = arch_specific.active_table.mapper.memory();
            let free1 = before.frame_allocator.free_frames();
            lemma_small_mapping_translates(mem2, p4, m);
            assert forall|n: u64|
                #![trigger arch_specific.translate_page_spec(n)]
                first <= n < pages.next_number() && n <= last implies {
                &&& arch_specific.translate_page_spec(n) is Some
                &&& free0.contains(arch_specific.translate_page_spec(n)->Some_0)
                &&& mapped_small(mem2, p4, n) is Some
                &&& arch_specific.flags_of(n) == Some(flags@ | PRESENT)
            } by {
                if n != m {
                    assert(before.translate_page_spec(n) is Some);
                    assert(before.active_table.mapper.translate_page_spec(n) is Some);
                    lemma_small_mapping_kept(mem1, mem2, table0.root(), free1, p4, n);
                }
            }
            if outside {
                assert(table_index(m, 4) != RECURSIVE_INDEX);
                assert(others_kept(mem1, mem2, p4, m));
                assert forall|n: u64| pages.next_number() <= n <= last
                    implies !#[trigger] arch_specific.taken(
                    n,
                ) by {
                    assert(in_region(region, n));
                    assert(!before.taken(n));
                    if same_place(n, m) {
                        lemma_region_pages_canonical(region, n);
                        lemma_region_pages_canonical(region, m);
                        lemma_same_place_same_page(n, m);
                    }
                }
            }
        }
    }
    Ok(())
}

/// The index of the frame that the page with index `number` of the region
/// goes to when the region is mapped to the physical addresses from
/// `start_address` on.
pub open spec fn frame_for(region: Region, start_address: u64, number: u64) -> int {
    start_address / PAGE_SIZE + (number - region.start / PAGE_SIZE)
}

/// The region has pages to name, and the frames from the one that holds
/// `start_address` on, one for each page, all exist.
pub open spec fn frames_exist(region: Region, start_address: u64) -> bool {
    &&& region_pages(region) is Some
    &&& region_pages(region)->Some_0.0 <= region_pages(region)->Some_0.1 ==> frame_for(
        region,
        start_address,
        region_pages(region)->Some_0.1,
    ) < FRAME_COUNT
}

/// Maps the pages of the region to the frames from the one that holds
/// `start_address` on, one after the other, with the flags that the
/// protection of the region asks for and the present flag. No entry may refer to one of the
/// frames yet. A frame that is free is taken out of the allocator of frames.
///
/// Fails with `InvalidAddress` exactly where the region has no pages to name
/// or the frames do not all exist; nothing changes then. Else fails with
/// `AlreadyMapped` where something stands in the place of a page of the
/// region; nothing changes then either. For a region outside the recursive
/// region that is the only way to fail with `AlreadyMapped`. Fails with
/// `OutOfPhysicalMemory` where no frame is left for a table: the allocator is
/// empty then, and the pages before that one stay mapped.
#[verifier::loop_isolation(false)]
#[verifier::rlimit(60)]
pub fn arch_map_to(arch_specific: &mut ArchSpecificVMM, region: Region, start_address: u64) -> (result:
    Result<(), VmmError>)
    requires
        old(arch_specific).wf(),
        forall|n: u64|
            in_region(region, n) && frame_for(region, start_address, n) < FRAME_COUNT
                ==> !referenced(
                old(arch_specific).active_table.mapper.memory(),
                #[trigger] (frame_for(region, start_address, n) as u64),
            ),
    ensures
        final(arch_specific).wf(),
        final(arch_specific).active_table.mapper.root() == old(arch_specific).active_table.mapper.root(),
        final(arch_specific).stack_allocator == old(arch_specific).stack_allocator,
        final(arch_specific).frame_allocator.free_frames().subset_of(
            old(arch_specific).frame_allocator.free_frames(),
        ),
        forall|other: u64|
            old(arch_specific).translate_page_spec(other) is Some
                ==> final(arch_specific).translate_page_spec(other)
                    == old(arch_specific).translate_page_spec(other),
        (result == Err::<(), VmmError>(VmmError::InvalidAddress)) == !frames_exist(
            region,
            start_address,
        ),
        region_pages(region) is None ==> result == Err::<(), VmmError>(VmmError::InvalidAddress),
        region_pages(region) is Some && region_pages(region)->Some_0.0 <= region_pages(
            region,
        )->Some_0.1 && frame_for(region, start_address, region_pages(region)->Some_0.1)
            >= FRAME_COUNT ==> result == Err::<(), VmmError>(VmmError::InvalidAddress),
        frames_exist(region, start_address) && (exists|n: u64|
            in_region(region, n) && old(arch_specific).taken(n)) ==> result == Err::<(), VmmError>(
            VmmError::AlreadyMapped,
        ),
        result == Err::<(), VmmError>(VmmError::AlreadyMapped) && outside_recursion(region)
            ==> exists|n: u64| in_region(region, n) && old(arch_specific).taken(n),
        result != Err::<(), VmmError>(VmmError::InvalidAddress) && (exists|n: u64|
            in_region(region, n) && old(arch_specific).translate_page_spec(n) is Some) ==> result
            == Err::<(), VmmError>(VmmError::AlreadyMapped),
        result == Err::<(), VmmError>(VmmError::InvalidAddress) || (result == Err::<(), VmmError>(
            VmmError::AlreadyMapped,
        ) && exists|n: u64| in_region(region, n) && old(arch_specific).taken(n)) ==> {
            &&& final(arch_specific).active_table.mapper == old(arch_specific).active_table.mapper
            &&& final(arch_specific).frame_allocator.free_frames()
                == old(arch_specific).frame_allocator.free_frames()
        },
        result == Err::<(), VmmError>(VmmError::OutOfPhysicalMemory)
            ==> final(arch_specific).frame_allocator.free_frames() == Set::<u64>::empty(),
        result is Ok ==> forall|n: u64|
            in_region(region, n) ==> {
                &&& old(arch_specific).translate_page_spec(n) is None
                &&& final(arch_specific).translate_page_spec(n) == Some(
                    frame_for(region, start_address, n) as u64,
                )
                &&& final(arch_specific).flags_of(n) == Some(
                    protection_flags(region.protection@) | PRESENT,
                )
            },
        outside_recursion(region) ==> forall|other: u64|
            table_index(other, 4) != RECURSIVE_INDEX && is_canonical_page(other as int)
                && !in_region(region, other) && #[trigger] old(arch_specific).translate_page_spec(
                other,
            ) is None ==> final(arch_specific).translate_page_spec(other) is None,
        result is Err ==> result->Err_0 == VmmError::InvalidAddress || result->Err_0
            == VmmError::AlreadyMapped || result->Err_0 == VmmError::OutOfPhysicalMemory,
{
    let flags = EntryFlags::from_protection(region.protection);
    let range = match region_range(region) {
        Some(range) => range,
        None => {
            return Err(VmmError::InvalidAddress);
        },
    };
    let ghost first = range.next_number();
    let ghost last = range.last_number();
    let ghost table0 = arch_specific.active_table.mapper;
    let ghost mem0 = table0.memory();
    let ghost root = table0.root();
    let ghost p4 = table0.p4_number();
    let ghost outside = outside_recursion(region);
    let ghost free0 = arch_specific.frame_allocator.free_frames();
    let first_frame = start_address / PAGE_SIZE;
    let flag_bits = flags.bits();
    let count = range.pages_left();
    if count > 0 && (first_frame >= FRAME_COUNT || count - 1 >= FRAME_COUNT - first_frame) {
        return Err(VmmError::InvalidAddress);
    }
    let first_page = region.start / PAGE_SIZE;
    assert(frames_exist(region, start_address));
    let mut check = range;
    loop
        invariant
            check.last_number() == last,
            check.next_number() >= first,
            forall|n: u64|
                first <= n < check.next_number() && n <= last ==> !#[trigger] old(arch_specific).taken(n),
        decreases check.remaining(),
    {
        let page = match check.next() {
            Some(page) => page,
            None => {
                break ;
            },
        };
        if arch_specific.active_table.mapper.is_taken(page) {
            assert(in_region(region, page.number()));
            return Err(VmmError::AlreadyMapped);
        }
    }
    proof {
        assert forall|n: u64| in_region(region, n) implies !#[trigger] old(arch_specific).taken(
            n,
        ) by {
            assert(first <= n < check.next_number() && n <= last);
        }
        assert forall|n: u64| in_region(region, n) implies #[trigger] table0.translate_page_spec(
            n,
        ) is None by {
            assert(!old(arch_specific).taken(n));
            lemma_free_slot_unmapped(table0.memory(), p4, n);
        }
    }
    // take the frames out of the allocator, so that none becomes a table
    let mut taken: u64 = 0;
    while taken < count
        invariant
            taken <= count,
            arch_specific.active_table == old(arch_specific).active_table,
            arch_specific.stack_allocator == old(arch_specific).stack_allocator,
            arch_specific.frame_allocator.free_frames().subset_of(free0),
            forall|f: u64|
                first_frame <= f < first_frame + taken
                    ==> !arch_specific.frame_allocator.free_frames().contains(f),
        decreases count - taken,
    {
        let frame = Frame::containing_address((first_frame + taken) * PAGE_SIZE);
        arch_specific.frame_allocator.reserve(&frame);
        taken = taken + 1;
    }
    let ghost free1 = arch_specific.frame_allocator.free_frames();
    proof {
        assert forall|n: u64| first <= n <= last implies !#[trigger] arch_specific.taken(n) by {
            assert(in_region(region, n));
            assert(!old(arch_specific).taken(n));
        }
    }
    let mut pages = range;
    loop
        invariant
            pages.last_number() == last,
            pages.next_number() >= first,
            arch_specific.wf(),
            arch_specific.active_table.mapper.root() == root,
            arch_specific.stack_allocator == old(arch_specific).stack_allocator,
            arch_specific.frame_allocator.free_frames().subset_of(free1),
            new_entries_name_or_map(
                mem0,
                arch_specific.active_table.mapper.memory(),
                free1,
                first_frame,
                (pages.next_number() - first) as int,
            ),
            forall|other: u64|
                table0.translate_page_spec(other) is Some ==> arch_specific.translate_page_spec(
                    other,
                ) == table0.translate_page_spec(other),
            forall|n: u64|
                #![trigger arch_specific.translate_page_spec(n)]
                first <= n < pages.next_number() && n <= last ==> {
                    &&& arch_specific.translate_page_spec(n) == Some(
                        (first_frame + (n - first)) as u64,
                    )
                    &&& mapped_small(arch_specific.active_table.mapper.memory(), p4, n) is Some
                    &&& arch_specific.flags_of(n) == Some(flags@ | PRESENT)
                },
            arch_specific.active_table.mapper.p4_number() == p4,
            outside ==> forall|n: u64|
                pages.next_number() <= n <= last ==> !#[trigger] arch_specific.taken(n),
            outside ==> forall|other: u64|
                table_index(other, 4) != RECURSIVE_INDEX && is_canonical_page(other as int)
                    && !in_region(region, other) && #[trigger] table0.translate_page_spec(other)
                    is None ==> arch_specific.translate_page_spec(other) is None,
        decreases pages.remaining(),
    {
        let page = match pages.next() {
            Some(page) => page,
            None => {
                break ;
            },
        };
        let ghost m = page.number();
        let offset = page.index() - first_page;
        let frame = Frame::containing_address((first_frame + offset) * PAGE_SIZE);
        let ghost f = frame.number();
        let ghost before = *arch_specific;
        proof {
            let mem = before.active_table.mapper.memory();
            assert(in_region(region, page.number()));
            assert(f == frame_for(region, start_address, page.number()) as u64);
            assert(!referenced(mem0, f));
            assert(unnamed_outside(mem, Set::<int>::empty(), f)) by {
                assert forall|c: int|
                    #![trigger mem[c]]
                    crate::memory::paging::entry::word_present(
                        mem[c],
                    ) implies crate::memory::paging::entry::word_frame(mem[c]) != f by {
                    if mem[c] == mem0[c] {
                    }
                }
            }
            assert(f != root) by {
                assert(crate::memory::paging::entry::word_present(mem[cell(root, 510)]));
            }
        }
        let mapped = arch_specific.active_table.mapper.map_to(
            page,
            frame,
            flags,
            &mut arch_specific.frame_allocator,
        );
        proof {
            let mem1 = before.active_table.mapper.memory();
            let mem2 = arch_specific.active_table.mapper.memory();
            if outside {
                assert(table_index(m, 4) != RECURSIVE_INDEX);
                assert(others_kept(mem1, mem2, p4, m));
                assert forall|other: u64|
                    table_index(other, 4) != RECURSIVE_INDEX && is_canonical_page(other as int)
                        && !in_region(region, other) && #[trigger] table0.translate_page_spec(
                        other,
                    ) is None implies arch_specific.translate_page_spec(other) is None by {
                    assert(before.translate_page_spec(other) is None);
                    if same_place(other, m) {
                        lemma_region_pages_canonical(region, m);
                        lemma_same_place_same_page(other, m);
                    }
                }
            }
        }
        match mapped {
            Ok(()) => {},
            Err(e) => {
                proof {
                    if e == VmmError::AlreadyMapped && outside {
                        assert(before.taken(m));
                    }
                }
                return Err(e);
            },
        }
        proof {
            let mem = before.active_table.mapper.memory();
            let after = arch_specific.active_table.mapper.memory();
            let free_before = before.frame_allocator.free_frames();
            assert(unique_except(mem, Set::<int>::empty()));
            crate::memory::paging::entry::lemma_with_present(flag_bits);
            crate::memory::paging::entry::lemma_entry_word(
                f,
                flag_bits | crate::memory::paging::entry::PRESENT,
            );
            lemma_small_mapping_translates(after, p4, m);
            assert forall|n: u64|
                #![trigger arch_specific.translate_page_spec(n)]
                first <= n < pages.next_number() && n <= last implies {
                &&& arch_specific.translate_page_spec(n) == Some((first_frame + (n - first)) as u64)
                &&& mapped_small(after, p4, n) is Some
                &&& arch_specific.flags_of(n) == Some(flags@ | PRESENT)
            } by {
                if n != page.number() {
                    assert(before.translate_page_spec(n) is Some);
                    assert(before.active_table.mapper.translate_page_spec(n) is Some);
                    lemma_small_mapping_kept(mem, after, root, free_before, p4, n);
                }
            }
            if outside {
                assert forall|n: u64| pages.next_number() <= n <= last
                    implies !#[trigger] arch_specific.taken(
                    n,
                ) by {
                    assert(in_region(region, n));
                    assert(!before.taken(n));
                    if same_place(n, m) {
                        lemma_region_pages_canonical(region, n);
                        lemma_region_pages_canonical(region, m);
                        lemma_same_place_same_page(n, m);
                    }
                }
            }
            assert(new_entries_name_or_map(
                mem0,
                after,
                free1,
                first_frame,
                (pages.next_number() - first) as int,
            )) by {
                assert forall|c: int|
                    #![trigger after[c]]
                    crate::memory::paging::entry::word_present(after[c]) implies after[c]
                    == mem0[c] || free1.contains(crate::memory::paging::entry::word_frame(after[c]))
                    || first_frame <= crate::memory::paging::entry::word_frame(after[c])
                    < first_frame + (pages.next_number() - first) by {
                    if after[c] == mem[c] {
                    } else {
                        if Some(c) == leaf_cell(after, root, page.number()) {
                            crate::memory::paging::entry::lemma_with_present(flag_bits);
                            crate::memory::paging::entry::lemma_entry_word(
                                f,
                                flag_bits | crate::memory::paging::entry::PRESENT,
                            );
                        }
                    }
                }
            }
        }
    }
    Ok(())
}

/// Every entry that is present in `after` was there before, or names a frame
/// that was free, or names one of the `mapped` frames from `first_frame` on.
pub open spec fn new_entries_name_or_map(
    before: Map<int, u64>,
    after: Map<int, u64>,
    free: Set<u64>,
    first_frame: u64,
    mapped: int,
) -> bool {
    forall|c: int|
        #![trigger after[c]]
        crate::memory::paging::entry::word_present(after[c]) ==> after[c] == before[c]
            || free.contains(crate::memory::paging::entry::word_frame(after[c])) || first_frame
            <= crate::memory::paging::entry::word_frame(after[c]) < first_frame + mapped
}

/// Unmaps every page of the region that is mapped through a level-1 entry,
/// and gives its frame back to the allocator of frames if that has a bit
/// for it. The page at which the top-level table appears is left as it is.
#[verifier::loop_isolation(false)]
pub fn arch_unmap(arch_specific: &mut ArchSpecificVMM, region: Region)
    requires
        old(arch_specific).wf(),
    ensures
        final(arch_specific).wf(),
        final(arch_specific).active_table.mapper.root() == old(arch_specific).active_table.mapper.root(),
        final(arch_specific).stack_allocator == old(arch_specific).stack_allocator,
        old(arch_specific).frame_allocator.free_frames().subset_of(
            final(arch_specific).frame_allocator.free_frames(),
        ),
        region_pages(region) is None ==> {
            &&& final(arch_specific).active_table.mapper == old(arch_specific).active_table.mapper
            &&& final(arch_specific).frame_allocator.free_frames()
                == old(arch_specific).frame_allocator.free_frames()
        },
        forall|n: u64|
            in_region(region, n) && n != P4_PAGE ==> mapped_small(
                final(arch_specific).active_table.mapper.memory(),
                final(arch_specific).active_table.mapper.root(),
                n,
            ) is None,
        forall|frame: u64|
            #[trigger] referenced(old(arch_specific).active_table.mapper.memory(), frame)
                && !referenced(final(arch_specific).active_table.mapper.memory(), frame) && frame
                < old(arch_specific).frame_allocator.capacity()
                    ==> final(arch_specific).frame_allocator.free_frames().contains(frame),
{
    let range = match region_range(region) {
        Some(range) => range,
        None => {
            return ;
        },
    };
    let ghost first = range.next_number();
    let ghost last = range.last_number();
    let ghost table0 = arch_specific.active_table.mapper;
    let ghost root = table0.root();
    let ghost free0 = arch_specific.frame_allocator.free_frames();
    let capacity = arch_specific.frame_allocator.frame_capacity();
    let mut pages = range;
    loop
        invariant
            pages.last_number() == last,
            pages.next_number() >= first,
            arch_specific.wf(),
            arch_specific.active_table.mapper.root() == root,
            arch_specific.stack_allocator == old(arch_specific).stack_allocator,
            arch_specific.frame_allocator.capacity() == capacity,
            free0.subset_of(arch_specific.frame_allocator.free_frames()),
            present_cleared(table0.memory(), arch_specific.active_table.mapper.memory()),
            forall|n: u64|
                first <= n < pages.next_number() && n <= last && n != P4_PAGE ==> mapped_small(
                    arch_specific.active_table.mapper.memory(),
                    root,
                    n,
                ) is None,
            forall|frame: u64|
                #[trigger] referenced(table0.memory(), frame) && !referenced(
                    arch_specific.active_table.mapper.memory(),
                    frame,
                ) && frame < capacity ==> arch_specific.frame_allocator.free_frames().contains(
                    frame,
                ),
        decreases pages.remaining(),
    {
        let page = match pages.next() {
            Some(page) => page,
            None => {
                break ;
            },
        };
        let number = page.index();
        if number == P4_PAGE {
            continue ;
        }
        let ghost before = arch_specific.active_table.mapper;
        let ghost free = arch_specific.frame_allocator.free_frames();
        let ghost before_allocator = arch_specific.frame_allocator;
        proof {
            let mem = before.memory();
            if leaf_cell(mem, root, number) == Some(cell(root, RECURSIVE_INDEX as int)) {
                lemma_self_map_page(mem, root, number);
            }
            lemma_cleared_mapping(table0.memory(), mem, root, number);
        }
        match arch_specific.active_table.mapper.unmap_page(page) {
            Ok(frame) => {
                let ghost named = frame.number();
                let ghost leaf = leaf_cell(before.memory(), root, number)->Some_0;
                proof {
                    let mem = before.memory();
                    let after = arch_specific.active_table.mapper.memory();
                    crate::memory::paging::entry::lemma_flag_facts();
                    assert(unique_except(mem, Set::<int>::empty()));
                    assert(unnamed_outside(after, Set::<int>::empty(), named));
                    assert(after[cell(root, 510)] == mem[cell(root, 510)]);
                    assert(named != root);
                    assert forall|c: int| #![trigger after[c]] after[c] == mem[c] || after[c]
                        == 0 by {}
                    assert(present_cleared(table0.memory(), after)) by {
                        assert forall|c: int|
                            #![trigger after[c]]
                            after[c] == table0.memory()[c] || after[c] == 0 by {
                            assert(after[c] == mem[c] || after[c] == 0);
                            assert(mem[c] == table0.memory()[c] || mem[c] == 0);
                        }
                    }
                    assert(unreferenced(after, root, free)) by {
                        assert forall|c: int|
                            #![trigger after[c]]
                            crate::memory::paging::entry::word_present(
                                after[c],
                            ) implies !free.contains(
                            crate::memory::paging::entry::word_frame(after[c]),
                        ) by {
                            assert(after[c] == mem[c]);
                        }
                    }
                    // a frame that is no longer referred to is the one that was unmapped
                    assert forall|f: u64|
                        #[trigger] referenced(mem, f) && !referenced(after, f) implies f
                        == named by {
                        let c = choose|c: int|
                            crate::memory::paging::entry::word_present(#[trigger] mem[c])
                                && crate::memory::paging::entry::word_frame(mem[c]) == f;
                        if c != leaf {
                            assert(after[c] == mem[c]);
                        }
                    }
                }
                if frame.index() < capacity {
                    proof {
                        assert forall|n: u64| set![named].contains(n) implies n < capacity by {}
                    }
                    arch_specific.frame_allocator.deallocate_frame(frame);
                    proof {
                        let after = arch_specific.active_table.mapper.memory();
                        arch_specific.frame_allocator.lemma_capacity_kept(
                            &before_allocator,
                        );
                        assert(unreferenced(after, root, free.insert(named)));
                    }
                }
            },
            Err(_) => {},
        }
        proof {
            let after = arch_specific.active_table.mapper.memory();
            assert forall|f: u64|
                #[trigger] referenced(table0.memory(), f) && !referenced(after, f) && f
                    < capacity implies arch_specific.frame_allocator.free_frames().contains(
                f,
            ) by {
                if referenced(before.memory(), f) {
                } else {
                    assert(free.contains(f));
                }
            }
            assert forall|n: u64|
                first <= n < pages.next_number() && n <= last && n != P4_PAGE implies mapped_small(
                after,
                root,
                n,
            ) is None by {
                if n != number {
                    lemma_cleared_mapping(before.memory(), after, root, n);
                }
            }
        }
    }
}

/// Between `before` and `after`, entries were cleared and nothing else
/// happened: every entry is as it was or zero.
pub open spec fn present_cleared(before: Map<int, u64>, after: Map<int, u64>) -> bool {
    forall|c: int| #![trigger after[c]] after[c] == before[c] || after[c] == 0
}

/// Clearing entries maps no page: a page that is mapped through a level-1
/// entry afterwards was mapped so before, to the same frame.
pub proof fn lemma_cleared_mapping(before: Map<int, u64>, after: Map<int, u64>, p4: u64, number: u64)
    requires
        present_cleared(before, after),
    ensures
        mapped_small(after, p4, number) is Some ==> mapped_small(before, p4, number)
            == mapped_small(after, p4, number),
{
    crate::memory::paging::entry::lemma_flag_facts();
    if mapped_small(after, p4, number) is Some {
        let c4 = cell(p4, table_index(number, 4) as int);
        assert(after[c4] == before[c4]);
        let p3 = crate::memory::paging::entry::word_frame(after[c4]);
        let c3 = cell(p3, table_index(number, 3) as int);
        assert(after[c3] == before[c3]);
        let p2 = crate::memory::paging::entry::word_frame(after[c3]);
        let c2 = cell(p2, table_index(number, 2) as int);
        assert(after[c2] == before[c2]);
        let p1 = crate::memory::paging::entry::word_frame(after[c2]);
        let c1 = cell(p1, table_index(number, 1) as int);
        assert(after[c1] == before[c1]);
    }
}

/// What the allocation of a stack of `size` pages does to the managers of
/// memory, from `before` to `after`, and what comes back.
///
/// The first page that the allocator of stacks has left stays unmapped as
/// the guard page; the `size` pages above it are the stack. The result is
/// `ZeroSized` where `size` is zero and `NotEnoughPages` where fewer than
/// `size + 1` pages are left; nothing changes then. Else the pages are used
/// up. On success every page of the stack was unmapped before and is mapped,
/// writable, to a frame that was free. The result is
/// `Mapping(OutOfPhysicalMemory)` only where the allocator of frames has no
/// frame in the end, and `Mapping(AlreadyMapped)` where something stood in
/// the place of the first page of the stack, when nothing changes in the
/// table. Where the pages lie outside the recursive region,
/// `Mapping(AlreadyMapped)` comes only where something stood in the place of
/// a page of the stack, and every other page that was not mapped, the guard
/// page among them, stays unmapped.
pub open spec fn stack_allocated(
    before: ArchSpecificVMM,
    after: ArchSpecificVMM,
    size: usize,
    result: Result<Stack, StackError>,
) -> bool {
    let guard = before.stack_allocator.range().next_number();
    let enough = size > 0 && before.stack_allocator.range().remaining() >= size + 1;
    &&& after.wf()
    &&& after.active_table.mapper.root() == before.active_table.mapper.root()
    &&& after.frame_allocator.free_frames().subset_of(before.frame_allocator.free_frames())
    &&& after.stack_allocator.range().last_number() == before.stack_allocator.range().last_number()
    &&& forall|other: u64|
        before.translate_page_spec(other) is Some ==> after.translate_page_spec(other)
            == before.translate_page_spec(other)
    &&& size == 0 ==> result == Err::<Stack, StackError>(StackError::ZeroSized)
    &&& size > 0 && !enough ==> result == Err::<Stack, StackError>(StackError::NotEnoughPages)
    &&& !enough ==> {
        &&& after.stack_allocator.range() == before.stack_allocator.range()
        &&& after.active_table.mapper == before.active_table.mapper
        &&& after.frame_allocator.free_frames() == before.frame_allocator.free_frames()
    }
    &&& enough ==> {
        &&& after.stack_allocator.range().next_number() == guard + size + 1
        &&& match result {
            Ok(stack) => {
                &&& stack.bottom_spec() == (guard + 1) * PAGE_SIZE
                &&& stack.top_spec() == stack.bottom_spec() + size * PAGE_SIZE
                &&& forall|n: u64|
                    guard < n <= guard + size ==> {
                        &&& #[trigger] after.translate_page_spec(n) is Some
                        &&& before.translate_page_spec(n) is None
                        &&& before.frame_allocator.free_frames().contains(
                            after.translate_page_spec(n)->Some_0,
                        )
                        &&& after.flags_of(n) == Some(WRITABLE | PRESENT)
                    }
            },
            Err(e) => e == StackError::Mapping(VmmError::AlreadyMapped) || e
                == StackError::Mapping(VmmError::OutOfPhysicalMemory),
        }
        &&& result == Err::<Stack, StackError>(StackError::Mapping(VmmError::OutOfPhysicalMemory))
            ==> after.frame_allocator.free_frames() == Set::<u64>::empty()
        &&& before.taken((guard + 1) as u64) ==> {
            &&& result == Err::<Stack, StackError>(StackError::Mapping(VmmError::AlreadyMapped))
            &&& after.active_table.mapper.memory() == before.active_table.mapper.memory()
            &&& after.frame_allocator.free_frames() == before.frame_allocator.free_frames()
        }
        &&& run_outside_recursion(guard as int, guard + size) ==> {
            &&& result == Err::<Stack, StackError>(StackError::Mapping(VmmError::AlreadyMapped))
                ==> exists|n: u64| guard < n <= guard + size && before.taken(n)
            &&& forall|other: u64|
                table_index(other, 4) != RECURSIVE_INDEX && is_canonical_page(other as int) && !(
                guard < other <= guard + size) && #[trigger] before.translate_page_spec(other)
                    is None ==> after.translate_page_spec(other) is None
        }
    }
}

/// Allocates a stack of `size` pages from the allocator of stacks, each page
/// mapped, writable, to a frame from the allocator of frames; the page below
/// the stack is left unmapped as its guard page.
pub fn arch_alloc_stack(arch_specific: &mut ArchSpecificVMM, size: usize) -> (result: Result<
    Stack,
    StackError,
>)
    requires
        old(arch_specific).wf(),
    ensures
        stack_allocated(*old(arch_specific), *final(arch_specific), size, result),
        final(arch_specific).wf(),
        final(arch_specific).active_table.mapper.root() == old(arch_specific).active_table.mapper.root(),
        final(arch_specific).frame_allocator.free_frames().subset_of(
            old(arch_specific).frame_allocator.free_frames(),
        ),
        forall|other: u64|
            old(arch_specific).translate_page_spec(other) is Some
                ==> final(arch_specific).translate_page_spec(other)
                    == old(arch_specific).translate_page_spec(other),
        size == 0 ==> result == Err::<Stack, StackError>(StackError::ZeroSized),
        size > 0 && old(arch_specific).stack_allocator.range().remaining() < size + 1 ==> result
            == Err::<Stack, StackError>(StackError::NotEnoughPages),
        size > 0 && old(arch_specific).stack_allocator.range().remaining() >= size + 1
            ==> match result {
            Ok(stack) => {
                &&& stack.bottom_spec()
                    == (old(arch_specific).stack_allocator.range().next_number() + 1) * PAGE_SIZE
                &&& stack.top_spec() == stack.bottom_spec() + size * PAGE_SIZE
                &&& forall|n: u64|
                    old(arch_specific).stack_allocator.range().next_number()
                        < n <= old(arch_specific).stack_allocator.range().next_number() + size
                            ==> final(arch_specific).translate_page_spec(n) is Some
            },
            Err(e) => e is Mapping,
        },
{
    let result = arch_specific.stack_allocator.alloc_stack(
        &mut arch_specific.active_table,
        &mut arch_specific.frame_allocator,
        size,
    );
    proof {
        let guard = old(arch_specific).stack_allocator.range().next_number();
        if size > 0 && old(arch_specific).stack_allocator.range().remaining() >= size + 1 {
            if run_outside_recursion(guard as int, guard + size) && result == Err::<
                Stack,
                StackError,
            >(StackError::Mapping(VmmError::AlreadyMapped)) {
                let n = choose|n: u64|
                    guard < n <= guard + size && slot_taken(
                        old(arch_specific).active_table.mapper.memory(),
                        old(arch_specific).active_table.mapper.p4_number(),
                        n,
                    );
                assert(old(arch_specific).taken(n));
            }
            if result is Ok {
                assert forall|n: u64| guard < n <= guard + size implies {
                    &&& #[trigger] final(arch_specific).translate_page_spec(n) is Some
                    &&& old(arch_specific).translate_page_spec(n) is None
                    &&& old(arch_specific).frame_allocator.free_frames().contains(
                        final(arch_specific).translate_page_spec(n)->Some_0,
                    )
                    &&& final(arch_specific).flags_of(n) == Some(WRITABLE | PRESENT)
                } by {
                    assert(final(arch_specific).active_table.mapper.translate_page_spec(n) is Some);
                }
            }
        }
    }
    result
}

/// Allocates a stack of `size` pages, as `arch_alloc_stack` does.
pub fn alloc_stack(controller: &mut ArchSpecificVMM, size: usize) -> (result: Result<
    Stack,
    StackError,
>)
    requires
        old(controller).wf(),
    ensures
        stack_allocated(*old(controller), *final(controller), size, result),
{
    arch_alloc_stack(controller, size)
}

} // verus!
