//! The regions of virtual memory that are claimed.
//!
//! The regions are kept in a list, from the highest addresses down, and no
//! two of them overlap. A region is claimed before its pages are mapped, and
//! the claim is given up when mapping them fails.

use vstd::prelude::*;
use crate::memory::boot::{
    arch_vmm_init_preheap, asks_for_bitmap, early_boot_fits, early_regions, early_regions_spec,
    early_requests_spec, early_state, guard_required, pages_collide, BootInformation,
    KERNEL_BASE_PAGE,
    KernelSymbols,
};
use crate::memory::paging::mapper::{mapped_small, referenced};
use crate::memory::boot::protection_flags;
use crate::memory::paging::entry::PRESENT;
use crate::memory::paging::P4_PAGE;
use crate::memory::stack_allocator::{Stack, StackError};
use crate::memory::{
    arch_alloc_stack,
    arch_map,
    arch_map_to,
    arch_unmap,
    frame_for,
    frames_exist,
    in_region,
    outside_recursion,
    region_pages,
    region_range,
    stack_allocated,
    ArchSpecificVMM,
    Frame,
    FrameAllocate,
    FRAME_COUNT,
    PAGE_SIZE,
};

verus! {

/// What can go wrong when memory is mapped or unmapped.
#[derive(Debug, Clone, Copy, PartialEq, Eq, Structural)]
pub enum VmmError {
    /// The allocator has no frame left.
    OutOfPhysicalMemory,
    /// The page is already mapped to a frame.
    AlreadyMapped,
    /// The page is not mapped to any frame.
    NotMapped,
    /// The region overlaps a region that is claimed already.
    RegionConflict,
    /// The address is not canonical.
    InvalidAddress,
}

/// The first address of the kernel's half of the address space.
pub const KERNEL_SPACE_START: u64 = 0xffff_8000_0000_0000;

/// The last address of the kernel's half of the address space.
pub const KERNEL_SPACE_END: u64 = 0xffff_ffff_ffff_ffff;

/// No protection flag: the region can be read.
pub const PROTECTION_NONE: u64 = 0x0;

/// The region can be written to.
pub const PROTECTION_WRITABLE: u64 = 0x1;

/// The region is accessible from every ring.
pub const PROTECTION_USER_ACCESSIBLE: u64 = 0x2;

/// Code in the region can be executed.
pub const PROTECTION_EXECUTABLE: u64 = 0x4;

/// Every bit that is a protection flag.
pub const PROTECTION_ALL: u64 = 0x7;

/// How a region is protected. Only the bits that are flags are ever set.
#[derive(Clone, Copy, Debug, PartialEq, Eq, Structural)]
pub struct Protection {
    bits: u64,
}

impl Protection {
    #[verifier::type_invariant]
    spec fn only_flags(self) -> bool {
        self.bits & !PROTECTION_ALL == 0
    }

    /// The flags as bits.
    pub closed spec fn view(self) -> u64 {
        self.bits
    }

    /// No flag at all.
    pub fn empty() -> (protection: Protection)
        ensures
            protection@ == 0,
    {
        assert(0u64 & !0x7u64 == 0) by (bit_vector);
        Protection { bits: 0 }
    }

    /// The protection with the flags among the given bits.
    pub closed spec fn of(bits: u64) -> Protection {
        Protection { bits: bits & PROTECTION_ALL }
    }

    /// The flags among the given bits; the bits that are no flags are dropped.
    pub fn from_bits_truncate(bits: u64) -> (protection: Protection)
        ensures
            protection == Protection::of(bits),
            protection@ == bits & PROTECTION_ALL,
    {
        let kept = bits & PROTECTION_ALL;
        assert(kept & !0x7u64 == 0) by (bit_vector)
            requires
                kept == bits & 0x7u64,
        ;
        Protection { bits: kept }
    }

    /// The flags as bits.
    pub fn bits(&self) -> (bits: u64)
        ensures
            bits == self@,
            bits & !PROTECTION_ALL == 0,
    {
        proof {
            use_type_invariant(self);
        }
        self.bits
    }

    /// Whether every one of the given bits is among these flags.
    pub fn has(&self, bits: u64) -> (all: bool)
        ensures
            all == (self@ & bits == bits),
    {
        self.bits & bits == bits
    }
}

/// How a region lies to another.
#[derive(Clone, Copy, Debug, PartialEq, Eq, Structural)]
pub enum RegionOrder {
    /// The region ends before the other starts.
    Less,
    /// The region starts after the other ends.
    Greater,
    /// The two share an address.
    Intersects,
}

/// A named range of virtual memory, from `start` to `end`, both included,
/// with its protection.
#[derive(Clone, Copy, Debug)]
pub struct Region {
    /// The name of the region.
    pub name: &'static str,
    /// The first address of the region.
    pub start: u64,
    /// The last address of the region.
    pub end: u64,
    /// How the region is protected.
    pub protection: Protection,
}

impl Region {
    /// The region holds an address: it does not end before it starts.
    pub open spec fn is_interval(self) -> bool {
        self.start <= self.end
    }

    /// Whether the region holds the address.
    pub open spec fn holds(self, address: u64) -> bool {
        self.start <= address <= self.end
    }

    /// How the region lies to `other`.
    pub open spec fn relation_spec(self, other: Region) -> RegionOrder {
        if self.end < other.start {
            RegionOrder::Less
        } else if self.start > other.end {
            RegionOrder::Greater
        } else {
            RegionOrder::Intersects
        }
    }

    /// Whether the two regions share an address.
    pub open spec fn intersects_spec(self, other: Region) -> bool {
        self.relation_spec(other) == RegionOrder::Intersects
    }

    /// A region with the given name, bounds and protection.
    pub fn new(name: &'static str, start: u64, end: u64, protection: Protection) -> (region: Region)
        ensures
            region.name == name,
            region.start == start,
            region.end == end,
            region.protection == protection,
    {
        Region { name, start, end, protection }
    }

    /// Whether the region holds the address.
    pub fn contains(&self, address: u64) -> (inside: bool)
        ensures
            inside == self.holds(address),
    {
        address >= self.start && address <= self.end
    }

    /// Returns true iff the regions intersect.
    pub fn intersects(&self, other: &Region) -> (shared: bool)
        ensures
            shared == self.intersects_spec(*other),
    {
        match self.relation(other) {
            RegionOrder::Intersects => true,
            _ => false,
        }
    }

    /// Tells how the region lies to `other`.
    pub fn relation(&self, other: &Region) -> (order: RegionOrder)
        ensures
            order == self.relation_spec(*other),
    {
        if self.end < other.start {
            RegionOrder::Less
        } else if self.start > other.end {
            RegionOrder::Greater
        } else {
            RegionOrder::Intersects
        }
    }
}

/// Whether two regions share an address, in either order: the relation is
/// symmetric.
pub proof fn lemma_intersects_symmetric(a: Region, b: Region)
    ensures
        a.intersects_spec(b) == b.intersects_spec(a),
{
}

/// The list of regions is in order: every region is an interval, and each
/// lies wholly below the ones before it. So no two of them overlap.
pub open spec fn ordered(regions: Seq<Region>) -> bool {
    &&& forall|i: int| 0 <= i < regions.len() ==> (#[trigger] regions[i]).is_interval()
    &&& forall|i: int, j: int|
        0 <= i < j < regions.len() ==> (#[trigger] regions[j]).end < (#[trigger] regions[i]).start
}

/// The number of regions at the head of the list that `region` lies wholly
/// below: where the scan of `insert` stops.
pub open spec fn scan_stop(regions: Seq<Region>, region: Region) -> int
    decreases regions.len(),
{
    if regions.len() == 0 {
        0
    } else if region.relation_spec(regions[0]) == RegionOrder::Less {
        1 + scan_stop(regions.subrange(1, regions.len() as int), region)
    } else {
        0
    }
}

/// Where `insert` puts the region, or `None` where it rejects it: the scan
/// stops at a region that the new one intersects.
pub open spec fn insert_position(regions: Seq<Region>, region: Region) -> Option<int> {
    let stop = scan_stop(regions, region);
    if stop < regions.len() && region.relation_spec(regions[stop]) == RegionOrder::Intersects {
        None
    } else {
        Some(stop)
    }
}

/// The list after `insert`: with the region at its place, or unchanged where
/// the region is rejected.
pub open spec fn inserted(regions: Seq<Region>, region: Region) -> Seq<Region> {
    match insert_position(regions, region) {
        Some(at) => regions.insert(at, region),
        None => regions,
    }
}

/// The regions of the list that do not hold the address, in order.
pub open spec fn without(regions: Seq<Region>, address: u64) -> Seq<Region>
    decreases regions.len(),
{
    if regions.len() == 0 {
        Seq::empty()
    } else if regions[0].holds(address) {
        without(regions.subrange(1, regions.len() as int), address)
    } else {
        seq![regions[0]] + without(regions.subrange(1, regions.len() as int), address)
    }
}

/// The first region of the list that holds the address.
pub open spec fn first_holding(regions: Seq<Region>, address: u64) -> Option<Region>
    decreases regions.len(),
{
    if regions.len() == 0 {
        None
    } else if regions[0].holds(address) {
        Some(regions[0])
    } else {
        first_holding(regions.subrange(1, regions.len() as int), address)
    }
}

/// What the scan stops at: the regions before the stop lie above the new
/// one, and the region at the stop does not.
pub proof fn lemma_scan_stop(regions: Seq<Region>, region: Region)
    ensures
        0 <= scan_stop(regions, region) <= regions.len(),
        forall|i: int|
            0 <= i < scan_stop(regions, region) ==> region.relation_spec(#[trigger] regions[i])
                == RegionOrder::Less,
        scan_stop(regions, region) < regions.len() ==> region.relation_spec(
            regions[scan_stop(regions, region)],
        ) != RegionOrder::Less,
    decreases regions.len(),
{
    if regions.len() > 0 && region.relation_spec(regions[0]) == RegionOrder::Less {
        let rest = regions.subrange(1, regions.len() as int);
        lemma_scan_stop(rest, region);
        assert forall|i: int| 0 <= i < scan_stop(regions, region) implies region.relation_spec(
            #[trigger] regions[i],
        ) == RegionOrder::Less by {
            if i > 0 {
                assert(regions[i] == rest[i - 1]);
            }
        }
        if scan_stop(regions, region) < regions.len() {
            assert(regions[scan_stop(regions, region)] == rest[scan_stop(rest, region)]);
        }
    }
}

/// In a list that is in order, an interval is rejected exactly if it
/// intersects a region of the list; and where it is not, the list with it is
/// in order again.
pub proof fn lemma_insert_keeps_order(regions: Seq<Region>, region: Region)
    requires
        ordered(regions),
        region.is_interval(),
    ensures
        insert_position(regions, region) is None <==> exists|i: int|
            0 <= i < regions.len() && region.intersects_spec(#[trigger] regions[i]),
        ordered(inserted(regions, region)),
{
    lemma_scan_stop(regions, region);
    let stop = scan_stop(regions, region);
    match insert_position(regions, region) {
        None => {
            assert(region.intersects_spec(regions[stop]));
        },
        Some(at) => {
            assert(at == stop);
            assert forall|i: int| 0 <= i < regions.len() implies !region.intersects_spec(
                #[trigger] regions[i],
            ) by {
                if i > stop {
                    assert(regions[i].end < regions[stop].start);
                }
            }
            let after = regions.insert(at, region);
            assert forall|i: int, j: int| 0 <= i < j < after.len() implies (#[trigger] after[j]).end
                < (#[trigger] after[i]).start by {
                if j == at {
                    assert(after[i] == regions[i]);
                } else if i == at {
                    assert(after[j] == regions[j - 1]);
                    if j - 1 > stop {
                        assert(regions[j - 1].end < regions[stop].start);
                    }
                } else {
                    let a = if i < at {
                        i
                    } else {
                        i - 1
                    };
                    let b = if j < at {
                        j
                    } else {
                        j - 1
                    };
                    assert(after[i] == regions[a]);
                    assert(after[j] == regions[b]);
                }
            }
            assert forall|i: int| 0 <= i < after.len() implies (#[trigger] after[i]).is_interval() by {
                if i < at {
                    assert(after[i] == regions[i]);
                } else if i > at {
                    assert(after[i] == regions[i - 1]);
                }
            }
        },
    }
}

/// Of two regions that intersect, a list takes one: after the first went
/// in, the second is rejected and the list stays as it is, whichever of the
/// two comes first.
pub proof fn lemma_region_exclusivity(regions: Seq<Region>, first: Region, second: Region)
    requires
        ordered(regions),
        first.is_interval(),
        second.is_interval(),
        first.intersects_spec(second),
        insert_position(regions, first) is Some,
    ensures
        insert_position(inserted(regions, first), second) is None,
        inserted(inserted(regions, first), second) == inserted(regions, first),
        inserted(regions, first).len() == regions.len() + 1,
{
    lemma_scan_stop(regions, first);
    lemma_insert_keeps_order(regions, first);
    let after = inserted(regions, first);
    let at = insert_position(regions, first)->Some_0;
    assert(after[at] == first);
    lemma_insert_keeps_order(after, second);
    assert(second.intersects_spec(after[at]));
}

/// Of two regions that intersect, an empty list takes the one that comes
/// first, and only that one.
pub proof fn lemma_region_exclusivity_from_empty(first: Region, second: Region)
    requires
        first.is_interval(),
        second.is_interval(),
        first.intersects_spec(second),
    ensures
        inserted(Seq::<Region>::empty(), first) == seq![first],
        inserted(inserted(Seq::<Region>::empty(), first), second) == seq![first],
        insert_position(inserted(Seq::<Region>::empty(), first), second) is None,
{
    let empty = Seq::<Region>::empty();
    assert(ordered(empty));
    assert(scan_stop(empty, first) == 0);
    assert(inserted(empty, first) =~= seq![first]);
    lemma_region_exclusivity(empty, first, second);
}

/// In a list that is in order, at most one region holds an address.
pub proof fn lemma_one_region_holds(regions: Seq<Region>, address: u64, i: int, j: int)
    requires
        ordered(regions),
        0 <= i < regions.len(),
        0 <= j < regions.len(),
        regions[i].holds(address),
        regions[j].holds(address),
    ensures
        i == j,
{
    if i < j {
        assert(regions[j].end < regions[i].start);
    } else if j < i {
        assert(regions[i].end < regions[j].start);
    }
}

/// The virtual memory manager: the regions that are claimed, and the
/// managers of the memory behind them.
pub struct VMM {
    start: u64,
    regions: Vec<Region>,
    arch_specific: ArchSpecificVMM,
    end: u64,
}

impl VMM {
    /// The regions, from the highest addresses down.
    pub closed spec fn view(&self) -> Seq<Region> {
        self.regions@
    }

    /// The managers of the memory behind the regions.
    pub closed spec fn arch(&self) -> ArchSpecificVMM {
        self.arch_specific
    }

    /// The manager is in order: its regions are, and the managers of the
    /// memory behind them fit together.
    pub open spec fn wf(&self) -> bool {
        ordered(self@) && self.arch().wf()
    }

    /// A manager of the kernel's half of the address space, without regions.
    pub fn new(arch_specific: ArchSpecificVMM) -> (vmm: VMM)
        ensures
            vmm@ == Seq::<Region>::empty(),
            vmm.arch() == arch_specific,
            ordered(vmm@),
    {
        VMM {
            start: KERNEL_SPACE_START,
            regions: Vec::new(),
            arch_specific,
            end: KERNEL_SPACE_END,
        }
    }

    /// The physical address that a virtual address is mapped to, for
    /// diagnostics.
    pub fn translate(&self, address: u64) -> (physical: Option<u64>)
        requires
            self.arch().wf(),
            crate::memory::paging::is_canonical(address),
        ensures
            physical == self.arch().active_table.mapper.translate_spec(address),
    {
        self.arch_specific.active_table.mapper.translate(address)
    }

    /// The operations on the page table in use, for reading.
    pub fn mapper(&self) -> (mapper: &crate::memory::paging::mapper::Mapper)
        ensures
            *mapper == self.arch().active_table.mapper,
    {
        &self.arch_specific.active_table.mapper
    }

    /// Tells whether the frame is free.
    pub fn frame_is_free(&self, frame: &crate::memory::Frame) -> (free: bool)
        ensures
            free == self.arch().frame_allocator.free_frames().contains(frame.number()),
    {
        self.arch_specific.frame_allocator.is_free(frame)
    }

    /// The number of regions.
    pub fn len(&self) -> (count: usize)
        ensures
            count == self@.len(),
    {
        self.regions.len()
    }

    /// The region at the given place in the list.
    pub fn get(&self, index: usize) -> (region: Option<Region>)
        ensures
            region == if index < self@.len() {
                Some(self@[index as int])
            } else {
                None
            },
    {
        if index < self.regions.len() {
            Some(self.regions[index])
        } else {
            None
        }
    }

    /// Inserts the region into the list. Returns `false`, and leaves the
    /// list as it is, where the region intersects a region of the list.
    ///
    /// The list is scanned from its head: while the new region lies wholly
    /// below the region at hand, the scan goes on; the new region goes in
    /// before the first region that it lies wholly above, or at the end.
    pub fn insert(&mut self, region: Region) -> (accepted: bool)
        ensures
            final(self).arch() == old(self).arch(),
            accepted == insert_position(old(self)@, region) is Some,
            final(self)@ == inserted(old(self)@, region),
            ordered(old(self)@) && region.is_interval() ==> {
                &&& ordered(final(self)@)
                &&& accepted <==> forall|i: int|
                    0 <= i < old(self)@.len() ==> !region.intersects_spec(
                        #[trigger] old(self)@[i],
                    )
            },
    {
        let mut at: usize = 0;
        let mut scanning = true;
        proof {
            lemma_scan_stop(self@, region);
            if ordered(self@) && region.is_interval() {
                lemma_insert_keeps_order(self@, region);
            }
        }
        while scanning && at < self.regions.len()
            invariant
                at <= self.regions@.len(),
                self.regions@ == old(self).regions@,
                forall|i: int|
                    0 <= i < at ==> region.relation_spec(#[trigger] self.regions@[i])
                        == RegionOrder::Less,
                !scanning ==> at < self.regions@.len() && region.relation_spec(
                    self.regions@[at as int],
                ) == RegionOrder::Greater,
            decreases self.regions@.len() - at + (if scanning {
                1int
            } else {
                0int
            }),
        {
            match region.relation(&self.regions[at]) {
                RegionOrder::Less => {
                    at = at + 1;
                },
                RegionOrder::Greater => {
                    scanning = false;
                },
                RegionOrder::Intersects => {
                    proof {
                        lemma_scan_stop(self.regions@, region);
                        let stop = scan_stop(self.regions@, region);
                        if stop < at {
                            assert(region.relation_spec(self.regions@[stop]) == RegionOrder::Less);
                        }
                    }
                    return false;
                },
            }
        }
        proof {
            lemma_scan_stop(self.regions@, region);
            let stop = scan_stop(self.regions@, region);
            if stop < at {
                assert(region.relation_spec(self.regions@[stop]) == RegionOrder::Less);
            }
            assert(at == stop);
        }
        self.regions.insert(at, region);
        true
    }

    /// Returns the region that holds `address`, if there is one: the first
    /// of the list that does.
    pub fn containing_region(&self, address: u64) -> (region: Option<Region>)
        ensures
            region == first_holding(self@, address),
            region is Some ==> region->Some_0.holds(address) && exists|i: int|
                0 <= i < self@.len() && self@[i] == region->Some_0,
            region is None ==> forall|i: int|
                0 <= i < self@.len() ==> !(#[trigger] self@[i]).holds(address),
    {
        let mut i: usize = 0;
        proof {
            assert(self.regions@.subrange(0, self.regions@.len() as int) =~= self.regions@);
        }
        while i < self.regions.len()
            invariant
                i <= self.regions@.len(),
                forall|j: int| 0 <= j < i ==> !(#[trigger] self.regions@[j]).holds(address),
                first_holding(self.regions@, address) == first_holding(
                    self.regions@.subrange(i as int, self.regions@.len() as int),
                    address,
                ),
            decreases self.regions@.len() - i,
        {
            let region = self.regions[i];
            let ghost rest = self.regions@.subrange(i as int, self.regions@.len() as int);
            proof {
                assert(rest[0] == self.regions@[i as int]);
                assert(rest.subrange(1, rest.len() as int) =~= self.regions@.subrange(
                    i + 1,
                    self.regions@.len() as int,
                ));
            }
            if region.contains(address) {
                return Some(region);
            }
            i = i + 1;
        }
        proof {
            assert(self.regions@.subrange(i as int, self.regions@.len() as int)
                =~= Seq::<Region>::empty());
        }
        None
    }

    /// Removes every region that holds `address` and returns the first of
    /// them. In a list that is in order that is the one region that holds
    /// the address, if there is one.
    pub fn remove_region(&mut self, address: u64) -> (region: Option<Region>)
        ensures
            final(self).arch() == old(self).arch(),
            region == first_holding(old(self)@, address),
            final(self)@ == without(old(self)@, address),
            ordered(old(self)@) ==> ordered(final(self)@),
            ordered(old(self)@) ==> match region {
                Some(removed) => exists|i: int|
                    0 <= i < old(self)@.len() && old(self)@[i] == removed
                        && final(self)@ == old(self)@.remove(i),
                None => final(self)@ == old(self)@,
            },
    {
        let found = self.containing_region(address);
        let mut kept: Vec<Region> = Vec::new();
        let mut i: usize = 0;
        proof {
            assert(self.regions@.subrange(0, self.regions@.len() as int) =~= self.regions@);
        }
        while i < self.regions.len()
            invariant
                i <= self.regions@.len(),
                self.regions@ == old(self).regions@,
                without(self.regions@, address) == kept@ + without(
                    self.regions@.subrange(i as int, self.regions@.len() as int),
                    address,
                ),
            decreases self.regions@.len() - i,
        {
            let region = self.regions[i];
            let ghost before = kept@;
            proof {
                let rest = self.regions@.subrange(i as int, self.regions@.len() as int);
                assert(rest[0] == region);
                assert(rest.subrange(1, rest.len() as int) =~= self.regions@.subrange(
                    i + 1,
                    self.regions@.len() as int,
                ));
            }
            if !region.contains(address) {
                kept.push(region);
            }
            i = i + 1;
            proof {
                let rest = self.regions@.subrange(i as int, self.regions@.len() as int);
                if !region.holds(address) {
                    assert(kept@ + without(rest, address) =~= before + (seq![region] + without(
                        rest,
                        address,
                    )));
                }
            }
        }
        proof {
            assert(self.regions@.subrange(i as int, self.regions@.len() as int)
                =~= Seq::<Region>::empty());
            assert(kept@ + Seq::<Region>::empty() =~= kept@);
            if ordered(self.regions@) {
                lemma_removed(self.regions@, address);
            }
        }
        self.regions = kept;
        found
    }
}

/// Claims the region and maps its pages to free frames.
///
/// Fails with `RegionConflict`, and changes nothing, where the region
/// intersects a region that is claimed. Fails with what mapping the pages
/// fails with; the claim is given up then.
pub fn map(vmm: &mut VMM, region: Region) -> (result: Result<(), VmmError>)
    requires
        old(vmm).wf(),
        region.is_interval(),
    ensures
        final(vmm).wf(),
        (result == Err::<(), VmmError>(VmmError::RegionConflict)) <==> exists|i: int|
            0 <= i < old(vmm)@.len() && region.intersects_spec(#[trigger] old(vmm)@[i]),
        result == Err::<(), VmmError>(VmmError::RegionConflict) ==> final(vmm).arch() == old(vmm).arch(),
        (result == Err::<(), VmmError>(VmmError::InvalidAddress)) <==> insert_position(
            old(vmm)@,
            region,
        ) is Some && region_pages(region) is None,
        insert_position(old(vmm)@, region) is Some && region_pages(region) is Some && (exists|
            n: u64,
        |
            in_region(region, n) && old(vmm).arch().taken(n)) ==> {
            &&& result == Err::<(), VmmError>(VmmError::AlreadyMapped)
            &&& final(vmm).arch().active_table.mapper == old(vmm).arch().active_table.mapper
            &&& final(vmm).arch().frame_allocator.free_frames()
                == old(vmm).arch().frame_allocator.free_frames()
        },
        result == Err::<(), VmmError>(VmmError::AlreadyMapped) && outside_recursion(region)
            ==> exists|n: u64| in_region(region, n) && old(vmm).arch().taken(n),
        result == Err::<(), VmmError>(VmmError::OutOfPhysicalMemory)
            ==> final(vmm).arch().frame_allocator.free_frames() == Set::<u64>::empty(),
        match result {
            Ok(()) => {
                &&& final(vmm)@ == inserted(old(vmm)@, region)
                &&& forall|n: u64|
                    in_region(region, n) ==> {
                        &&& old(vmm).arch().translate_page_spec(n) is None
                        &&& final(vmm).arch().translate_page_spec(n) is Some
                        &&& old(vmm).arch().frame_allocator.free_frames().contains(
                            final(vmm).arch().translate_page_spec(n)->Some_0,
                        )
                        &&& final(vmm).arch().flags_of(n) == Some(
                            protection_flags(region.protection@) | PRESENT,
                        )
                    }
            },
            Err(e) => {
                &&& final(vmm)@ == old(vmm)@
                &&& e == VmmError::RegionConflict || e == VmmError::InvalidAddress || e
                    == VmmError::AlreadyMapped || e == VmmError::OutOfPhysicalMemory
            },
        },
        forall|other: u64|
            old(vmm).arch().translate_page_spec(other) is Some
                ==> final(vmm).arch().translate_page_spec(other)
                    == old(vmm).arch().translate_page_spec(other),
{
    let ghost before = vmm@;
    if !vmm.insert(region) {
        return Err(VmmError::RegionConflict);
    }
    if let Err(e) = arch_map(&mut vmm.arch_specific, region) {
        proof {
            lemma_claim_given_up(before, region);
        }
        vmm.remove_region(region.start);
        return Err(e);
    }
    Ok(())
}

/// Every frame that the pages of the region would be mapped to, from the
/// one that holds `start_address` on, exists and is free.
pub open spec fn targets_free(vmm: VMM, region: Region, start_address: u64) -> bool {
    forall|n: u64| in_region(region, n) ==> #[trigger] target_free(vmm, region, start_address, n)
}

/// The frame that the page with index `number` of the region would be
/// mapped to exists and is free.
pub open spec fn target_free(vmm: VMM, region: Region, start_address: u64, number: u64) -> bool {
    &&& frame_for(region, start_address, number) < FRAME_COUNT
    &&& vmm.arch().frame_allocator.free_frames().contains(
        frame_for(region, start_address, number) as u64,
    )
}

/// Tells whether every frame that the pages of the region would be mapped
/// to, from the one that holds `start_address` on, exists and is free. No
/// entry refers to a frame that is free, so that `map_to` may be called with
/// the region where this holds.
#[verifier::loop_isolation(false)]
pub fn frames_are_free(vmm: &VMM, region: Region, start_address: u64) -> (free: bool)
    requires
        vmm.wf(),
    ensures
        free == targets_free(*vmm, region, start_address),
        free ==> forall|n: u64|
            in_region(region, n) && frame_for(region, start_address, n) < FRAME_COUNT
                ==> !referenced(
                vmm.arch().active_table.mapper.memory(),
                #[trigger] (frame_for(region, start_address, n) as u64),
            ),
{
    let mut pages = match region_range(region) {
        Some(pages) => pages,
        None => {
            return true;
        },
    };
    let ghost first = pages.next_number();
    let ghost last = pages.last_number();
    let first_page = region.start / PAGE_SIZE;
    let first_frame = start_address / PAGE_SIZE;
    loop
        invariant
            vmm.wf(),
            region_pages(region) == Some((first, last)),
            first_page == first,
            first_frame == start_address / PAGE_SIZE,
            pages.last_number() == last,
            pages.next_number() >= first,
            forall|n: u64|
                first <= n < pages.next_number() && n <= last ==> #[trigger] target_free(
                    *vmm,
                    region,
                    start_address,
                    n,
                ),
        decreases pages.remaining(),
    {
        let page = match pages.next() {
            Some(page) => page,
            None => {
                break ;
            },
        };
        let offset = page.index() - first_page;
        if first_frame >= FRAME_COUNT || offset >= FRAME_COUNT - first_frame {
            proof {
                assert(in_region(region, page.number()));
                assert(!target_free(*vmm, region, start_address, page.number()));
            }
            return false;
        }
        let frame = Frame::containing_address((first_frame + offset) * PAGE_SIZE);
        proof {
            assert(in_region(region, page.number()));
            assert(frame.number() == frame_for(region, start_address, page.number()) as u64);
        }
        if !vmm.arch_specific.frame_allocator.is_free(&frame) {
            proof {
                assert(!target_free(*vmm, region, start_address, page.number()));
            }
            return false;
        }
    }
    proof {
        let free = vmm.arch().frame_allocator.free_frames();
        let mem = vmm.arch().active_table.mapper.memory();
        assert forall|n: u64| in_region(region, n) implies #[trigger] target_free(
            *vmm,
            region,
            start_address,
            n,
        ) by {
            assert(first <= n < pages.next_number() && n <= last);
        }
        assert forall|n: u64|
            in_region(region, n) && frame_for(region, start_address, n)
                < FRAME_COUNT implies !referenced(
            mem,
            #[trigger] (frame_for(region, start_address, n) as u64),
        ) by {
            let f = frame_for(region, start_address, n) as u64;
            assert(target_free(*vmm, region, start_address, n));
            assert(free.contains(f));
            if referenced(mem, f) {
                let c = choose|c: int|
                    crate::memory::paging::entry::word_present(#[trigger] mem[c])
                        && crate::memory::paging::entry::word_frame(mem[c]) == f;
                assert(!free.contains(crate::memory::paging::entry::word_frame(mem[c])));
            }
        }
    }
    true
}

/// Claims the region and maps its pages to the frames from the one that
/// holds `start_address` on. No entry may refer to one of the frames yet;
/// `frames_are_free` tells of frames that are free that none does.
///
/// Fails with `RegionConflict`, and changes nothing, where the region
/// intersects a region that is claimed. Fails with what mapping the pages
/// fails with; the claim is given up then.
pub fn map_to(vmm: &mut VMM, region: Region, start_address: u64) -> (result: Result<(), VmmError>)
    requires
        old(vmm).wf(),
        region.is_interval(),
        forall|n: u64|
            in_region(region, n) && frame_for(region, start_address, n) < FRAME_COUNT
                ==> !referenced(
                old(vmm).arch().active_table.mapper.memory(),
                #[trigger] (frame_for(region, start_address, n) as u64),
            ),
    ensures
        final(vmm).wf(),
        (result == Err::<(), VmmError>(VmmError::RegionConflict)) <==> exists|i: int|
            0 <= i < old(vmm)@.len() && region.intersects_spec(#[trigger] old(vmm)@[i]),
        result == Err::<(), VmmError>(VmmError::RegionConflict) ==> final(vmm).arch() == old(vmm).arch(),
        (result == Err::<(), VmmError>(VmmError::InvalidAddress)) <==> insert_position(
            old(vmm)@,
            region,
        ) is Some && !frames_exist(region, start_address),
        insert_position(old(vmm)@, region) is Some && frames_exist(region, start_address) && (
        exists|n: u64| in_region(region, n) && old(vmm).arch().taken(n)) ==> {
            &&& result == Err::<(), VmmError>(VmmError::AlreadyMapped)
            &&& final(vmm).arch().active_table.mapper == old(vmm).arch().active_table.mapper
            &&& final(vmm).arch().frame_allocator.free_frames()
                == old(vmm).arch().frame_allocator.free_frames()
        },
        result == Err::<(), VmmError>(VmmError::AlreadyMapped) && outside_recursion(region)
            ==> exists|n: u64| in_region(region, n) && old(vmm).arch().taken(n),
        result == Err::<(), VmmError>(VmmError::OutOfPhysicalMemory)
            ==> final(vmm).arch().frame_allocator.free_frames() == Set::<u64>::empty(),
        match result {
            Ok(()) => {
                &&& final(vmm)@ == inserted(old(vmm)@, region)
                &&& forall|n: u64|
                    in_region(region, n) ==> {
                        &&& old(vmm).arch().translate_page_spec(n) is None
                        &&& final(vmm).arch().translate_page_spec(n) == Some(
                            frame_for(region, start_address, n) as u64,
                        )
                        &&& final(vmm).arch().flags_of(n) == Some(
                            protection_flags(region.protection@) | PRESENT,
                        )
                    }
            },
            Err(e) => {
                &&& final(vmm)@ == old(vmm)@
                &&& e == VmmError::RegionConflict || e == VmmError::InvalidAddress || e
                    == VmmError::AlreadyMapped || e == VmmError::OutOfPhysicalMemory
            },
        },
        forall|other: u64|
            old(vmm).arch().translate_page_spec(other) is Some
                ==> final(vmm).arch().translate_page_spec(other)
                    == old(vmm).arch().translate_page_spec(other),
{
    let ghost before = vmm@;
    if !vmm.insert(region) {
        return Err(VmmError::RegionConflict);
    }
    if let Err(e) = arch_map_to(&mut vmm.arch_specific, region, start_address) {
        proof {
            lemma_claim_given_up(before, region);
        }
        vmm.remove_region(region.start);
        return Err(e);
    }
    Ok(())
}

/// Gives up the region that holds `address` and unmaps its pages. Returns
/// `true` iff there was such a region.
pub fn unmap(vmm: &mut VMM, address: u64) -> (unmapped: bool)
    requires
        old(vmm).wf(),
    ensures
        final(vmm).wf(),
        unmapped == first_holding(old(vmm)@, address) is Some,
        final(vmm)@ == without(old(vmm)@, address),
        !unmapped ==> final(vmm).arch() == old(vmm).arch(),
        unmapped ==> forall|n: u64|
            in_region(first_holding(old(vmm)@, address)->Some_0, n) && n != P4_PAGE
                ==> mapped_small(
                final(vmm).arch().active_table.mapper.memory(),
                final(vmm).arch().active_table.mapper.root(),
                n,
            ) is None,
        old(vmm).arch().frame_allocator.free_frames().subset_of(
            final(vmm).arch().frame_allocator.free_frames(),
        ),
{
    if let Some(region) = vmm.remove_region(address) {
        arch_unmap(&mut vmm.arch_specific, region);
        true
    } else {
        false
    }
}

/// Allocates a stack of `size` pages, as `arch_alloc_stack` does; the
/// regions stay as they are.
pub fn alloc_stack(vmm: &mut VMM, size: usize) -> (result: Result<Stack, StackError>)
    requires
        old(vmm).wf(),
    ensures
        final(vmm).wf(),
        final(vmm)@ == old(vmm)@,
        stack_allocated(old(vmm).arch(), final(vmm).arch(), size, result),
{
    arch_alloc_stack(&mut vmm.arch_specific, size)
}

/// The list after each of the new regions was offered to it in turn: a
/// region goes in if it is an interval and intersects no region that the
/// list has by then.
pub open spec fn claimed(regions: Seq<Region>, new: Seq<Region>) -> Seq<Region>
    decreases new.len(),
{
    if new.len() == 0 {
        regions
    } else {
        let before = claimed(regions, new.drop_last());
        if new.last().is_interval() {
            inserted(before, new.last())
        } else {
            before
        }
    }
}

/// A list that is in order stays in order when regions are offered to it,
/// and grows by one region for each at most.
pub proof fn lemma_claimed_in_order(regions: Seq<Region>, new: Seq<Region>)
    requires
        ordered(regions),
    ensures
        ordered(claimed(regions, new)),
        regions.len() <= claimed(regions, new).len() <= regions.len() + new.len(),
    decreases new.len(),
{
    if new.len() > 0 {
        lemma_claimed_in_order(regions, new.drop_last());
        if new.last().is_interval() {
            lemma_scan_stop(claimed(regions, new.drop_last()), new.last());
            lemma_insert_keeps_order(claimed(regions, new.drop_last()), new.last());
        }
    }
}

/// Claims the early regions of the kernel, in turn, and then the region of
/// the bitmap of frames, as far as each is an interval and intersects no
/// region that is claimed by then.
pub fn arch_vmm_init(vmm: &mut VMM, regions: &Vec<Region>)
    requires
        ordered(old(vmm)@),
    ensures
        ordered(final(vmm)@),
        final(vmm).arch() == old(vmm).arch(),
        final(vmm)@ == inserted(
            claimed(old(vmm)@, regions@),
            old(vmm).arch().frame_allocator.vm_region_spec(),
        ),
{
    let mut i: usize = 0;
    while i < regions.len()
        invariant
            i <= regions.len(),
            ordered(vmm@),
            vmm.arch() == old(vmm).arch(),
            vmm@ == claimed(old(vmm)@, regions@.take(i as int)),
        decreases regions.len() - i,
    {
        let region = regions[i];
        proof {
            assert(regions@.take(i + 1).drop_last() =~= regions@.take(i as int));
            assert(regions@.take(i + 1).last() == region);
        }
        if region.start <= region.end {
            proof {
                lemma_scan_stop(vmm@, region);
            }
            vmm.insert(region);
        }
        i = i + 1;
    }
    proof {
        assert(regions@.take(i as int) =~= regions@);
    }
    let region = vmm.arch_specific.frame_allocator.vm_region();
    proof {
        lemma_scan_stop(vmm@, region);
    }
    vmm.insert(region);
}

/// Initializes virtual memory: the managers of memory are set up from the
/// boot information, and the early regions of the kernel are claimed.
///
/// Fails as setting up the managers of memory fails: with `InvalidAddress`
/// exactly where the boot information does not lie as the kernel expects it
/// or it and the early regions do not fit the kernel; with `AlreadyMapped`
/// only where two requests for the regions ask for one page and the later
/// one is required, or a request asks for a page of the bitmap; with
/// `NotMapped` only where no required request asks for the page of the old
/// table; and with `OutOfPhysicalMemory` where the frames run out.
pub fn vm_init(boot_info: &BootInformation, symbols: &KernelSymbols) -> (result: Result<
    VMM,
    VmmError,
>)
    ensures
        (result == Err::<VMM, VmmError>(VmmError::InvalidAddress)) == !early_boot_fits(
            *boot_info,
            *symbols,
        ),
        result == Err::<VMM, VmmError>(VmmError::AlreadyMapped) ==> {
            let values = early_requests_spec(
                early_regions_spec(*symbols),
                boot_info.start_address,
                boot_info.end_address,
            )->Some_0;
            pages_collide(values) || asks_for_bitmap(values)
        },
        result == Err::<VMM, VmmError>(VmmError::NotMapped) ==> !guard_required(
            early_requests_spec(
                early_regions_spec(*symbols),
                boot_info.start_address,
                boot_info.end_address,
            )->Some_0,
            (boot_info.root / PAGE_SIZE + KERNEL_BASE_PAGE) as u64,
        ),
        match result {
            Ok(vmm) => {
                &&& vmm.wf()
                &&& early_state(vmm.arch(), boot_info.root, *symbols)
                &&& vmm@ == inserted(
                    claimed(Seq::empty(), early_regions_spec(*symbols)),
                    vmm.arch().frame_allocator.vm_region_spec(),
                )
                &&& vmm@.len() <= 7
            },
            Err(e) => e == VmmError::InvalidAddress || e == VmmError::AlreadyMapped || e
                == VmmError::OutOfPhysicalMemory || e == VmmError::NotMapped,
        },
{
    let arch_specific = match arch_vmm_init_preheap(boot_info, symbols) {
        Ok(arch_specific) => arch_specific,
        Err(e) => {
            return Err(e);
        },
    };
    // heap works at this point
    let mut vmm = VMM::new(arch_specific);
    // add the early regions
    let regions = early_regions(symbols);
    arch_vmm_init(&mut vmm, &regions);
    proof {
        lemma_claimed_in_order(Seq::empty(), regions@);
        lemma_scan_stop(claimed(Seq::empty(), regions@), vmm.arch().frame_allocator.vm_region_spec());
    }
    Ok(vmm)
}

/// A region that went into a list that is in order is the one region that
/// holds its own first address: taking the regions that hold that address
/// out gives the list as it was.
pub proof fn lemma_claim_given_up(regions: Seq<Region>, region: Region)
    requires
        ordered(regions),
        region.is_interval(),
        insert_position(regions, region) is Some,
    ensures
        without(inserted(regions, region), region.start) == regions,
{
    lemma_scan_stop(regions, region);
    lemma_insert_keeps_order(regions, region);
    let after = inserted(regions, region);
    let at = insert_position(regions, region)->Some_0;
    assert(after[at] == region);
    assert(region.holds(region.start));
    lemma_removed(after, region.start);
    lemma_first_holding_in(after, region.start, at);
    let removed = first_holding(after, region.start)->Some_0;
    let i = choose|i: int|
        0 <= i < after.len() && after[i] == removed && without(after, region.start)
            == after.remove(i);
    lemma_one_region_holds(after, region.start, i, at);
    assert(after.remove(at) =~= regions);
}

/// Where a region of the list holds the address, some region is the first
/// that does, and it holds the address.
pub proof fn lemma_first_holding_in(regions: Seq<Region>, address: u64, at: int)
    requires
        0 <= at < regions.len(),
        regions[at].holds(address),
    ensures
        first_holding(regions, address) is Some,
        first_holding(regions, address)->Some_0.holds(address),
    decreases regions.len(),
{
    if !regions[0].holds(address) {
        let rest = regions.subrange(1, regions.len() as int);
        assert(rest[at - 1] == regions[at]);
        lemma_first_holding_in(rest, address, at - 1);
    }
}

/// A list that is in order stays in order when a region is taken out.
pub proof fn lemma_remove_keeps_order(regions: Seq<Region>, at: int)
    requires
        ordered(regions),
        0 <= at < regions.len(),
    ensures
        ordered(regions.remove(at)),
{
    let after = regions.remove(at);
    assert forall|a: int, b: int| 0 <= a < b < after.len() implies (#[trigger] after[b]).end < (
    #[trigger] after[a]).start by {
        let x = if a < at {
            a
        } else {
            a + 1
        };
        let y = if b < at {
            b
        } else {
            b + 1
        };
        assert(after[a] == regions[x]);
        assert(after[b] == regions[y]);
    }
    assert forall|a: int| 0 <= a < after.len() implies (#[trigger] after[a]).is_interval() by {
        let x = if a < at {
            a
        } else {
            a + 1
        };
        assert(after[a] == regions[x]);
    }
}

/// Taking the regions that hold an address out of a list that is in order
/// takes out one region at most, and leaves the list in order.
pub proof fn lemma_removed(regions: Seq<Region>, address: u64)
    requires
        ordered(regions),
    ensures
        ordered(without(regions, address)),
        match first_holding(regions, address) {
            Some(removed) => exists|i: int|
                0 <= i < regions.len() && regions[i] == removed && without(regions, address)
                    == regions.remove(i),
            None => without(regions, address) == regions,
        },
    decreases regions.len(),
{
    if regions.len() > 0 {
        let rest = regions.subrange(1, regions.len() as int);
        assert(ordered(rest)) by {
            assert forall|i: int| 0 <= i < rest.len() implies (#[trigger] rest[i]).is_interval() by {
                assert(rest[i] == regions[i + 1]);
            }
            assert forall|a: int, b: int| 0 <= a < b < rest.len() implies (#[trigger] rest[b]).end
                < (#[trigger] rest[a]).start by {
                assert(rest[a] == regions[a + 1]);
                assert(rest[b] == regions[b + 1]);
            }
        }
        if regions[0].holds(address) {
            assert forall|i: int| 0 <= i < rest.len() implies !(#[trigger] rest[i]).holds(
                address,
            ) by {
                assert(rest[i] == regions[i + 1]);
                if rest[i].holds(address) {
                    lemma_one_region_holds(regions, address, 0, i + 1);
                }
            }
            lemma_none_holding(rest, address);
            assert(regions.remove(0) =~= rest);
            lemma_remove_keeps_order(regions, 0);
        } else {
            lemma_removed(rest, address);
            match first_holding(rest, address) {
                Some(removed) => {
                    let i = choose|i: int|
                        0 <= i < rest.len() && rest[i] == removed && without(rest, address)
                            == rest.remove(i);
                    assert(regions[i + 1] == removed);
                    assert(regions.remove(i + 1) =~= seq![regions[0]] + rest.remove(i));
                    lemma_remove_keeps_order(regions, i + 1);
                },
                None => {
                    assert(seq![regions[0]] + rest =~= regions);
                },
            }
        }
    }
}

/// Where no region of a list holds an address, taking the regions that
/// hold it out changes nothing.
pub proof fn lemma_none_holding(regions: Seq<Region>, address: u64)
    requires
        forall|i: int| 0 <= i < regions.len() ==> !(#[trigger] regions[i]).holds(address),
    ensures
        without(regions, address) == regions,
        first_holding(regions, address) is None,
    decreases regions.len(),
{
    if regions.len() > 0 {
        let rest = regions.subrange(1, regions.len() as int);
        assert forall|i: int| 0 <= i < rest.len() implies !(#[trigger] rest[i]).holds(address) by {
            assert(rest[i] == regions[i + 1]);
        }
        lemma_none_holding(rest, address);
        assert(seq![regions[0]] + rest =~= regions);
    } else {
        assert(without(regions, address) =~= regions);
    }
}

} // verus!
