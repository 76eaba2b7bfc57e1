//! The allocator of the boot: it walks the areas of free memory that the
//! firmware reports and hands out their frames in increasing order, leaving
//! out the frames of the kernel image, of the boot information and of the
//! boot modules. It never takes a frame back.

use vstd::prelude::*;
use crate::memory::{Frame, FrameAllocate, FRAME_COUNT, PAGE_SIZE, PHYSICAL_LIMIT};

verus! {

/// An area of physical memory: the addresses from `base_addr` up to, and
/// without, `base_addr + length`.
#[derive(Debug, Clone, Copy, PartialEq, Eq, Structural)]
pub struct MemoryArea {
    /// The first address of the area.
    pub base_addr: u64,
    /// The number of bytes in the area.
    pub length: u64,
}

impl MemoryArea {
    /// The area is not empty and ends where physical memory can end.
    pub open spec fn valid(self) -> bool {
        self.length > 0 && self.base_addr + self.length <= PHYSICAL_LIMIT
    }

    /// The index of the frame that holds the first byte of the area.
    pub open spec fn first_frame(self) -> u64 {
        self.base_addr / PAGE_SIZE
    }

    /// The index of the frame that holds the last byte of the area.
    pub open spec fn last_frame(self) -> u64 {
        ((self.base_addr + self.length - 1) / (PAGE_SIZE as int)) as u64
    }

    /// Whether the frame with the given index holds a byte of the area.
    pub open spec fn holds(self, number: u64) -> bool {
        self.first_frame() <= number <= self.last_frame()
    }

    /// The index of the frame that holds the first byte of the area.
    pub fn start_frame(&self) -> (number: u64)
        ensures
            number == self.first_frame(),
    {
        self.base_addr / PAGE_SIZE
    }

    /// The index of the frame that holds the last byte of the area.
    pub fn end_frame(&self) -> (number: u64)
        requires
            self.valid(),
        ensures
            number == self.last_frame(),
            number < FRAME_COUNT,
            self.first_frame() <= number,
    {
        (self.base_addr + self.length - 1) / PAGE_SIZE
    }
}

/// The highest index of a frame that holds the last byte of one of the
/// areas, or 0 where there is no area.
pub open spec fn last_frame_of(areas: Seq<MemoryArea>) -> u64
    decreases areas.len(),
{
    if areas.len() == 0 {
        0
    } else {
        let before = last_frame_of(areas.drop_last());
        if areas.last().last_frame() > before {
            areas.last().last_frame()
        } else {
            before
        }
    }
}

/// A run of frames that are never handed out, from `first` to `last`, both
/// included.
#[derive(Debug, Clone, Copy, PartialEq, Eq, Structural)]
pub struct Exclusion {
    /// The index of the first frame of the run.
    pub first: u64,
    /// The index of the last frame of the run.
    pub last: u64,
}

impl Exclusion {
    /// Whether the frame with the given index is one of the run.
    pub open spec fn holds(self, number: u64) -> bool {
        self.first <= number <= self.last
    }
}

/// Whether one of the runs holds the frame with the given index.
pub open spec fn excluded(exclusions: Seq<Exclusion>, number: u64) -> bool {
    exists|k: int| 0 <= k < exclusions.len() && (#[trigger] exclusions[k]).holds(number)
}

/// Whether one of the areas holds the frame with the given index.
pub open spec fn in_an_area(areas: Seq<MemoryArea>, number: u64) -> bool {
    exists|k: int| 0 <= k < areas.len() && (#[trigger] areas[k]).holds(number)
}

/// The frames that are still to come when the frame with index `next` is
/// the first that may be handed out: those from `next` on that lie in an area
/// and in no exclusion.
pub open spec fn frames_from(
    areas: Seq<MemoryArea>,
    exclusions: Seq<Exclusion>,
    next: u64,
) -> Set<u64> {
    Set::new(|n: u64| next <= n && in_an_area(areas, n) && !excluded(exclusions, n))
}

/// The run of frames that the bytes from `start` up to, and without, `end`
/// lie in, if there is such a byte.
pub open spec fn exclusion_of(start: u64, end: u64) -> Option<Exclusion> {
    if start < end {
        Some(Exclusion { first: start / PAGE_SIZE, last: ((end - 1) / (PAGE_SIZE as int)) as u64 })
    } else {
        None
    }
}

/// The runs of frames that are left out, in the order in which they are
/// tested: the kernel image, the boot information, then the boot modules.
pub open spec fn exclusions_of(
    kernel_start: u64,
    kernel_end: u64,
    multiboot_start: u64,
    multiboot_end: u64,
    modules: Seq<MemoryArea>,
) -> Seq<Exclusion> {
    let kernel = match exclusion_of(kernel_start, kernel_end) {
        Some(e) => seq![e],
        None => seq![],
    };
    let multiboot = match exclusion_of(multiboot_start, multiboot_end) {
        Some(e) => seq![e],
        None => seq![],
    };
    kernel + multiboot + Seq::new(
        modules.len(),
        |i: int| Exclusion { first: modules[i].first_frame(), last: modules[i].last_frame() },
    )
}

/// An allocator that hands out the frames of the free areas of memory.
pub struct AreaFrameAllocator {
    next_free_frame: u64,
    current_area: Option<MemoryArea>,
    areas: Vec<MemoryArea>,
    exclusions: Vec<Exclusion>,
}

impl AreaFrameAllocator {
    #[verifier::type_invariant]
    spec fn consistent(self) -> bool {
        &&& self.next_free_frame <= FRAME_COUNT
        &&& forall|k: int| 0 <= k < self.areas@.len() ==> (#[trigger] self.areas@[k]).valid()
        &&& forall|k: int|
            0 <= k < self.exclusions@.len() ==> (#[trigger] self.exclusions@[k]).first
                <= self.exclusions@[k].last < FRAME_COUNT
        &&& match self.current_area {
            Some(area) => {
                &&& area.valid()
                &&& in_list(self.areas@, area)
                &&& area.first_frame() <= self.next_free_frame
                &&& forall|k: int|
                    0 <= k < self.areas@.len() && (#[trigger] self.areas@[k]).last_frame()
                        >= self.next_free_frame ==> self.areas@[k].first_frame()
                        >= area.first_frame()
            },
            None => forall|k: int|
                0 <= k < self.areas@.len() ==> (#[trigger] self.areas@[k]).last_frame()
                    < self.next_free_frame,
        }
    }

    /// The areas of free memory.
    pub closed spec fn areas(self) -> Seq<MemoryArea> {
        self.areas@
    }

    /// The runs of frames that are left out.
    pub closed spec fn exclusions(self) -> Seq<Exclusion> {
        self.exclusions@
    }

    /// The index of the first frame that may still be handed out.
    pub closed spec fn next_free(self) -> u64 {
        self.next_free_frame
    }

    /// Returns an allocator for the given areas of free memory. The frames
    /// that hold a byte of the kernel image, of the boot information or of a
    /// boot module are left out; each of the first two is given by its first
    /// address and the address after its last.
    pub fn new(
        kernel_start: u64,
        kernel_end: u64,
        multiboot_start: u64,
        multiboot_end: u64,
        modules: Vec<MemoryArea>,
        memory_areas: Vec<MemoryArea>,
    ) -> (allocator: AreaFrameAllocator)
        requires
            kernel_end <= PHYSICAL_LIMIT,
            multiboot_end <= PHYSICAL_LIMIT,
            forall|k: int| 0 <= k < modules.len() ==> (#[trigger] modules[k]).valid(),
            forall|k: int| 0 <= k < memory_areas.len() ==> (#[trigger] memory_areas[k]).valid(),
        ensures
            allocator.areas() == memory_areas@,
            allocator.exclusions() == exclusions_of(
                kernel_start,
                kernel_end,
                multiboot_start,
                multiboot_end,
                modules@,
            ),
            allocator.free_frames() == frames_from(allocator.areas(), allocator.exclusions(), 0),
    {
        let mut exclusions: Vec<Exclusion> = Vec::new();
        if kernel_start < kernel_end {
            exclusions.push(
                Exclusion { first: kernel_start / PAGE_SIZE, last: (kernel_end - 1) / PAGE_SIZE },
            );
        }
        if multiboot_start < multiboot_end {
            exclusions.push(
                Exclusion {
                    first: multiboot_start / PAGE_SIZE,
                    last: (multiboot_end - 1) / PAGE_SIZE,
                },
            );
        }
        let ghost fixed = exclusions@;
        let mut i: usize = 0;
        while i < modules.len()
            invariant
                i <= modules.len(),
                forall|k: int| 0 <= k < modules.len() ==> (#[trigger] modules[k]).valid(),
                exclusions@ == fixed + Seq::new(
                    i as nat,
                    |j: int|
                        Exclusion { first: modules[j].first_frame(), last: modules[j].last_frame() },
                ),
                forall|k: int|
                    0 <= k < exclusions@.len() ==> (#[trigger] exclusions@[k]).first
                        <= exclusions@[k].last < FRAME_COUNT,
            decreases modules.len() - i,
        {
            let module = modules[i];
            let ghost before = exclusions@;
            exclusions.push(Exclusion { first: module.start_frame(), last: module.end_frame() });
            i = i + 1;
            proof {
                assert(exclusions@ =~= fixed + Seq::new(
                    i as nat,
                    |j: int|
                        Exclusion { first: modules[j].first_frame(), last: modules[j].last_frame() },
                ));
            }
        }
        let current_area = choose_area(&memory_areas, 0);
        let next_free_frame = match current_area {
            Some(area) => area.start_frame(),
            None => 0,
        };
        let allocator = AreaFrameAllocator {
            next_free_frame,
            current_area,
            areas: memory_areas,
            exclusions,
        };
        proof {
            lemma_no_area_between(allocator.areas@, 0, next_free_frame);
            assert(frames_from(allocator.areas@, allocator.exclusions@, next_free_frame)
                =~= frames_from(allocator.areas@, allocator.exclusions@, 0));
        }
        allocator
    }

    /// Tells whether the frame is still to come.
    pub fn is_free(&self, frame: &Frame) -> (free: bool)
        ensures
            free == self.free_frames().contains(frame.number()),
    {
        proof {
            use_type_invariant(self);
        }
        let number = frame.index();
        if number < self.next_free_frame {
            return false;
        }
        if self.find_exclusion(number).is_some() {
            return false;
        }
        let mut k: usize = 0;
        while k < self.areas.len()
            invariant
                k <= self.areas@.len(),
                number == frame.number(),
                number >= self.next_free_frame,
                !excluded(self.exclusions@, number),
                forall|j: int| 0 <= j < self.areas@.len() ==> (#[trigger] self.areas@[j]).valid(),
                forall|j: int| 0 <= j < k ==> !(#[trigger] self.areas@[j]).holds(number),
            decreases self.areas@.len() - k,
        {
            let area = self.areas[k];
            if area.start_frame() <= number && number <= area.end_frame() {
                assert(self.areas@[k as int].holds(number));
                return true;
            }
            k = k + 1;
        }
        false
    }

    /// Leaves the frame out from now on: it is never handed out.
    pub fn exclude(&mut self, frame: &Frame)
        ensures
            final(self).areas() == old(self).areas(),
            final(self).next_free() == old(self).next_free(),
            final(self).exclusions() == old(self).exclusions().push(
                Exclusion { first: frame.number(), last: frame.number() },
            ),
            final(self).free_frames() == old(self).free_frames().remove(frame.number()),
    {
        proof {
            use_type_invariant(&*self);
        }
        let number = frame.index();
        let ghost before = self.exclusions@;
        let ghost free = self.free_frames();
        let mut list: Vec<Exclusion> = Vec::new();
        core::mem::swap(&mut self.exclusions, &mut list);
        list.push(Exclusion { first: number, last: number });
        core::mem::swap(&mut self.exclusions, &mut list);
        proof {
            let after = self.exclusions@;
            assert(after =~= before.push(Exclusion { first: number, last: number }));
            assert forall|n: u64| excluded(after, n) <==> (excluded(before, n) || n == number) by {
                if excluded(after, n) {
                    let k = choose|k: int| 0 <= k < after.len() && (#[trigger] after[k]).holds(n);
                    if k < before.len() {
                        assert(before[k].holds(n));
                    }
                }
                if excluded(before, n) {
                    let k = choose|k: int| 0 <= k < before.len() && (#[trigger] before[k]).holds(n);
                    assert(after[k].holds(n));
                }
                if n == number {
                    assert(after[before.len() as int].holds(n));
                }
            }
            assert(self.free_frames() =~= free.remove(number));
        }
    }

    /// Every frame that is still to come lies in an area.
    pub proof fn lemma_free_in_area(self)
        ensures
            forall|n: u64| self.free_frames().contains(n) ==> in_an_area(self.areas(), n),
    {
    }

    /// The index of the last frame of the areas, or 0 where there is no area.
    pub fn last_frame(&self) -> (last: u64)
        ensures
            last == last_frame_of(self.areas()),
            forall|n: u64| in_an_area(self.areas(), n) ==> n <= last,
            last < FRAME_COUNT,
    {
        proof {
            use_type_invariant(self);
        }
        let mut last: u64 = 0;
        let mut k: usize = 0;
        while k < self.areas.len()
            invariant
                k <= self.areas@.len(),
                last < FRAME_COUNT,
                forall|j: int| 0 <= j < self.areas@.len() ==> (#[trigger] self.areas@[j]).valid(),
                forall|j: int| 0 <= j < k ==> (#[trigger] self.areas@[j]).last_frame() <= last,
                last == last_frame_of(self.areas@.take(k as int)),
            decreases self.areas@.len() - k,
        {
            let end = self.areas[k].end_frame();
            proof {
                assert(self.areas@.take(k + 1).drop_last() =~= self.areas@.take(k as int));
            }
            if end > last {
                last = end;
            }
            k = k + 1;
        }
        proof {
            assert(self.areas@.take(k as int) =~= self.areas@);
            assert forall|n: u64| in_an_area(self.areas@, n) implies n <= last by {
                let j = choose|j: int| 0 <= j < self.areas@.len() && (#[trigger] self.areas@[j]).holds(n);
            }
        }
        last
    }

    /// Looks for the run that holds the frame with the given index, in the
    /// order of the runs.
    fn find_exclusion(&self, number: u64) -> (found: Option<usize>)
        ensures
            match found {
                Some(k) => k < self.exclusions@.len() && self.exclusions@[k as int].holds(number),
                None => !excluded(self.exclusions@, number),
            },
    {
        let mut k: usize = 0;
        while k < self.exclusions.len()
            invariant
                k <= self.exclusions@.len(),
                forall|j: int| 0 <= j < k ==> !(#[trigger] self.exclusions@[j]).holds(number),
            decreases self.exclusions@.len() - k,
        {
            let run = self.exclusions[k];
            if run.first <= number && number <= run.last {
                return Some(k);
            }
            k = k + 1;
        }
        None
    }
}

/// Whether the area is one of the list.
pub open spec fn in_list(areas: Seq<MemoryArea>, area: MemoryArea) -> bool {
    exists|k: int| 0 <= k < areas.len() && areas[k] == area
}

/// Where no area that reaches `from` starts below `to`, no frame between the
/// two lies in an area.
proof fn lemma_no_area_between(areas: Seq<MemoryArea>, from: u64, to: u64)
    requires
        forall|k: int|
            0 <= k < areas.len() && (#[trigger] areas[k]).last_frame() >= from
                ==> areas[k].first_frame() >= to,
    ensures
        forall|n: u64| from <= n < to ==> !in_an_area(areas, n),
{
    assert forall|n: u64| from <= n < to implies !in_an_area(areas, n) by {
        if in_an_area(areas, n) {
            let k = choose|k: int| 0 <= k < areas.len() && (#[trigger] areas[k]).holds(n);
            assert(areas[k].last_frame() >= from);
        }
    }
}

/// Chooses, among the areas whose last frame is not below `next`, the
/// first one with the lowest base address.
fn choose_area(areas: &Vec<MemoryArea>, next: u64) -> (chosen: Option<MemoryArea>)
    requires
        forall|k: int| 0 <= k < areas.len() ==> (#[trigger] areas[k]).valid(),
    ensures
        match chosen {
            Some(area) => {
                &&& area.valid()
                &&& in_list(areas@, area)
                &&& area.last_frame() >= next
                &&& forall|k: int|
                    0 <= k < areas.len() && (#[trigger] areas[k]).last_frame() >= next
                        ==> areas[k].base_addr >= area.base_addr
            },
            None => forall|k: int| 0 <= k < areas.len() ==> (#[trigger] areas[k]).last_frame() < next,
        },
{
    let mut chosen: Option<MemoryArea> = None;
    let mut i: usize = 0;
    while i < areas.len()
        invariant
            i <= areas.len(),
            forall|k: int| 0 <= k < areas.len() ==> (#[trigger] areas[k]).valid(),
            match chosen {
                Some(area) => {
                    &&& area.valid()
                    &&& in_list(areas@, area)
                    &&& area.last_frame() >= next
                    &&& forall|k: int|
                        0 <= k < i && (#[trigger] areas[k]).last_frame() >= next
                            ==> areas[k].base_addr >= area.base_addr
                },
                None => forall|k: int| 0 <= k < i ==> (#[trigger] areas[k]).last_frame() < next,
            },
        decreases areas.len() - i,
    {
        let area = areas[i];
        if area.end_frame() >= next {
            let better = match chosen {
                Some(best) => area.base_addr < best.base_addr,
                None => true,
            };
            if better {
                chosen = Some(area);
            }
        }
        i = i + 1;
    }
    chosen
}

impl FrameAllocate for AreaFrameAllocator {
    closed spec fn free_frames(&self) -> Set<u64> {
        frames_from(self.areas@, self.exclusions@, self.next_free_frame)
    }

    /// Hands out the lowest frame that is still to come, or `None` when the
    /// areas are used up.
    fn allocate_frame(&mut self) -> (frame: Option<Frame>)
        ensures
            final(self).areas() == old(self).areas(),
            final(self).exclusions() == old(self).exclusions(),
            match frame {
                Some(f) => {
                    &&& forall|n: u64| old(self).free_frames().contains(n) ==> f.number() <= n
                    &&& final(self).next_free() == f.number() + 1
                },
                None => true,
            },
    {
        let ghost free = self.free_frames();
        loop
            invariant
                self.areas@ == old(self).areas@,
                self.exclusions@ == old(self).exclusions@,
                self.free_frames() == free,
                free == old(self).free_frames(),
            decreases
                    2 * (FRAME_COUNT - self.next_free_frame) + (match self.current_area {
                        Some(area) => if self.next_free_frame > area.last_frame() {
                            1int
                        } else {
                            0int
                        },
                        None => 1int,
                    }),
        {
            proof {
                use_type_invariant(&*self);
            }
            let area = match self.current_area {
                Some(area) => area,
                None => {
                    proof {
                        assert forall|n: u64| !free.contains(n) by {
                            if free.contains(n) {
                                let k = choose|k: int|
                                    0 <= k < self.areas@.len() && (#[trigger] self.areas@[k]).holds(
                                        n,
                                    );
                            }
                        }
                        assert(free =~= Set::<u64>::empty());
                    }
                    return None;
                },
            };
            let number = self.next_free_frame;
            if number > area.end_frame() {
                // all frames of the current area are used, go on to the next area
                let chosen = choose_area(&self.areas, number);
                match chosen {
                    Some(next) => {
                        let start = next.start_frame();
                        if number < start {
                            proof {
                                lemma_no_area_between(self.areas@, number, start);
                                assert(frames_from(self.areas@, self.exclusions@, start)
                                    =~= frames_from(self.areas@, self.exclusions@, number));
                            }
                            self.next_free_frame = start;
                        }
                        self.current_area = chosen;
                    },
                    None => {
                        self.current_area = None;
                        proof {
                            assert forall|n: u64| !free.contains(n) by {
                                if free.contains(n) {
                                    let k = choose|k: int|
                                        0 <= k < self.areas@.len() && (
                                        #[trigger] self.areas@[k]).holds(n);
                                }
                            }
                            assert(free =~= Set::<u64>::empty());
                        }
                        return None;
                    },
                }
                continue ;
            }
            match self.find_exclusion(number) {
                Some(k) => {
                    // the frame is in use, go on behind the run that holds it
                    let run = self.exclusions[k];
                    proof {
                        assert forall|n: u64| number <= n <= run.last implies excluded(
                            self.exclusions@,
                            n,
                        ) by {
                            assert(self.exclusions@[k as int].holds(n));
                        }
                        assert(frames_from(self.areas@, self.exclusions@, (run.last + 1) as u64)
                            =~= frames_from(self.areas@, self.exclusions@, number));
                    }
                    self.next_free_frame = run.last + 1;
                },
                None => {
                    // the frame is unused: hand it out
                    proof {
                        assert(area.holds(number));
                        let k = choose|k: int| 0 <= k < self.areas@.len() && self.areas@[k] == area;
                        assert(self.areas@[k].holds(number));
                        assert(free.contains(number));
                        assert(frames_from(self.areas@, self.exclusions@, (number + 1) as u64)
                            =~= free.remove(number));
                    }
                    self.next_free_frame = number + 1;
                    return Some(Frame::containing_address(number * PAGE_SIZE));
                },
            }
        }
    }
}

} // verus!
