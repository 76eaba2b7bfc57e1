//! A page to map a frame for a while, with the three frames that the
//! tables on the way to it may take.

use vstd::prelude::*;
use crate::memory::paging::entry::{EntryFlags, WRITABLE};
use crate::memory::paging::entry::lemma_flag_facts;
use crate::memory::paging::mapper::{mapped_small, Mapper};
use crate::memory::paging::table::Table;
use crate::memory::paging::{ActivePageTable, Page, VirtualAddress};
use crate::memory::{Frame, FrameAllocate, FrameDeallocate};
use crate::vmm::VmmError;

verus! {

/// A page to temporarily map a frame. It has to be consumed at the end of its
/// life, so that the frames it holds are not lost.
#[must_use]
pub struct TemporaryPage {
    /// The page itself.
    pub page: Page,
    /// The frames for the tables on the way to the page.
    pub allocator: TinyAllocator,
}

impl TemporaryPage {
    /// The page itself.
    pub open spec fn page(self) -> Page {
        self.page
    }

    /// Sets up the page with an allocator of its own, which is filled from
    /// `allocator` as far as that has frames.
    pub fn new<A: FrameAllocate>(page: Page, allocator: &mut A) -> (temporary: TemporaryPage)
        ensures
            temporary.page() == page,
            final(allocator).free_frames().subset_of(old(allocator).free_frames()),
            temporary.allocator.free_frames().disjoint(final(allocator).free_frames()),
            temporary.allocator.free_frames() + final(allocator).free_frames()
                == old(allocator).free_frames(),
            !temporary.allocator.full_spec() ==> final(allocator).free_frames() == Set::<
                u64,
            >::empty(),
    {
        let mut tiny = TinyAllocator::new();
        tiny.fill(allocator);
        proof {
            assert(Set::<u64>::empty() + old(allocator).free_frames() =~= old(allocator).free_frames());
        }
        TemporaryPage { page, allocator: tiny }
    }

    /// Maps the temporary page to the given frame in the active page table,
    /// writable. Returns the start address of the temporary page.
    pub fn map(&mut self, frame: Frame, active_table: &mut ActivePageTable) -> (result: Result<
        VirtualAddress,
        VmmError,
    >)
        requires
            old(active_table).mapper.wf(),
            old(active_table).mapper.separate_from(old(self).allocator.free_frames()),
            !old(self).allocator.free_frames().contains(frame.number()),
        ensures
            final(self).page() == old(self).page(),
            Mapper::mapped_to(
                old(active_table).mapper,
                final(active_table).mapper,
                old(self).allocator.free_frames(),
                final(self).allocator.free_frames(),
                old(self).page().number(),
                frame.number(),
                WRITABLE,
                match result {
                    Ok(_) => Ok(()),
                    Err(e) => Err(e),
                },
            ),
            result is Ok ==> result->Ok_0 == old(self).page().number() * crate::memory::PAGE_SIZE,
    {
        proof {
            lemma_flag_facts();
        }
        let flags = EntryFlags::from_bits_truncate(WRITABLE);
        match active_table.mapper.map_to(self.page, frame, flags, &mut self.allocator) {
            Ok(()) => Ok(self.page.start_address()),
            Err(e) => Err(e),
        }
    }

    /// Unmaps the temporary page in the active page table. The frame that it
    /// was mapped to goes to the page's own allocator.
    pub fn unmap(&mut self, active_table: &mut ActivePageTable) -> (result: Result<(), VmmError>)
        requires
            old(active_table).mapper.wf(),
            mapped_small(
                old(active_table).mapper.memory(),
                old(active_table).mapper.p4_number(),
                old(self).page().number(),
            ) is Some ==> old(self).allocator.accepts_all(
                set![mapped_small(
                    old(active_table).mapper.memory(),
                    old(active_table).mapper.p4_number(),
                    old(self).page().number(),
                )->Some_0],
            ),
        ensures
            final(self).page() == old(self).page(),
            Mapper::unmapped(
                old(active_table).mapper,
                final(active_table).mapper,
                old(self).allocator.free_frames(),
                final(self).allocator.free_frames(),
                old(self).page().number(),
                result,
            ),
    {
        active_table.mapper.unmap(self.page, &mut self.allocator)
    }

    /// Maps the temporary page to the given frame, which holds a page table,
    /// and returns that table. It is a table of level 1: its entries can be
    /// read and written, and none is followed.
    pub fn map_table_frame(&mut self, frame: Frame, active_table: &mut ActivePageTable) -> (result:
        Result<Table, VmmError>)
        requires
            old(active_table).mapper.wf(),
            old(active_table).mapper.separate_from(old(self).allocator.free_frames()),
            !old(self).allocator.free_frames().contains(frame.number()),
        ensures
            final(self).page() == old(self).page(),
            Mapper::mapped_to(
                old(active_table).mapper,
                final(active_table).mapper,
                old(self).allocator.free_frames(),
                final(self).allocator.free_frames(),
                old(self).page().number(),
                frame.number(),
                WRITABLE,
                match result {
                    Ok(_) => Ok(()),
                    Err(e) => Err(e),
                },
            ),
            result is Ok ==> {
                &&& result->Ok_0.frame_number() == frame.number()
                &&& result->Ok_0.level() == 1
                &&& final(active_table).mapper.translate_page_spec(old(self).page().number())
                    == Some(result->Ok_0.frame_number())
            },
    {
        let table = Table::lowest_level(frame.clone());
        match self.map(frame, active_table) {
            Ok(_) => Ok(table),
            Err(e) => Err(e),
        }
    }

    /// Consumes the page and hands the frames it holds over to `other`, so
    /// that none is lost.
    pub fn consume<D: FrameDeallocate>(self, other: &mut D)
        requires
            old(other).accepts_all(self.allocator.free_frames()),
        ensures
            final(other).free_frames() == old(other).free_frames()
                + self.allocator.free_frames(),
    {
        self.allocator.consume(other)
    }
}

/// The index of the frame in a slot, if the slot holds one.
pub open spec fn slot_number(slot: Option<Frame>) -> Option<u64> {
    match slot {
        Some(frame) => Some(frame.number()),
        None => None,
    }
}

/// Duplicates the frame in a slot. The slot is emptied right after, so that
/// the frame is still claimed once.
fn duplicate(slot: &Option<Frame>) -> (copy: Option<Frame>)
    ensures
        copy == *slot,
{
    match slot {
        Some(frame) => Some(frame.clone()),
        None => None,
    }
}

/// An allocator that holds up to three frames: enough for a table of level 3,
/// one of level 2 and one of level 1. No frame is held twice.
pub struct TinyAllocator {
    first: Option<Frame>,
    second: Option<Frame>,
    third: Option<Frame>,
}

impl TinyAllocator {
    #[verifier::type_invariant]
    spec fn distinct(self) -> bool {
        &&& self.first is Some && self.second is Some ==> self.first->Some_0.number()
            != self.second->Some_0.number()
        &&& self.first is Some && self.third is Some ==> self.first->Some_0.number()
            != self.third->Some_0.number()
        &&& self.second is Some && self.third is Some ==> self.second->Some_0.number()
            != self.third->Some_0.number()
    }

    /// The three slots of the allocator: the index of the frame in each, in
    /// the order in which they are filled and emptied.
    pub closed spec fn slots(self) -> Seq<Option<u64>> {
        seq![slot_number(self.first), slot_number(self.second), slot_number(self.third)]
    }

    /// The frames in a run of slots, as a set.
    pub open spec fn held(slots: Seq<Option<u64>>) -> Set<u64> {
        Set::new(|n: u64| exists|i: int| 0 <= i < slots.len() && slots[i] == Some(n))
    }

    /// Constructs an allocator that holds no frame.
    pub fn new() -> (tiny: TinyAllocator)
        ensures
            tiny.slots() == seq![None::<u64>, None, None],
            tiny.free_frames() == Set::<u64>::empty(),
    {
        let tiny = TinyAllocator { first: None, second: None, third: None };
        assert(tiny.free_frames() =~= Set::<u64>::empty()) by {
            assert forall|n: u64| !Self::held(tiny.slots()).contains(n) by {
                if Self::held(tiny.slots()).contains(n) {
                    let i = choose|i: int| 0 <= i < 3 && tiny.slots()[i] == Some(n);
                }
            }
        }
        tiny
    }

    /// Fills every empty slot with a frame from `allocator`, as long as it
    /// has one.
    pub fn fill<A: FrameAllocate>(&mut self, allocator: &mut A)
        requires
            old(self).free_frames().disjoint(old(allocator).free_frames()),
        ensures
            final(allocator).free_frames().subset_of(old(allocator).free_frames()),
            final(self).free_frames().disjoint(final(allocator).free_frames()),
            final(self).free_frames() + final(allocator).free_frames() == old(self).free_frames()
                + old(allocator).free_frames(),
            !final(self).full_spec() ==> final(allocator).free_frames() == Set::<u64>::empty(),
            forall|i: int|
                0 <= i < 3 && old(self).slots()[i] is Some ==> final(self).slots()[i] == old(self).slots()[i],
    {
        proof {
            use_type_invariant(&*self);
        }
        let ghost s0 = self.slots();
        let ghost a0 = allocator.free_frames();
        if self.first.is_none() {
            let frame = allocator.allocate_frame();
            proof {
                if frame is Some {
                    let n = frame->Some_0.number();
                    assert(!Self::held(s0).contains(n));
                    assert(s0[1] != Some(n));
                    assert(s0[2] != Some(n));
                }
            }
            self.first = frame;
        }
        let ghost s1 = self.slots();
        let ghost a1 = allocator.free_frames();
        proof {
            Self::lemma_slot_filled(s0, s1, 0, a0, a1);
        }
        if self.second.is_none() {
            let frame = allocator.allocate_frame();
            proof {
                if frame is Some {
                    let n = frame->Some_0.number();
                    assert(!Self::held(s1).contains(n));
                    assert(s1[0] != Some(n));
                    assert(s1[2] != Some(n));
                }
            }
            self.second = frame;
        }
        let ghost s2 = self.slots();
        let ghost a2 = allocator.free_frames();
        proof {
            Self::lemma_slot_filled(s1, s2, 1, a1, a2);
        }
        if self.third.is_none() {
            let frame = allocator.allocate_frame();
            proof {
                if frame is Some {
                    let n = frame->Some_0.number();
                    assert(!Self::held(s2).contains(n));
                    assert(s2[0] != Some(n));
                    assert(s2[1] != Some(n));
                }
            }
            self.third = frame;
        }
        let ghost s3 = self.slots();
        let ghost a3 = allocator.free_frames();
        proof {
            Self::lemma_slot_filled(s2, s3, 2, a2, a3);
            assert(Self::held(s3) + a3 =~= Self::held(s0) + a0);
        }
    }

    /// What filling one slot from a set of free frames does to the frames
    /// held and the frames free.
    proof fn lemma_slot_filled(
        before: Seq<Option<u64>>,
        after: Seq<Option<u64>>,
        slot: int,
        free_before: Set<u64>,
        free_after: Set<u64>,
    )
        requires
            before.len() == 3,
            after.len() == 3,
            0 <= slot < 3,
            forall|i: int| 0 <= i < 3 && i != slot ==> after[i] == before[i],
            Self::held(before).disjoint(free_before),
            before[slot] is Some ==> after == before && free_after == free_before,
            before[slot] is None ==> match after[slot] {
                Some(n) => free_before.contains(n) && free_after == free_before.remove(n),
                None => free_before == Set::<u64>::empty() && free_after == free_before,
            },
        ensures
            Self::held(after).disjoint(free_after),
            Self::held(after) + free_after == Self::held(before) + free_before,
            free_after.subset_of(free_before),
            after[slot] is None ==> free_after == Set::<u64>::empty(),
    {
        if before[slot] is None {
            if after[slot] is Some {
                let n = after[slot]->Some_0;
                assert forall|m: u64| Self::held(after).contains(m) <==> (Self::held(
                    before,
                ).contains(m) || m == n) by {
                    if Self::held(after).contains(m) {
                        let i = choose|i: int| 0 <= i < 3 && after[i] == Some(m);
                        if i != slot {
                            assert(before[i] == Some(m));
                        }
                    }
                    if Self::held(before).contains(m) {
                        let i = choose|i: int| 0 <= i < 3 && before[i] == Some(m);
                        assert(i != slot);
                        assert(after[i] == Some(m));
                    }
                    if m == n {
                        assert(after[slot] == Some(m));
                    }
                }
                assert(Self::held(after) + free_after =~= Self::held(before) + free_before);
            } else {
                assert(after =~= before);
            }
        }
    }

    /// Empties the allocator and hands out the frames it held, in the order
    /// of their slots.
    pub fn flush(&mut self) -> (frames: Vec<Frame>)
        ensures
            final(self).slots() == seq![None::<u64>, None, None],
            final(self).free_frames() == Set::<u64>::empty(),
            Self::listed(frames@) == Self::present_in(old(self).slots()),
    {
        let mut frames: Vec<Frame> = Vec::new();
        let ghost s = self.slots();
        proof {
            use_type_invariant(&*self);
        }
        // Each frame is duplicated and its slot emptied at once, so that one
        // claim on it is left.
        if let Some(frame) = duplicate(&self.first) {
            frames.push(frame);
        }
        self.first = None;
        if let Some(frame) = duplicate(&self.second) {
            frames.push(frame);
        }
        self.second = None;
        if let Some(frame) = duplicate(&self.third) {
            frames.push(frame);
        }
        self.third = None;
        proof {
            assert(Self::listed(frames@) =~= Self::present_in(s)) by {
                reveal_with_fuel(TinyAllocator::present_in, 4);
                assert(s.drop_last().drop_last().drop_last() =~= Seq::<Option<u64>>::empty());
                assert(s.drop_last().drop_last() =~= seq![s[0]]);
                assert(s.drop_last() =~= seq![s[0], s[1]]);
            }
            assert(self.free_frames() =~= Set::<u64>::empty()) by {
                assert forall|n: u64| !Self::held(self.slots()).contains(n) by {
                    if Self::held(self.slots()).contains(n) {
                        let i = choose|i: int| 0 <= i < 3 && self.slots()[i] == Some(n);
                    }
                }
            }
        }
        frames
    }

    /// The indices of a list of frames.
    pub open spec fn listed(frames: Seq<Frame>) -> Seq<u64> {
        Seq::new(frames.len(), |i: int| frames[i].number())
    }

    /// The frames in a run of slots, in order, without the empty slots.
    pub open spec fn present_in(slots: Seq<Option<u64>>) -> Seq<u64>
        decreases slots.len(),
    {
        if slots.len() == 0 {
            Seq::empty()
        } else {
            match slots.last() {
                Some(n) => Self::present_in(slots.drop_last()).push(n),
                None => Self::present_in(slots.drop_last()),
            }
        }
    }

    /// Whether every slot holds a frame.
    pub open spec fn full_spec(self) -> bool {
        forall|i: int| 0 <= i < 3 ==> self.slots()[i] is Some
    }

    /// Whether no slot holds a frame.
    pub open spec fn empty_spec(self) -> bool {
        forall|i: int| 0 <= i < 3 ==> self.slots()[i] is None
    }

    /// Returns `true` if the allocator is full.
    pub fn is_full(&self) -> (full: bool)
        ensures
            full == self.full_spec(),
            self.free_frames().finite(),
            full ==> self.free_frames().len() == 3,
    {
        let full = self.first.is_some() && self.second.is_some() && self.third.is_some();
        proof {
            use_type_invariant(self);
            self.lemma_finite();
            self.lemma_full_holds_three();
            if !full {
                if self.first is None {
                    assert(self.slots()[0] is None);
                } else if self.second is None {
                    assert(self.slots()[1] is None);
                } else {
                    assert(self.slots()[2] is None);
                }
            }
        }
        full
    }

    /// Returns `true` if the allocator is empty.
    pub fn is_empty(&self) -> (empty: bool)
        ensures
            empty == self.empty_spec(),
            empty == (self.free_frames() == Set::<u64>::empty()),
    {
        let empty = self.first.is_none() && self.second.is_none() && self.third.is_none();
        proof {
            if !empty {
                if self.first is Some {
                    assert(self.slots()[0] is Some);
                    assert(self.free_frames().contains(self.slots()[0]->Some_0));
                } else if self.second is Some {
                    assert(self.slots()[1] is Some);
                    assert(self.free_frames().contains(self.slots()[1]->Some_0));
                } else {
                    assert(self.slots()[2] is Some);
                    assert(self.free_frames().contains(self.slots()[2]->Some_0));
                }
            } else {
                assert forall|n: u64| !Self::held(self.slots()).contains(n) by {
                    if Self::held(self.slots()).contains(n) {
                        let i = choose|i: int| 0 <= i < 3 && self.slots()[i] == Some(n);
                    }
                }
                assert(self.free_frames() =~= Set::<u64>::empty());
            }
        }
        empty
    }

    /// Hands every frame that the allocator holds over to `other`, which has
    /// to have room for them.
    pub fn consume<D: FrameDeallocate>(self, other: &mut D)
        requires
            old(other).accepts_all(self.free_frames()),
        ensures
            final(other).free_frames() == old(other).free_frames() + self.free_frames(),
    {
        let mut tiny = self;
        let ghost all = self.free_frames();
        let ghost mut taken = Set::<u64>::empty();
        proof {
            self.lemma_finite();
        }
        loop
            invariant
                taken + tiny.free_frames() == all,
                taken.disjoint(tiny.free_frames()),
                tiny.free_frames().finite(),
                other.free_frames() == old(other).free_frames() + taken,
                other.accepts_all(tiny.free_frames()),
            ensures
                other.free_frames() == old(other).free_frames() + all,
            decreases tiny.free_frames().len(),
        {
            let ghost held = tiny.free_frames();
            match tiny.allocate_frame() {
                Some(frame) => {
                    proof {
                        other.lemma_accepts_fewer(held, set![frame.number()]);
                        assert(tiny.free_frames().insert(frame.number()) =~= held);
                    }
                    other.deallocate_frame(frame);
                    proof {
                        taken = taken.insert(frame.number());
                        assert(taken + tiny.free_frames() =~= all);
                        assert(other.free_frames() =~= old(other).free_frames() + taken);
                    }
                },
                None => {
                    proof {
                        assert(taken =~= all);
                    }
                    break ;
                },
            }
        }
    }

    /// An allocator whose slots are all taken holds three frames.
    proof fn lemma_full_holds_three(self)
        requires
            self.distinct(),
        ensures
            self.full_spec() ==> self.free_frames().len() == 3,
    {
        self.lemma_finite();
        if self.full_spec() {
            let s = self.slots();
            let a = s[0]->Some_0;
            let b = s[1]->Some_0;
            let c = s[2]->Some_0;
            assert(s[0] is Some && s[1] is Some && s[2] is Some);
            assert(self.free_frames() =~= set![a, b, c]) by {
                assert forall|n: u64| Self::held(s).contains(n) implies set![a, b, c].contains(
                    n,
                ) by {
                    let i = choose|i: int| 0 <= i < 3 && s[i] == Some(n);
                }
                assert(s[0] == Some(a) && s[1] == Some(b) && s[2] == Some(c));
            }
            assert(set![a, b, c].len() == 3) by {
                assert(set![a, b, c] =~= set![a].insert(b).insert(c));
            }
        }
    }

    /// An allocator that had room for some frames has room for them still
    /// when it holds fewer frames than it did.
    pub proof fn lemma_room_kept(self, held_before: Set<u64>, numbers: Set<u64>)
        requires
            self.free_frames().subset_of(held_before),
            held_before.finite(),
            numbers.finite(),
            numbers.disjoint(held_before),
            numbers.len() + held_before.len() <= 3,
        ensures
            self.accepts_all(numbers),
    {
        vstd::set_lib::lemma_len_subset(self.free_frames(), held_before);
    }

    /// The frames held are finitely many.
    pub proof fn lemma_finite(self)
        ensures
            self.free_frames().finite(),
            self.free_frames().len() <= 3,
    {
        let s = self.slots();
        let a: Set<u64> = match s[0] {
            Some(n) => set![n],
            None => set![],
        };
        let b: Set<u64> = match s[1] {
            Some(n) => set![n],
            None => set![],
        };
        let c: Set<u64> = match s[2] {
            Some(n) => set![n],
            None => set![],
        };
        assert(self.free_frames() =~= a + b + c) by {
            assert forall|n: u64| Self::held(s).contains(n) implies (a + b + c).contains(n) by {
                let i = choose|i: int| 0 <= i < 3 && s[i] == Some(n);
            }
            assert forall|n: u64| (a + b + c).contains(n) implies Self::held(s).contains(n) by {
                if a.contains(n) {
                    assert(s[0] == Some(n));
                } else if b.contains(n) {
                    assert(s[1] == Some(n));
                } else {
                    assert(s[2] == Some(n));
                }
            }
        }
        vstd::set_lib::lemma_set_union_finite_iff(a, b);
        vstd::set_lib::lemma_set_union_finite_iff(a + b, c);
        vstd::set_lib::lemma_len_union(a, b);
        vstd::set_lib::lemma_len_union(a + b, c);
    }
}

impl FrameAllocate for TinyAllocator {
    closed spec fn free_frames(&self) -> Set<u64> {
        Self::held(self.slots())
    }

    /// Hands out the frame in the first slot that holds one. Returns `None`
    /// where all three slots are empty.
    fn allocate_frame(&mut self) -> (frame: Option<Frame>)
        ensures
            match frame {
                Some(f) => exists|i: int|
                    {
                        &&& 0 <= i < 3
                        &&& old(self).slots()[i] == Some(f.number())
                        &&& forall|j: int| 0 <= j < i ==> old(self).slots()[j] is None
                        &&& final(self).slots() == old(self).slots().update(i, None)
                    },
                None => final(self).slots() == old(self).slots(),
            },
    {
        proof {
            use_type_invariant(&*self);
        }
        let ghost s = self.slots();
        let ghost i = if self.first is Some {
            0int
        } else if self.second is Some {
            1int
        } else {
            2int
        };
        let frame = if self.first.is_some() {
            let frame = duplicate(&self.first);
            self.first = None;
            frame
        } else if self.second.is_some() {
            let frame = duplicate(&self.second);
            self.second = None;
            frame
        } else if self.third.is_some() {
            let frame = duplicate(&self.third);
            self.third = None;
            frame
        } else {
            None
        };
        proof {
            let t = self.slots();
            match slot_number(frame) {
                Some(n) => {
                    assert(t =~= s.update(i, None));
                    assert(s[i] == Some(n));
                    assert forall|m: u64| Self::held(t).contains(m) <==> (Self::held(s).contains(m)
                        && m != n) by {
                        if Self::held(t).contains(m) {
                            let j = choose|j: int| 0 <= j < 3 && t[j] == Some(m);
                            assert(s[j] == Some(m));
                        }
                        if Self::held(s).contains(m) && m != n {
                            let j = choose|j: int| 0 <= j < 3 && s[j] == Some(m);
                            assert(t[j] == Some(m));
                        }
                    }
                    assert(Self::held(t) =~= Self::held(s).remove(n));
                },
                None => {
                    assert(t =~= s);
                    assert forall|m: u64| !Self::held(s).contains(m) by {
                        if Self::held(s).contains(m) {
                            let j = choose|j: int| 0 <= j < 3 && s[j] == Some(m);
                        }
                    }
                    assert(Self::held(s) =~= Set::<u64>::empty());
                },
            }
        }
        frame
    }
}

impl FrameDeallocate for TinyAllocator {
    /// The allocator takes frames that it does not hold yet, as long as all
    /// the frames together number three at most.
    open spec fn accepts_all(&self, numbers: Set<u64>) -> bool {
        &&& numbers.finite()
        &&& numbers.disjoint(self.free_frames())
        &&& numbers.len() + self.free_frames().len() <= 3
    }

    proof fn lemma_accepts_fewer(&self, numbers: Set<u64>, fewer: Set<u64>) {
        vstd::set_lib::lemma_len_subset(fewer, numbers);
    }

    /// Saves the frame in the first slot that is empty.
    fn deallocate_frame(&mut self, frame: Frame)
        ensures
            exists|i: int|
                {
                    &&& 0 <= i < 3
                    &&& old(self).slots()[i] is None
                    &&& forall|j: int| 0 <= j < i ==> old(self).slots()[j] is Some
                    &&& final(self).slots() == old(self).slots().update(i, Some(frame.number()))
                },
    {
        proof {
            use_type_invariant(&*self);
        }
        let ghost s = self.slots();
        let ghost n = frame.number();
        let ghost i;
        proof {
            assert(set![n].contains(n));
            assert(s[0] != Some(n) && s[1] != Some(n) && s[2] != Some(n)) by {
                if s[0] == Some(n) || s[1] == Some(n) || s[2] == Some(n) {
                    assert(Self::held(s).contains(n));
                }
            }
            self.lemma_full_holds_three();
            assert(set![n].len() == 1);
            assert(!self.full_spec());
        }
        if self.first.is_none() {
            self.first = Some(frame);
            proof {
                i = 0int;
            }
        } else if self.second.is_none() {
            self.second = Some(frame);
            proof {
                i = 1int;
            }
        } else {
            self.third = Some(frame);
            proof {
                i = 2int;
            }
        }
        proof {
            let t = self.slots();
            assert(t =~= s.update(i, Some(n)));
            assert forall|m: u64| Self::held(t).contains(m) <==> (Self::held(s).contains(m) || m
                == n) by {
                if Self::held(t).contains(m) {
                    let j = choose|j: int| 0 <= j < 3 && t[j] == Some(m);
                    if j != i {
                        assert(s[j] == Some(m));
                    }
                }
                if Self::held(s).contains(m) {
                    let j = choose|j: int| 0 <= j < 3 && s[j] == Some(m);
                    assert(t[j] == Some(m));
                }
                if m == n {
                    assert(t[i] == Some(m));
                }
            }
            assert(Self::held(t) =~= Self::held(s).insert(n));
            old(self).lemma_finite();
            assert forall|rest: Set<u64>|
                #[trigger] old(self).accepts_all(rest.insert(n)) && !rest.contains(
                    n,
                ) implies self.accepts_all(rest) by {
                assert(rest.insert(n).remove(n) =~= rest);
                assert(rest.finite());
                assert(rest.len() == rest.insert(n).len() - 1);
                assert(self.free_frames().len() == old(self).free_frames().len() + 1);
            }
        }
    }
}

} // verus!
