//! The allocator that lasts: one bit for every physical frame, set while the
//! frame is free. It hands frames out and takes them back.

use vstd::prelude::*;
use crate::memory::paging::entry::{EntryFlags, WRITABLE};
use crate::memory::paging::entry::lemma_flag_facts;
use crate::memory::paging::mapper::{
    held,
    new_entries_name,
    present_entries_kept,
    referenced,
    unique_except,
    unreferenced,
    Mapper,
};
use crate::memory::paging::mapper::{
    lemma_same_place_same_page,
    others_kept,
    same_place,
    slot_taken,
    unique_references,
    RECURSIVE_INDEX,
};
use crate::memory::paging::{is_canonical_page, table_index, ActivePageTable, Page};
use crate::memory::{Frame, FrameAllocate, FrameDeallocate, PAGE_SIZE};
use crate::vmm::{Protection, Region, VmmError, PROTECTION_WRITABLE};

verus! {

/// The address at which the words of the bitmap appear, right above the
/// kernel.
pub const BITMAP_BASE: u64 = 0xffff_ffff_c000_0000;

/// The number of words that the bitmap can grow to: what fits between its
/// base and the end of the address space.
pub const BITMAP_WORDS: usize = 0x800_0000;

/// The number of frames that the bitmap has a bit for at most.
pub const BITMAP_FRAMES: u64 = 0x2_0000_0000;

/// The number of pages that the words of the bitmap take at most.
pub const BITMAP_PAGES: u64 = 0x4_0000;

/// Whether the page with index `number` selects the entries that a page
/// of the bitmap selects.
pub open spec fn on_bitmap_page(number: u64) -> bool {
    exists|b: u64|
        BITMAP_BASE / PAGE_SIZE <= b < BITMAP_BASE / PAGE_SIZE + BITMAP_PAGES && #[trigger] same_place(
            b,
            number,
        )
}

/// The pages of the bitmap lie outside the recursive region, and their
/// addresses are canonical.
pub proof fn lemma_bitmap_pages(n: u64)
    requires
        BITMAP_BASE / PAGE_SIZE <= n < BITMAP_BASE / PAGE_SIZE + BITMAP_PAGES,
    ensures
        table_index(n, 4) != RECURSIVE_INDEX,
        table_index(n, 4) == 511,
        is_canonical_page(n as int),
{
    assert((n >> 27) & 0o777 == 511) by (bit_vector)
        requires
            0xf_ffff_fffc_0000u64 <= n && n < 0x10_0000_0000_0000u64,
    ;
}

/// Whether bit `bit` of the word is set.
pub open spec fn bit_set(word: u64, bit: u64) -> bool {
    (word >> bit) & 1 == 1
}

/// The frames whose bit is set in the words.
pub open spec fn frames_of(words: Seq<u64>) -> Set<u64> {
    Set::new(|n: u64| n / 64 < words.len() && bit_set(words[(n / 64) as int], n % 64))
}

/// What setting a bit does to the bits of a word.
pub proof fn lemma_bit_or(word: u64, bit: u64, other: u64)
    requires
        bit < 64,
        other < 64,
    ensures
        bit_set(word | (1u64 << bit), other) == (other == bit || bit_set(word, other)),
{
    assert((((word | (1u64 << bit)) >> other) & 1 == 1) == (other == bit || (word >> other) & 1
        == 1)) by (bit_vector)
        requires
            bit < 64,
            other < 64,
    ;
}

/// What clearing a bit does to the bits of a word.
pub proof fn lemma_bit_clear(word: u64, bit: u64, other: u64)
    requires
        bit < 64,
        other < 64,
    ensures
        bit_set(word & !(1u64 << bit), other) == (other != bit && bit_set(word, other)),
{
    assert((((word & !(1u64 << bit)) >> other) & 1 == 1) == (other != bit && (word >> other) & 1
        == 1)) by (bit_vector)
        requires
            bit < 64,
            other < 64,
    ;
}

/// No bit of the word zero is set.
pub proof fn lemma_bit_zero(other: u64)
    requires
        other < 64,
    ensures
        !bit_set(0, other),
{
    assert((0u64 >> other) & 1 == 0) by (bit_vector)
        requires
            other < 64,
    ;
}

/// Returns the index of the lowest bit that is set in the word, or 64 for the
/// word zero.
pub fn first_bit(entry: u64) -> (bit: u32)
    ensures
        bit as int == vstd::std_specs::bits::u64_trailing_zeros(entry),
        entry != 0 ==> bit < 64 && bit_set(entry, bit as u64),
        entry == 0 ==> bit == 64,
        forall|lower: u64| lower < bit ==> !bit_set(entry, lower),
{
    proof {
        vstd::std_specs::bits::axiom_u64_trailing_zeros(entry);
        assert forall|lower: u64|
            lower < vstd::std_specs::bits::u64_trailing_zeros(entry) implies !bit_set(
            entry,
            lower,
        ) by {
            assert((entry >> lower) & 1u64 == 0u64);
        }
    }
    entry.trailing_zeros()
}

/// Returns where the bit of the frame is: the index of its word, and the word
/// that has only that bit set.
pub fn bitmap_place(frame: &Frame) -> (place: (u64, u64))
    ensures
        place.0 == frame.number() / 64,
        place.1 == 1u64 << ((frame.number() % 64) as u64),
{
    let number = frame.index();
    let offset = number / 64;
    let bit = number % 64;
    (offset, 1u64 << bit)
}

/// Takes the lowest frame out of the word with index `offset`, which is not
/// zero: clears its bit and returns the frame.
pub fn get_frame(offset: usize, entry: &mut u64) -> (frame: Frame)
    requires
        *old(entry) != 0,
        offset < BITMAP_WORDS,
    ensures
        frame.number() == offset * 64 + vstd::std_specs::bits::u64_trailing_zeros(*old(entry)),
        frame.number() / 64 == offset,
        bit_set(*old(entry), frame.number() % 64),
        forall|lower: u64| lower < frame.number() % 64 ==> !bit_set(*old(entry), lower),
        *final(entry) == *old(entry) & !(1u64 << ((frame.number() % 64) as u64)),
{
    let bit = first_bit(*entry) as u64;
    // Remove frame from entry
    *entry = *entry & !(1u64 << bit);
    Frame::containing_address((offset as u64 * 64 + bit) * PAGE_SIZE)
}

/// Whether the search for a free frame that starts at the word `cursor` and
/// finds one in the word `found` goes through the word `word` before: the
/// words from the cursor up to the one it finds, around the end of the bitmap
/// where that one lies below the cursor.
pub open spec fn searched_before(cursor: usize, found: u64, word: u64) -> bool {
    if found >= cursor {
        cursor <= word < found
    } else {
        word >= cursor || word < found
    }
}

/// Every frame that was free at the start is marked in the bitmap, or is
/// still free, or is held by the page table.
pub open spec fn accounted(
    at_start: Set<u64>,
    marked: Set<u64>,
    free: Set<u64>,
    mem: Map<int, u64>,
) -> bool {
    forall|n: u64|
        #[trigger] at_start.contains(n) ==> marked.contains(n) || free.contains(n) || held(
            mem,
            n,
            free,
        )
}

/// A bitmap allocator for physical frames.
pub struct FrameBitmap {
    words: Vec<u64>,
    current: usize,
}

impl FrameBitmap {
    #[verifier::type_invariant]
    spec fn in_bounds(self) -> bool {
        &&& self.words@.len() <= BITMAP_WORDS
        &&& self.current <= self.words@.len()
        &&& self.current < self.words@.len() || self.current == 0
    }

    /// The words of the bitmap.
    pub closed spec fn words(self) -> Seq<u64> {
        self.words@
    }

    /// The index of the word at which the search for a free frame starts.
    pub closed spec fn cursor(self) -> usize {
        self.current
    }

    /// The number of frames that the bitmap has a bit for.
    pub open spec fn capacity(self) -> nat {
        self.words().len() * 64
    }

    /// Creates the bitmap of the frames that `allocator` still has.
    ///
    /// Every frame of `allocator` is taken out of it: most get their bit in the
    /// bitmap, some back the pages that the words of the bitmap appear at, and
    /// the tables on the way to them. So the bitmap never allocates after this
    /// function, and none of its frames is in use by the page table.
    ///
    /// Fails with what mapping a page of the bitmap fails with: with
    /// `OutOfPhysicalMemory` where `allocator` runs out of frames before the
    /// pages of the bitmap are mapped, and with `AlreadyMapped` where something
    /// stands in the place of a page of the bitmap. The frames that were taken
    /// until then are not given back.
    #[verifier::rlimit(100)]
    pub fn new<FA: FrameAllocate>(allocator: &mut FA, page_table: &mut ActivePageTable) -> (result:
        Result<FrameBitmap, VmmError>)
        requires
            old(page_table).mapper.wf(),
            old(page_table).mapper.separate_from(old(allocator).free_frames()),
            old(allocator).free_frames().finite(),
            forall|n: u64| old(allocator).free_frames().contains(n) ==> n < BITMAP_FRAMES,
        ensures
            final(allocator).free_frames().subset_of(old(allocator).free_frames()),
            result is Ok || result == Err::<FrameBitmap, VmmError>(VmmError::OutOfPhysicalMemory)
                ==> final(allocator).free_frames() == Set::<u64>::empty(),
            slot_taken(
                old(page_table).mapper.memory(),
                old(page_table).mapper.p4_number(),
                BITMAP_BASE / PAGE_SIZE,
            ) ==> {
                &&& result == Err::<FrameBitmap, VmmError>(VmmError::AlreadyMapped)
                &&& final(page_table).mapper.memory() == old(page_table).mapper.memory()
                &&& final(allocator).free_frames() == old(allocator).free_frames()
            },
            present_entries_kept(
                old(page_table).mapper.memory(),
                final(page_table).mapper.memory(),
                old(allocator).free_frames(),
            ),
            unique_references(old(page_table).mapper.memory()) ==> forall|q: u64|
                table_index(q, 4) != RECURSIVE_INDEX && #[trigger] slot_taken(
                    final(page_table).mapper.memory(),
                    final(page_table).mapper.p4_number(),
                    q,
                ) ==> slot_taken(
                    old(page_table).mapper.memory(),
                    old(page_table).mapper.p4_number(),
                    q,
                ) || on_bitmap_page(q),
            unique_references(old(page_table).mapper.memory()) && result == Err::<
                FrameBitmap,
                VmmError,
            >(VmmError::AlreadyMapped) ==> exists|n: u64|
                BITMAP_BASE / PAGE_SIZE <= n < BITMAP_BASE / PAGE_SIZE + BITMAP_PAGES && slot_taken(
                    old(page_table).mapper.memory(),
                    old(page_table).mapper.p4_number(),
                    n,
                ),
            final(page_table).mapper.wf(),
            old(page_table).wf() ==> final(page_table).wf(),
            final(page_table).mapper.root() == old(page_table).mapper.root(),
            final(page_table).mapper.p4_number() == old(page_table).mapper.p4_number(),
            new_entries_name(
                old(page_table).mapper.memory(),
                final(page_table).mapper.memory(),
                old(allocator).free_frames(),
                None,
            ),
            forall|e: Set<int>|
                #[trigger] unique_except(old(page_table).mapper.memory(), e) ==> unique_except(
                    final(page_table).mapper.memory(),
                    e,
                ),
            forall|other: u64|
                old(page_table).mapper.translate_page_spec(other) is Some
                    ==> final(page_table).mapper.translate_page_spec(other)
                        == old(page_table).mapper.translate_page_spec(
                    other,
                ),
            match result {
                Ok(bitmap) => {
                    &&& bitmap.free_frames().subset_of(old(allocator).free_frames())
                    &&& forall|n: u64|
                        old(allocator).free_frames().contains(n) ==> bitmap.free_frames().contains(n)
                            || #[trigger] referenced(final(page_table).mapper.memory(), n)
                    &&& final(page_table).mapper.separate_from(bitmap.free_frames())
                    &&& bitmap.cursor() == 0
                    &&& final(page_table).mapper.translate_page_spec(BITMAP_BASE / PAGE_SIZE)
                        is Some
                },
                Err(e) => e == VmmError::AlreadyMapped || e == VmmError::OutOfPhysicalMemory,
            },
    {
        let ghost free0 = allocator.free_frames();
        let ghost table0 = page_table.mapper;
        let mut words: Vec<u64> = Vec::new();
        proof {
            lemma_flag_facts();
        }
        let writable = EntryFlags::from_bits_truncate(WRITABLE);
        let mut curr_page = Page::containing_address(BITMAP_BASE);
        let first_page = curr_page;
        let ghost mem0 = table0.memory();
        let ghost p4 = table0.p4_number();
        let ghost base = (BITMAP_BASE / PAGE_SIZE) as u64;
        let ghost apart = unique_references(mem0);
        // Map the first page of the bitmap
        let first = page_table.mapper.map(curr_page, writable, allocator);
        proof {
            if apart {
                lemma_bitmap_pages(base);
                assert(others_kept(mem0, page_table.mapper.memory(), p4, base));
                assert forall|q: u64|
                    table_index(q, 4) != RECURSIVE_INDEX && #[trigger] slot_taken(
                        page_table.mapper.memory(),
                        p4,
                        q,
                    ) implies slot_taken(mem0, p4, q) || on_bitmap_page(q) by {
                    if same_place(base, q) {
                    } else {
                        assert(!same_place(q, base));
                    }
                }
                assert forall|n: u64|
                    base < n < base + BITMAP_PAGES && #[trigger] slot_taken(
                        page_table.mapper.memory(),
                        p4,
                        n,
                    ) implies slot_taken(mem0, p4, n) by {
                    lemma_bitmap_pages(n);
                    if same_place(n, base) {
                        lemma_same_place_same_page(n, base);
                    }
                }
            }
        }
        match first {
            Ok(()) => {},
            Err(e) => {
                return Err(e);
            },
        }
        proof {
            assert(frames_of(words@) =~= Set::<u64>::empty());
            vstd::set_lib::lemma_len_subset(allocator.free_frames(), free0);
        }
        loop
            invariant
                words@.len() <= BITMAP_WORDS,
                free0 == old(allocator).free_frames(),
                writable@ == WRITABLE,
                table0 == old(page_table).mapper,
                first_page.number() == BITMAP_BASE / PAGE_SIZE,
                page_table.mapper.wf(),
                old(page_table).wf() ==> page_table.wf(),
                page_table.mapper.root() == table0.root(),
                page_table.mapper.p4_number() == table0.p4_number(),
                new_entries_name(table0.memory(), page_table.mapper.memory(), free0, None),
                forall|e: Set<int>|
                    #[trigger] unique_except(table0.memory(), e) ==> unique_except(
                        page_table.mapper.memory(),
                        e,
                    ),
                page_table.mapper.separate_from(allocator.free_frames()),
                page_table.mapper.separate_from(frames_of(words@)),
                allocator.free_frames().finite(),
                allocator.free_frames().subset_of(free0),
                frames_of(words@).subset_of(free0),
                accounted(free0, frames_of(words@), allocator.free_frames(), page_table.mapper.memory()),
                frames_of(words@).disjoint(allocator.free_frames()),
                forall|n: u64| free0.contains(n) ==> n < BITMAP_FRAMES,
                page_table.mapper.translate_page_spec(first_page.number()) is Some,
                forall|other: u64|
                    table0.translate_page_spec(other) is Some ==> page_table.mapper.translate_page_spec(
                        other,
                    ) == table0.translate_page_spec(other),
                mem0 == table0.memory(),
                p4 == table0.p4_number(),
                base == BITMAP_BASE / PAGE_SIZE,
                apart == unique_references(mem0),
                base <= curr_page.number() < base + BITMAP_PAGES,
                words@.len() * 8 >= (curr_page.number() - base) * PAGE_SIZE,
                !slot_taken(mem0, p4, base),
                present_entries_kept(mem0, page_table.mapper.memory(), free0),
                apart ==> forall|q: u64|
                    table_index(q, 4) != RECURSIVE_INDEX && #[trigger] slot_taken(
                        page_table.mapper.memory(),
                        p4,
                        q,
                    ) ==> slot_taken(mem0, p4, q) || on_bitmap_page(q),
                apart ==> forall|n: u64|
                    curr_page.number() < n < base + BITMAP_PAGES && #[trigger] slot_taken(
                        page_table.mapper.memory(),
                        p4,
                        n,
                    ) ==> slot_taken(mem0, p4, n),
            ensures
                allocator.free_frames() == Set::<u64>::empty(),
            decreases allocator.free_frames().len(),
        {
            let ghost before = allocator.free_frames();
            let frame = match allocator.allocate_frame() {
                Some(frame) => frame,
                None => {
                    break ;
                },
            };
            let ghost n = frame.number();
            let (place, entry) = bitmap_place(&frame);
            proof {
                assert(before.contains(n));
                assert(n < BITMAP_FRAMES);
                assert(n % 64 < 64);
                let mem = page_table.mapper.memory();
                assert(accounted(free0, frames_of(words@).insert(n), allocator.free_frames(), mem)) by {
                    assert forall|m: u64| #[trigger] free0.contains(m) implies frames_of(
                        words@,
                    ).insert(n).contains(m) || allocator.free_frames().contains(m) || held(
                        mem,
                        m,
                        allocator.free_frames(),
                    ) by {
                        if !frames_of(words@).contains(m) && !before.contains(m) {
                            crate::memory::paging::mapper::lemma_held_kept(
                                mem,
                                mem,
                                m,
                                before,
                                allocator.free_frames(),
                            );
                        }
                    }
                }
            }
            let offset = place as usize;
            if offset >= words.len() {
                let ghost old_words = words@;
                while words.len() <= offset
                    invariant
                        offset < BITMAP_WORDS,
                        old_words.len() <= words@.len() <= offset + 1,
                        forall|i: int| 0 <= i < old_words.len() ==> words@[i] == old_words[i],
                        forall|i: int| old_words.len() <= i < words@.len() ==> words@[i] == 0,
                    decreases offset + 1 - words.len(),
                {
                    words.push(0);
                }
                proof {
                    assert(frames_of(words@) =~= frames_of(old_words)) by {
                        assert forall|m: u64| frames_of(words@).contains(m) implies frames_of(
                            old_words,
                        ).contains(m) by {
                            if m / 64 >= old_words.len() {
                                lemma_bit_zero(m % 64);
                            }
                        }
                    }
                }
                let address: u64 = BITMAP_BASE + (offset as u64) * 8;
                let p = Page::containing_address(address);
                let ghost earlier = curr_page.number();
                proof {
                    assert(BITMAP_BASE == base * 4096);
                    assert(address / 4096 == base + (offset * 8) / 4096);
                    assert(p.number() == base + (offset * 8) / 4096);
                    assert(earlier <= p.number() < base + BITMAP_PAGES);
                }
                if p.index() != curr_page.index() {
                    curr_page = p;
                    // Map the page that the word lies in
                    let ghost table1 = page_table.mapper;
                    let ghost free1 = allocator.free_frames();
                    let mapped = page_table.mapper.map(curr_page, writable, allocator);
                    proof {
                        if apart {
                            let m = p.number();
                            assert(unique_except(table0.memory(), Set::<int>::empty()));
                            assert(unique_references(table1.memory()));
                            lemma_bitmap_pages(m);
                            assert(others_kept(table1.memory(), page_table.mapper.memory(), p4, m));
                            if mapped == Err::<(), VmmError>(VmmError::AlreadyMapped) {
                                assert(slot_taken(table1.memory(), p4, m));
                                assert(slot_taken(mem0, p4, m));
                            }
                            assert forall|q: u64|
                                table_index(q, 4) != RECURSIVE_INDEX && #[trigger] slot_taken(
                                    page_table.mapper.memory(),
                                    p4,
                                    q,
                                ) implies slot_taken(mem0, p4, q) || on_bitmap_page(q) by {
                                if same_place(m, q) {
                                } else {
                                    assert(!same_place(q, m));
                                    assert(slot_taken(table1.memory(), p4, q));
                                }
                            }
                            assert forall|n: u64|
                                m < n < base + BITMAP_PAGES && #[trigger] slot_taken(
                                    page_table.mapper.memory(),
                                    p4,
                                    n,
                                ) implies slot_taken(mem0, p4, n) by {
                                lemma_bitmap_pages(n);
                                if same_place(n, m) {
                                    lemma_same_place_same_page(n, m);
                                }
                                assert(slot_taken(table1.memory(), p4, n));
                            }
                        }
                        let marked = frames_of(words@).insert(n);
                        let mem1 = table1.memory();
                        let mem2 = page_table.mapper.memory();
                        if free1 == Set::<u64>::empty() {
                            assert(mem2 == mem1);
                        } else {
                            let taken = choose|taken: u64|
                                {
                                    &&& free1.contains(taken)
                                    &&& #[trigger] Mapper::mapped_to(
                                        table1,
                                        page_table.mapper,
                                        free1.remove(taken),
                                        allocator.free_frames(),
                                        curr_page.number(),
                                        taken,
                                        writable@,
                                        mapped,
                                    )
                                };
                            assert forall|c: int|
                                #![trigger mem2[c]]
                                crate::memory::paging::entry::word_present(
                                    mem2[c],
                                ) implies !marked.contains(
                                crate::memory::paging::entry::word_frame(mem2[c]),
                            ) by {
                                let f = crate::memory::paging::entry::word_frame(mem2[c]);
                                if mem2[c] != mem1[c] {
                                    assert(free1.contains(f));
                                }
                            }
                        }
                        assert(unreferenced(mem2, table0.root(), marked));
                        if mapped is Ok {
                            assert forall|m: u64| #[trigger] free0.contains(m) implies frames_of(
                                words@,
                            ).insert(n).contains(m) || allocator.free_frames().contains(m) || held(
                                mem2,
                                m,
                                allocator.free_frames(),
                            ) by {
                                if !frames_of(words@).insert(n).contains(m)
                                    && !allocator.free_frames().contains(m) {
                                    if !free1.contains(m) {
                                        crate::memory::paging::mapper::lemma_held_kept(
                                            mem1,
                                            mem2,
                                            m,
                                            free1,
                                            allocator.free_frames(),
                                        );
                                    }
                                }
                            }
                        }
                        assert(present_entries_kept(mem0, mem2, free0)) by {
                            assert forall|c: int|
                                #![trigger mem0[c]]
                                crate::memory::paging::entry::word_present(mem0[c]) && c >= 0
                                    && !free0.contains((c / 512) as u64) implies mem2[c]
                                == mem0[c] by {
                                assert(mem1[c] == mem0[c]);
                            }
                        }
                        vstd::set_lib::lemma_len_subset(allocator.free_frames(), free1);
                        crate::memory::paging::mapper::lemma_new_entries_chain(
                            table0.memory(),
                            mem1,
                            mem2,
                            free0,
                            free1,
                        );
                    }
                    match mapped {
                        Ok(()) => {},
                        Err(e) => {
                            return Err(e);
                        },
                    }
                }
            }
            let ghost old_words = words@;
            let word = words[offset];
            words[offset] = word | entry;
            proof {
                assert forall|m: u64| frames_of(words@).contains(m) <==> (frames_of(
                    old_words,
                ).contains(m) || m == n) by {
                    if m / 64 == n / 64 {
                        lemma_bit_or(word, n % 64, m % 64);
                    }
                }
                assert(frames_of(words@) =~= frames_of(old_words).insert(n));
                vstd::set_lib::lemma_len_subset(allocator.free_frames(), before);
            }
        }
        proof {
            let mem = page_table.mapper.memory();
            assert forall|n: u64| free0.contains(n) implies frames_of(words@).contains(n)
                || #[trigger] referenced(mem, n) by {
                if !frames_of(words@).contains(n) {
                    crate::memory::paging::mapper::lemma_held_kept(
                        mem,
                        mem,
                        n,
                        allocator.free_frames(),
                        allocator.free_frames(),
                    );
                }
            }
        }
        Ok(FrameBitmap { words, current: 0 })
    }

    /// The number of frames that the bitmap has a bit for, as a number.
    pub fn frame_capacity(&self) -> (count: u64)
        ensures
            count == self.capacity(),
            forall|n: u64| self.free_frames().contains(n) ==> n < count,
            self.free_frames().finite(),
    {
        proof {
            use_type_invariant(self);
            self.lemma_free_below_capacity();
        }
        (self.words.len() as u64) * 64
    }

    /// Tells whether the frame is free.
    pub fn is_free(&self, frame: &Frame) -> (free: bool)
        ensures
            free == self.free_frames().contains(frame.number()),
    {
        proof {
            use_type_invariant(self);
        }
        let number = frame.index();
        let place = number / 64;
        if place >= self.words.len() as u64 {
            return false;
        }
        let word = self.words[place as usize];
        (word >> (number % 64)) & 1 == 1
    }

    /// Takes the frame out of the bitmap, so that it is not handed out. Tells
    /// whether the frame was free.
    pub fn reserve(&mut self, frame: &Frame) -> (was_free: bool)
        ensures
            was_free == old(self).free_frames().contains(frame.number()),
            final(self).free_frames() == old(self).free_frames().remove(frame.number()),
            final(self).words().len() == old(self).words().len(),
            final(self).cursor() == old(self).cursor(),
    {
        proof {
            use_type_invariant(&*self);
        }
        let ghost n = frame.number();
        let ghost old_words = self.words@;
        if !self.is_free(frame) {
            assert(self.free_frames().remove(n) =~= self.free_frames());
            return false;
        }
        let (place, entry) = bitmap_place(frame);
        let offset = place as usize;
        let word = self.words[offset];
        self.words[offset] = word & !entry;
        proof {
            assert forall|m: u64| frames_of(self.words@).contains(m) implies frames_of(
                old_words,
            ).remove(n).contains(m) by {
                if m / 64 == n / 64 {
                    lemma_bit_clear(word, n % 64, m % 64);
                }
            }
            assert forall|m: u64| frames_of(old_words).remove(n).contains(m) implies frames_of(
                self.words@,
            ).contains(m) by {
                if m / 64 == n / 64 {
                    lemma_bit_clear(word, n % 64, m % 64);
                }
            }
            assert(frames_of(self.words@) =~= frames_of(old_words).remove(n));
        }
        true
    }

    /// The region of virtual memory that the words of the bitmap lie in:
    /// from `BITMAP_BASE` to the last byte of the last word, writable. A bitmap
    /// without words has the region of its first byte.
    pub open spec fn vm_region_spec(self) -> Region {
        Region {
            name: "Bitmap",
            start: BITMAP_BASE,
            end: if self.words().len() == 0 {
                BITMAP_BASE
            } else {
                (BITMAP_BASE + self.words().len() * 8 - 1) as u64
            },
            protection: Protection::of(PROTECTION_WRITABLE),
        }
    }

    /// The region of virtual memory that the words of the bitmap lie in.
    pub fn vm_region(&self) -> (region: Region)
        ensures
            region == self.vm_region_spec(),
            region.name == "Bitmap",
            region.start == BITMAP_BASE,
            region.end == if self.words().len() == 0 {
                BITMAP_BASE as int
            } else {
                BITMAP_BASE + self.words().len() * 8 - 1
            },
            region.protection@ == PROTECTION_WRITABLE,
            region.is_interval(),
    {
        proof {
            use_type_invariant(self);
            assert(0x1u64 & 0x7 == 0x1) by (bit_vector);
        }
        let size = self.words.len() as u64;
        let end = if size == 0 {
            BITMAP_BASE
        } else {
            BITMAP_BASE + (size * 8 - 1)
        };
        Region::new("Bitmap", BITMAP_BASE, end, Protection::from_bits_truncate(PROTECTION_WRITABLE))
    }

    /// Every frame that is free has a bit in the bitmap, so that the free
    /// frames are finitely many.
    pub proof fn lemma_free_below_capacity(self)
        requires
            self.capacity() <= u64::MAX,
        ensures
            forall|n: u64| self.free_frames().contains(n) ==> n < self.capacity(),
            self.free_frames().finite(),
    {
        assert forall|n: u64| self.free_frames().contains(n) implies n < self.capacity() by {}
        crate::memory::lemma_bounded_frames_finite(self.free_frames(), self.capacity() as u64);
    }

    /// A bitmap with as many words as another has a bit for as many frames.
    pub proof fn lemma_capacity_kept(&self, other: &FrameBitmap)
        requires
            self.words().len() == other.words().len(),
        ensures
            self.capacity() == other.capacity(),
    {
    }
}

impl FrameAllocate for FrameBitmap {
    closed spec fn free_frames(&self) -> Set<u64> {
        frames_of(self.words@)
    }

    /// Searches the words for one with a free frame, from the cursor on and
    /// once around, and hands out the lowest frame of that word. The cursor
    /// stays at that word. Returns `None` where no word has a free frame.
    fn allocate_frame(&mut self) -> (frame: Option<Frame>)
        ensures
            final(self).words().len() == old(self).words().len(),
            match frame {
                Some(f) => {
                    &&& f.number() < old(self).capacity()
                    &&& final(self).cursor() == f.number() / 64
                    &&& forall|lower: u64|
                        lower < f.number() && lower / 64 == f.number() / 64
                            ==> !old(self).free_frames().contains(lower)
                    &&& forall|n: u64|
                        old(self).free_frames().contains(n) ==> !searched_before(
                            old(self).cursor(),
                            f.number() / 64,
                            n / 64,
                        )
                },
                None => final(self).cursor() == old(self).cursor(),
            },
    {
        proof {
            use_type_invariant(&*self);
        }
        let size = self.words.len();
        let start = self.current;
        let mut steps: usize = 0;
        let ghost mut wrapped = false;
        while steps < size
            invariant
                size == self.words@.len(),
                size <= BITMAP_WORDS,
                self.words@ == old(self).words@,
                start == old(self).current,
                start < size || size == 0,
                self.current < size || size == 0,
                steps <= size,
                !wrapped ==> self.current >= start && steps == self.current - start,
                wrapped ==> self.current <= start && steps == size - start + self.current,
                forall|i: int|
                    (if wrapped {
                        start <= i < size || 0 <= i < self.current
                    } else {
                        start <= i < self.current
                    }) ==> self.words@[i] == 0,
            decreases size - steps,
        {
            let index = self.current;
            let word = self.words[index];
            if word != 0 {
                let mut entry = word;
                let frame = get_frame(index, &mut entry);
                let ghost old_words = self.words@;
                self.words[index] = entry;
                proof {
                    let n = frame.number();
                    assert forall|m: u64| frames_of(self.words@).contains(m) <==> (frames_of(
                        old_words,
                    ).contains(m) && m != n) by {
                        if m / 64 == n / 64 {
                            lemma_bit_clear(word, n % 64, m % 64);
                        }
                    }
                    assert(frames_of(self.words@) =~= frames_of(old_words).remove(n));
                    assert forall|m: u64| frames_of(old_words).contains(m) implies !searched_before(
                        start,
                        n / 64,
                        m / 64,
                    ) by {
                        if searched_before(start, n / 64, m / 64) {
                            assert(old_words[(m / 64) as int] == 0);
                            lemma_bit_zero(m % 64);
                        }
                    }
                }
                return Some(frame);
            }
            if self.current + 1 == size {
                self.current = 0;
                proof {
                    wrapped = true;
                }
            } else {
                self.current = self.current + 1;
            }
            steps = steps + 1;
        }
        proof {
            assert forall|m: u64| !frames_of(self.words@).contains(m) by {
                if m / 64 < size {
                    assert(self.words@[(m / 64) as int] == 0);
                    lemma_bit_zero(m % 64);
                }
            }
            assert(frames_of(self.words@) =~= Set::<u64>::empty());
        }
        None
    }
}

impl FrameDeallocate for FrameBitmap {
    /// The bitmap takes every frame that it has a bit for.
    open spec fn accepts_all(&self, numbers: Set<u64>) -> bool {
        forall|n: u64| numbers.contains(n) ==> n < self.capacity()
    }

    proof fn lemma_accepts_fewer(&self, numbers: Set<u64>, fewer: Set<u64>) {
    }

    /// Sets the bit of the frame.
    fn deallocate_frame(&mut self, frame: Frame)
        ensures
            final(self).words().len() == old(self).words().len(),
            final(self).cursor() == old(self).cursor(),
    {
        proof {
            use_type_invariant(&*self);
            assert(set![frame.number()].contains(frame.number()));
        }
        let ghost n = frame.number();
        let (place, entry) = bitmap_place(&frame);
        proof {
            assert(set![n].contains(n));
            assert(n < self.capacity());
            assert(n / 64 < self.words@.len());
            assert(n % 64 < 64);
        }
        let offset = place as usize;
        let ghost old_words = self.words@;
        let word = self.words[offset];
        self.words[offset] = word | entry;
        proof {
            assert forall|m: u64| frames_of(self.words@).contains(m) <==> (frames_of(
                old_words,
            ).contains(m) || m == n) by {
                if m / 64 == n / 64 {
                    lemma_bit_or(word, n % 64, m % 64);
                }
            }
            assert(self.words@.len() == old_words.len());
            assert(self.words@[offset as int] == word | entry);
            assert(offset == n / 64);
            assert forall|m: u64| frames_of(old_words).insert(n).contains(m) implies frames_of(
                self.words@,
            ).contains(m) by {
                if m / 64 == n / 64 {
                    lemma_bit_or(word, n % 64, m % 64);
                }
            }
            assert forall|m: u64| frames_of(self.words@).contains(m) implies frames_of(
                old_words,
            ).insert(n).contains(m) by {
                if m / 64 == n / 64 {
                    lemma_bit_or(word, n % 64, m % 64);
                }
            }
            assert(frames_of(self.words@) =~= frames_of(old_words).insert(n));
            assert forall|rest: Set<u64>|
                #[trigger] old(self).accepts_all(rest.insert(n)) && !rest.contains(
                    n,
                ) implies self.accepts_all(rest) by {
                assert forall|m: u64| rest.contains(m) implies m < self.capacity() by {
                    assert(rest.insert(n).contains(m));
                }
            }
        }
    }
}

} // verus!
