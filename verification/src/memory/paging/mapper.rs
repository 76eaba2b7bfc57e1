//! The operations on the page table that the processor walks: translating
//! an address, mapping a page to a frame and unmapping it.
//!
//! The top-level table is reached through its own entry 510, which points
//! back at the table. Whatever that entry of the table in the root register
//! names is the table that the operations walk from, so that pointing the
//! entry at another table redirects them there.

use vstd::prelude::*;
use crate::memory::paging::entry::{
    entry_word,
    lemma_entry_word,
    lemma_flag_facts,
    lemma_has_huge,
    lemma_with_present,
    word_frame,
    word_huge,
    word_present,
    Entry,
    EntryFlags,
    HUGE_PAGE,
    PRESENT,
    WRITABLE,
};
use crate::memory::paging::table::{cell, child_table, zero_memory, zeroed, PhysicalMemory, Table};
use crate::memory::paging::{
    is_canonical,
    is_canonical_page,
    lemma_index_bounds,
    table_index,
    Mapping,
    Page,
    VirtualAddress,
    LOWER_HALF_PAGES,
};
use crate::memory::{
    Frame,
    FrameAllocate,
    FrameDeallocate,
    PhysicalAddress,
    FRAME_COUNT,
    PAGE_SIZE,
};
use crate::vmm::VmmError;

verus! {

/// The entry of the top-level table that points back at the table.
pub const RECURSIVE_INDEX: usize = 510;

/// The number of frames that a huge page of level 3 spans.
pub const HUGE_FRAMES: u64 = 0x40000;

/// The number of frames that a huge page of level 2 spans.
pub const LARGE_FRAMES: u64 = 0x200;

/// No frame of `free` is in use: none is the root, and no present entry in
/// memory names one.
pub open spec fn unreferenced(mem: Map<int, u64>, root: u64, free: Set<u64>) -> bool {
    &&& !free.contains(root)
    &&& forall|c: int| #![trigger mem[c]] word_present(mem[c]) ==> !free.contains(word_frame(mem[c]))
}

/// The place of the level-1 entry for the page with index `number`, where the
/// tables on the way to it exist; the walk starts at the table in `p4`.
pub open spec fn leaf_cell(mem: Map<int, u64>, p4: u64, number: u64) -> Option<int> {
    match child_table(mem, p4, table_index(number, 4) as int) {
        None => None,
        Some(p3) => match child_table(mem, p3, table_index(number, 3) as int) {
            None => None,
            Some(p2) => match child_table(mem, p2, table_index(number, 2) as int) {
                None => None,
                Some(p1) => Some(cell(p1, table_index(number, 1) as int)),
            },
        },
    }
}

/// Whether the page with index `number` cannot be mapped because something
/// is in its place: a huge page on the way to its level-1 entry, or a
/// level-1 entry that is in use.
pub open spec fn slot_taken(mem: Map<int, u64>, p4: u64, number: u64) -> bool {
    let w4 = mem[cell(p4, table_index(number, 4) as int)];
    match child_table(mem, p4, table_index(number, 4) as int) {
        None => word_present(w4),
        Some(p3) => {
            let w3 = mem[cell(p3, table_index(number, 3) as int)];
            match child_table(mem, p3, table_index(number, 3) as int) {
                None => word_present(w3),
                Some(p2) => {
                    let w2 = mem[cell(p2, table_index(number, 2) as int)];
                    match child_table(mem, p2, table_index(number, 2) as int) {
                        None => word_present(w2),
                        Some(p1) => mem[cell(p1, table_index(number, 1) as int)] != 0,
                    }
                },
            }
        },
    }
}

/// The index of the frame that the page with index `number` is mapped to,
/// walking from the table in `p4`: through a level-1 entry, or through a huge
/// page of level 3 or level 2. An entry that maps a huge page names a frame
/// that is aligned as the size of the page asks for, 1 GiB at level 3 and
/// 2 MiB at level 2; one that does not maps nothing.
pub open spec fn translate_in(mem: Map<int, u64>, p4: u64, number: u64) -> Option<u64> {
    let i3 = table_index(number, 3) as int;
    let i2 = table_index(number, 2) as int;
    let i1 = table_index(number, 1) as int;
    match child_table(mem, p4, table_index(number, 4) as int) {
        None => None,
        Some(p3) => {
            let w3 = mem[cell(p3, i3)];
            if !word_present(w3) {
                None
            } else if word_huge(w3) {
                if word_frame(w3) % HUGE_FRAMES == 0 {
                    Some((word_frame(w3) + i2 * 512 + i1) as u64)
                } else {
                    None
                }
            } else {
                let w2 = mem[cell(word_frame(w3), i2)];
                if !word_present(w2) {
                    None
                } else if word_huge(w2) {
                    if word_frame(w2) % LARGE_FRAMES == 0 {
                        Some((word_frame(w2) + i1) as u64)
                    } else {
                        None
                    }
                } else {
                    let w1 = mem[cell(word_frame(w2), i1)];
                    if word_present(w1) {
                        Some(word_frame(w1))
                    } else {
                        None
                    }
                }
            }
        },
    }
}

/// The page with index `number` is mapped through a level-1 entry, which
/// names the given frame.
pub open spec fn mapped_small(mem: Map<int, u64>, p4: u64, number: u64) -> Option<u64> {
    match leaf_cell(mem, p4, number) {
        Some(c) => if word_present(mem[c]) {
            Some(word_frame(mem[c]))
        } else {
            None
        },
        None => None,
    }
}

/// A page in whose place nothing stands is not mapped.
pub proof fn lemma_free_slot_unmapped(mem: Map<int, u64>, p4: u64, number: u64)
    requires
        !slot_taken(mem, p4, number),
    ensures
        translate_in(mem, p4, number) is None,
{
    lemma_flag_facts();
}

/// A page that is mapped through a level-1 entry translates to the frame
/// that the entry names.
pub proof fn lemma_small_mapping_translates(mem: Map<int, u64>, p4: u64, number: u64)
    ensures
        mapped_small(mem, p4, number) is Some ==> translate_in(mem, p4, number) == mapped_small(
            mem,
            p4,
            number,
        ),
        leaf_cell(mem, p4, number) is Some && mapped_small(mem, p4, number) is None
            ==> translate_in(mem, p4, number) is None,
{
}

/// Between `before` and `after`, every present entry kept its word, unless
/// it lies in a frame that was free.
pub open spec fn present_entries_kept(
    before: Map<int, u64>,
    after: Map<int, u64>,
    free: Set<u64>,
) -> bool {
    forall|c: int|
        #![trigger before[c]]
        word_present(before[c]) && c >= 0 && !free.contains((c / 512) as u64) ==> after[c]
            == before[c]
}

/// Between `before` and `after`, no entry became present but the one at
/// `place`.
pub open spec fn present_only_at(before: Map<int, u64>, after: Map<int, u64>, place: int) -> bool {
    forall|c: int|
        #![trigger after[c]]
        word_present(after[c]) && c != place ==> after[c] == before[c]
}

/// Every entry that is present in `after` was there before, or names a frame
/// that was free, or is the one at `leaf`.
pub open spec fn new_entries_name(
    before: Map<int, u64>,
    after: Map<int, u64>,
    free: Set<u64>,
    leaf: Option<int>,
) -> bool {
    forall|c: int|
        #![trigger after[c]]
        word_present(after[c]) ==> after[c] == before[c] || free.contains(word_frame(after[c]))
            || leaf == Some(c)
}

/// Outside the cells of `except`, no two present entries name the same
/// frame: every frame is referred to once at most.
pub open spec fn unique_except(mem: Map<int, u64>, except: Set<int>) -> bool {
    forall|c1: int, c2: int|
        #![trigger mem[c1], mem[c2]]
        c1 != c2 && !except.contains(c1) && !except.contains(c2) && word_present(mem[c1])
            && word_present(mem[c2]) ==> word_frame(mem[c1]) != word_frame(mem[c2])
}

/// Outside the cells of `except`, no present entry names the frame.
pub open spec fn unnamed_outside(mem: Map<int, u64>, except: Set<int>, frame: u64) -> bool {
    forall|c: int|
        #![trigger mem[c]]
        word_present(mem[c]) && !except.contains(c) ==> word_frame(mem[c]) != frame
}

/// Some present entry names the frame.
pub open spec fn referenced(mem: Map<int, u64>, frame: u64) -> bool {
    exists|c: int| word_present(#[trigger] mem[c]) && word_frame(mem[c]) == frame
}

/// Some present entry names the frame, in a table whose own frame is not
/// free.
pub open spec fn held(mem: Map<int, u64>, frame: u64, free: Set<u64>) -> bool {
    exists|c: int|
        c >= 0 && word_present(#[trigger] mem[c]) && word_frame(mem[c]) == frame && !free.contains(
            (c / 512) as u64,
        )
}

/// A frame that is held stays held while the present entries are kept.
pub proof fn lemma_held_kept(
    before: Map<int, u64>,
    after: Map<int, u64>,
    frame: u64,
    free_before: Set<u64>,
    free_after: Set<u64>,
)
    requires
        held(before, frame, free_before),
        present_entries_kept(before, after, free_before),
        free_after.subset_of(free_before),
    ensures
        held(after, frame, free_after),
        referenced(after, frame),
{
    let c = choose|c: int|
        c >= 0 && word_present(#[trigger] before[c]) && word_frame(before[c]) == frame
            && !free_before.contains((c / 512) as u64);
    assert(after[c] == before[c]);
}

/// No two present entries name the same frame: every frame is referred to
/// once at most.
pub open spec fn unique_references(mem: Map<int, u64>) -> bool {
    unique_except(mem, Set::empty())
}

/// New entries that name free frames, twice in a row, are new entries
/// that name frames that were free at the start.
pub proof fn lemma_new_entries_chain(
    first: Map<int, u64>,
    second: Map<int, u64>,
    third: Map<int, u64>,
    free_first: Set<u64>,
    free_second: Set<u64>,
)
    requires
        new_entries_name(first, second, free_first, None),
        new_entries_name(second, third, free_second, None),
        free_second.subset_of(free_first),
    ensures
        new_entries_name(first, third, free_first, None),
{
    assert forall|c: int| #![trigger third[c]] word_present(third[c]) implies third[c] == first[c]
        || free_first.contains(word_frame(third[c])) by {
        if third[c] == second[c] {
            assert(word_present(second[c]));
        }
    }
}

/// Making a free frame the table that an absent entry points to keeps the
/// memory in order: the frames that are still free stay unreferenced, and
/// the entries that were present are untouched.
pub proof fn lemma_table_created(
    mem: Map<int, u64>,
    root: u64,
    free: Set<u64>,
    parent: u64,
    index: int,
    frame: u64,
)
    requires
        unreferenced(mem, root, free),
        free.contains(frame),
        !free.contains(parent),
        !word_present(mem[cell(parent, index)]),
        0 <= index < 512,
        frame < FRAME_COUNT,
    ensures
        ({
            let after = zeroed(
                mem.insert(cell(parent, index), entry_word(frame, PRESENT | WRITABLE)),
                frame,
            );
            &&& unreferenced(after, root, free.remove(frame))
            &&& present_entries_kept(mem, after, free)
            &&& present_only_at(mem, after, cell(parent, index))
            &&& new_entries_name(mem, after, free, None)
            &&& forall|e: Set<int>| #[trigger] unique_except(mem, e) ==> unique_except(after, e)
            &&& after[cell(parent, index)] == entry_word(frame, PRESENT | WRITABLE)
            &&& child_table(after, parent, index) == Some(frame)
            &&& forall|i: int| 0 <= i < 512 ==> #[trigger] after[cell(frame, i)] == 0
        }),
{
    lemma_flag_facts();
    lemma_entry_word(frame, PRESENT | WRITABLE);
    let written = mem.insert(cell(parent, index), entry_word(frame, PRESENT | WRITABLE));
    let after = zeroed(written, frame);
    assert(parent != frame);
    assert forall|c: int| #![trigger after[c]] word_present(after[c]) implies !free.remove(
        frame,
    ).contains(word_frame(after[c])) by {
        if c != cell(parent, index) {
            assert(after[c] == mem[c]);
        }
    }
    assert forall|c: int|
        #![trigger mem[c]]
        word_present(mem[c]) && c >= 0 && !free.contains((c / 512) as u64) implies after[c]
        == mem[c] by {
        if cell(frame, 0) <= c < cell(frame, 512) {
            assert(c / 512 == frame);
        }
    }
    assert forall|c: int|
        #![trigger after[c]]
        word_present(after[c]) && c != cell(parent, index) implies after[c] == mem[c] by {}
    assert forall|c: int| #![trigger after[c]] word_present(after[c]) implies after[c] == mem[c]
        || free.contains(word_frame(after[c])) by {
        if c != cell(parent, index) {
            assert(after[c] == mem[c]);
        }
    }
    assert forall|e: Set<int>| #[trigger] unique_except(mem, e) implies unique_except(after, e) by {
        assert forall|c1: int, c2: int|
            #![trigger after[c1], after[c2]]
            c1 != c2 && !e.contains(c1) && !e.contains(c2) && word_present(after[c1])
                && word_present(after[c2]) implies word_frame(after[c1]) != word_frame(
            after[c2],
        ) by {
            if c1 != cell(parent, index) {
                assert(after[c1] == mem[c1]);
            }
            if c2 != cell(parent, index) {
                assert(after[c2] == mem[c2]);
            }
        }
    }
}

/// Where the present entries were kept and the frames in use were not free,
/// a page that was mapped is still mapped to the same frame.
pub proof fn lemma_translation_kept(
    before: Map<int, u64>,
    after: Map<int, u64>,
    root: u64,
    free: Set<u64>,
    p4: u64,
    number: u64,
)
    requires
        unreferenced(before, root, free),
        present_entries_kept(before, after, free),
        !free.contains(p4),
        translate_in(before, p4, number) is Some,
    ensures
        translate_in(after, p4, number) == translate_in(before, p4, number),
{
    let i4 = table_index(number, 4) as int;
    let i3 = table_index(number, 3) as int;
    let i2 = table_index(number, 2) as int;
    let i1 = table_index(number, 1) as int;
    lemma_index_bounds(number);
    let w4 = before[cell(p4, i4)];
    assert(cell(p4, i4) / 512 == p4);
    assert(after[cell(p4, i4)] == w4);
    let p3 = word_frame(w4);
    let w3 = before[cell(p3, i3)];
    assert(cell(p3, i3) / 512 == p3);
    assert(after[cell(p3, i3)] == w3);
    if !word_huge(w3) {
        let p2 = word_frame(w3);
        let w2 = before[cell(p2, i2)];
        assert(cell(p2, i2) / 512 == p2);
        assert(after[cell(p2, i2)] == w2);
        if !word_huge(w2) {
            let p1 = word_frame(w2);
            let w1 = before[cell(p1, i1)];
            assert(cell(p1, i1) / 512 == p1);
            assert(after[cell(p1, i1)] == w1);
        }
    }
}

/// After a frame that nothing referred to was mapped at a page, the table in
/// that frame can be zeroed and given its own entry 510 without harm to the
/// active table or to the mapping of the page.
pub proof fn lemma_table_frame_initialised(
    mem0: Map<int, u64>,
    mem1: Map<int, u64>,
    mem2: Map<int, u64>,
    root: u64,
    free0: Set<u64>,
    number: u64,
    frame: u64,
)
    requires
        child_table(mem1, root, RECURSIVE_INDEX as int) == Some(root),
        unreferenced(mem0, root, set![frame]),
        !free0.contains(frame),
        frame < FRAME_COUNT,
        leaf_cell(mem1, root, number) is Some,
        new_entries_name(mem0, mem1, free0, leaf_cell(mem1, root, number)),
        word_present(mem1[leaf_cell(mem1, root, number)->Some_0]),
        word_frame(mem1[leaf_cell(mem1, root, number)->Some_0]) == frame,
        leaf_cell(mem1.insert(leaf_cell(mem1, root, number)->Some_0, 0), root, number)
            == leaf_cell(mem1, root, number),
        mem2 == zeroed(mem1, frame).insert(
            cell(frame, RECURSIVE_INDEX as int),
            entry_word(frame, PRESENT | WRITABLE),
        ),
    ensures
        child_table(mem2, root, RECURSIVE_INDEX as int) == Some(root),
        child_table(mem2, frame, RECURSIVE_INDEX as int) == Some(frame),
        leaf_cell(mem2, root, number) == leaf_cell(mem1, root, number),
        leaf_cell(mem2.insert(leaf_cell(mem1, root, number)->Some_0, 0), root, number) == leaf_cell(
            mem1,
            root,
            number,
        ),
        mem2[leaf_cell(mem1, root, number)->Some_0] == mem1[leaf_cell(mem1, root, number)->Some_0],
        leaf_cell(mem1, root, number)->Some_0 != cell(root, RECURSIVE_INDEX as int),
        leaf_cell(mem1, root, number)->Some_0 != cell(frame, RECURSIVE_INDEX as int),
        forall|i: int|
            0 <= i < 512 && i != RECURSIVE_INDEX ==> #[trigger] mem2[cell(frame, i)] == 0,
{
    lemma_flag_facts();
    lemma_entry_word(frame, PRESENT | WRITABLE);
    lemma_index_bounds(number);
    assert(set![frame].contains(frame));
    let leaf = leaf_cell(mem1, root, number)->Some_0;
    let cleared = mem1.insert(leaf, 0);
    let i4 = table_index(number, 4) as int;
    let i3 = table_index(number, 3) as int;
    let i2 = table_index(number, 2) as int;
    let i1 = table_index(number, 1) as int;
    let c4 = cell(root, i4);
    assert(c4 != leaf) by {
        if c4 == leaf {
            assert(cleared[c4] == 0);
        }
    }
    let p3 = word_frame(mem1[c4]);
    assert(p3 != frame);
    let c3 = cell(p3, i3);
    assert(cleared[c4] == mem1[c4]);
    assert(c3 != leaf) by {
        if c3 == leaf {
            assert(cleared[c3] == 0);
        }
    }
    let p2 = word_frame(mem1[c3]);
    assert(p2 != frame);
    let c2 = cell(p2, i2);
    assert(cleared[c3] == mem1[c3]);
    assert(c2 != leaf) by {
        if c2 == leaf {
            assert(cleared[c2] == 0);
        }
    }
    let p1 = word_frame(mem1[c2]);
    assert(p1 != frame);
    assert(leaf == cell(p1, i1));
    assert(mem2[c4] == mem1[c4]);
    assert(mem2[c3] == mem1[c3]);
    assert(mem2[c2] == mem1[c2]);
    assert(mem2[leaf] == mem1[leaf]);
    assert(mem2[cell(root, 510)] == mem1[cell(root, 510)]);
    let wiped = mem2.insert(leaf, 0);
    assert(wiped[c4] == mem1[c4] && wiped[c3] == mem1[c3] && wiped[c2] == mem1[c2]);
}

/// The places of the four entries that the walk for the page with index
/// `number` reads, from the top-level table in `p4` down, where the tables on
/// the way exist.
pub open spec fn walk_cells(mem: Map<int, u64>, p4: u64, number: u64) -> Seq<int> {
    let c4 = cell(p4, table_index(number, 4) as int);
    let c3 = cell(word_frame(mem[c4]), table_index(number, 3) as int);
    let c2 = cell(word_frame(mem[c3]), table_index(number, 2) as int);
    let c1 = cell(word_frame(mem[c2]), table_index(number, 1) as int);
    seq![c4, c3, c2, c1]
}

/// Nothing but the entry 510 of the table in `root` refers to that table.
pub open spec fn root_referenced_once(mem: Map<int, u64>, root: u64) -> bool {
    forall|c: int|
        #![trigger mem[c]]
        word_present(mem[c]) && c != cell(root, RECURSIVE_INDEX as int) ==> word_frame(mem[c])
            != root
}

/// A page whose walk reads the same four entries in two memories is mapped
/// through the same level-1 entry in both.
pub proof fn lemma_walk_same(before: Map<int, u64>, after: Map<int, u64>, p4: u64, number: u64)
    requires
        leaf_cell(before, p4, number) is Some,
        forall|k: int|
            0 <= k < 4 ==> after[#[trigger] walk_cells(before, p4, number)[k]] == before[walk_cells(
                before,
                p4,
                number,
            )[k]],
    ensures
        leaf_cell(after, p4, number) == leaf_cell(before, p4, number),
        walk_cells(after, p4, number) == walk_cells(before, p4, number),
        mapped_small(after, p4, number) == mapped_small(before, p4, number),
        leaf_cell(before, p4, number) == Some(walk_cells(before, p4, number)[3]),
{
    let w = walk_cells(before, p4, number);
    assert(after[w[0]] == before[w[0]]);
    assert(after[w[1]] == before[w[1]]);
    assert(after[w[2]] == before[w[2]]);
    assert(after[w[3]] == before[w[3]]);
    assert(walk_cells(after, p4, number) =~= w);
}

/// A page whose walk reads the same three entries above level 1 in two
/// memories has its level-1 entry at the same place in both.
pub proof fn lemma_leaf_same(before: Map<int, u64>, after: Map<int, u64>, p4: u64, number: u64)
    requires
        leaf_cell(before, p4, number) is Some,
        forall|k: int|
            0 <= k < 3 ==> after[#[trigger] walk_cells(before, p4, number)[k]] == before[walk_cells(
                before,
                p4,
                number,
            )[k]],
    ensures
        leaf_cell(after, p4, number) == leaf_cell(before, p4, number),
        walk_cells(after, p4, number) == walk_cells(before, p4, number),
{
    let w = walk_cells(before, p4, number);
    assert(after[w[0]] == before[w[0]]);
    assert(after[w[1]] == before[w[1]]);
    assert(after[w[2]] == before[w[2]]);
    assert(walk_cells(after, p4, number) =~= w);
}

/// After a page outside the recursive region was mapped in the active
/// table, whose root nothing else referred to, the walk for the page reads
/// none of the root's entry 510, and the tables it goes through are in use.
pub proof fn lemma_temporary_walk(
    mem0: Map<int, u64>,
    mem1: Map<int, u64>,
    root: u64,
    free0: Set<u64>,
    number: u64,
    others: Set<u64>,
)
    requires
        table_index(number, 4) != RECURSIVE_INDEX,
        root_referenced_once(mem0, root),
        !free0.contains(root),
        unreferenced(mem1, root, others),
        leaf_cell(mem1, root, number) is Some,
        new_entries_name(mem0, mem1, free0, leaf_cell(mem1, root, number)),
        word_present(mem1[leaf_cell(mem1, root, number)->Some_0]),
        leaf_cell(mem1.insert(leaf_cell(mem1, root, number)->Some_0, 0), root, number)
            == leaf_cell(mem1, root, number),
    ensures
        leaf_cell(mem1, root, number) == Some(walk_cells(mem1, root, number)[3]),
        forall|k: int|
            0 <= k < 4 ==> {
                &&& (#[trigger] walk_cells(mem1, root, number)[k]) != cell(
                    root,
                    RECURSIVE_INDEX as int,
                )
                &&& walk_cells(mem1, root, number)[k] >= 0
                &&& !others.contains((walk_cells(mem1, root, number)[k] / 512) as u64)
                &&& word_present(mem1[walk_cells(mem1, root, number)[k]])
            },
{
    lemma_index_bounds(number);
    let w = walk_cells(mem1, root, number);
    let leaf = leaf_cell(mem1, root, number)->Some_0;
    let cleared = mem1.insert(leaf, 0);
    lemma_flag_facts();
    assert(w[0] != leaf) by {
        if w[0] == leaf {
            assert(cleared[w[0]] == 0);
        }
    }
    assert(cleared[w[0]] == mem1[w[0]]);
    let p3 = word_frame(mem1[w[0]]);
    assert(p3 != root);
    assert(w[1] != leaf) by {
        if w[1] == leaf {
            assert(cleared[w[1]] == 0);
        }
    }
    assert(cleared[w[1]] == mem1[w[1]]);
    let p2 = word_frame(mem1[w[1]]);
    assert(p2 != root);
    assert(w[2] != leaf) by {
        if w[2] == leaf {
            assert(cleared[w[2]] == 0);
        }
    }
    let p1 = word_frame(mem1[w[2]]);
    assert(p1 != root);
    assert(w[0] / 512 == root);
    assert(w[1] / 512 == p3);
    assert(w[2] / 512 == p2);
    assert(w[3] / 512 == p1);
}

/// No two of the requests ask for the same frame at different pages.
pub open spec fn consistent(mappings: Seq<Mapping>) -> bool {
    forall|j: int, k: int|
        #![trigger mappings[j], mappings[k]]
        0 <= j < mappings.len() && 0 <= k < mappings.len() && mappings[j].frame.number()
            == mappings[k].frame.number() ==> mappings[j].page.number()
            == mappings[k].page.number()
}

/// Outside the cells of `except`, no present entry names a frame that one
/// of the requests asks for.
pub open spec fn all_unnamed(mem: Map<int, u64>, except: Set<int>, mappings: Seq<Mapping>) -> bool {
    forall|j: int|
        0 <= j < mappings.len() ==> unnamed_outside(
            mem,
            except,
            (#[trigger] mappings[j]).frame.number(),
        )
}

/// Every entry that is present in `after` was there before, or names a frame
/// that was free, or names the frame of one of the first `done` requests that
/// was carried out.
pub open spec fn entries_accounted(
    before: Map<int, u64>,
    after: Map<int, u64>,
    free: Set<u64>,
    mappings: Seq<Mapping>,
    results: Seq<Result<(), VmmError>>,
    done: int,
) -> bool {
    forall|c: int|
        #![trigger after[c]]
        word_present(after[c]) ==> after[c] == before[c] || free.contains(word_frame(after[c]))
            || exists|k: int|
            0 <= k < done && (#[trigger] results[k]) is Ok && mappings[k].frame.number()
                == word_frame(after[c])
}

/// The table of level 3 on the walk for the page with index `number`, where
/// the walk gets that far.
pub open spec fn table3(mem: Map<int, u64>, root: u64, number: u64) -> Option<u64> {
    child_table(mem, root, table_index(number, 4) as int)
}

/// The table of level 2 on the walk for the page with index `number`, where
/// the walk gets that far.
pub open spec fn table2(mem: Map<int, u64>, root: u64, number: u64) -> Option<u64> {
    match table3(mem, root, number) {
        Some(table) => child_table(mem, table, table_index(number, 3) as int),
        None => None,
    }
}

/// The table of level 1 on the walk for the page with index `number`, where
/// the walk gets that far.
pub open spec fn table1(mem: Map<int, u64>, root: u64, number: u64) -> Option<u64> {
    match table2(mem, root, number) {
        Some(table) => child_table(mem, table, table_index(number, 2) as int),
        None => None,
    }
}

/// Two pages select the same entry at every level.
pub open spec fn same_place(a: u64, b: u64) -> bool {
    &&& table_index(a, 4) == table_index(b, 4)
    &&& table_index(a, 3) == table_index(b, 3)
    &&& table_index(a, 2) == table_index(b, 2)
    &&& table_index(a, 1) == table_index(b, 1)
}

/// Where no frame is referred to twice, the tables form a tree below the
/// top-level table: on the walks for two pages outside the recursive
/// region, a table of one level is never a table of another level, nor the
/// top-level table, and two walks that reach the same table chose the same
/// entries on the way.
pub proof fn lemma_tables_apart(mem: Map<int, u64>, root: u64, a: u64, b: u64)
    requires
        unique_references(mem),
        child_table(mem, root, RECURSIVE_INDEX as int) == Some(root),
        table_index(a, 4) != RECURSIVE_INDEX,
        table_index(b, 4) != RECURSIVE_INDEX,
    ensures
        table3(mem, root, a) != Some(root),
        table2(mem, root, a) != Some(root),
        table1(mem, root, a) != Some(root),
        table3(mem, root, a) is Some ==> {
            &&& table3(mem, root, a) == table3(mem, root, b) ==> table_index(a, 4) == table_index(
                b,
                4,
            )
            &&& table3(mem, root, a) != table2(mem, root, b)
            &&& table3(mem, root, a) != table1(mem, root, b)
        },
        table2(mem, root, a) is Some ==> {
            &&& table2(mem, root, a) != table3(mem, root, b)
            &&& table2(mem, root, a) == table2(mem, root, b) ==> table_index(a, 4) == table_index(
                b,
                4,
            ) && table_index(a, 3) == table_index(b, 3)
            &&& table2(mem, root, a) != table1(mem, root, b)
        },
        table1(mem, root, a) is Some ==> {
            &&& table1(mem, root, a) != table3(mem, root, b)
            &&& table1(mem, root, a) != table2(mem, root, b)
            &&& table1(mem, root, a) == table1(mem, root, b) ==> table_index(a, 4) == table_index(
                b,
                4,
            ) && table_index(a, 3) == table_index(b, 3) && table_index(a, 2) == table_index(b, 2)
        },
{
    lemma_index_bounds(a);
    lemma_index_bounds(b);
    let own = cell(root, RECURSIVE_INDEX as int);
    let a4 = cell(root, table_index(a, 4) as int);
    let b4 = cell(root, table_index(b, 4) as int);
    assert(word_present(mem[own]) && word_frame(mem[own]) == root);
    // a present entry that names the top-level table is its own entry 510
    assert forall|c: int| word_present(#[trigger] mem[c]) && word_frame(mem[c]) == root implies c
        == own by {
        if c != own {
            assert(word_frame(mem[c]) != word_frame(mem[own]));
        }
    }
    // two present entries that name the same frame are one entry
    assert forall|c1: int, c2: int|
        word_present(#[trigger] mem[c1]) && word_present(#[trigger] mem[c2]) && word_frame(mem[c1])
            == word_frame(mem[c2]) implies c1 == c2 by {}
    assert(table3(mem, root, a) != Some(root)) by {
        if table3(mem, root, a) == Some(root) {
            assert(word_present(mem[a4]));
            assert(a4 == own);
        }
    }
    assert(table3(mem, root, b) != Some(root)) by {
        if table3(mem, root, b) == Some(root) {
            assert(word_present(mem[b4]));
            assert(b4 == own);
        }
    }
    if table3(mem, root, a) is Some {
        let ta3 = table3(mem, root, a)->Some_0;
        let a3 = cell(ta3, table_index(a, 3) as int);
        if table2(mem, root, a) is Some {
            let ta2 = table2(mem, root, a)->Some_0;
            let a2 = cell(ta2, table_index(a, 2) as int);
            assert(word_present(mem[a3]) && word_frame(mem[a3]) == ta2);
            if ta2 == root {
                assert(a3 == own);
                assert(ta3 == root);
            }
            if table1(mem, root, a) is Some {
                let ta1 = table1(mem, root, a)->Some_0;
                assert(word_present(mem[a2]) && word_frame(mem[a2]) == ta1);
                if ta1 == root {
                    assert(a2 == own);
                    assert(ta2 == root);
                }
            }
        }
    }
    if table3(mem, root, b) is Some {
        let tb3 = table3(mem, root, b)->Some_0;
        let b3 = cell(tb3, table_index(b, 3) as int);
        assert(word_present(mem[b4]) && word_frame(mem[b4]) == tb3);
        if table2(mem, root, b) is Some {
            let tb2 = table2(mem, root, b)->Some_0;
            let b2 = cell(tb2, table_index(b, 2) as int);
            assert(word_present(mem[b3]) && word_frame(mem[b3]) == tb2);
            if tb2 == root {
                assert(b3 == own);
                assert(tb3 == root);
            }
            if table1(mem, root, b) is Some {
                let tb1 = table1(mem, root, b)->Some_0;
                assert(word_present(mem[b2]) && word_frame(mem[b2]) == tb1);
                if tb1 == root {
                    assert(b2 == own);
                    assert(tb2 == root);
                }
            }
        }
    }
    if table3(mem, root, a) is Some {
        let ta3 = table3(mem, root, a)->Some_0;
        let a3 = cell(ta3, table_index(a, 3) as int);
        assert(word_present(mem[a4]) && word_frame(mem[a4]) == ta3);
        if table3(mem, root, b) is Some {
            let tb3 = table3(mem, root, b)->Some_0;
            let b3 = cell(tb3, table_index(b, 3) as int);
            if ta3 == tb3 {
                assert(a4 == b4);
            }
            if table2(mem, root, b) is Some {
                let tb2 = table2(mem, root, b)->Some_0;
                let b2 = cell(tb2, table_index(b, 2) as int);
                if ta3 == tb2 {
                    assert(a4 == b3);
                    assert(tb3 == root);
                }
                if table1(mem, root, b) is Some {
                    let tb1 = table1(mem, root, b)->Some_0;
                    if ta3 == tb1 {
                        assert(a4 == b2);
                        assert(tb2 == root);
                    }
                }
            }
        }
        if table2(mem, root, a) is Some {
            let ta2 = table2(mem, root, a)->Some_0;
            let a2 = cell(ta2, table_index(a, 2) as int);
            if table3(mem, root, b) is Some {
                let tb3 = table3(mem, root, b)->Some_0;
                let b3 = cell(tb3, table_index(b, 3) as int);
                if ta2 == tb3 {
                    assert(a3 == b4);
                    assert(ta3 == root);
                }
                if table2(mem, root, b) is Some {
                    let tb2 = table2(mem, root, b)->Some_0;
                    let b2 = cell(tb2, table_index(b, 2) as int);
                    if ta2 == tb2 {
                        assert(a3 == b3);
                        assert(ta3 == tb3);
                        assert(a4 == b4);
                    }
                    if table1(mem, root, b) is Some {
                        let tb1 = table1(mem, root, b)->Some_0;
                        if ta2 == tb1 {
                            assert(a3 == b2);
                            assert(ta3 == tb2);
                            assert(a4 == b3);
                        }
                    }
                }
            }
            if table1(mem, root, a) is Some {
                let ta1 = table1(mem, root, a)->Some_0;
                if table3(mem, root, b) is Some {
                    let tb3 = table3(mem, root, b)->Some_0;
                    let b3 = cell(tb3, table_index(b, 3) as int);
                    if ta1 == tb3 {
                        assert(a2 == b4);
                        assert(ta2 == root);
                    }
                    if table2(mem, root, b) is Some {
                        let tb2 = table2(mem, root, b)->Some_0;
                        let b2 = cell(tb2, table_index(b, 2) as int);
                        if ta1 == tb2 {
                            assert(a2 == b3);
                            assert(ta2 == tb3);
                            assert(a3 == b4);
                        }
                        if table1(mem, root, b) is Some {
                            let tb1 = table1(mem, root, b)->Some_0;
                            if ta1 == tb1 {
                                assert(a2 == b2);
                                assert(ta2 == tb2);
                                assert(a3 == b3);
                                assert(ta3 == tb3);
                                assert(a4 == b4);
                            }
                        }
                    }
                }
            }
        }
    }
}

/// The flags of the level-1 entry that the page with index `number` is
/// mapped through, where it is mapped through one.
pub open spec fn mapped_flags(mem: Map<int, u64>, p4: u64, number: u64) -> Option<u64> {
    match leaf_cell(mem, p4, number) {
        Some(c) => if word_present(mem[c]) {
            Some(crate::memory::paging::entry::word_flags(mem[c]))
        } else {
            None
        },
        None => None,
    }
}

/// Where the present entries were kept and the frames in use were not free,
/// a page that was mapped through a level-1 entry is still mapped through it,
/// to the same frame and with the same flags.
pub proof fn lemma_small_mapping_kept(
    before: Map<int, u64>,
    after: Map<int, u64>,
    root: u64,
    free: Set<u64>,
    p4: u64,
    number: u64,
)
    requires
        unreferenced(before, root, free),
        present_entries_kept(before, after, free),
        !free.contains(p4),
        mapped_small(before, p4, number) is Some,
    ensures
        leaf_cell(after, p4, number) == leaf_cell(before, p4, number),
        mapped_small(after, p4, number) == mapped_small(before, p4, number),
        mapped_flags(after, p4, number) == mapped_flags(before, p4, number),
{
    let i4 = table_index(number, 4) as int;
    let i3 = table_index(number, 3) as int;
    let i2 = table_index(number, 2) as int;
    let i1 = table_index(number, 1) as int;
    lemma_index_bounds(number);
    let w4 = before[cell(p4, i4)];
    assert(cell(p4, i4) / 512 == p4);
    assert(after[cell(p4, i4)] == w4);
    let p3 = word_frame(w4);
    let w3 = before[cell(p3, i3)];
    assert(cell(p3, i3) / 512 == p3);
    assert(after[cell(p3, i3)] == w3);
    let p2 = word_frame(w3);
    let w2 = before[cell(p2, i2)];
    assert(cell(p2, i2) / 512 == p2);
    assert(after[cell(p2, i2)] == w2);
    let p1 = word_frame(w2);
    let w1 = before[cell(p1, i1)];
    assert(cell(p1, i1) / 512 == p1);
    assert(after[cell(p1, i1)] == w1);
}

/// Two pages with canonical addresses that select the same entry at every
/// level are one page.
pub proof fn lemma_same_place_same_page(a: u64, b: u64)
    requires
        is_canonical_page(a as int),
        is_canonical_page(b as int),
        same_place(a, b),
    ensures
        a == b,
{
    lemma_index_bounds(a);
    lemma_index_bounds(b);
    assert(a == b) by (bit_vector)
        requires
            a < 0x8_0000_0000u64 || (0xf_fff8_0000_0000u64 <= a && a < 0x10_0000_0000_0000u64),
            b < 0x8_0000_0000u64 || (0xf_fff8_0000_0000u64 <= b && b < 0x10_0000_0000_0000u64),
            (a >> 27) & 0o777 == (b >> 27) & 0o777,
            (a >> 18) & 0o777 == (b >> 18) & 0o777,
            (a >> 9) & 0o777 == (b >> 9) & 0o777,
            a & 0o777 == b & 0o777,
    ;
}

/// Between `before` and `after`, nothing happened to the pages outside the
/// recursive region that do not select the entries that the page with index
/// `number` selects: none of them became mapped or was mapped anew, and
/// nothing was put in the place of one.
pub open spec fn others_kept(
    before: Map<int, u64>,
    after: Map<int, u64>,
    root: u64,
    number: u64,
) -> bool {
    forall|other: u64|
        #![trigger same_place(other, number)]
        table_index(other, 4) != RECURSIVE_INDEX && !same_place(other, number) ==> {
            &&& translate_in(after, root, other) is Some ==> translate_in(before, root, other)
                == translate_in(after, root, other)
            &&& slot_taken(after, root, other) ==> slot_taken(before, root, other)
        }
}

/// Making a table on the walk for a page keeps the pages apart from it as
/// they were, where no frame is referred to twice.
pub proof fn lemma_table_keeps_others(
    before: Map<int, u64>,
    after: Map<int, u64>,
    root: u64,
    parent: u64,
    index: int,
    frame: u64,
    number: u64,
)
    requires
        after == zeroed(
            before.insert(cell(parent, index), entry_word(frame, PRESENT | WRITABLE)),
            frame,
        ),
        !word_present(before[cell(parent, index)]),
        0 <= index < 512,
        frame < FRAME_COUNT,
        frame != root,
        frame != parent,
        forall|c: int| word_present(#[trigger] before[c]) ==> word_frame(before[c]) != frame,
        unique_references(after),
        child_table(after, root, RECURSIVE_INDEX as int) == Some(root),
        table_index(number, 4) != RECURSIVE_INDEX,
        parent == root || table3(after, root, number) == Some(parent) || table2(
            after,
            root,
            number,
        ) == Some(parent),
    ensures
        others_kept(before, after, root, number),
{
    assert forall|other: u64|
        #![trigger same_place(other, number)]
        table_index(other, 4) != RECURSIVE_INDEX && !same_place(other, number) implies (
    translate_in(after, root, other) is Some ==> translate_in(before, root, other) == translate_in(
        after,
        root,
        other,
    )) && (slot_taken(after, root, other) ==> slot_taken(before, root, other)) by {
        lemma_index_bounds(other);
        lemma_index_bounds(number);
        lemma_tables_apart(after, root, other, number);
        if table1(after, root, other) is Some {
            let t1 = table1(after, root, other)->Some_0;
            assert(t1 != parent);
            assert(cell(t1, table_index(other, 1) as int) != cell(parent, index));
        }
        lemma_new_table_kept(before, after, root, parent, index, frame, other);
    }
}

/// Writing the level-1 entry of a page keeps the pages apart from it as they
/// were, where no frame is referred to twice.
pub proof fn lemma_leaf_keeps_others(
    before: Map<int, u64>,
    after: Map<int, u64>,
    root: u64,
    word: u64,
    number: u64,
)
    requires
        table1(before, root, number) is Some,
        after == before.insert(
            cell(table1(before, root, number)->Some_0, table_index(number, 1) as int),
            word,
        ),
        unique_references(before),
        child_table(before, root, RECURSIVE_INDEX as int) == Some(root),
        table_index(number, 4) != RECURSIVE_INDEX,
    ensures
        others_kept(before, after, root, number),
{
    let p1 = table1(before, root, number)->Some_0;
    let place = cell(p1, table_index(number, 1) as int);
    assert forall|other: u64|
        #![trigger same_place(other, number)]
        table_index(other, 4) != RECURSIVE_INDEX && !same_place(other, number) implies (
    translate_in(after, root, other) is Some ==> translate_in(before, root, other) == translate_in(
        after,
        root,
        other,
    )) && (slot_taken(after, root, other) ==> slot_taken(before, root, other)) by {
        lemma_index_bounds(other);
        lemma_index_bounds(number);
        lemma_tables_apart(before, root, other, number);
        lemma_tables_apart(before, root, number, other);
        assert(p1 != root);
        lemma_entry_set_kept(before, after, root, place, word, other);
    }
}

/// Clearing the level-1 entry of a page leaves the pages apart from it as
/// they were, and nothing stands in the place of the page itself, where no
/// frame is referred to twice.
pub proof fn lemma_leaf_cleared(before: Map<int, u64>, after: Map<int, u64>, root: u64, number: u64)
    requires
        table1(before, root, number) is Some,
        after == before.insert(
            cell(table1(before, root, number)->Some_0, table_index(number, 1) as int),
            0,
        ),
        unique_references(before),
        child_table(before, root, RECURSIVE_INDEX as int) == Some(root),
        table_index(number, 4) != RECURSIVE_INDEX,
    ensures
        !slot_taken(after, root, number),
        forall|other: u64|
            #![trigger same_place(other, number)]
            table_index(other, 4) != RECURSIVE_INDEX && !same_place(other, number) ==> {
                &&& translate_in(after, root, other) == translate_in(before, root, other)
                &&& slot_taken(after, root, other) == slot_taken(before, root, other)
            },
{
    let p1 = table1(before, root, number)->Some_0;
    let place = cell(p1, table_index(number, 1) as int);
    lemma_index_bounds(number);
    lemma_tables_apart(before, root, number, number);
    lemma_flag_facts();
    assert(p1 != root);
    assert(!slot_taken(after, root, number)) by {
        let t3 = table3(before, root, number)->Some_0;
        let t2 = table2(before, root, number)->Some_0;
        assert(cell(root, table_index(number, 4) as int) != place);
        assert(cell(t3, table_index(number, 3) as int) != place);
        assert(cell(t2, table_index(number, 2) as int) != place);
        assert(after[place] == 0);
    }
    assert forall|other: u64|
        #![trigger same_place(other, number)]
        table_index(other, 4) != RECURSIVE_INDEX && !same_place(other, number) implies translate_in(
        after,
        root,
        other,
    ) == translate_in(before, root, other) && slot_taken(after, root, other) == slot_taken(
        before,
        root,
        other,
    ) by {
        lemma_index_bounds(other);
        lemma_tables_apart(before, root, other, number);
        lemma_tables_apart(before, root, number, other);
        lemma_entry_set_kept(before, after, root, place, 0, other);
    }
}

/// Making a table does not map another page, nor put anything in its
/// place, unless the level-1 entry of that page is the entry that was made
/// to point to the new table.
pub proof fn lemma_new_table_kept(
    before: Map<int, u64>,
    after: Map<int, u64>,
    root: u64,
    parent: u64,
    index: int,
    frame: u64,
    other: u64,
)
    requires
        after == zeroed(
            before.insert(cell(parent, index), entry_word(frame, PRESENT | WRITABLE)),
            frame,
        ),
        !word_present(before[cell(parent, index)]),
        0 <= index < 512,
        frame < FRAME_COUNT,
        frame != root,
        frame != parent,
        forall|c: int| word_present(#[trigger] before[c]) ==> word_frame(before[c]) != frame,
        leaf_cell(after, root, other) != Some(cell(parent, index)),
    ensures
        translate_in(after, root, other) is Some ==> translate_in(before, root, other)
            == translate_in(after, root, other),
        slot_taken(after, root, other) ==> slot_taken(before, root, other),
{
    lemma_flag_facts();
    lemma_entry_word(frame, PRESENT | WRITABLE);
    lemma_index_bounds(other);
    let place = cell(parent, index);
    let i4 = table_index(other, 4) as int;
    let i3 = table_index(other, 3) as int;
    let i2 = table_index(other, 2) as int;
    let i1 = table_index(other, 1) as int;
    assert forall|c: int| c != place && !(cell(frame, 0) <= c < cell(frame, 512)) implies after[c]
        == before[c] by {}
    assert forall|i: int| 0 <= i < 512 implies after[cell(frame, i)] == 0 by {}
    assert(after[place] == entry_word(frame, PRESENT | WRITABLE));
    let c4 = cell(root, i4);
    assert(!(cell(frame, 0) <= c4 < cell(frame, 512)));
    if c4 == place {
        assert(after[cell(frame, i3)] == 0);
    } else if child_table(after, root, i4) is Some {
        let t3 = child_table(after, root, i4)->Some_0;
        assert(after[c4] == before[c4]);
        assert(t3 != frame);
        let c3 = cell(t3, i3);
        assert(!(cell(frame, 0) <= c3 < cell(frame, 512)));
        if c3 == place {
            assert(after[cell(frame, i2)] == 0);
        } else if child_table(after, t3, i3) is Some {
            let t2 = child_table(after, t3, i3)->Some_0;
            assert(after[c3] == before[c3]);
            assert(t2 != frame);
            let c2 = cell(t2, i2);
            assert(!(cell(frame, 0) <= c2 < cell(frame, 512)));
            if c2 == place {
                assert(after[cell(frame, i1)] == 0);
            } else if child_table(after, t2, i2) is Some {
                let t1 = child_table(after, t2, i2)->Some_0;
                assert(after[c2] == before[c2]);
                assert(t1 != frame);
                let c1 = cell(t1, i1);
                assert(!(cell(frame, 0) <= c1 < cell(frame, 512)));
                assert(c1 != place);
                assert(after[c1] == before[c1]);
            } else {
                assert(after[c2] == before[c2]);
            }
        } else {
            assert(after[c3] == before[c3]);
        }
    } else {
        assert(after[c4] == before[c4]);
    }
}

/// Writing an entry that the walk for another page does not read does not
/// map that page, nor put anything in its place.
pub proof fn lemma_entry_set_kept(
    before: Map<int, u64>,
    after: Map<int, u64>,
    root: u64,
    place: int,
    word: u64,
    other: u64,
)
    requires
        after == before.insert(place, word),
        cell(root, table_index(other, 4) as int) != place,
        table3(before, root, other) is Some ==> cell(
            table3(before, root, other)->Some_0,
            table_index(other, 3) as int,
        ) != place,
        table2(before, root, other) is Some ==> cell(
            table2(before, root, other)->Some_0,
            table_index(other, 2) as int,
        ) != place,
        table1(before, root, other) is Some ==> cell(
            table1(before, root, other)->Some_0,
            table_index(other, 1) as int,
        ) != place,
    ensures
        translate_in(after, root, other) == translate_in(before, root, other),
        slot_taken(after, root, other) == slot_taken(before, root, other),
{
}

/// Whether something stands in the place of a page depends on the entries
/// that the page selects alone.
pub proof fn lemma_same_place_slot(mem: Map<int, u64>, p4: u64, a: u64, b: u64)
    requires
        same_place(a, b),
    ensures
        slot_taken(mem, p4, a) == slot_taken(mem, p4, b),
        translate_in(mem, p4, a) is Some == translate_in(mem, p4, b) is Some,
{
}

/// None of the requests asks for a page in the recursive region.
pub open spec fn pages_outside_recursion(mappings: Seq<Mapping>) -> bool {
    forall|i: int|
        0 <= i < mappings.len() ==> table_index((#[trigger] mappings[i]).page.number(), 4)
            != RECURSIVE_INDEX
}

/// The requests are apart from what is in memory and from each other: no
/// frame is referred to twice, none of the frames that the requests ask for
/// is referred to, no two requests ask for the same frame at different
/// pages, and none asks for a page in the recursive region.
pub open spec fn requests_apart(mem: Map<int, u64>, mappings: Seq<Mapping>) -> bool {
    &&& unique_references(mem)
    &&& consistent(mappings)
    &&& all_unnamed(mem, Set::empty(), mappings)
    &&& pages_outside_recursion(mappings)
}

/// Whether one of the first `done` requests was carried out and asked for
/// a page that selects the entries that the page with index `number`
/// selects.
pub open spec fn mapped_before(
    mappings: Seq<Mapping>,
    results: Seq<Result<(), VmmError>>,
    done: int,
    number: u64,
) -> bool {
    exists|j: int|
        0 <= j < done && j < mappings.len() && j < results.len() && results[j] is Ok
            && #[trigger] same_place(mappings[j].page.number(), number)
}

/// The requests were carried out one after the other, each as `map_to`
/// does: `states` and `frees` hold the mapper and the frames that the
/// allocator had free before the first request, between the requests and
/// after the last, and `results` what each request came to.
pub open spec fn carried_out(
    states: Seq<Mapper>,
    frees: Seq<Set<u64>>,
    mappings: Seq<Mapping>,
    results: Seq<Result<(), VmmError>>,
) -> bool {
    &&& states.len() == mappings.len() + 1
    &&& frees.len() == mappings.len() + 1
    &&& results.len() == mappings.len()
    &&& forall|i: int|
        0 <= i < mappings.len() ==> Mapper::mapped_to(
            states[i],
            states[i + 1],
            frees[i],
            frees[i + 1],
            mappings[i].page.number(),
            mappings[i].frame.number(),
            mappings[i].flags@,
            #[trigger] results[i],
        )
}

/// An interface to the page table that is in use.
pub struct Mapper {
    memory: PhysicalMemory,
    root: Frame,
}

impl Mapper {
    /// The memory that the tables live in.
    pub closed spec fn memory(self) -> Map<int, u64> {
        self.memory@
    }

    /// The memory has a word in every cell.
    pub proof fn lemma_memory_total(self)
        ensures
            self.memory().dom() == Set::<int>::full(),
    {
        self.memory.lemma_total();
    }

    /// The index of the frame in the root register.
    pub closed spec fn root(self) -> u64 {
        self.root.number()
    }

    /// The index of the frame of the table that the operations walk from: the
    /// one that entry 510 of the table in the root register names.
    pub open spec fn p4_number(self) -> u64 {
        word_frame(self.memory()[cell(self.root(), RECURSIVE_INDEX as int)])
    }

    /// The table is recursively mapped: entry 510 of the table in the root
    /// register names a table whose own entry 510 points back at it.
    pub open spec fn recursively_mapped(self) -> bool {
        &&& child_table(self.memory(), self.root(), RECURSIVE_INDEX as int) is Some
        &&& child_table(self.memory(), self.p4_number(), RECURSIVE_INDEX as int) == Some(
            self.p4_number(),
        )
    }

    /// What the operations rely on: the table is recursively mapped.
    pub open spec fn wf(self) -> bool {
        self.recursively_mapped()
    }

    /// The index of the frame that the page with index `number` is mapped to.
    pub open spec fn translate_page_spec(self, number: u64) -> Option<u64> {
        translate_in(self.memory(), self.p4_number(), number)
    }

    /// The physical address that a virtual address is mapped to.
    pub open spec fn translate_spec(self, address: u64) -> Option<u64> {
        match self.translate_page_spec(address / PAGE_SIZE) {
            Some(frame) => Some((frame * PAGE_SIZE + address % PAGE_SIZE) as u64),
            None => None,
        }
    }

    /// No frame that `allocator` can hand out is in use by the table.
    pub open spec fn separate_from(self, free: Set<u64>) -> bool {
        unreferenced(self.memory(), self.root(), free)
    }

    /// A mapper over fresh memory: the table in `root` is empty but for its
    /// entry 510, which points back at it. This is the state that the boot code
    /// leaves behind.
    pub fn new(root: Frame) -> (mapper: Mapper)
        ensures
            mapper.root() == root.number(),
            mapper.p4_number() == root.number(),
            mapper.memory() == zero_memory().insert(
                cell(root.number(), RECURSIVE_INDEX as int),
                entry_word(root.number(), PRESENT | WRITABLE),
            ),
            mapper.wf(),
            forall|number: u64|
                table_index(number, 4) != RECURSIVE_INDEX ==> mapper.translate_page_spec(number)
                    is None,
            forall|free: Set<u64>| !free.contains(root.number()) ==> mapper.separate_from(free),
    {
        let mut memory = PhysicalMemory::new();
        let mut entry = Entry(0);
        let n: u64 = root.index();
        entry.set(root.clone(), EntryFlags::from_bits_truncate(PRESENT | WRITABLE));
        memory.write(&root, RECURSIVE_INDEX, entry);
        proof {
            lemma_flag_facts();
            lemma_entry_word(n, PRESENT | WRITABLE);
        }
        let mapper = Mapper { memory, root };
        assert(forall|c: int| #![trigger mapper.memory()[c]] c != cell(n, 510) ==> mapper.memory()[c] == 0);
        assert forall|number: u64| table_index(number, 4) != RECURSIVE_INDEX
            implies mapper.translate_page_spec(number) is None by {
            assert(mapper.memory()[cell(n, table_index(number, 4) as int)] == 0);
        }
        mapper
    }

    /// The top-level table that the operations walk from.
    pub fn p4(&self) -> (table: Table)
        requires
            self.recursively_mapped(),
        ensures
            table.frame_number() == self.p4_number(),
            table.level() == 4,
    {
        let entry = self.memory.read(&self.root, RECURSIVE_INDEX);
        match entry.pointed_frame() {
            Some(frame) => Table::top_level(frame),
            None => Table::top_level(self.root.clone()),
        }
    }

    /// The frame in the root register.
    pub fn root_frame(&self) -> (frame: Frame)
        ensures
            frame.number() == self.root(),
    {
        self.root.clone()
    }

    /// Translates a virtual page to the frame it is mapped to. Returns `None`
    /// if the page is not mapped. An entry of level 3 or level 2 that maps a
    /// huge page maps the pages below it to the frames from its own frame on,
    /// where that frame is aligned to 1 GiB or 2 MiB; where it is not, the
    /// entry maps nothing.
    pub fn translate_page(&self, page: Page) -> (frame: Option<Frame>)
        requires
            self.wf(),
        ensures
            match frame {
                Some(f) => self.translate_page_spec(page.number()) == Some(f.number()),
                None => self.translate_page_spec(page.number()) is None,
            },
    {
        let p4 = self.p4();
        let i3 = page.p3_index();
        let i2 = page.p2_index();
        let i1 = page.p1_index();
        let p3 = match p4.next_table(&self.memory, page.p4_index()) {
            Some(table) => table,
            None => {
                return None;
            },
        };
        let e3 = p3.entry(&self.memory, i3);
        let f3 = match e3.pointed_frame() {
            Some(frame) => frame,
            None => {
                return None;
            },
        };
        proof {
            lemma_flag_facts();
            lemma_has_huge(e3@);
        }
        if e3.flags().has(HUGE_PAGE) {
            // a page of 1 GiB: its frame has to be aligned to 1 GiB
            let start = f3.index();
            assert(self.memory()[cell(p3.frame_number(), i3 as int)] == e3@);
            if start % HUGE_FRAMES != 0 {
                return None;
            }
            let number: u64 = start + (i2 as u64) * 512 + i1 as u64;
            return Some(Frame::containing_address(number * PAGE_SIZE));
        }
        let e2 = self.memory.read(&f3, i2);
        let f2 = match e2.pointed_frame() {
            Some(frame) => frame,
            None => {
                return None;
            },
        };
        proof {
            lemma_has_huge(e2@);
        }
        if e2.flags().has(HUGE_PAGE) {
            // a page of 2 MiB: its frame has to be aligned to 2 MiB
            let start = f2.index();
            assert(self.memory()[cell(f3.number(), i2 as int)] == e2@);
            if start % LARGE_FRAMES != 0 {
                return None;
            }
            let number: u64 = start + i1 as u64;
            return Some(Frame::containing_address(number * PAGE_SIZE));
        }
        let e1 = self.memory.read(&f2, i1);
        e1.pointed_frame()
    }

    /// Translates a virtual address to the physical address it is mapped to.
    /// Returns `None` if the address is not mapped.
    pub fn translate(&self, virtual_address: VirtualAddress) -> (address: Option<PhysicalAddress>)
        requires
            self.wf(),
            is_canonical(virtual_address),
        ensures
            address == self.translate_spec(virtual_address),
    {
        let offset = virtual_address % PAGE_SIZE;
        match self.translate_page(Page::containing_address(virtual_address)) {
            Some(frame) => Some(frame.start_address() + offset),
            None => None,
        }
    }

    /// Sets every entry of the given table to unused.
    pub fn zero_table(&mut self, table: &Table)
        ensures
            final(self).root() == old(self).root(),
            final(self).memory() == zeroed(old(self).memory(), table.frame_number()),
    {
        table.zero(&mut self.memory);
    }

    /// Returns the table that the entry at `index` of the given table
    /// points to, if that entry is present and maps no huge page.
    pub fn next_table(&self, table: &Table, index: usize) -> (next: Option<Table>)
        requires
            table.level() > 1,
            index < 512,
        ensures
            match next {
                Some(t) => {
                    &&& child_table(self.memory(), table.frame_number(), index as int) == Some(
                        t.frame_number(),
                    )
                    &&& t.level() == table.level() - 1
                },
                None => child_table(self.memory(), table.frame_number(), index as int).is_none(),
            },
    {
        table.next_table(&self.memory, index)
    }

    /// Reads the entry at `index` of the given table.
    pub fn table_entry(&self, table: &Table, index: usize) -> (entry: Entry)
        requires
            index < 512,
        ensures
            entry@ == self.memory()[cell(table.frame_number(), index as int)],
    {
        table.entry(&self.memory, index)
    }

    /// Makes the entry at `index` of the given table point to `frame`, with
    /// the given flags.
    pub fn set_table_entry(&mut self, table: &Table, index: usize, frame: Frame, flags: EntryFlags)
        requires
            index < 512,
        ensures
            final(self).root() == old(self).root(),
            final(self).memory() == old(self).memory().insert(
                cell(table.frame_number(), index as int),
                entry_word(frame.number(), flags@),
            ),
    {
        let mut entry = Entry(0);
        entry.set(frame, flags);
        table.set_entry(&mut self.memory, index, entry);
    }

    /// Puts `frame` into the root register and returns the frame that was
    /// there.
    pub fn set_root(&mut self, frame: Frame) -> (previous: Frame)
        ensures
            final(self).root() == frame.number(),
            final(self).memory() == old(self).memory(),
            previous.number() == old(self).root(),
    {
        let previous = self.root.clone();
        self.root = frame;
        previous
    }

    /// Goes from `table` down to the table that its entry at `index` points to,
    /// making a frame from `allocator` that table where the entry is absent.
    fn descend<A: FrameAllocate>(&mut self, table: &Table, index: usize, allocator: &mut A) -> (next:
        Result<Table, VmmError>)
        requires
            old(self).separate_from(old(allocator).free_frames()),
            table.level() > 1,
            index < 512,
            !old(allocator).free_frames().contains(table.frame_number()),
        ensures
            final(self).root() == old(self).root(),
            final(self).separate_from(final(allocator).free_frames()),
            final(allocator).free_frames().subset_of(old(allocator).free_frames()),
            present_entries_kept(
                old(self).memory(),
                final(self).memory(),
                old(allocator).free_frames(),
            ),
            present_only_at(
                old(self).memory(),
                final(self).memory(),
                cell(table.frame_number(), index as int),
            ),
            new_entries_name(
                old(self).memory(),
                final(self).memory(),
                old(allocator).free_frames(),
                None,
            ),
            forall|e: Set<int>|
                #[trigger] unique_except(old(self).memory(), e) ==> unique_except(
                    final(self).memory(),
                    e,
                ),
            match child_table(old(self).memory(), table.frame_number(), index as int) {
                Some(child) => {
                    &&& next is Ok
                    &&& next->Ok_0.frame_number() == child
                    &&& final(self).memory() == old(self).memory()
                    &&& final(allocator).free_frames() == old(allocator).free_frames()
                },
                None => if word_present(
                    old(self).memory()[cell(table.frame_number(), index as int)],
                ) {
                    &&& next == Err::<Table, VmmError>(VmmError::AlreadyMapped)
                    &&& final(self).memory() == old(self).memory()
                    &&& final(allocator).free_frames() == old(allocator).free_frames()
                } else {
                    match next {
                        Ok(t) => {
                            &&& old(allocator).free_frames().contains(t.frame_number())
                            &&& final(allocator).free_frames()
                                == old(allocator).free_frames().remove(t.frame_number())
                            &&& t.frame_number() < FRAME_COUNT
                            &&& final(self).memory() == zeroed(
                                old(self).memory().insert(
                                    cell(table.frame_number(), index as int),
                                    entry_word(t.frame_number(), PRESENT | WRITABLE),
                                ),
                                t.frame_number(),
                            )
                            &&& forall|i: int|
                                0 <= i < 512 ==> #[trigger] final(self).memory()[cell(
                                    t.frame_number(),
                                    i,
                                )] == 0
                        },
                        Err(e) => {
                            &&& e == VmmError::OutOfPhysicalMemory
                            &&& old(allocator).free_frames() == Set::<u64>::empty()
                            &&& final(self).memory() == old(self).memory()
                            &&& final(allocator).free_frames() == old(allocator).free_frames()
                        },
                    }
                },
            },
            next is Ok ==> {
                &&& next->Ok_0.level() == table.level() - 1
                &&& child_table(final(self).memory(), table.frame_number(), index as int) == Some(
                    next->Ok_0.frame_number(),
                )
            },
    {
        let next = table.next_table_create(&mut self.memory, index, allocator);
        proof {
            if child_table(old(self).memory(), table.frame_number(), index as int) is None
                && !word_present(old(self).memory()[cell(table.frame_number(), index as int)]) {
                if next is Ok {
                    lemma_table_created(
                        old(self).memory(),
                        old(self).root(),
                        old(allocator).free_frames(),
                        table.frame_number(),
                        index as int,
                        next->Ok_0.frame_number(),
                    );
                }
            }
        }
        next
    }

    /// Tells whether the page cannot be mapped because something is in its
    /// place: a huge page on the way to its level-1 entry, or a level-1 entry
    /// that is in use.
    pub fn is_taken(&self, page: Page) -> (taken: bool)
        requires
            self.wf(),
        ensures
            taken == slot_taken(self.memory(), self.p4_number(), page.number()),
    {
        let p4 = self.p4();
        let i4 = page.p4_index();
        let i3 = page.p3_index();
        let i2 = page.p2_index();
        let i1 = page.p1_index();
        let p3 = match p4.next_table(&self.memory, i4) {
            Some(table) => table,
            None => {
                return p4.entry(&self.memory, i4).pointed_frame().is_some();
            },
        };
        let p2 = match p3.next_table(&self.memory, i3) {
            Some(table) => table,
            None => {
                return p3.entry(&self.memory, i3).pointed_frame().is_some();
            },
        };
        let p1 = match p2.next_table(&self.memory, i2) {
            Some(table) => table,
            None => {
                return p2.entry(&self.memory, i2).pointed_frame().is_some();
            },
        };
        !p1.entry(&self.memory, i1).is_unused()
    }

    /// What mapping the page with index `number` to the frame with index
    /// `frame` does: to the mapper, from `before` to `after`, to the frames that
    /// the allocator has free, and what comes back.
    pub open spec fn mapped_to(
        before: Mapper,
        after: Mapper,
        free_before: Set<u64>,
        free_after: Set<u64>,
        number: u64,
        frame: u64,
        flags: u64,
        result: Result<(), VmmError>,
    ) -> bool {
        &&& after.wf()
        &&& after.root() == before.root()
        &&& after.p4_number() == before.p4_number()
        &&& after.separate_from(free_after)
        &&& free_after.subset_of(free_before)
        &&& present_entries_kept(before.memory(), after.memory(), free_before)
        &&& new_entries_name(
            before.memory(),
            after.memory(),
            free_before,
            if result is Ok {
                leaf_cell(after.memory(), after.p4_number(), number)
            } else {
                None
            },
        )
        &&& forall|other: u64|
            before.translate_page_spec(other) is Some ==> after.translate_page_spec(other)
                == before.translate_page_spec(other)
        &&& forall|table: u64|
            free_before.contains(table) && !free_after.contains(table) ==> #[trigger] held(
                after.memory(),
                table,
                free_after,
            )
        &&& result is Ok ==> held(after.memory(), frame, free_after)
        &&& forall|e: Set<int>|
            #[trigger] unique_except(before.memory(), e) ==> {
                &&& result is Err ==> unique_except(after.memory(), e)
                &&& result is Ok ==> unique_except(
                    after.memory(),
                    e.insert(leaf_cell(after.memory(), after.p4_number(), number)->Some_0),
                )
                &&& unnamed_outside(before.memory(), e, frame) && !free_before.contains(frame)
                    ==> unique_except(after.memory(), e)
            }
        &&& unique_references(before.memory()) && table_index(number, 4) != RECURSIVE_INDEX
            ==> others_kept(before.memory(), after.memory(), before.p4_number(), number)
        &&& (result == Err::<(), VmmError>(VmmError::AlreadyMapped)) == slot_taken(
            before.memory(),
            before.p4_number(),
            number,
        )
        &&& leaf_cell(before.memory(), before.p4_number(), number) is Some ==> result != Err::<
            (),
            VmmError,
        >(VmmError::OutOfPhysicalMemory)
        &&& result == Err::<(), VmmError>(VmmError::OutOfPhysicalMemory) ==> exists|a: u64, b: u64|
            #[trigger] free_before.subset_of(set![a, b])
        &&& result == Err::<(), VmmError>(VmmError::OutOfPhysicalMemory) ==> !slot_taken(
            after.memory(),
            after.p4_number(),
            number,
        )
        &&& match result {
            Ok(()) => {
                &&& before.translate_page_spec(number) is None
                &&& after.translate_page_spec(number) == Some(frame)
                &&& leaf_cell(after.memory(), after.p4_number(), number) is Some
                &&& after.memory()[leaf_cell(after.memory(), after.p4_number(), number)->Some_0]
                    == entry_word(frame, flags | PRESENT)
                &&& leaf_cell(
                    after.memory().insert(
                        leaf_cell(after.memory(), after.p4_number(), number)->Some_0,
                        0,
                    ),
                    after.p4_number(),
                    number,
                ) == leaf_cell(after.memory(), after.p4_number(), number)
                &&& leaf_cell(before.memory(), before.p4_number(), number) is None
                    ==> exists|table: u64|
                    free_before.contains(table) && !free_after.contains(table)
            },
            Err(e) => {
                &&& e == VmmError::AlreadyMapped || e == VmmError::OutOfPhysicalMemory
                &&& e == VmmError::AlreadyMapped ==> {
                    &&& after.memory() == before.memory()
                    &&& free_after == free_before
                }
                &&& e == VmmError::OutOfPhysicalMemory ==> {
                    &&& free_after == Set::<u64>::empty()
                    &&& after.translate_page_spec(number) is None
                }
            },
        }
    }

    /// Maps the page to the frame with the provided flags; the `PRESENT` flag
    /// is set in any case. The tables that are missing on the way are made from
    /// frames of `allocator`.
    ///
    /// Fails with `AlreadyMapped`, and changes nothing, where a huge page or a
    /// level-1 entry that is in use stands in the page's place. Fails with
    /// `OutOfPhysicalMemory` where a table is missing and the allocator has no
    /// frame left; the tables made until then stay. That can happen only to
    /// an allocator that had two frames at most.
    ///
    /// Every page that was mapped stays mapped as it was. Where no frame is
    /// referred to twice and the page lies outside the recursive region, the
    /// other pages outside that region stay as they were: none becomes mapped,
    /// and nothing is put in the place of one.
    ///
    /// The allocator must not have the frame, nor any frame that the table
    /// refers to.
    pub fn map_to<A: FrameAllocate>(
        &mut self,
        page: Page,
        frame: Frame,
        flags: EntryFlags,
        allocator: &mut A,
    ) -> (result: Result<(), VmmError>)
        requires
            old(self).wf(),
            old(self).separate_from(old(allocator).free_frames()),
            !old(allocator).free_frames().contains(frame.number()),
        ensures
            Self::mapped_to(
                *old(self),
                *final(self),
                old(allocator).free_frames(),
                final(allocator).free_frames(),
                page.number(),
                frame.number(),
                flags@,
                result,
            ),
    {
        let ghost mem0 = self.memory();
        let ghost free0 = allocator.free_frames();
        let ghost root = self.root();
        let ghost t4 = self.p4_number();
        let ghost n = page.number();
        let i4 = page.p4_index();
        let i3 = page.p3_index();
        let i2 = page.p2_index();
        let i1 = page.p1_index();
        let p4 = self.p4();
        proof {
            lemma_flag_facts();
            assert(cell(root, 510) / 512 == root);
            assert(cell(t4, 510) / 512 == t4);
            assert(cell(t4, i4 as int) / 512 == t4);
        }
        // level 3
        let p3 = match self.descend(&p4, i4, allocator) {
            Ok(table) => table,
            Err(e) => {
                proof {
                    if e == VmmError::OutOfPhysicalMemory {
                        assert(free0.subset_of(set![0u64, 0u64]));
                    }
                }
                return Err(e);
            },
        };
        let ghost mem1 = self.memory();
        let ghost free1 = allocator.free_frames();
        let ghost apart = unique_references(mem0) && i4 != RECURSIVE_INDEX;
        proof {
            assert(mem1[cell(root, 510)] == mem0[cell(root, 510)]);
            assert(mem1[cell(t4, 510)] == mem0[cell(t4, 510)]);
            assert(cell(p3.frame_number(), i3 as int) / 512 == p3.frame_number());
            if apart {
                assert(unique_references(mem1));
                if mem1 != mem0 {
                    lemma_table_keeps_others(
                        mem0,
                        mem1,
                        t4,
                        t4,
                        i4 as int,
                        p3.frame_number(),
                        n,
                    );
                }
                assert(others_kept(mem0, mem1, t4, n));
            }
        }
        // level 2
        let p2 = match self.descend(&p3, i3, allocator) {
            Ok(table) => table,
            Err(e) => {
                proof {
                    let mem2 = self.memory();
                    assert(mem2 == mem1);
                    assert(apart ==> others_kept(mem0, mem2, t4, n));
                    if e == VmmError::OutOfPhysicalMemory {
                        assert(free1 == Set::<u64>::empty());
                        assert(free0.subset_of(set![p3.frame_number(), p3.frame_number()])) by {
                            assert forall|x: u64| free0.contains(x) implies x
                                == p3.frame_number() by {
                                if x != p3.frame_number() {
                                    assert(free1.contains(x));
                                }
                            }
                        }
                    }
                    assert forall|e: Set<int>| #[trigger] unique_except(mem0, e) implies unique_except(
                        mem2,
                        e,
                    ) by {
                        assert(unique_except(mem1, e));
                    }
                    assert forall|other: u64|
                        translate_in(mem0, t4, other) is Some implies translate_in(mem1, t4, other)
                        == translate_in(mem0, t4, other) by {
                        lemma_translation_kept(mem0, mem1, root, free0, t4, other);
                    }
                }
                return Err(e);
            },
        };
        let ghost mem2 = self.memory();
        let ghost free2 = allocator.free_frames();
        proof {
            assert(mem2[cell(root, 510)] == mem1[cell(root, 510)]);
            assert(mem2[cell(t4, 510)] == mem1[cell(t4, 510)]);
            assert(mem2[cell(t4, i4 as int)] == mem1[cell(t4, i4 as int)]);
            assert(cell(p2.frame_number(), i2 as int) / 512 == p2.frame_number());
            if apart {
                assert(unique_references(mem2));
                if mem2 != mem1 {
                    assert(table3(mem2, t4, n) == Some(p3.frame_number()));
                    lemma_table_keeps_others(
                        mem1,
                        mem2,
                        t4,
                        p3.frame_number(),
                        i3 as int,
                        p2.frame_number(),
                        n,
                    );
                }
                assert(others_kept(mem1, mem2, t4, n));
                assert(others_kept(mem0, mem2, t4, n));
            }
        }
        // level 1
        let p1 = match self.descend(&p2, i2, allocator) {
            Ok(table) => table,
            Err(e) => {
                proof {
                    let mem3 = self.memory();
                    assert(mem3 == mem2);
                    assert(apart ==> others_kept(mem0, mem3, t4, n));
                    if e == VmmError::OutOfPhysicalMemory {
                        assert(free2 == Set::<u64>::empty());
                        assert(free0.subset_of(set![p3.frame_number(), p2.frame_number()])) by {
                            assert forall|x: u64| free0.contains(x) implies x == p3.frame_number()
                                || x == p2.frame_number() by {
                                if x != p3.frame_number() && x != p2.frame_number() {
                                    assert(free1.contains(x));
                                    assert(free2.contains(x));
                                }
                            }
                        }
                    }
                    assert forall|e: Set<int>| #[trigger] unique_except(mem0, e) implies unique_except(
                        mem3,
                        e,
                    ) by {
                        assert(unique_except(mem1, e));
                        assert(unique_except(mem2, e));
                    }
                    assert forall|other: u64|
                        translate_in(mem0, t4, other) is Some implies translate_in(mem2, t4, other)
                        == translate_in(mem0, t4, other) by {
                        lemma_translation_kept(mem0, mem1, root, free0, t4, other);
                        lemma_translation_kept(mem1, mem2, root, free1, t4, other);
                    }
                }
                return Err(e);
            },
        };
        let ghost mem3 = self.memory();
        let ghost free3 = allocator.free_frames();
        proof {
            self.lemma_memory_total();
            assert(mem3[cell(root, 510)] == mem2[cell(root, 510)]);
            assert(mem3[cell(t4, 510)] == mem2[cell(t4, 510)]);
            assert(mem3[cell(t4, i4 as int)] == mem2[cell(t4, i4 as int)]);
            assert(mem3[cell(p3.frame_number(), i3 as int)] == mem2[cell(
                p3.frame_number(),
                i3 as int,
            )]);
            assert(cell(p1.frame_number(), i1 as int) / 512 == p1.frame_number());
            if apart {
                assert(unique_references(mem3));
                if mem3 != mem2 {
                    assert(table3(mem3, t4, n) == Some(p3.frame_number()));
                    assert(table2(mem3, t4, n) == Some(p2.frame_number()));
                    lemma_table_keeps_others(
                        mem2,
                        mem3,
                        t4,
                        p2.frame_number(),
                        i2 as int,
                        p1.frame_number(),
                        n,
                    );
                }
                assert(others_kept(mem2, mem3, t4, n));
                assert(others_kept(mem0, mem3, t4, n));
            }
        }
        let ghost leaf = cell(p1.frame_number(), i1 as int);
        if !p1.entry(&self.memory, i1).is_unused() {
            return Err(VmmError::AlreadyMapped);
        }
        let bits = flags.bits();
        let present = EntryFlags::from_bits_truncate(PRESENT);
        let all = flags.union(present);
        let mut entry = Entry(0);
        let ghost f = frame.number();
        let fnum = frame.index();
        entry.set(frame, all);
        p1.set_entry(&mut self.memory, i1, entry);
        proof {
            let mem4 = self.memory();
            let word = entry_word(f, bits | PRESENT);
            lemma_with_present(bits);
            lemma_entry_word(f, bits | PRESENT);
            assert(mem4 == mem3.insert(leaf, word));
            assert(mem4[leaf] == word);
            assert forall|c: int| #![trigger mem4[c]] c != leaf implies mem4[c] == mem3[c] by {}
            assert(unreferenced(mem4, root, free3));
            assert(present_entries_kept(mem3, mem4, free3));
            assert(new_entries_name(mem0, mem3, free0, None)) by {
                assert forall|c: int| #![trigger mem3[c]] word_present(mem3[c]) implies mem3[c]
                    == mem0[c] || free0.contains(word_frame(mem3[c])) by {
                    if mem3[c] != mem2[c] {
                    } else if mem2[c] != mem1[c] {
                    } else {
                    }
                }
            }
            assert(new_entries_name(mem0, mem4, free0, Some(leaf)));
            assert forall|e: Set<int>| #[trigger] unique_except(mem0, e) implies unique_except(
                mem4,
                e.insert(leaf),
            ) && (unnamed_outside(mem0, e, f) && !free0.contains(f) ==> unique_except(
                mem4,
                e,
            )) by {
                assert(unique_except(mem1, e));
                assert(unique_except(mem2, e));
                assert(unique_except(mem3, e));
                assert forall|c1: int, c2: int|
                    #![trigger mem4[c1], mem4[c2]]
                    c1 != c2 && !e.insert(leaf).contains(c1) && !e.insert(leaf).contains(c2)
                        && word_present(mem4[c1]) && word_present(mem4[c2]) implies word_frame(
                    mem4[c1],
                ) != word_frame(mem4[c2]) by {
                    assert(mem4[c1] == mem3[c1]);
                    assert(mem4[c2] == mem3[c2]);
                }
                if unnamed_outside(mem0, e, f) && !free0.contains(f) {
                    assert forall|c: int|
                        #![trigger mem3[c]]
                        word_present(mem3[c]) && !e.contains(c) implies word_frame(mem3[c])
                        != f by {
                        if mem3[c] == mem0[c] {
                            assert(word_present(mem0[c]));
                        }
                    }
                    assert forall|c1: int, c2: int|
                        #![trigger mem4[c1], mem4[c2]]
                        c1 != c2 && !e.contains(c1) && !e.contains(c2) && word_present(mem4[c1])
                            && word_present(mem4[c2]) implies word_frame(mem4[c1]) != word_frame(
                        mem4[c2],
                    ) by {
                        if c1 != leaf {
                            assert(mem4[c1] == mem3[c1]);
                        }
                        if c2 != leaf {
                            assert(mem4[c2] == mem3[c2]);
                        }
                    }
                }
            }
            assert(leaf_cell(mem4, t4, n) == Some(leaf));
            if leaf_cell(mem0, t4, n) is None {
                if mem1 != mem0 {
                    assert(free0.contains(p3.frame_number()) && !free3.contains(p3.frame_number()));
                } else if mem2 != mem1 {
                    assert(free0.contains(p2.frame_number()) && !free3.contains(p2.frame_number()));
                } else {
                    assert(mem3 != mem2);
                    assert(free0.contains(p1.frame_number()) && !free3.contains(p1.frame_number()));
                }
            }
            assert(mem3[leaf] == 0);
            assert(mem3.dom().contains(leaf));
            assert(mem4.insert(leaf, 0) =~= mem3);
            if apart {
                assert(table1(mem3, t4, n) == Some(p1.frame_number()));
                lemma_leaf_keeps_others(mem3, mem4, t4, word, n);
                assert(others_kept(mem0, mem4, t4, n));
            }
            assert forall|other: u64|
                translate_in(mem0, t4, other) is Some implies translate_in(mem4, t4, other)
                == translate_in(mem0, t4, other) by {
                lemma_translation_kept(mem0, mem1, root, free0, t4, other);
                lemma_translation_kept(mem1, mem2, root, free1, t4, other);
                lemma_translation_kept(mem2, mem3, root, free2, t4, other);
                lemma_translation_kept(mem3, mem4, root, free3, t4, other);
            }
        }
        Ok(())
    }

    /// Carries out the given requests in order, each as `map_to` does, and
    /// returns what each of them came to. A request that fails does not stop
    /// the ones after it. What was mapped stays mapped to the end. A request
    /// fails with `AlreadyMapped` exactly where something stood in its page's
    /// place when its turn came, and with `OutOfPhysicalMemory` only where a
    /// table was missing and the allocator had no frame left, as it then has
    /// none in the end.
    pub fn map_all<A: FrameAllocate>(&mut self, mappings: &Vec<Mapping>, allocator: &mut A) -> (results:
        Vec<Result<(), VmmError>>)
        requires
            old(self).wf(),
            old(self).separate_from(old(allocator).free_frames()),
            forall|i: int|
                0 <= i < mappings.len() ==> !old(allocator).free_frames().contains(
                    (#[trigger] mappings[i]).frame.number(),
                ),
        ensures
            final(self).wf(),
            final(self).root() == old(self).root(),
            final(self).p4_number() == old(self).p4_number(),
            final(self).separate_from(final(allocator).free_frames()),
            final(allocator).free_frames().subset_of(old(allocator).free_frames()),
            present_entries_kept(
                old(self).memory(),
                final(self).memory(),
                old(allocator).free_frames(),
            ),
            forall|other: u64|
                old(self).translate_page_spec(other) is Some ==> final(self).translate_page_spec(
                    other,
                ) == old(self).translate_page_spec(other),
            results.len() == mappings.len(),
            exists|states: Seq<Mapper>, frees: Seq<Set<u64>>|
                {
                    &&& #[trigger] carried_out(states, frees, mappings@, results@)
                    &&& states[0] == *old(self)
                    &&& states[mappings.len() as int] == *final(self)
                    &&& frees[0] == old(allocator).free_frames()
                    &&& frees[mappings.len() as int] == final(allocator).free_frames()
                },
            forall|i: int|
                0 <= i < mappings.len() && #[trigger] results[i] == Err::<(), VmmError>(
                    VmmError::OutOfPhysicalMemory,
                ) ==> final(allocator).free_frames() == Set::<u64>::empty(),
            forall|i: int|
                0 <= i < mappings.len() ==> match #[trigger] results[i] {
                    Ok(()) => final(self).translate_page_spec(mappings[i].page.number()) == Some(
                        mappings[i].frame.number(),
                    ),
                    Err(e) => e == VmmError::AlreadyMapped || e == VmmError::OutOfPhysicalMemory,
                },
            forall|i: int|
                0 <= i < mappings.len() && (#[trigger] results[i]) is Ok ==> mapped_small(
                    final(self).memory(),
                    final(self).p4_number(),
                    mappings[i].page.number(),
                ) == Some(mappings[i].frame.number()),
            requests_apart(old(self).memory(), mappings@) ==> {
                &&& forall|i: int|
                    0 <= i < mappings.len() && #[trigger] results[i] == Err::<(), VmmError>(
                        VmmError::AlreadyMapped,
                    ) ==> slot_taken(
                        old(self).memory(),
                        old(self).p4_number(),
                        mappings[i].page.number(),
                    ) || mapped_before(mappings@, results@, i, mappings[i].page.number())
                &&& forall|q: u64|
                    table_index(q, 4) != RECURSIVE_INDEX && #[trigger] slot_taken(
                        final(self).memory(),
                        final(self).p4_number(),
                        q,
                    ) ==> slot_taken(old(self).memory(), old(self).p4_number(), q)
                        || mapped_before(mappings@, results@, mappings.len() as int, q)
            },
            entries_accounted(
                old(self).memory(),
                final(self).memory(),
                old(allocator).free_frames(),
                mappings@,
                results@,
                mappings.len() as int,
            ),
            consistent(mappings@) ==> forall|e: Set<int>|
                #[trigger] unique_except(old(self).memory(), e) && all_unnamed(
                    old(self).memory(),
                    e,
                    mappings@,
                ) ==> unique_except(final(self).memory(), e),
    {
        let mut results: Vec<Result<(), VmmError>> = Vec::new();
        let ghost mem0 = self.memory();
        let ghost free0 = allocator.free_frames();
        let ghost mut states: Seq<Mapper> = seq![*self];
        let ghost mut frees: Seq<Set<u64>> = seq![free0];
        let mut i: usize = 0;
        while i < mappings.len()
            invariant
                i <= mappings.len(),
                results.len() == i,
                carried_out(states, frees, mappings@.take(i as int), results@),
                states[0] == *old(self),
                states[i as int] == *self,
                frees[0] == free0,
                frees[i as int] == allocator.free_frames(),
                forall|j: int|
                    0 <= j < i && #[trigger] results[j] == Err::<(), VmmError>(
                        VmmError::OutOfPhysicalMemory,
                    ) ==> allocator.free_frames() == Set::<u64>::empty(),
                forall|j: int|
                    0 <= j < i && (#[trigger] results[j]) is Ok ==> mapped_small(
                        self.memory(),
                        self.p4_number(),
                        mappings[j].page.number(),
                    ) == Some(mappings[j].frame.number()),
                requests_apart(mem0, mappings@) ==> {
                    &&& forall|k: int|
                        0 <= k < i && #[trigger] results[k] == Err::<(), VmmError>(
                            VmmError::AlreadyMapped,
                        ) ==> slot_taken(mem0, self.p4_number(), mappings[k].page.number())
                            || mapped_before(mappings@, results@, k, mappings[k].page.number())
                    &&& forall|q: u64|
                        table_index(q, 4) != RECURSIVE_INDEX && #[trigger] slot_taken(
                            self.memory(),
                            self.p4_number(),
                            q,
                        ) ==> slot_taken(mem0, self.p4_number(), q) || mapped_before(
                            mappings@,
                            results@,
                            i as int,
                            q,
                        )
                },
                self.wf(),
                self.root() == old(self).root(),
                self.p4_number() == old(self).p4_number(),
                self.separate_from(allocator.free_frames()),
                allocator.free_frames().subset_of(free0),
                free0 == old(allocator).free_frames(),
                mem0 == old(self).memory(),
                unreferenced(mem0, self.root(), free0),
                present_entries_kept(mem0, self.memory(), free0),
                forall|other: u64|
                    old(self).translate_page_spec(other) is Some ==> self.translate_page_spec(other)
                        == old(self).translate_page_spec(other),
                forall|j: int|
                    0 <= j < mappings.len() ==> !free0.contains(
                        (#[trigger] mappings[j]).frame.number(),
                    ),
                forall|j: int|
                    0 <= j < i ==> match #[trigger] results[j] {
                        Ok(()) => self.translate_page_spec(mappings[j].page.number()) == Some(
                            mappings[j].frame.number(),
                        ),
                        Err(e) => e == VmmError::AlreadyMapped || e
                            == VmmError::OutOfPhysicalMemory,
                    },
                entries_accounted(mem0, self.memory(), free0, mappings@, results@, i as int),
                consistent(mappings@) ==> forall|e: Set<int>|
                    #[trigger] unique_except(mem0, e) && all_unnamed(mem0, e, mappings@)
                        ==> unique_except(self.memory(), e),
            decreases mappings.len() - i,
        {
            let request = &mappings[i];
            let ghost before = *self;
            let ghost free = allocator.free_frames();
            let ghost done = results@;
            let ghost f = request.frame.number();
            let bits = request.flags.bits();
            let number = request.frame.index();
            let result = self.map_to(request.page, request.frame.clone(), request.flags, allocator);
            proof {
                let earlier = states;
                let free_earlier = frees;
                states = states.push(*self);
                frees = frees.push(allocator.free_frames());
                assert(allocator.free_frames().subset_of(free));
                if free == Set::<u64>::empty() {
                    assert(allocator.free_frames() =~= Set::<u64>::empty());
                }
                assert(carried_out(
                    states,
                    frees,
                    mappings@.take(i + 1),
                    done.push(result),
                )) by {
                    assert forall|j: int| 0 <= j < i + 1 implies Mapper::mapped_to(
                        states[j],
                        states[j + 1],
                        frees[j],
                        frees[j + 1],
                        mappings@.take(i + 1)[j].page.number(),
                        mappings@.take(i + 1)[j].frame.number(),
                        mappings@.take(i + 1)[j].flags@,
                        #[trigger] done.push(result)[j],
                    ) by {
                        if j < i {
                            assert(mappings@.take(i as int)[j] == mappings@.take(i + 1)[j]);
                            assert(Mapper::mapped_to(
                                earlier[j],
                                earlier[j + 1],
                                free_earlier[j],
                                free_earlier[j + 1],
                                mappings@.take(i as int)[j].page.number(),
                                mappings@.take(i as int)[j].frame.number(),
                                mappings@.take(i as int)[j].flags@,
                                done[j],
                            ));
                        }
                    }
                }
                let mem1 = before.memory();
                let mem2 = self.memory();
                assert forall|c: int|
                    #![trigger mem0[c]]
                    word_present(mem0[c]) && c >= 0 && !free0.contains(
                        (c / 512) as u64,
                    ) implies mem2[c] == mem0[c] by {
                    assert(mem1[c] == mem0[c]);
                }
                lemma_with_present(bits);
                lemma_entry_word(f, bits | PRESENT);
                let after = done.push(result);
                let p4 = self.p4_number();
                let m = mappings@[i as int].page.number();
                assert(cell(self.root(), 510) / 512 == self.root());
                assert(!free.contains(p4));
                assert forall|j: int| 0 <= j < i + 1 && (#[trigger] after[j]) is Ok implies mapped_small(
                    mem2,
                    p4,
                    mappings[j].page.number(),
                ) == Some(mappings[j].frame.number()) by {
                    if j < i {
                        assert(done[j] is Ok);
                        lemma_small_mapping_kept(
                            mem1,
                            mem2,
                            self.root(),
                            free,
                            p4,
                            mappings[j].page.number(),
                        );
                    }
                }
                if requests_apart(mem0, mappings@) {
                    assert(unique_except(mem0, Set::<int>::empty()));
                    assert(unique_references(mem1));
                    assert(table_index(m, 4) != RECURSIVE_INDEX);
                    assert(others_kept(mem1, mem2, p4, m));
                    assert forall|k: int|
                        0 <= k < i + 1 && #[trigger] after[k] == Err::<(), VmmError>(
                            VmmError::AlreadyMapped,
                        ) implies slot_taken(mem0, p4, mappings[k].page.number()) || mapped_before(
                        mappings@,
                        after,
                        k,
                        mappings[k].page.number(),
                    ) by {
                        if k < i {
                            assert(done[k] == after[k]);
                            if mapped_before(mappings@, done, k, mappings[k].page.number()) {
                                let j = choose|j: int|
                                    0 <= j < k && j < mappings@.len() && j < done.len() && done[j] is Ok
                                        && #[trigger] same_place(
                                        mappings@[j].page.number(),
                                        mappings[k].page.number(),
                                    );
                                assert(after[j] is Ok);
                            }
                        } else {
                            assert(slot_taken(mem1, p4, m));
                            if mapped_before(mappings@, done, i as int, m) {
                                let j = choose|j: int|
                                    0 <= j < i && j < mappings@.len() && j < done.len() && done[j] is Ok
                                        && #[trigger] same_place(mappings@[j].page.number(), m);
                                assert(after[j] is Ok);
                            }
                        }
                    }
                    assert forall|q: u64|
                        table_index(q, 4) != RECURSIVE_INDEX && #[trigger] slot_taken(
                            mem2,
                            p4,
                            q,
                        ) implies slot_taken(mem0, p4, q) || mapped_before(
                        mappings@,
                        after,
                        i + 1,
                        q,
                    ) by {
                        if same_place(m, q) {
                            lemma_same_place_slot(mem2, p4, m, q);
                            lemma_same_place_slot(mem1, p4, m, q);
                            if result is Ok {
                                assert(after[i as int] is Ok);
                            } else {
                                assert(slot_taken(mem1, p4, q));
                            }
                        } else {
                            assert(!same_place(q, m));
                            assert(slot_taken(mem1, p4, q));
                        }
                        if slot_taken(mem1, p4, q) && !slot_taken(mem0, p4, q) {
                            let j = choose|j: int|
                                0 <= j < i && j < mappings@.len() && j < done.len() && done[j] is Ok
                                    && #[trigger] same_place(mappings@[j].page.number(), q);
                            assert(after[j] is Ok);
                        }
                    }
                }
                assert forall|c: int| #![trigger mem2[c]] word_present(mem2[c]) implies mem2[c]
                    == mem0[c] || free0.contains(word_frame(mem2[c])) || exists|k: int|
                    0 <= k < i + 1 && (#[trigger] after[k]) is Ok && mappings@[k].frame.number()
                        == word_frame(mem2[c]) by {
                    if mem2[c] == mem1[c] {
                        if mem1[c] != mem0[c] && !free0.contains(word_frame(mem1[c])) {
                            let k = choose|k: int|
                                0 <= k < i && (#[trigger] done[k]) is Ok
                                    && mappings@[k].frame.number() == word_frame(mem1[c]);
                            assert(after[k] is Ok);
                        }
                    } else if free.contains(word_frame(mem2[c])) {
                    } else {
                        assert(result is Ok);
                        assert(after[i as int] is Ok);
                        assert(word_frame(mem2[c]) == f);
                    }
                }
                if consistent(mappings@) {
                    assert forall|e: Set<int>|
                        #[trigger] unique_except(mem0, e) && all_unnamed(
                            mem0,
                            e,
                            mappings@,
                        ) implies unique_except(mem2, e) by {
                        assert(unique_except(mem1, e));
                        if result is Ok {
                            assert(unnamed_outside(mem1, e, f)) by {
                                assert forall|c: int|
                                    #![trigger mem1[c]]
                                    word_present(mem1[c]) && !e.contains(c) implies word_frame(
                                    mem1[c],
                                ) != f by {
                                    if mem1[c] == mem0[c] {
                                        assert(unnamed_outside(mem0, e, mappings@[i as int].frame.number()));
                                    } else if free0.contains(word_frame(mem1[c])) {
                                    } else {
                                        let k = choose|k: int|
                                            0 <= k < i && (#[trigger] done[k]) is Ok
                                                && mappings@[k].frame.number() == word_frame(
                                                mem1[c],
                                            );
                                        if word_frame(mem1[c]) == f {
                                            assert(mappings@[k].page.number()
                                                == mappings@[i as int].page.number());
                                            assert(before.translate_page_spec(
                                                mappings@[k].page.number(),
                                            ) is Some);
                                        }
                                    }
                                }
                            }
                        }
                    }
                }
            }
            results.push(result);
            i = i + 1;
        }
        proof {
            assert(mappings@.take(i as int) =~= mappings@);
        }
        results
    }

    /// Maps the page to some free frame with the provided flags. The frame
    /// comes from `allocator`, as the tables that are missing do.
    ///
    /// Fails with `AlreadyMapped` exactly where something stands in the page's
    /// place; nothing changes then, and no frame is taken. Fails with
    /// `OutOfPhysicalMemory` where the allocator has no frame for the page or
    /// for a table; the allocator is empty then.
    pub fn map<A: FrameAllocate>(&mut self, page: Page, flags: EntryFlags, allocator: &mut A) -> (result:
        Result<(), VmmError>)
        requires
            old(self).wf(),
            old(self).separate_from(old(allocator).free_frames()),
        ensures
            (result == Err::<(), VmmError>(VmmError::AlreadyMapped)) == slot_taken(
                old(self).memory(),
                old(self).p4_number(),
                page.number(),
            ),
            result == Err::<(), VmmError>(VmmError::AlreadyMapped) ==> {
                &&& final(self).memory() == old(self).memory()
                &&& final(allocator).free_frames() == old(allocator).free_frames()
            },
            result == Err::<(), VmmError>(VmmError::OutOfPhysicalMemory) ==> {
                &&& final(allocator).free_frames() == Set::<u64>::empty()
                &&& final(self).translate_page_spec(page.number()) is None
            },
            result is Ok ==> mapped_flags(
                final(self).memory(),
                final(self).p4_number(),
                page.number(),
            ) == Some(flags@ | PRESENT),
            unique_references(old(self).memory()) && table_index(page.number(), 4)
                != RECURSIVE_INDEX ==> others_kept(
                old(self).memory(),
                final(self).memory(),
                old(self).p4_number(),
                page.number(),
            ),
            old(allocator).free_frames() == Set::<u64>::empty() && !slot_taken(
                old(self).memory(),
                old(self).p4_number(),
                page.number(),
            ) ==> {
                &&& result == Err::<(), VmmError>(VmmError::OutOfPhysicalMemory)
                &&& final(self).memory() == old(self).memory()
                &&& final(self).root() == old(self).root()
                &&& final(allocator).free_frames() == old(allocator).free_frames()
            },
            old(allocator).free_frames() != Set::<u64>::empty() && !slot_taken(
                old(self).memory(),
                old(self).p4_number(),
                page.number(),
            ) ==> exists|frame: u64|
                {
                    &&& old(allocator).free_frames().contains(frame)
                    &&& #[trigger] Self::mapped_to(
                        *old(self),
                        *final(self),
                        old(allocator).free_frames().remove(frame),
                        final(allocator).free_frames(),
                        page.number(),
                        frame,
                        flags@,
                        result,
                    )
                },
            final(self).wf(),
            final(self).root() == old(self).root(),
            final(self).p4_number() == old(self).p4_number(),
            final(self).separate_from(final(allocator).free_frames()),
            final(allocator).free_frames().subset_of(old(allocator).free_frames()),
            forall|other: u64|
                old(self).translate_page_spec(other) is Some ==> final(self).translate_page_spec(
                    other,
                ) == old(self).translate_page_spec(other),
            forall|e: Set<int>|
                #[trigger] unique_except(old(self).memory(), e) ==> unique_except(
                    final(self).memory(),
                    e,
                ),
            new_entries_name(
                old(self).memory(),
                final(self).memory(),
                old(allocator).free_frames(),
                None,
            ),
            final(self).memory()[cell(final(self).root(), RECURSIVE_INDEX as int)]
                == old(self).memory()[cell(old(self).root(), RECURSIVE_INDEX as int)],
            present_entries_kept(
                old(self).memory(),
                final(self).memory(),
                old(allocator).free_frames(),
            ),
            result is Ok ==> forall|taken: u64|
                old(allocator).free_frames().contains(taken)
                    && !final(allocator).free_frames().contains(taken) ==> #[trigger] held(
                    final(self).memory(),
                    taken,
                    final(allocator).free_frames(),
                ),
            match result {
                Ok(()) => {
                    &&& old(self).translate_page_spec(page.number()) is None
                    &&& final(self).translate_page_spec(page.number()) is Some
                    &&& old(allocator).free_frames().contains(
                        final(self).translate_page_spec(page.number())->Some_0,
                    )
                },
                Err(e) => e == VmmError::AlreadyMapped || e == VmmError::OutOfPhysicalMemory,
            },
    {
        if self.is_taken(page) {
            proof {
                let mem = self.memory();
                assert(new_entries_name(mem, mem, old(allocator).free_frames(), None));
            }
            return Err(VmmError::AlreadyMapped);
        }
        match allocator.allocate_frame() {
            None => {
                proof {
                    let mem = self.memory();
                    assert(new_entries_name(mem, mem, old(allocator).free_frames(), None));
                    lemma_free_slot_unmapped(mem, self.p4_number(), page.number());
                }
                Err(VmmError::OutOfPhysicalMemory)
            },
            Some(frame) => {
                let ghost f = frame.number();
                let ghost mem = self.memory();
                let ghost free = old(allocator).free_frames();
                let bits = flags.bits();
                let number = frame.index();
                proof {
                    assert forall|c: int| #![trigger mem[c]] word_present(mem[c]) implies !free.remove(
                        f,
                    ).contains(word_frame(mem[c])) by {}
                }
                let result = self.map_to(page, frame, flags, allocator);
                proof {
                    let after = self.memory();
                    lemma_with_present(bits);
                    lemma_entry_word(f, bits | PRESENT);
                    assert(cell(old(self).root(), 510) / 512 == old(self).root());
                    assert forall|e: Set<int>| #[trigger] unique_except(mem, e) implies unique_except(
                        after,
                        e,
                    ) by {
                        assert(unnamed_outside(mem, e, f));
                    }
                    assert(new_entries_name(mem, after, free, None)) by {
                        assert forall|c: int| #![trigger after[c]] word_present(after[c]) implies after[c]
                            == mem[c] || free.contains(word_frame(after[c])) by {
                            if after[c] != mem[c] && !free.remove(f).contains(word_frame(after[c])) {
                                lemma_with_present(bits);
                                lemma_entry_word(f, bits | PRESENT);
                            }
                        }
                    }
                }
                result
            },
        }
    }

    /// Maps the frame to the page at the numerically identical address, which
    /// has to lie in the lower half of the address space.
    pub fn identity_map<A: FrameAllocate>(
        &mut self,
        frame: Frame,
        flags: EntryFlags,
        allocator: &mut A,
    ) -> (result: Result<(), VmmError>)
        requires
            old(self).wf(),
            old(self).separate_from(old(allocator).free_frames()),
            !old(allocator).free_frames().contains(frame.number()),
            frame.number() < LOWER_HALF_PAGES,
        ensures
            Self::mapped_to(
                *old(self),
                *final(self),
                old(allocator).free_frames(),
                final(allocator).free_frames(),
                frame.number(),
                frame.number(),
                flags@,
                result,
            ),
    {
        let page = Page::containing_address(frame.start_address());
        self.map_to(page, frame, flags, allocator)
    }

    /// Tells whether the page is mapped to a frame.
    pub fn is_allocated(&self, page: Page) -> (mapped: bool)
        requires
            self.wf(),
        ensures
            mapped == self.translate_page_spec(page.number()) is Some,
    {
        self.translate_page(page).is_some()
    }

    /// Unmaps the given page and returns the frame it was mapped to, which
    /// is the caller's from now on. Fails with `NotMapped`, and changes
    /// nothing, where the page is not mapped through a level-1 entry. Tables
    /// that are left empty stay.
    pub fn unmap_page(&mut self, page: Page) -> (result: Result<Frame, VmmError>)
        requires
            old(self).wf(),
        ensures
            Self::unmapped(
                *old(self),
                *final(self),
                Set::empty(),
                match result {
                    Ok(frame) => set![frame.number()],
                    Err(_) => Set::empty(),
                },
                page.number(),
                match result {
                    Ok(_) => Ok(()),
                    Err(e) => Err(e),
                },
            ),
            result is Ok ==> Some(result->Ok_0.number()) == mapped_small(
                old(self).memory(),
                old(self).p4_number(),
                page.number(),
            ),
    {
        let p4 = self.p4();
        let i1 = page.p1_index();
        let p3 = match p4.next_table(&self.memory, page.p4_index()) {
            Some(table) => table,
            None => {
                return Err(VmmError::NotMapped);
            },
        };
        let p2 = match p3.next_table(&self.memory, page.p3_index()) {
            Some(table) => table,
            None => {
                return Err(VmmError::NotMapped);
            },
        };
        let p1 = match p2.next_table(&self.memory, page.p2_index()) {
            Some(table) => table,
            None => {
                return Err(VmmError::NotMapped);
            },
        };
        let frame = match p1.entry(&self.memory, i1).pointed_frame() {
            Some(frame) => frame,
            None => {
                return Err(VmmError::NotMapped);
            },
        };
        let mut entry = Entry(0);
        entry.set_unused();
        p1.set_entry(&mut self.memory, i1, entry);
        proof {
            lemma_flag_facts();
            let before = old(self).memory();
            let after = self.memory();
            let leaf = cell(p1.frame_number(), i1 as int);
            assert forall|c: int| #![trigger after[c]] c != leaf implies after[c] == before[c] by {}
            assert(after[leaf] == 0);
            let named = word_frame(before[leaf]);
            assert forall|e: Set<int>| #[trigger] unique_except(before, e) implies unique_except(
                after,
                e,
            ) && (!e.contains(leaf) ==> unnamed_outside(after, e, named)) by {
                assert forall|c1: int, c2: int|
                    #![trigger after[c1], after[c2]]
                    c1 != c2 && !e.contains(c1) && !e.contains(c2) && word_present(after[c1])
                        && word_present(after[c2]) implies word_frame(after[c1]) != word_frame(
                    after[c2],
                ) by {
                    assert(after[c1] == before[c1]);
                    assert(after[c2] == before[c2]);
                }
                if !e.contains(leaf) {
                    assert forall|c: int|
                        #![trigger after[c]]
                        word_present(after[c]) && !e.contains(c) implies word_frame(after[c])
                        != named by {
                        assert(after[c] == before[c]);
                        assert(word_present(before[leaf]));
                    }
                }
            }
            assert(Set::<u64>::empty().insert(named) =~= set![named]);
        }
        Ok(frame)
    }

    /// Unmaps the given page and hands the frame it was mapped to over to
    /// `allocator`. Fails with `NotMapped`, and changes nothing, where the page
    /// is not mapped through a level-1 entry. Tables that are left empty stay.
    pub fn unmap<A: FrameDeallocate>(&mut self, page: Page, allocator: &mut A) -> (result: Result<
        (),
        VmmError,
    >)
        requires
            old(self).wf(),
            mapped_small(old(self).memory(), old(self).p4_number(), page.number()) is Some
                ==> old(allocator).accepts_all(
                set![mapped_small(old(self).memory(), old(self).p4_number(), page.number())->Some_0],
            ),
        ensures
            Self::unmapped(
                *old(self),
                *final(self),
                old(allocator).free_frames(),
                final(allocator).free_frames(),
                page.number(),
                result,
            ),
    {
        match self.unmap_page(page) {
            Ok(frame) => {
                allocator.deallocate_frame(frame);
                Ok(())
            },
            Err(e) => Err(e),
        }
    }

    /// What unmapping the page with index `number` does: to the mapper, from
    /// `before` to `after`, to the frames that the allocator has free, and what
    /// comes back.
    pub open spec fn unmapped(
        before: Mapper,
        after: Mapper,
        free_before: Set<u64>,
        free_after: Set<u64>,
        number: u64,
        result: Result<(), VmmError>,
    ) -> bool {
        let leaf = leaf_cell(before.memory(), before.p4_number(), number);
        let frame = mapped_small(before.memory(), before.p4_number(), number);
        &&& after.root() == before.root()
        &&& match result {
            Ok(()) => {
                &&& frame is Some
                &&& after.memory() == before.memory().insert(leaf->Some_0, 0)
                &&& free_after == free_before.insert(frame->Some_0)
                &&& translate_in(after.memory(), before.p4_number(), number) is None
                &&& mapped_small(after.memory(), before.p4_number(), number) is None
            },
            Err(e) => {
                &&& e == VmmError::NotMapped
                &&& frame is None
                &&& after.memory() == before.memory()
                &&& free_after == free_before
            },
        }
        &&& (leaf is Some && leaf->Some_0 != cell(before.root(), RECURSIVE_INDEX as int)
            && leaf->Some_0 != cell(before.p4_number(), RECURSIVE_INDEX as int) || result is Err)
            ==> {
            &&& after.wf()
            &&& after.p4_number() == before.p4_number()
        }
        &&& forall|e: Set<int>|
            #[trigger] unique_except(before.memory(), e) ==> {
                &&& unique_except(after.memory(), e)
                &&& result is Ok && !e.contains(leaf->Some_0) ==> unnamed_outside(
                    after.memory(),
                    e,
                    frame->Some_0,
                )
            }
    }
}

/// Round trip: after a page was mapped to a frame, the first address of
/// the page translates to the first address of the frame.
pub proof fn lemma_round_trip(
    before: Mapper,
    after: Mapper,
    free_before: Set<u64>,
    free_after: Set<u64>,
    page: u64,
    frame: u64,
    flags: u64,
)
    requires
        Mapper::mapped_to(before, after, free_before, free_after, page, frame, flags, Ok(())),
        page * PAGE_SIZE <= u64::MAX,
        frame < FRAME_COUNT,
    ensures
        after.translate_spec((page * PAGE_SIZE) as u64) == Some((frame * PAGE_SIZE) as u64),
        after.translate_page_spec(page) == Some(frame),
{
    let address = (page * PAGE_SIZE) as u64;
    assert(address / PAGE_SIZE == page);
    assert(address % PAGE_SIZE == 0);
}

/// Unmapping a page twice: where the page is mapped through a level-1
/// entry, the first time succeeds, and the second time fails with
/// `NotMapped` and changes nothing.
pub proof fn lemma_unmap_twice(
    first: Mapper,
    second: Mapper,
    third: Mapper,
    free_first: Set<u64>,
    free_second: Set<u64>,
    free_third: Set<u64>,
    page: u64,
    once: Result<(), VmmError>,
    twice: Result<(), VmmError>,
)
    requires
        mapped_small(first.memory(), first.p4_number(), page) is Some,
        Mapper::unmapped(first, second, free_first, free_second, page, once),
        second.p4_number() == first.p4_number(),
        Mapper::unmapped(second, third, free_second, free_third, page, twice),
    ensures
        once is Ok,
        twice == Err::<(), VmmError>(VmmError::NotMapped),
        third.memory() == second.memory(),
        free_third == free_second,
        free_second == free_first.insert(
            mapped_small(first.memory(), first.p4_number(), page)->Some_0,
        ),
{
}

/// Unmapping a page that is not the one of the top-level table leaves the
/// table recursively mapped, so that the page can be unmapped again.
pub proof fn lemma_unmap_keeps_self_map(
    before: Mapper,
    after: Mapper,
    free_before: Set<u64>,
    free_after: Set<u64>,
    page: u64,
    result: Result<(), VmmError>,
)
    requires
        before.wf(),
        before.p4_number() == before.root(),
        unique_references(before.memory()),
        is_canonical_page(page as int),
        page != crate::memory::paging::P4_PAGE,
        Mapper::unmapped(before, after, free_before, free_after, page, result),
    ensures
        after.wf(),
        after.p4_number() == before.p4_number(),
        after.root() == before.root(),
{
    let mem = before.memory();
    let root = before.root();
    if leaf_cell(mem, root, page) == Some(cell(root, RECURSIVE_INDEX as int)) {
        crate::memory::lemma_self_map_page(mem, root, page);
    }
}

} // verus!
