//! The start of the memory manager: from what the boot information tells to
//! a page table of the kernel's own, an allocator of frames that lasts and
//! an allocator of stacks.

use vstd::prelude::*;
use crate::memory::area_frame_allocator::{
    exclusions_of, frames_from, last_frame_of, AreaFrameAllocator, MemoryArea,
};
use crate::memory::frame_bitmap::{
    lemma_bitmap_pages, on_bitmap_page, FrameBitmap, BITMAP_BASE, BITMAP_FRAMES, BITMAP_PAGES,
};
use crate::memory::paging::entry::{
    entry_word,
    lemma_entry_word,
    lemma_flag_facts,
    word_frame,
    word_present,
    EntryFlags,
    PRESENT,
    WRITABLE,
};
use crate::memory::paging::mapper::{
    all_unnamed,
    consistent,
    leaf_cell,
    others_kept,
    lemma_free_slot_unmapped,
    lemma_leaf_cleared,
    lemma_same_place_same_page,
    lemma_same_place_slot,
    lemma_small_mapping_kept,
    lemma_small_mapping_translates,
    mapped_before,
    mapped_small,
    pages_outside_recursion,
    requests_apart,
    same_place,
    slot_taken,
    table1,
    translate_in,
    unique_except,
    unique_references,
    unnamed_outside,
    unreferenced,
    Mapper,
    RECURSIVE_INDEX,
};
use crate::memory::paging::table::{cell, zero_memory, zeroed, Table};
use crate::memory::paging::temporary_page::TemporaryPage;
use crate::memory::paging::{
    is_canonical_page,
    lemma_index_bounds,
    table_index,
    ActivePageTable,
    InactivePageTable,
    Mapping,
    Page,
    HIGHER_HALF_FIRST_PAGE,
    LOWER_HALF_PAGES,
    P4_PAGE,
    PAGE_COUNT,
};
use crate::memory::stack_allocator::StackAllocator;
use crate::memory::{
    lemma_bounded_frames_finite,
    lemma_self_map_page,
    ArchSpecificVMM,
    Frame,
    FrameAllocate,
    FrameDeallocate,
    FRAME_COUNT,
    HEAP_SIZE,
    HEAP_START,
    KERNEL_BASE,
    PAGE_SIZE,
    PHYSICAL_LIMIT,
};
use crate::vmm::{
    Protection,
    Region,
    VmmError,
    PROTECTION_EXECUTABLE,
    PROTECTION_NONE,
    PROTECTION_USER_ACCESSIBLE,
    PROTECTION_WRITABLE,
};

verus! {

/// The index of the page that the kernel is linked to: the page of
/// `KERNEL_BASE`.
pub const KERNEL_BASE_PAGE: u64 = 0xf_ffff_fff8_0000;

/// The index of the page that is mapped for a while to reach the tables
/// that are not in use.
pub const TEMPORARY_PAGE: u64 = 0xdead_beef;

/// The address of the text buffer of the screen.
pub const VGA_BUFFER: u64 = 0xb8000;

/// A section of the kernel image, as the boot information describes it.
#[derive(Debug, Clone, Copy, PartialEq, Eq, Structural)]
pub struct ElfSection {
    /// The address that the section is linked to.
    pub addr: u64,
    /// The number of bytes in the section.
    pub size: u64,
    /// Whether the section is loaded to memory.
    pub allocated: bool,
    /// Whether the section can be written to.
    pub writable: bool,
    /// Whether the section holds code.
    pub executable: bool,
    /// Whether the section is only used while the kernel boots.
    pub init: bool,
}

/// What the boot information tells about memory.
pub struct BootInformation {
    /// The address of the first byte of the boot information, in the
    /// kernel's half of the address space.
    pub start_address: u64,
    /// The address after the last byte of the boot information.
    pub end_address: u64,
    /// The areas of memory that are free.
    pub memory_areas: Vec<MemoryArea>,
    /// The sections of the kernel image.
    pub sections: Vec<ElfSection>,
    /// The boot modules, by the physical memory they lie in.
    pub modules: Vec<MemoryArea>,
    /// The physical address of the top-level table that the boot code set
    /// up and the processor walks.
    pub root: u64,
}

/// The requests that `push_frames` adds: `count` frames from `first` on,
/// each to be mapped at the page `offset` pages above its own index.
pub open spec fn frame_requests(
    first: u64,
    count: nat,
    offset: u64,
    flags: u64,
    required: bool,
) -> Seq<(u64, u64, u64, bool)> {
    Seq::new(count, |i: int| ((first + i + offset) as u64, (first + i) as u64, flags, required))
}

/// The number of frames from `first` to `last`, both included.
pub open spec fn run_length(first: u64, last: u64) -> nat {
    if first <= last {
        (last - first + 1) as nat
    } else {
        0
    }
}

/// What a request asks for, as plain values: the index of the page, the
/// index of the frame, the flags, and whether it is required.
pub open spec fn request_values(request: Mapping) -> (u64, u64, u64, bool) {
    (request.page.number(), request.frame.number(), request.flags@, request.required)
}

/// What the requests of a list ask for, as plain values.
pub open spec fn requests_values(requests: Seq<Mapping>) -> Seq<(u64, u64, u64, bool)> {
    Seq::new(requests.len(), |i: int| request_values(requests[i]))
}

/// Adds to the list a request for every frame from `first` to `last`, both
/// included: the frame is to be mapped at the page `offset` pages above its
/// own index, with the given flags. Returns `false`, and adds nothing, where
/// one of the frames or of the pages does not exist.
pub fn push_frames(
    requests: &mut Vec<Mapping>,
    first: u64,
    last: u64,
    offset: u64,
    flags: EntryFlags,
    required: bool,
) -> (added: bool)
    requires
    ensures
        added == (first > last || (last < FRAME_COUNT && last + offset <= u64::MAX
            && is_canonical_page(first + offset) && is_canonical_page(last + offset) && (first
            + offset < LOWER_HALF_PAGES <==> last + offset < LOWER_HALF_PAGES))),
        added ==> requests_values(final(requests)@) == requests_values(old(requests)@)
            + frame_requests(first, run_length(first, last), offset, flags@, required),
        !added ==> final(requests)@ == old(requests)@,
{
    let ghost before = requests@;
    proof {
        assert(requests_values(before) + frame_requests(first, 0, offset, flags@, required)
            =~= requests_values(before));
    }
    if first > last {
        return true;
    }
    if last >= FRAME_COUNT || offset > u64::MAX - last {
        return false;
    }
    let first_page = first + offset;
    let last_page = last + offset;
    let first_ok = first_page < LOWER_HALF_PAGES || (HIGHER_HALF_FIRST_PAGE <= first_page
        && first_page < PAGE_COUNT);
    let last_ok = last_page < LOWER_HALF_PAGES || (HIGHER_HALF_FIRST_PAGE <= last_page && last_page
        < PAGE_COUNT);
    if !first_ok || !last_ok || (first_page < LOWER_HALF_PAGES) != (last_page < LOWER_HALF_PAGES) {
        return false;
    }
    let mut number = first;
    while number <= last
        invariant
            first <= number <= last + 1,
            last < FRAME_COUNT,
            last + offset <= u64::MAX,
            is_canonical_page(first + offset),
            is_canonical_page(last + offset),
            first + offset < LOWER_HALF_PAGES <==> last + offset < LOWER_HALF_PAGES,
            requests_values(requests@) == requests_values(before) + frame_requests(
                first,
                (number - first) as nat,
                offset,
                flags@,
                required,
            ),
        decreases last + 1 - number,
    {
        let frame = Frame::containing_address(number * PAGE_SIZE);
        let page = Page::containing_address((number + offset) * PAGE_SIZE);
        let ghost old_values = requests_values(requests@);
        requests.push(Mapping { page, frame, flags, required });
        proof {
            let value = ((number + offset) as u64, number, flags@, required);
            assert(requests_values(requests@) =~= old_values.push(value));
            assert(frame_requests(first, (number - first + 1) as nat, offset, flags@, required)
                =~= frame_requests(first, (number - first) as nat, offset, flags@, required).push(
                value,
            ));
            assert(requests_values(requests@) =~= requests_values(before) + frame_requests(
                first,
                (number - first + 1) as nat,
                offset,
                flags@,
                required,
            ));
        }
        number = number + 1;
    }
    true
}

/// The requests for a section of the kernel image: none for a section that
/// is not loaded or is only used while the kernel boots; else one for every
/// frame of the section, at the page in the kernel's half, with the flags
/// that the section asks for. `None` where the section does not start at a
/// page of the kernel's half or is too short or too long.
pub open spec fn section_requests(section: ElfSection) -> Option<Seq<(u64, u64, u64, bool)>> {
    if !section.allocated || section.init {
        Some(Seq::empty())
    } else if section.addr % PAGE_SIZE != 0 || section.addr < KERNEL_BASE || section.addr
        + section.size > u64::MAX || section.addr + section.size - KERNEL_BASE < 2 {
        None
    } else {
        let first = ((section.addr - KERNEL_BASE) / (PAGE_SIZE as int)) as u64;
        let last = ((section.addr + section.size - KERNEL_BASE - 2) / (PAGE_SIZE as int)) as u64;
        if frames_fit(first, last, KERNEL_BASE_PAGE) {
            Some(
                frame_requests(
                    first,
                    run_length(first, last),
                    KERNEL_BASE_PAGE,
                    section_flags(section),
                    true,
                ),
            )
        } else {
            None
        }
    }
}

/// The flags that a section asks for.
pub open spec fn section_flags(section: ElfSection) -> u64 {
    (if section.allocated {
        PRESENT
    } else {
        0
    }) | (if section.writable {
        WRITABLE
    } else {
        0
    }) | (if section.executable {
        0
    } else {
        crate::memory::paging::entry::NO_EXECUTE
    })
}

/// Whether the frames from `first` to `last` exist, and the pages `offset`
/// pages above them too, all in one half of the address space.
pub open spec fn frames_fit(first: u64, last: u64, offset: u64) -> bool {
    first > last || (last < FRAME_COUNT && last + offset <= u64::MAX && is_canonical_page(
        first + offset,
    ) && is_canonical_page(last + offset) && (first + offset < LOWER_HALF_PAGES <==> last + offset
        < LOWER_HALF_PAGES))
}

/// The requests for the sections of a list, in order; `None` where one of
/// the sections has none.
pub open spec fn sections_requests(sections: Seq<ElfSection>) -> Option<
    Seq<(u64, u64, u64, bool)>,
>
    decreases sections.len(),
{
    if sections.len() == 0 {
        Some(Seq::empty())
    } else {
        match (sections_requests(sections.drop_last()), section_requests(sections.last())) {
            (Some(before), Some(last)) => Some(before + last),
            _ => None,
        }
    }
}

/// The requests for the boot information itself: one for every frame that
/// it lies in, at the page in the kernel's half, present and no more. They
/// are not required: a page that is mapped already stays as it is.
pub open spec fn multiboot_requests(start: u64, end: u64) -> Option<Seq<(u64, u64, u64, bool)>> {
    if start < KERNEL_BASE || end < KERNEL_BASE || end - KERNEL_BASE < 1 {
        None
    } else {
        let first = ((start - KERNEL_BASE) / (PAGE_SIZE as int)) as u64;
        let last = ((end - KERNEL_BASE - 1) / (PAGE_SIZE as int)) as u64;
        if frames_fit(first, last, KERNEL_BASE_PAGE) {
            Some(frame_requests(first, run_length(first, last), KERNEL_BASE_PAGE, PRESENT, false))
        } else {
            None
        }
    }
}

/// All the requests of the kernel: for its sections, for the text buffer
/// of the screen, which is mapped at its own address and writable, and for
/// the boot information.
pub open spec fn kernel_requests_spec(
    sections: Seq<ElfSection>,
    start: u64,
    end: u64,
) -> Option<Seq<(u64, u64, u64, bool)>> {
    match (sections_requests(sections), multiboot_requests(start, end)) {
        (Some(kernel), Some(multiboot)) => Some(
            kernel + frame_requests(VGA_BUFFER / PAGE_SIZE, 1, 0, WRITABLE, true) + multiboot,
        ),
        _ => None,
    }
}

/// Puts together what is to be mapped in the table of the kernel: every
/// loaded section of the kernel image in the kernel's half, with the flags
/// that the section asks for; the text buffer of the screen at its own
/// address; and the boot information in the kernel's half.
///
/// Fails with `InvalidAddress` where a section or the boot information does
/// not lie as the kernel expects it.
pub fn kernel_requests(boot_info: &BootInformation) -> (result: Result<Vec<Mapping>, VmmError>)
    ensures
        match result {
            Ok(requests) => {
                &&& kernel_requests_spec(
                    boot_info.sections@,
                    boot_info.start_address,
                    boot_info.end_address,
                ) == Some(requests_values(requests@))
            },
            Err(e) => {
                &&& e == VmmError::InvalidAddress
                &&& kernel_requests_spec(
                    boot_info.sections@,
                    boot_info.start_address,
                    boot_info.end_address,
                ) is None
            },
        },
{
    let mut requests: Vec<Mapping> = Vec::new();
    let mut i: usize = 0;
    proof {
        assert(boot_info.sections@.subrange(0, 0) =~= Seq::<ElfSection>::empty());
        assert(requests_values(requests@) =~= Seq::<(u64, u64, u64, bool)>::empty());
    }
    while i < boot_info.sections.len()
        invariant
            i <= boot_info.sections.len(),
            sections_requests(boot_info.sections@.subrange(0, i as int)) == Some(
                requests_values(requests@),
            ),
        decreases boot_info.sections.len() - i,
    {
        let section = boot_info.sections[i];
        let ghost head = boot_info.sections@.subrange(0, i as int);
        let ghost next = boot_info.sections@.subrange(0, i + 1);
        proof {
            assert(next.drop_last() =~= head);
            assert(next.last() == section);
            assert(requests_values(requests@) + Seq::<(u64, u64, u64, bool)>::empty()
                =~= requests_values(requests@));
        }
        if section.allocated && !section.init {
            if section.addr % PAGE_SIZE != 0 || section.addr < KERNEL_BASE || section.size
                > u64::MAX - section.addr {
                proof {
                    lemma_sections_fail(boot_info.sections@, i as int);
                }
                return Err(VmmError::InvalidAddress);
            }
            let end = section.addr + section.size;
            if end - KERNEL_BASE < 2 {
                proof {
                    lemma_sections_fail(boot_info.sections@, i as int);
                }
                return Err(VmmError::InvalidAddress);
            }
            let flags = EntryFlags::from_elf_section_flags(
                section.allocated,
                section.writable,
                section.executable,
            );
            let first = (section.addr - KERNEL_BASE) / PAGE_SIZE;
            let last = (end - KERNEL_BASE - 2) / PAGE_SIZE;
            if !push_frames(&mut requests, first, last, KERNEL_BASE_PAGE, flags, true) {
                proof {
                    lemma_sections_fail(boot_info.sections@, i as int);
                }
                return Err(VmmError::InvalidAddress);
            }
        }
        i = i + 1;
    }
    proof {
        assert(boot_info.sections@.subrange(0, i as int) =~= boot_info.sections@);
        lemma_flag_facts();
    }
    // the text buffer of the screen, at its own address
    let vga = VGA_BUFFER / PAGE_SIZE;
    let writable = EntryFlags::from_bits_truncate(WRITABLE);
    let added = push_frames(&mut requests, vga, vga, 0, writable, true);
    assert(added);
    // the boot information, in the kernel's half
    let start = boot_info.start_address;
    let end = boot_info.end_address;
    if start < KERNEL_BASE || end < KERNEL_BASE || end - KERNEL_BASE < 1 {
        return Err(VmmError::InvalidAddress);
    }
    let first = (start - KERNEL_BASE) / PAGE_SIZE;
    let last = (end - KERNEL_BASE - 1) / PAGE_SIZE;
    let present = EntryFlags::from_bits_truncate(PRESENT);
    if !push_frames(&mut requests, first, last, KERNEL_BASE_PAGE, present, false) {
        return Err(VmmError::InvalidAddress);
    }
    Ok(requests)
}

/// Where a section of a list has no requests, the list has none.
pub proof fn lemma_sections_fail(sections: Seq<ElfSection>, at: int)
    requires
        0 <= at < sections.len(),
        section_requests(sections[at]) is None,
    ensures
        sections_requests(sections) is None,
    decreases sections.len(),
{
    if at < sections.len() - 1 {
        assert(sections.drop_last()[at] == sections[at]);
        lemma_sections_fail(sections.drop_last(), at);
    }
}

/// Tells whether no two of the requests ask for the same frame at
/// different pages.
pub fn requests_consistent(requests: &Vec<Mapping>) -> (ok: bool)
    ensures
        ok == consistent(requests@),
{
    let mut j: usize = 0;
    while j < requests.len()
        invariant
            j <= requests.len(),
            forall|a: int, b: int|
                #![trigger requests@[a], requests@[b]]
                0 <= a < j && 0 <= b < requests.len() && requests@[a].frame.number()
                    == requests@[b].frame.number() ==> requests@[a].page.number()
                    == requests@[b].page.number(),
        decreases requests.len() - j,
    {
        let frame = requests[j].frame.index();
        let page = requests[j].page.index();
        let mut k: usize = 0;
        while k < requests.len()
            invariant
                j < requests.len(),
                k <= requests.len(),
                frame == requests@[j as int].frame.number(),
                page == requests@[j as int].page.number(),
                forall|b: int|
                    #![trigger requests@[b]]
                    0 <= b < k && requests@[b].frame.number() == frame ==> requests@[b].page.number()
                        == page,
            decreases requests.len() - k,
        {
            if requests[k].frame.index() == frame && requests[k].page.index() != page {
                return false;
            }
            k = k + 1;
        }
        j = j + 1;
    }
    true
}

/// Tells whether the allocator has none of the frames that the requests
/// ask for.
pub fn none_free(requests: &Vec<Mapping>, allocator: &AreaFrameAllocator) -> (ok: bool)
    ensures
        ok == forall|j: int|
            0 <= j < requests.len() ==> !allocator.free_frames().contains(
                (#[trigger] requests@[j]).frame.number(),
            ),
{
    let mut j: usize = 0;
    while j < requests.len()
        invariant
            j <= requests.len(),
            forall|a: int|
                0 <= a < j ==> !allocator.free_frames().contains(
                    (#[trigger] requests@[a]).frame.number(),
                ),
        decreases requests.len() - j,
    {
        if allocator.is_free(&requests[j].frame) {
            return false;
        }
        j = j + 1;
    }
    true
}

/// The memory holds the top-level table of the boot and nothing else: the
/// table in `root` is empty but for its entry 510, which points back at it.
pub open spec fn freshly_booted(mem: Map<int, u64>, root: u64) -> bool {
    mem == zero_memory().insert(
        cell(root, RECURSIVE_INDEX as int),
        entry_word(root, PRESENT | WRITABLE),
    )
}

/// The page table and the frames that are free fit together: the table is
/// recursively mapped, no frame is referred to twice, and no free frame is
/// referred to at all.
pub open spec fn owned(table: ActivePageTable, free: Set<u64>) -> bool {
    &&& table.wf()
    &&& unique_references(table.mapper.memory())
    &&& table.mapper.separate_from(free)
}

/// What holds of the page table and the allocator of frames once the kernel
/// is remapped: the two fit together, and every required request is mapped,
/// but for the page of the old top-level table, which is the guard page of
/// the kernel stack from now on.
pub open spec fn remapped(
    table: ActivePageTable,
    free: Set<u64>,
    requests: Seq<(u64, u64, u64, bool)>,
    guard: u64,
) -> bool {
    &&& owned(table, free)
    &&& table.mapper.translate_page_spec(guard) is None
    &&& all_mapped(table.mapper, requests, guard)
}

/// Every present entry but the one at `own` names a frame of `taken`.
pub open spec fn named_within(mem: Map<int, u64>, own: int, taken: Set<u64>) -> bool {
    forall|c: int|
        #![trigger mem[c]]
        word_present(mem[c]) && c != own ==> taken.contains(word_frame(mem[c]))
}

/// Makes a frame of `source` a top-level table that is not in use, with the
/// help of a temporary page whose tables come from `source` too.
fn new_kernel_table(active_table: &mut ActivePageTable, source: &mut AreaFrameAllocator) -> (result:
    Result<(InactivePageTable, TemporaryPage), VmmError>)
    requires
        old(active_table).wf(),
        freshly_booted(old(active_table).mapper.memory(), old(active_table).mapper.root()),
        !old(source).free_frames().contains(old(active_table).mapper.root()),
    ensures
        final(active_table).mapper.root() == old(active_table).mapper.root(),
        final(source).free_frames().subset_of(old(source).free_frames()),
        match result {
            Ok((table, temporary_page)) => {
                &&& owned(*final(active_table), final(source).free_frames())
                &&& table.valid_in(final(active_table).mapper.memory())
                &&& old(source).free_frames().contains(table.p4_frame.number())
                &&& !final(source).free_frames().contains(table.p4_frame.number())
                &&& temporary_page.page().number() == TEMPORARY_PAGE
                &&& temporary_page.allocator.free_frames() == Set::<u64>::empty()
                &&& named_within(
                    final(active_table).mapper.memory(),
                    cell(old(active_table).mapper.root(), RECURSIVE_INDEX as int),
                    old(source).free_frames(),
                )
                &&& leaf_cell(
                    final(active_table).mapper.memory(),
                    final(active_table).mapper.root(),
                    TEMPORARY_PAGE,
                ) is Some
                &&& !slot_taken(
                    final(active_table).mapper.memory(),
                    final(active_table).mapper.root(),
                    TEMPORARY_PAGE,
                )
                &&& forall|i: int|
                    0 <= i < 512 && i != RECURSIVE_INDEX
                        ==> #[trigger] final(active_table).mapper.memory()[cell(table.p4_frame.number(), i)] == 0
            },
            Err(e) => e == VmmError::OutOfPhysicalMemory && final(source).free_frames() == Set::<
                u64,
            >::empty(),
        },
{
    let old_number = active_table.mapper.root_frame().index();
    let ghost root = old_number;
    let ghost own = cell(root, 510);
    let ghost free0 = source.free_frames();
    let ghost mem0 = active_table.mapper.memory();
    proof {
        lemma_flag_facts();
        lemma_entry_word(root, PRESENT | WRITABLE);
        assert forall|c: int| #![trigger mem0[c]] c != own implies mem0[c] == 0 by {}
        assert(unique_references(mem0));
        assert(((0xdead_beefu64 >> 27) & 0o777) == 27) by (bit_vector);
    }
    let mut temporary_page = TemporaryPage::new(
        Page::containing_address(TEMPORARY_PAGE * PAGE_SIZE),
        source,
    );
    let ghost tiny0 = temporary_page.allocator.free_frames();
    let full = temporary_page.allocator.is_full();
    let frame = match source.allocate_frame() {
        Some(frame) => frame,
        None => {
            return Err(VmmError::OutOfPhysicalMemory);
        },
    };
    let ghost n = frame.number();
    let ghost free1 = source.free_frames();
    proof {
        assert(free0.contains(n));
        assert(tiny0.subset_of(free0));
        assert(!tiny0.contains(n));
        assert(leaf_cell(mem0, root, TEMPORARY_PAGE) is None) by {
            assert(mem0[cell(root, table_index(TEMPORARY_PAGE, 4) as int)] == 0);
        }
    }
    let new_table = match InactivePageTable::new(frame, active_table, &mut temporary_page) {
        Ok(table) => table,
        Err(e) => {
            proof {
                // nothing stands in the place of the temporary page, and the
                // page has the three frames that its tables can take
                assert(!slot_taken(mem0, root, TEMPORARY_PAGE));
                if e == VmmError::OutOfPhysicalMemory {
                    let pair = choose|a: u64, b: u64| #[trigger] tiny0.subset_of(set![a, b]);
                    assert(set![pair.0, pair.1] =~= set![pair.0].insert(pair.1));
                    vstd::set_lib::lemma_len_subset(tiny0, set![pair.0, pair.1]);
                    assert(!full);
                }
            }
            return Err(e);
        },
    };
    proof {
        let mem1 = active_table.mapper.memory();
        assert forall|c: int| #![trigger mem1[c]] word_present(mem1[c]) && c != own implies free0.contains(
            word_frame(mem1[c]),
        ) && !free1.contains(word_frame(mem1[c])) by {
            assert(mem1[c] == mem0[c] || tiny0.insert(n).contains(word_frame(mem1[c])));
        }
        assert(mem1[own] == mem0[own]);
    }
    Ok((new_table, temporary_page))
}

/// None of the requests, given as plain values, asks for a page in the
/// recursive region, and the addresses of all their pages are canonical.
pub open spec fn pages_proper(values: Seq<(u64, u64, u64, bool)>) -> bool {
    forall|j: int|
        0 <= j < values.len() ==> table_index((#[trigger] values[j]).0, 4) != RECURSIVE_INDEX
            && is_canonical_page(values[j].0 as int)
}

/// Tells whether none of the requests asks for a page in the recursive
/// region.
pub fn requests_proper(requests: &Vec<Mapping>) -> (ok: bool)
    ensures
        ok == pages_proper(requests_values(requests@)),
        ok ==> pages_outside_recursion(requests@),
{
    let ghost values = requests_values(requests@);
    let mut j: usize = 0;
    while j < requests.len()
        invariant
            j <= requests.len(),
            values == requests_values(requests@),
            forall|k: int|
                0 <= k < j ==> table_index((#[trigger] values[k]).0, 4) != RECURSIVE_INDEX
                    && is_canonical_page(values[k].0 as int),
        decreases requests.len() - j,
    {
        let number = requests[j].page.index();
        proof {
            assert(values[j as int].0 == number);
        }
        if requests[j].page.p4_index() == RECURSIVE_INDEX {
            return false;
        }
        j = j + 1;
    }
    proof {
        assert forall|i: int| 0 <= i < requests@.len() implies table_index(
            (#[trigger] requests@[i]).page.number(),
            4,
        ) != RECURSIVE_INDEX by {
            assert(values[i].0 == requests@[i].page.number());
        }
    }
    true
}

/// Two of the requests ask for the same page, and the later of the two is
/// required: it finds the page taken when its turn comes.
pub open spec fn pages_collide(values: Seq<(u64, u64, u64, bool)>) -> bool {
    exists|j: int, k: int|
        #![trigger values[j], values[k]]
        0 <= j < k < values.len() && values[k].3 && values[j].0 == values[k].0
}

/// One of the requests asks for a page that selects the entries that the
/// page with index `number` selects.
pub open spec fn asked(values: Seq<(u64, u64, u64, bool)>, number: u64) -> bool {
    exists|j: int| 0 <= j < values.len() && #[trigger] same_place(values[j].0, number)
}

/// Nothing stands in the place of a page outside the recursive region that
/// no request asks for and that is no page of the bitmap, where `bitmap` says
/// that the pages of the bitmap count.
pub open spec fn taken_as_asked(
    table: Mapper,
    values: Seq<(u64, u64, u64, bool)>,
    bitmap: bool,
) -> bool {
    forall|q: u64|
        table_index(q, 4) != RECURSIVE_INDEX && #[trigger] slot_taken(
            table.memory(),
            table.p4_number(),
            q,
        ) ==> asked(values, q) || (bitmap && on_bitmap_page(q))
}

/// Every required request is mapped as it asks, through a level-1 entry.
pub open spec fn required_mapped(table: Mapper, values: Seq<(u64, u64, u64, bool)>) -> bool {
    forall|j: int|
        0 <= j < values.len() && (#[trigger] values[j]).3 ==> mapped_small(
            table.memory(),
            table.p4_number(),
            values[j].0,
        ) == Some(values[j].1)
}

/// Switches to the new table, wipes the table that was in use before, and
/// carries out the requests in the new table. A required request that fails
/// ends the work with its error.
fn switch_and_populate(
    active_table: &mut ActivePageTable,
    table: InactivePageTable,
    requests: &Vec<Mapping>,
    source: &mut AreaFrameAllocator,
    Ghost(free0): Ghost<Set<u64>>,
) -> (result: Result<(), VmmError>)
    requires
        owned(*old(active_table), old(source).free_frames()),
        table.valid_in(old(active_table).mapper.memory()),
        forall|i: int|
            0 <= i < 512 && i != RECURSIVE_INDEX
                ==> #[trigger] old(active_table).mapper.memory()[cell(table.p4_frame.number(), i)] == 0,
        free0.contains(table.p4_frame.number()),
        !free0.contains(old(active_table).mapper.root()),
        old(source).free_frames().subset_of(free0),
        !old(source).free_frames().contains(table.p4_frame.number()),
        named_within(
            old(active_table).mapper.memory(),
            cell(old(active_table).mapper.root(), RECURSIVE_INDEX as int),
            free0,
        ),
        consistent(requests@),
        pages_proper(requests_values(requests@)),
        pages_outside_recursion(requests@),
        forall|j: int| 0 <= j < requests.len() ==> !free0.contains((#[trigger] requests[j]).frame.number()),
    ensures
        final(source).free_frames().subset_of(old(source).free_frames()),
        match result {
            Ok(()) => {
                &&& owned(*final(active_table), final(source).free_frames())
                &&& final(active_table).mapper.root() == table.p4_frame.number()
                &&& required_mapped(final(active_table).mapper, requests_values(requests@))
                &&& taken_as_asked(final(active_table).mapper, requests_values(requests@), false)
            },
            Err(e) => e == VmmError::AlreadyMapped || e == VmmError::OutOfPhysicalMemory,
        },
        result == Err::<(), VmmError>(VmmError::AlreadyMapped) ==> pages_collide(
            requests_values(requests@),
        ),
        result == Err::<(), VmmError>(VmmError::OutOfPhysicalMemory)
            ==> final(source).free_frames() == Set::<u64>::empty(),
{
    let ghost root = active_table.mapper.root();
    let ghost own = cell(root, 510);
    let ghost n = table.p4_frame.number();
    let ghost mem1 = active_table.mapper.memory();
    let ghost free1 = source.free_frames();
    let ghost values = requests_values(requests@);
    let number = table.p4_frame.index();
    proof {
        lemma_flag_facts();
        lemma_entry_word(n, PRESENT | WRITABLE);
    }
    let old_table = active_table.switch(table);
    // Wipe the table that is no longer in use
    let wiped = Table::top_level(old_table.p4_frame);
    active_table.mapper.zero_table(&wiped);
    let ghost mem2 = active_table.mapper.memory();
    proof {
        assert(n != root);
        assert(cell(n, 510) / 512 == n);
        assert forall|c: int| #![trigger mem2[c]] mem2[c] == mem1[c] || mem2[c] == 0 by {}
        assert(mem2[cell(n, 510)] == mem1[cell(n, 510)]);
        assert(mem2[own] == 0);
        assert(active_table.wf());
        assert(active_table.mapper.p4_number() == n);
        assert(unreferenced(mem2, n, free1)) by {
            assert forall|c: int| #![trigger mem2[c]] word_present(mem2[c]) implies !free1.contains(
                word_frame(mem2[c]),
            ) by {
                assert(mem2[c] == mem1[c]);
            }
        }
        assert(unique_references(mem2)) by {
            assert(unique_except(mem1, Set::<int>::empty()));
            assert forall|c1: int, c2: int|
                #![trigger mem2[c1], mem2[c2]]
                c1 != c2 && word_present(mem2[c1]) && word_present(mem2[c2]) implies word_frame(
                mem2[c1],
            ) != word_frame(mem2[c2]) by {
                assert(mem2[c1] == mem1[c1] && mem2[c2] == mem1[c2]);
            }
        }
        assert(all_unnamed(mem2, Set::<int>::empty(), requests@)) by {
            assert forall|j: int| 0 <= j < requests@.len() implies unnamed_outside(
                mem2,
                Set::<int>::empty(),
                (#[trigger] requests@[j]).frame.number(),
            ) by {
                let f = requests@[j].frame.number();
                assert forall|c: int| #![trigger mem2[c]] word_present(mem2[c]) implies word_frame(
                    mem2[c],
                ) != f by {
                    assert(mem2[c] == mem1[c]);
                    assert(c != own);
                    assert(free0.contains(word_frame(mem1[c])));
                }
            }
        }
        assert(requests_apart(mem2, requests@));
        // the new table is empty: nothing stands in the place of a page
        assert forall|q: u64| table_index(q, 4) != RECURSIVE_INDEX implies !slot_taken(
            mem2,
            n,
            q,
        ) by {
            lemma_index_bounds(q);
            assert(mem2[cell(n, table_index(q, 4) as int)] == 0);
        }
    }
    let results = active_table.mapper.map_all(requests, source);
    let ghost mem3 = active_table.mapper.memory();
    proof {
        assert(unique_except(mem2, Set::<int>::empty()));
        assert(unique_references(mem3));
        assert forall|j: int| 0 <= j < values.len() && (#[trigger] values[j]).3 && results[j] is Ok
            implies mapped_small(
            mem3,
            n,
            values[j].0,
        ) == Some(values[j].1) by {
            assert(values[j].0 == requests@[j].page.number());
            assert(values[j].1 == requests@[j].frame.number());
        }
        assert forall|q: u64|
            table_index(q, 4) != RECURSIVE_INDEX && #[trigger] slot_taken(mem3, n, q) implies asked(
            values,
            q,
        ) by {
            assert(!slot_taken(mem2, n, q));
            assert(mapped_before(requests@, results@, requests.len() as int, q));
            let j = choose|j: int|
                0 <= j < requests.len() && j < requests@.len() && j < results@.len() && results@[j] is Ok
                    && #[trigger] same_place(requests@[j].page.number(), q);
            assert(values[j].0 == requests@[j].page.number());
            assert(same_place(values[j].0, q));
        }
    }
    // A required request that failed ends the work with its error
    let mut j: usize = 0;
    while j < results.len()
        invariant
            j <= results.len(),
            results.len() == requests.len(),
            values == requests_values(requests@),
            n == active_table.mapper.p4_number(),
            mem3 == active_table.mapper.memory(),
            mem2 == zeroed(mem1, root),
            pages_proper(values),
            source.free_frames().subset_of(old(source).free_frames()),
            forall|q: u64| table_index(q, 4) != RECURSIVE_INDEX ==> !#[trigger] slot_taken(mem2, n, q),
            forall|i: int|
                0 <= i < results.len() && (#[trigger] results[i]) is Err ==> results[i]->Err_0
                    == VmmError::AlreadyMapped || results[i]->Err_0
                    == VmmError::OutOfPhysicalMemory,
            forall|i: int|
                0 <= i < results.len() && #[trigger] results[i] == Err::<(), VmmError>(
                    VmmError::OutOfPhysicalMemory,
                ) ==> source.free_frames() == Set::<u64>::empty(),
            forall|i: int|
                0 <= i < results.len() && #[trigger] results[i] == Err::<(), VmmError>(
                    VmmError::AlreadyMapped,
                ) ==> slot_taken(mem2, n, requests@[i].page.number()) || mapped_before(
                    requests@,
                    results@,
                    i,
                    requests@[i].page.number(),
                ),
            forall|i: int| 0 <= i < j && (#[trigger] values[i]).3 ==> results[i] is Ok,
        decreases results.len() - j,
    {
        if requests[j].required {
            match results[j] {
                Ok(()) => {},
                Err(e) => {
                    proof {
                        if e == VmmError::AlreadyMapped {
                            let k = j as int;
                            let page = requests@[k].page.number();
                            assert(values[k].0 == page && values[k].3);
                            assert(table_index(page, 4) != RECURSIVE_INDEX);
                            assert(!slot_taken(mem2, n, page));
                            assert(mapped_before(requests@, results@, k, page));
                            let i = choose|i: int|
                                0 <= i < k && i < requests@.len() && i < results@.len() && results@[i] is Ok
                                    && #[trigger] same_place(requests@[i].page.number(), page);
                            assert(values[i].0 == requests@[i].page.number());
                            lemma_same_place_same_page(values[i].0, values[k].0);
                            assert(values[i].0 == values[k].0);
                        }
                    }
                    return Err(e);
                },
            }
        }
        proof {
            assert(values[j as int].3 == requests@[j as int].required);
        }
        j = j + 1;
    }
    Ok(())
}

/// One of the requests asks for a page of the bitmap.
pub open spec fn asks_for_bitmap(values: Seq<(u64, u64, u64, bool)>) -> bool {
    exists|j: int|
        0 <= j < values.len() && BITMAP_BASE / PAGE_SIZE <= (#[trigger] values[j]).0 < BITMAP_BASE
            / PAGE_SIZE + BITMAP_PAGES
}

/// A required request asks for the page `guard`.
pub open spec fn guard_required(values: Seq<(u64, u64, u64, bool)>, guard: u64) -> bool {
    exists|j: int| 0 <= j < values.len() && (#[trigger] values[j]).3 && values[j].0 == guard
}

/// The page that a table appears at in the kernel's half lies outside the
/// recursive region.
pub proof fn lemma_kernel_half_outside_recursion(number: u64)
    requires
        KERNEL_BASE_PAGE <= number < PAGE_COUNT,
    ensures
        table_index(number, 4) != RECURSIVE_INDEX,
{
    lemma_index_bounds(number);
    assert((number >> 27) & 0o777 == 511) by (bit_vector)
        requires
            0xf_ffff_fff8_0000u64 <= number && number < 0x10_0000_0000_0000u64,
    ;
}

/// Every required request is mapped as it asks, but for the page `guard`.
pub open spec fn all_mapped(table: Mapper, requests: Seq<(u64, u64, u64, bool)>, guard: u64) -> bool {
    forall|j: int|
        0 <= j < requests.len() && (#[trigger] requests[j]).3 && requests[j].0 != guard
            ==> table.translate_page_spec(requests[j].0) == Some(requests[j].1)
}

/// Puts the frames that `source` still has into a bitmap, and unmaps the
/// guard page; the frame that it was mapped to goes into the bitmap if that
/// has a bit for it.
fn seed_bitmap(
    active_table: &mut ActivePageTable,
    source: &mut AreaFrameAllocator,
    temporary_page: TemporaryPage,
    guard: Page,
    Ghost(values): Ghost<Seq<(u64, u64, u64, bool)>>,
) -> (result: Result<FrameBitmap, VmmError>)
    requires
        owned(*old(active_table), old(source).free_frames()),
        old(active_table).mapper.p4_number() == old(active_table).mapper.root(),
        forall|n: u64| old(source).free_frames().contains(n) ==> n < BITMAP_FRAMES,
        temporary_page.allocator.free_frames() == Set::<u64>::empty(),
        guard.number() != P4_PAGE,
        KERNEL_BASE_PAGE <= guard.number() < PAGE_COUNT,
        pages_proper(values),
        required_mapped(old(active_table).mapper, values),
        taken_as_asked(old(active_table).mapper, values, false),
    ensures
        final(active_table).mapper.root() == old(active_table).mapper.root(),
        final(source).free_frames().subset_of(old(source).free_frames()),
        result is Ok || result == Err::<FrameBitmap, VmmError>(VmmError::OutOfPhysicalMemory)
            ==> final(source).free_frames() == Set::<u64>::empty(),
        match result {
            Ok(bitmap) => {
                &&& owned(*final(active_table), bitmap.free_frames())
                &&& final(active_table).mapper.translate_page_spec(guard.number()) is None
                &&& all_mapped(final(active_table).mapper, values, guard.number())
                &&& taken_as_asked(final(active_table).mapper, values, true)
            },
            Err(e) => e == VmmError::AlreadyMapped || e == VmmError::OutOfPhysicalMemory || e
                == VmmError::NotMapped,
        },
        result == Err::<FrameBitmap, VmmError>(VmmError::AlreadyMapped) ==> asks_for_bitmap(values),
        result == Err::<FrameBitmap, VmmError>(VmmError::NotMapped) ==> !guard_required(
            values,
            guard.number(),
        ),
{
    let ghost n = active_table.mapper.root();
    let ghost mem3 = active_table.mapper.memory();
    let ghost free3 = source.free_frames();
    let ghost g = guard.number();
    proof {
        lemma_bounded_frames_finite(source.free_frames(), BITMAP_FRAMES);
        lemma_flag_facts();
        lemma_kernel_half_outside_recursion(g);
        assert(cell(n, 510) / 512 == n);
    }
    let made = FrameBitmap::new(source, active_table);
    let ghost mem4 = active_table.mapper.memory();
    proof {
        assert(active_table.mapper.p4_number() == n);
        assert(taken_as_asked(active_table.mapper, values, true));
        if made == Err::<FrameBitmap, VmmError>(VmmError::AlreadyMapped) {
            let b = choose|b: u64|
                BITMAP_BASE / PAGE_SIZE <= b < BITMAP_BASE / PAGE_SIZE + BITMAP_PAGES && slot_taken(
                    mem3,
                    n,
                    b,
                );
            lemma_bitmap_pages(b);
            assert(asked(values, b));
            let j = choose|j: int| 0 <= j < values.len() && #[trigger] same_place(values[j].0, b);
            lemma_same_place_same_page(values[j].0, b);
        }
        assert forall|j: int| 0 <= j < values.len() && (#[trigger] values[j]).3 implies mapped_small(
            mem4,
            n,
            values[j].0,
        ) == Some(values[j].1) by {
            lemma_small_mapping_kept(mem3, mem4, n, free3, n, values[j].0);
        }
    }
    let mut frame_bitmap = match made {
        Ok(bitmap) => bitmap,
        Err(e) => {
            return Err(e);
        },
    };
    proof {
        assert(frame_bitmap.accepts_all(temporary_page.allocator.free_frames()));
        assert(frame_bitmap.free_frames() + Set::<u64>::empty() =~= frame_bitmap.free_frames());
    }
    let ghost bitmap_free = frame_bitmap.free_frames();
    temporary_page.consume(&mut frame_bitmap);
    let capacity = frame_bitmap.frame_capacity();
    let guard_number = guard.index();
    proof {
        if leaf_cell(mem4, n, guard.number()) == Some(cell(n, RECURSIVE_INDEX as int)) {
            lemma_self_map_page(mem4, n, guard.number());
        }
        assert(unique_except(mem4, Set::<int>::empty()));
    }
    match active_table.mapper.unmap_page(guard) {
        Ok(freed) => {
            let ghost named = freed.number();
            proof {
                let mem5 = active_table.mapper.memory();
                assert(unnamed_outside(mem5, Set::<int>::empty(), named));
                assert(mem5[cell(n, 510)] == mem4[cell(n, 510)]);
                assert(word_present(mem5[cell(n, 510)]));
                assert(named != n);
                assert forall|c: int| #![trigger mem5[c]] mem5[c] == mem4[c] || mem5[c] == 0 by {}
                assert(unreferenced(mem5, n, bitmap_free)) by {
                    assert forall|c: int|
                        #![trigger mem5[c]]
                        word_present(mem5[c]) implies !bitmap_free.contains(
                        word_frame(mem5[c]),
                    ) by {
                        assert(mem5[c] == mem4[c]);
                    }
                }
                // the other pages are as they were
                assert(table1(mem4, n, g) is Some);
                lemma_leaf_cleared(mem4, mem5, n, g);
                lemma_free_slot_unmapped(mem5, n, g);
                assert forall|j: int|
                    0 <= j < values.len() && (#[trigger] values[j]).3 && values[j].0
                        != g implies active_table.mapper.translate_page_spec(values[j].0) == Some(
                    values[j].1,
                ) by {
                    let page = values[j].0;
                    if same_place(page, g) {
                        lemma_same_place_same_page(page, g);
                    }
                    lemma_small_mapping_translates(mem4, n, page);
                    assert(translate_in(mem5, n, page) == translate_in(mem4, n, page));
                }
                assert forall|q: u64|
                    table_index(q, 4) != RECURSIVE_INDEX && #[trigger] slot_taken(
                        mem5,
                        n,
                        q,
                    ) implies asked(values, q) || on_bitmap_page(q) by {
                    if same_place(q, g) {
                        lemma_same_place_slot(mem5, n, q, g);
                    } else {
                        assert(slot_taken(mem4, n, q));
                    }
                }
            }
            if freed.index() < capacity {
                proof {
                    assert forall|m: u64| set![named].contains(m) implies m < capacity by {}
                }
                frame_bitmap.deallocate_frame(freed);
            }
        },
        Err(e) => {
            proof {
                if guard_required(values, g) {
                    let j = choose|j: int|
                        0 <= j < values.len() && (#[trigger] values[j]).3 && values[j].0 == g;
                    assert(mapped_small(mem4, n, values[j].0) == Some(values[j].1));
                }
            }
            return Err(e);
        },
    }
    Ok(frame_bitmap)
}

/// No two of the requests, given as plain values, ask for the same frame
/// at different pages.
pub open spec fn consistent_values(values: Seq<(u64, u64, u64, bool)>) -> bool {
    forall|j: int, k: int|
        #![trigger values[j], values[k]]
        0 <= j < values.len() && 0 <= k < values.len() && values[j].1 == values[k].1
            ==> values[j].0 == values[k].0
}

/// Requests are consistent exactly if their values are.
pub proof fn lemma_consistent_values(requests: Seq<Mapping>)
    ensures
        consistent(requests) == consistent_values(requests_values(requests)),
{
    let values = requests_values(requests);
    if consistent(requests) {
        assert forall|j: int, k: int|
            #![trigger values[j], values[k]]
            0 <= j < values.len() && 0 <= k < values.len() && values[j].1
                == values[k].1 implies values[j].0 == values[k].0 by {
            assert(requests[j].frame.number() == requests[k].frame.number());
        }
    }
    if consistent_values(values) {
        assert forall|j: int, k: int|
            #![trigger requests[j], requests[k]]
            0 <= j < requests.len() && 0 <= k < requests.len() && requests[j].frame.number()
                == requests[k].frame.number() implies requests[j].page.number()
            == requests[k].page.number() by {
            assert(values[j].1 == values[k].1);
        }
    }
}

/// The requests can be carried out with the frames of an allocator that
/// has the frames `free` of the areas `areas`: they are consistent, none asks
/// for a page in the recursive region, none of their frames is free, and
/// every frame of the areas has a bit in the bitmap.
pub open spec fn requests_fit(
    values: Seq<(u64, u64, u64, bool)>,
    free: Set<u64>,
    areas: Seq<MemoryArea>,
) -> bool {
    &&& consistent_values(values)
    &&& pages_proper(values)
    &&& forall|j: int| 0 <= j < values.len() ==> !free.contains((#[trigger] values[j]).1)
    &&& last_frame_of(areas) < BITMAP_FRAMES
}

/// Builds a top-level table of the kernel's own out of the frames of
/// `source`, switches to it, wipes the table that was in use before, and
/// carries out the requests in the new table.
///
/// The requests have to be consistent and outside the recursive region,
/// `source` must have none of their frames, and all its frames must have a
/// bit in the bitmap to come: else, and only then, the result is
/// `InvalidAddress`, and nothing has happened. The result is `AlreadyMapped`
/// only where two requests ask for the same page and the later one is
/// required, and `OutOfPhysicalMemory` only where `source` has no frame in
/// the end.
fn bootstrap(
    active_table: &mut ActivePageTable,
    source: &mut AreaFrameAllocator,
    requests: &Vec<Mapping>,
) -> (result: Result<TemporaryPage, VmmError>)
    requires
        old(active_table).wf(),
        freshly_booted(old(active_table).mapper.memory(), old(active_table).mapper.root()),
        !old(source).free_frames().contains(old(active_table).mapper.root()),
    ensures
        final(source).free_frames().subset_of(old(source).free_frames()),
        (result == Err::<TemporaryPage, VmmError>(VmmError::InvalidAddress)) == !requests_fit(
            requests_values(requests@),
            old(source).free_frames(),
            old(source).areas(),
        ),
        result == Err::<TemporaryPage, VmmError>(VmmError::InvalidAddress) ==> {
            &&& final(active_table).mapper == old(active_table).mapper
            &&& final(source).free_frames() == old(source).free_frames()
        },
        result == Err::<TemporaryPage, VmmError>(VmmError::OutOfPhysicalMemory)
            ==> final(source).free_frames() == Set::<u64>::empty(),
        result == Err::<TemporaryPage, VmmError>(VmmError::AlreadyMapped) ==> pages_collide(
            requests_values(requests@),
        ),
        match result {
            Ok(temporary_page) => {
                &&& owned(*final(active_table), final(source).free_frames())
                &&& final(active_table).mapper.p4_number() == final(active_table).mapper.root()
                &&& old(source).free_frames().contains(final(active_table).mapper.root())
                &&& temporary_page.allocator.free_frames() == Set::<u64>::empty()
                &&& forall|n: u64| final(source).free_frames().contains(n) ==> n < BITMAP_FRAMES
                &&& required_mapped(final(active_table).mapper, requests_values(requests@))
                &&& taken_as_asked(final(active_table).mapper, requests_values(requests@), false)
            },
            Err(e) => e == VmmError::InvalidAddress || e == VmmError::AlreadyMapped || e
                == VmmError::OutOfPhysicalMemory,
        },
{
    proof {
        lemma_consistent_values(requests@);
        let values = requests_values(requests@);
        assert((forall|j: int|
            0 <= j < requests.len() ==> !source.free_frames().contains(
                (#[trigger] requests@[j]).frame.number(),
            )) == (forall|j: int|
            0 <= j < values.len() ==> !source.free_frames().contains((#[trigger] values[j]).1))) by {
            if forall|j: int|
                0 <= j < requests.len() ==> !source.free_frames().contains(
                    (#[trigger] requests@[j]).frame.number(),
                ) {
                assert forall|j: int| 0 <= j < values.len() implies !source.free_frames().contains(
                    (#[trigger] values[j]).1,
                ) by {
                    assert(values[j].1 == requests@[j].frame.number());
                }
            }
            if forall|j: int|
                0 <= j < values.len() ==> !source.free_frames().contains((#[trigger] values[j]).1) {
                assert forall|j: int| 0 <= j < requests.len() implies !source.free_frames().contains(
                    (#[trigger] requests@[j]).frame.number(),
                ) by {
                    assert(values[j].1 == requests@[j].frame.number());
                }
            }
        }
    }
    if !requests_consistent(requests) || !requests_proper(requests) || !none_free(requests, source) {
        return Err(VmmError::InvalidAddress);
    }
    if source.last_frame() >= BITMAP_FRAMES {
        return Err(VmmError::InvalidAddress);
    }
    let ghost free0 = source.free_frames();
    proof {
        source.lemma_free_in_area();
    }
    let (new_table, temporary_page) = match new_kernel_table(active_table, source) {
        Ok(made) => made,
        Err(e) => {
            return Err(e);
        },
    };
    match switch_and_populate(active_table, new_table, requests, source, Ghost(free0)) {
        Ok(()) => {},
        Err(e) => {
            return Err(e);
        },
    }
    proof {
        assert(cell(active_table.mapper.root(), 510) / 512 == active_table.mapper.root());
    }
    Ok(temporary_page)
}

/// The page that the top-level table in the frame with index `root`
/// appears at in the kernel's half. `None` where there is no such page, or
/// where it is the page that the table in use shows itself at.
pub fn guard_page(root: &Frame) -> (guard: Option<Page>)
    ensures
        match guard {
            Some(page) => page.number() == root.number() + KERNEL_BASE_PAGE && page.number()
                != P4_PAGE && root.number() + KERNEL_BASE_PAGE < PAGE_COUNT,
            None => root.number() + KERNEL_BASE_PAGE >= PAGE_COUNT || root.number()
                + KERNEL_BASE_PAGE == P4_PAGE,
        },
{
    let number = root.index();
    if number >= PAGE_COUNT - KERNEL_BASE_PAGE {
        return None;
    }
    let guard_number = number + KERNEL_BASE_PAGE;
    if guard_number == P4_PAGE {
        return None;
    }
    Some(Page::containing_address(guard_number * PAGE_SIZE))
}

/// The boot information and an allocator with the frames `free` of the
/// areas `areas` fit the kernel, where `root` is the index of the frame of
/// the table in use: the sections and the boot information lie as the kernel
/// expects them, the table in use has a page of its own in the kernel's half,
/// which is not the page that a table shows itself at, and the requests for
/// the kernel can be carried out with the frames of the allocator.
pub open spec fn kernel_fits(
    boot_info: BootInformation,
    root: u64,
    free: Set<u64>,
    areas: Seq<MemoryArea>,
) -> bool {
    let requests = kernel_requests_spec(
        boot_info.sections@,
        boot_info.start_address,
        boot_info.end_address,
    );
    &&& requests is Some
    &&& root + KERNEL_BASE_PAGE < PAGE_COUNT
    &&& root + KERNEL_BASE_PAGE != P4_PAGE
    &&& requests_fit(requests->Some_0, free, areas)
}

/// Remaps the kernel: builds a top-level table of the kernel's own,
/// switches to it, and maps what `kernel_requests` asks for in it. Then the
/// frames that `allocator` still has go into the bitmap that is returned. The
/// old top-level table is wiped, and the page that it appeared at in the
/// kernel's half is unmapped: it guards the kernel stack from now on.
///
/// Fails with `InvalidAddress` exactly where the boot information and the
/// allocator do not fit the kernel: where a section or the boot information
/// does not lie as the kernel expects it, where the old table has no page of
/// its own in the kernel's half, where the requests are not consistent or ask
/// for a page in the recursive region, where the allocator has one of their
/// frames, or where a frame of the allocator has no bit in the bitmap;
/// nothing has happened then. Fails with `OutOfPhysicalMemory` only where the
/// allocator has no frame in the end; with `AlreadyMapped` only where two
/// requests ask for one page and the later one is required, or a request asks
/// for a page of the bitmap; and with `NotMapped` only where no required
/// request asks for the page of the old table. On success every frame of the
/// allocator was taken out of it.
pub fn remap_the_kernel(
    active_table: &mut ActivePageTable,
    allocator: &mut AreaFrameAllocator,
    boot_info: &BootInformation,
) -> (result: Result<FrameBitmap, VmmError>)
    requires
        old(active_table).wf(),
        freshly_booted(old(active_table).mapper.memory(), old(active_table).mapper.root()),
        !old(allocator).free_frames().contains(old(active_table).mapper.root()),
    ensures
        (result == Err::<FrameBitmap, VmmError>(VmmError::InvalidAddress)) == !kernel_fits(
            *boot_info,
            old(active_table).mapper.root(),
            old(allocator).free_frames(),
            old(allocator).areas(),
        ),
        final(allocator).free_frames().subset_of(old(allocator).free_frames()),
        result == Err::<FrameBitmap, VmmError>(VmmError::InvalidAddress) ==> {
            &&& final(active_table).mapper == old(active_table).mapper
            &&& final(allocator).free_frames() == old(allocator).free_frames()
        },
        result is Ok || result == Err::<FrameBitmap, VmmError>(VmmError::OutOfPhysicalMemory)
            ==> final(allocator).free_frames() == Set::<u64>::empty(),
        result == Err::<FrameBitmap, VmmError>(VmmError::AlreadyMapped) ==> {
            let values = kernel_requests_spec(
                boot_info.sections@,
                boot_info.start_address,
                boot_info.end_address,
            )->Some_0;
            pages_collide(values) || asks_for_bitmap(values)
        },
        result == Err::<FrameBitmap, VmmError>(VmmError::NotMapped) ==> !guard_required(
            kernel_requests_spec(
                boot_info.sections@,
                boot_info.start_address,
                boot_info.end_address,
            )->Some_0,
            (old(active_table).mapper.root() + KERNEL_BASE_PAGE) as u64,
        ),
        match result {
            Ok(bitmap) => {
                let values = kernel_requests_spec(
                    boot_info.sections@,
                    boot_info.start_address,
                    boot_info.end_address,
                )->Some_0;
                &&& kernel_requests_spec(
                    boot_info.sections@,
                    boot_info.start_address,
                    boot_info.end_address,
                ) is Some
                &&& old(active_table).mapper.root() + KERNEL_BASE_PAGE < PAGE_COUNT
                &&& remapped(
                    *final(active_table),
                    bitmap.free_frames(),
                    values,
                    (old(active_table).mapper.root() + KERNEL_BASE_PAGE) as u64,
                )
                &&& final(active_table).mapper.p4_number() == final(active_table).mapper.root()
                &&& taken_as_asked(final(active_table).mapper, values, true)
                &&& old(allocator).free_frames().contains(final(active_table).mapper.root())
            },
            Err(e) => e == VmmError::InvalidAddress || e == VmmError::AlreadyMapped || e
                == VmmError::OutOfPhysicalMemory || e == VmmError::NotMapped,
        },
{
    let requests = match kernel_requests(boot_info) {
        Ok(requests) => requests,
        Err(e) => {
            return Err(e);
        },
    };
    let guard = match guard_page(&active_table.mapper.root_frame()) {
        Some(page) => page,
        None => {
            return Err(VmmError::InvalidAddress);
        },
    };
    let ghost values = requests_values(requests@);
    let temporary_page = match bootstrap(active_table, allocator, &requests) {
        Ok(page) => page,
        Err(e) => {
            return Err(e);
        },
    };
    // Now we are done allocating: the frames that are left go into the bitmap
    let frame_bitmap = match seed_bitmap(
        active_table,
        allocator,
        temporary_page,
        guard,
        Ghost(values),
    ) {
        Ok(bitmap) => bitmap,
        Err(e) => {
            return Err(e);
        },
    };
    proof {
        assert(cell(active_table.mapper.root(), 510) / 512 == active_table.mapper.root());
    }
    Ok(frame_bitmap)
}

/// Whether a section counts for the bounds of the kernel image: it is
/// loaded, into the kernel's half, and ends within the address space.
pub open spec fn counts(section: ElfSection) -> bool {
    section.allocated && section.addr >= KERNEL_BASE && section.addr + section.size <= u64::MAX
}

/// The physical addresses of the first byte of the kernel image and of
/// the byte after its last: the lowest start and the highest end of the
/// sections that count, less `KERNEL_BASE`. `None` where no section counts.
pub open spec fn kernel_bounds_spec(sections: Seq<ElfSection>) -> Option<(u64, u64)>
    decreases sections.len(),
{
    if sections.len() == 0 {
        None
    } else {
        let last = sections.last();
        let start = (last.addr - KERNEL_BASE) as u64;
        let end = (last.addr + last.size - KERNEL_BASE) as u64;
        match kernel_bounds_spec(sections.drop_last()) {
            None => if counts(last) {
                Some((start, end))
            } else {
                None
            },
            Some((low, high)) => if counts(last) {
                Some(
                    (
                        if start < low {
                            start
                        } else {
                            low
                        },
                        if end > high {
                            end
                        } else {
                            high
                        },
                    ),
                )
            } else {
                Some((low, high))
            },
        }
    }
}

/// Finds the physical addresses of the first byte of the kernel image and
/// of the byte after its last.
pub fn kernel_bounds(sections: &Vec<ElfSection>) -> (bounds: Option<(u64, u64)>)
    ensures
        bounds == kernel_bounds_spec(sections@),
{
    let mut bounds: Option<(u64, u64)> = None;
    let mut i: usize = 0;
    proof {
        assert(sections@.subrange(0, 0) =~= Seq::<ElfSection>::empty());
    }
    while i < sections.len()
        invariant
            i <= sections.len(),
            bounds == kernel_bounds_spec(sections@.subrange(0, i as int)),
        decreases sections.len() - i,
    {
        let section = sections[i];
        proof {
            let next = sections@.subrange(0, i + 1);
            assert(next.drop_last() =~= sections@.subrange(0, i as int));
            assert(next.last() == section);
        }
        if section.allocated && section.addr >= KERNEL_BASE && section.size <= u64::MAX
            - section.addr {
            let start = section.addr - KERNEL_BASE;
            let end = section.addr + section.size - KERNEL_BASE;
            bounds = match bounds {
                None => Some((start, end)),
                Some((low, high)) => Some(
                    (
                        if start < low {
                            start
                        } else {
                            low
                        },
                        if end > high {
                            end
                        } else {
                            high
                        },
                    ),
                ),
            };
        }
        i = i + 1;
    }
    proof {
        assert(sections@.subrange(0, i as int) =~= sections@);
    }
    bounds
}

/// Copies the areas that are valid into a list of their own. Returns `None`
/// where one of the areas is not valid.
pub fn valid_areas(areas: &Vec<MemoryArea>) -> (copy: Option<Vec<MemoryArea>>)
    ensures
        match copy {
            Some(list) => list@ == areas@ && forall|k: int|
                0 <= k < areas.len() ==> (#[trigger] areas[k]).valid(),
            None => exists|k: int| 0 <= k < areas.len() && !(#[trigger] areas[k]).valid(),
        },
{
    let mut list: Vec<MemoryArea> = Vec::new();
    let mut i: usize = 0;
    while i < areas.len()
        invariant
            i <= areas.len(),
            list@ == areas@.subrange(0, i as int),
            forall|k: int| 0 <= k < i ==> (#[trigger] areas[k]).valid(),
        decreases areas.len() - i,
    {
        let area = areas[i];
        if area.length == 0 || area.base_addr > PHYSICAL_LIMIT || area.length > PHYSICAL_LIMIT
            - area.base_addr {
            assert(!areas[i as int].valid());
            return None;
        }
        list.push(area);
        proof {
            assert(list@ =~= areas@.subrange(0, i + 1));
        }
        i = i + 1;
    }
    proof {
        assert(areas@.subrange(0, i as int) =~= areas@);
    }
    Some(list)
}

/// The index of the first page of the heap.
pub const HEAP_FIRST_PAGE: u64 = 0x200;

/// The index of the last page of the heap.
pub const HEAP_LAST_PAGE: u64 = 0x218;

/// The number of pages that are set aside for stacks, less one.
pub const STACK_PAGES: u64 = 100;

/// The frames that the allocator of the boot has free: those of the free
/// areas of memory, without the frames of the kernel image, of the boot
/// information and of the boot modules.
pub open spec fn boot_frames(boot_info: BootInformation) -> Set<u64> {
    let bounds = kernel_bounds_spec(boot_info.sections@)->Some_0;
    frames_from(
        boot_info.memory_areas@,
        exclusions_of(
            bounds.0,
            bounds.1,
            (boot_info.start_address - KERNEL_BASE) as u64,
            (boot_info.end_address - KERNEL_BASE) as u64,
            boot_info.modules@,
        ),
        0,
    )
}

/// The boot information lies as the kernel expects it: the kernel image
/// has bounds, the boot information lies in the kernel's half, both and the
/// top-level table of the boot end within physical memory, the areas of free
/// memory and the boot modules are valid, and the frame of the table is not
/// free.
pub open spec fn boot_valid(boot_info: BootInformation) -> bool {
    &&& boot_lies_right(boot_info)
    &&& !boot_frames(boot_info).contains(boot_info.root / PAGE_SIZE)
}

/// The kernel image has bounds, the boot information lies in the kernel's
/// half, both and the top-level table of the boot end within physical
/// memory, and the areas of free memory and the boot modules are valid.
pub open spec fn boot_lies_right(boot_info: BootInformation) -> bool {
    let bounds = kernel_bounds_spec(boot_info.sections@);
    &&& bounds is Some
    &&& boot_info.start_address >= KERNEL_BASE
    &&& boot_info.end_address >= KERNEL_BASE
    &&& bounds->Some_0.1 <= PHYSICAL_LIMIT
    &&& boot_info.end_address - KERNEL_BASE <= PHYSICAL_LIMIT
    &&& boot_info.root < PHYSICAL_LIMIT
    &&& forall|k: int|
        0 <= k < boot_info.memory_areas@.len() ==> (#[trigger] boot_info.memory_areas@[k]).valid()
    &&& forall|k: int| 0 <= k < boot_info.modules@.len() ==> (#[trigger] boot_info.modules@[k]).valid()
}

/// The boot information lies as the kernel expects it, and it and the
/// frames that are free fit the kernel.
pub open spec fn boot_fits(boot_info: BootInformation) -> bool {
    &&& boot_valid(boot_info)
    &&& kernel_fits(
        boot_info,
        boot_info.root / PAGE_SIZE,
        boot_frames(boot_info),
        boot_info.memory_areas@,
    )
}

/// One of the requests asks for a page of the heap.
pub open spec fn asks_for_heap(values: Seq<(u64, u64, u64, bool)>) -> bool {
    exists|j: int|
        0 <= j < values.len() && HEAP_FIRST_PAGE <= (#[trigger] values[j]).0 <= HEAP_LAST_PAGE
}

/// Whether the page with index `number` selects the entries that a page of
/// the heap below the page `end` selects.
pub open spec fn on_heap_page(number: u64, end: u64) -> bool {
    exists|h: u64| HEAP_FIRST_PAGE <= h < end && #[trigger] same_place(h, number)
}

/// Initializes memory to a defined state.
///
/// The bounds of the kernel image are found, and the allocator of the boot
/// is set up over the free areas of memory, without the frames of the
/// kernel image, of the boot information and of the boot modules. The
/// kernel is remapped into a table of its own, with the permissions that its
/// sections ask for, and the frames that are left go into the bitmap. The
/// pages of the heap are mapped to free frames, writable, and the 101 pages
/// above the heap are set aside for stacks.
///
/// Fails with `InvalidAddress` exactly where the boot information does not
/// lie as the kernel expects it or does not fit the kernel. Fails with
/// `AlreadyMapped` only where two requests for the kernel ask for one page
/// and the later one is required, or a request asks for a page of the bitmap
/// or of the heap; with `NotMapped` only where no required request asks for
/// the page of the old table; and with `OutOfPhysicalMemory` where the frames
/// run out.
pub fn init(boot_info: &BootInformation) -> (result: Result<ArchSpecificVMM, VmmError>)
    ensures
        (result == Err::<ArchSpecificVMM, VmmError>(VmmError::InvalidAddress)) == !boot_fits(
            *boot_info,
        ),
        result == Err::<ArchSpecificVMM, VmmError>(VmmError::AlreadyMapped) ==> {
            let values = kernel_requests_spec(
                boot_info.sections@,
                boot_info.start_address,
                boot_info.end_address,
            )->Some_0;
            pages_collide(values) || asks_for_bitmap(values) || asks_for_heap(values)
        },
        result == Err::<ArchSpecificVMM, VmmError>(VmmError::NotMapped) ==> !guard_required(
            kernel_requests_spec(
                boot_info.sections@,
                boot_info.start_address,
                boot_info.end_address,
            )->Some_0,
            (boot_info.root / PAGE_SIZE + KERNEL_BASE_PAGE) as u64,
        ),
        match result {
            Ok(controller) => {
                &&& controller.wf()
                &&& kernel_requests_spec(
                    boot_info.sections@,
                    boot_info.start_address,
                    boot_info.end_address,
                ) is Some
                &&& all_mapped(
                    controller.active_table.mapper,
                    kernel_requests_spec(
                        boot_info.sections@,
                        boot_info.start_address,
                        boot_info.end_address,
                    )->Some_0,
                    (boot_info.root / PAGE_SIZE + KERNEL_BASE_PAGE) as u64,
                )
                &&& forall|n: u64|
                    HEAP_FIRST_PAGE <= n <= HEAP_LAST_PAGE ==> controller.translate_page_spec(n)
                        is Some
                &&& controller.stack_allocator.range().next_number() == HEAP_LAST_PAGE + 1
                &&& controller.stack_allocator.range().last_number() == HEAP_LAST_PAGE + 1
                    + STACK_PAGES
            },
            Err(e) => e == VmmError::InvalidAddress || e == VmmError::AlreadyMapped || e
                == VmmError::OutOfPhysicalMemory || e == VmmError::NotMapped,
        },
{
    let (kernel_start, kernel_end) = match kernel_bounds(&boot_info.sections) {
        Some(bounds) => bounds,
        None => {
            return Err(VmmError::InvalidAddress);
        },
    };
    if boot_info.start_address < KERNEL_BASE || boot_info.end_address < KERNEL_BASE {
        return Err(VmmError::InvalidAddress);
    }
    let multiboot_start = boot_info.start_address - KERNEL_BASE;
    let multiboot_end = boot_info.end_address - KERNEL_BASE;
    if kernel_end > PHYSICAL_LIMIT || multiboot_end > PHYSICAL_LIMIT || boot_info.root
        >= PHYSICAL_LIMIT {
        return Err(VmmError::InvalidAddress);
    }
    let areas = match valid_areas(&boot_info.memory_areas) {
        Some(areas) => areas,
        None => {
            return Err(VmmError::InvalidAddress);
        },
    };
    let modules = match valid_areas(&boot_info.modules) {
        Some(modules) => modules,
        None => {
            return Err(VmmError::InvalidAddress);
        },
    };
    let root = Frame::containing_address(boot_info.root);
    let mut frame_allocator = AreaFrameAllocator::new(
        kernel_start,
        kernel_end,
        multiboot_start,
        multiboot_end,
        modules,
        areas,
    );
    if frame_allocator.is_free(&root) {
        return Err(VmmError::InvalidAddress);
    }
    let mut active_table = ActivePageTable::new(root);
    let frame_bitmap = match remap_the_kernel(&mut active_table, &mut frame_allocator, boot_info) {
        Ok(bitmap) => bitmap,
        Err(e) => {
            return Err(e);
        },
    };
    let stack_allocator = {
        let alloc_start = Page::containing_address((HEAP_LAST_PAGE + 1) * PAGE_SIZE);
        let alloc_end = Page::containing_address((HEAP_LAST_PAGE + 1 + STACK_PAGES) * PAGE_SIZE);
        StackAllocator::new(Page::range_inclusive(alloc_start, alloc_end))
    };
    let mut controller = ArchSpecificVMM { active_table, frame_allocator: frame_bitmap, stack_allocator };
    let ghost requests = kernel_requests_spec(
        boot_info.sections@,
        boot_info.start_address,
        boot_info.end_address,
    )->Some_0;
    let ghost guard = (boot_info.root / PAGE_SIZE + KERNEL_BASE_PAGE) as u64;
    let ghost table0 = controller.active_table.mapper;
    let ghost p4 = table0.p4_number();
    proof {
        lemma_flag_facts();
    }
    let writable = EntryFlags::from_bits_truncate(WRITABLE);
    let mut number = HEAP_FIRST_PAGE;
    while number <= HEAP_LAST_PAGE
        invariant
            HEAP_FIRST_PAGE <= number <= HEAP_LAST_PAGE + 1,
            boot_fits(*boot_info),
            requests == kernel_requests_spec(
                boot_info.sections@,
                boot_info.start_address,
                boot_info.end_address,
            )->Some_0,
            pages_proper(requests),
            p4 == controller.active_table.mapper.p4_number(),
            forall|q: u64|
                table_index(q, 4) != RECURSIVE_INDEX && #[trigger] slot_taken(
                    controller.active_table.mapper.memory(),
                    p4,
                    q,
                ) ==> asked(requests, q) || on_bitmap_page(q) || on_heap_page(q, number),
            controller.wf(),
            controller.stack_allocator.range().next_number() == HEAP_LAST_PAGE + 1,
            controller.stack_allocator.range().last_number() == HEAP_LAST_PAGE + 1 + STACK_PAGES,
            forall|other: u64|
                table0.translate_page_spec(other) is Some ==> controller.translate_page_spec(other)
                    == table0.translate_page_spec(other),
            forall|n: u64|
                HEAP_FIRST_PAGE <= n < number ==> controller.translate_page_spec(n) is Some,
        decreases HEAP_LAST_PAGE + 1 - number,
    {
        let page = Page::containing_address(number * PAGE_SIZE);
        let ghost before = controller;
        let mapped = controller.active_table.mapper.map(
            page,
            writable,
            &mut controller.frame_allocator,
        );
        proof {
            let mem1 = before.active_table.mapper.memory();
            let mem2 = controller.active_table.mapper.memory();
            crate::memory::stack_allocator::lemma_lower_half_outside_recursion(
                number as int,
                number as int,
            );
            assert(table_index(number, 4) != RECURSIVE_INDEX);
            assert(others_kept(mem1, mem2, p4, number));
            assert forall|q: u64|
                table_index(q, 4) != RECURSIVE_INDEX && #[trigger] slot_taken(
                    mem2,
                    p4,
                    q,
                ) implies asked(requests, q) || on_bitmap_page(q) || on_heap_page(
                q,
                (number + 1) as u64,
            ) by {
                if same_place(number, q) {
                } else {
                    assert(!same_place(q, number));
                    assert(slot_taken(mem1, p4, q));
                    if on_heap_page(q, number) {
                        let h = choose|h: u64|
                            HEAP_FIRST_PAGE <= h < number && #[trigger] same_place(h, q);
                        assert(same_place(h, q));
                    }
                }
            }
            if mapped == Err::<(), VmmError>(VmmError::AlreadyMapped) {
                assert(slot_taken(mem1, p4, number));
                lemma_index_bounds(number);
                if on_bitmap_page(number) {
                    let b = choose|b: u64|
                        BITMAP_BASE / PAGE_SIZE <= b < BITMAP_BASE / PAGE_SIZE + BITMAP_PAGES
                            && #[trigger] same_place(b, number);
                    lemma_bitmap_pages(b);
                    assert(((number >> 27) & 0o777) != 511) by (bit_vector)
                        requires
                            number < 0x8_0000_0000u64,
                    ;
                }
                if on_heap_page(number, number) {
                    let h = choose|h: u64|
                        HEAP_FIRST_PAGE <= h < number && #[trigger] same_place(h, number);
                    lemma_same_place_same_page(h, number);
                }
                assert(asked(requests, number));
                let j = choose|j: int|
                    0 <= j < requests.len() && #[trigger] same_place(requests[j].0, number);
                lemma_same_place_same_page(requests[j].0, number);
                assert(asks_for_heap(requests));
            }
        }
        match mapped {
            Ok(()) => {},
            Err(e) => {
                return Err(e);
            },
        }
        proof {
            assert forall|n: u64|
                HEAP_FIRST_PAGE <= n < number + 1 implies controller.translate_page_spec(n)
                is Some by {
                if n != number {
                    assert(before.translate_page_spec(n) is Some);
                    assert(before.active_table.mapper.translate_page_spec(n) is Some);
                }
            }
        }
        number = number + 1;
    }
    proof {
        assert forall|j: int|
            0 <= j < requests.len() && (#[trigger] requests[j]).3 && requests[j].0
                != guard implies controller.active_table.mapper.translate_page_spec(
            requests[j].0,
        ) == Some(requests[j].1) by {
            assert(table0.translate_page_spec(requests[j].0) == Some(requests[j].1));
        }
    }
    Ok(controller)
}

/// The addresses that the linker gave to the parts of the kernel image.
#[derive(Debug, Clone, Copy, PartialEq, Eq, Structural)]
pub struct KernelSymbols {
    /// The first address of the code.
    pub code_start: u64,
    /// The address after the code.
    pub code_end: u64,
    /// The first address of the data that starts zeroed.
    pub bss_start: u64,
    /// The address after it.
    pub bss_end: u64,
    /// The first address of the data.
    pub data_start: u64,
    /// The address after the data.
    pub data_end: u64,
    /// The first address of the data that is only read.
    pub rodata_start: u64,
    /// The address after it.
    pub rodata_end: u64,
}

/// Each of the kernel's early memory regions: the code, which can be
/// executed; the zeroed data and the data, which can be written; the data
/// that is only read; the heap; and the text buffer of the screen.
pub open spec fn early_regions_spec(symbols: KernelSymbols) -> Seq<Region> {
    seq![
        Region {
            name: "Code",
            start: symbols.code_start,
            end: symbols.code_end,
            protection: Protection::of(PROTECTION_EXECUTABLE),
        },
        Region {
            name: "BSS",
            start: symbols.bss_start,
            end: symbols.bss_end,
            protection: Protection::of(PROTECTION_WRITABLE),
        },
        Region {
            name: "Data",
            start: symbols.data_start,
            end: symbols.data_end,
            protection: Protection::of(PROTECTION_WRITABLE),
        },
        Region {
            name: "RoData",
            start: symbols.rodata_start,
            end: symbols.rodata_end,
            protection: Protection::of(PROTECTION_NONE),
        },
        Region {
            name: "Heap",
            start: HEAP_START,
            end: (HEAP_START + HEAP_SIZE) as u64,
            protection: Protection::of(PROTECTION_WRITABLE),
        },
        Region {
            name: "VGA",
            start: VGA_BUFFER,
            end: (VGA_BUFFER + 8) as u64,
            protection: Protection::of(PROTECTION_WRITABLE),
        },
    ]
}

/// Each of the kernel's early memory regions.
pub fn early_regions(symbols: &KernelSymbols) -> (regions: Vec<Region>)
    ensures
        regions@ == early_regions_spec(*symbols),
        regions.len() == 6,
        regions[0].name == "Code",
        regions[1].name == "BSS",
        regions[2].name == "Data",
        regions[3].name == "RoData",
        regions[4].name == "Heap",
        regions[5].name == "VGA",
        regions[0].start == symbols.code_start && regions[0].end == symbols.code_end
            && regions[0].protection@ == PROTECTION_EXECUTABLE,
        regions[1].start == symbols.bss_start && regions[1].end == symbols.bss_end
            && regions[1].protection@ == PROTECTION_WRITABLE,
        regions[2].start == symbols.data_start && regions[2].end == symbols.data_end
            && regions[2].protection@ == PROTECTION_WRITABLE,
        regions[3].start == symbols.rodata_start && regions[3].end == symbols.rodata_end
            && regions[3].protection@ == PROTECTION_NONE,
        regions[4].start == HEAP_START && regions[4].end == HEAP_START + HEAP_SIZE
            && regions[4].protection@ == PROTECTION_WRITABLE,
        regions[5].start == VGA_BUFFER && regions[5].end == VGA_BUFFER + 8
            && regions[5].protection@ == PROTECTION_WRITABLE,
{
    proof {
        assert(0x4u64 & 0x7 == 0x4 && 0x1u64 & 0x7 == 0x1 && 0x0u64 & 0x7 == 0x0) by (bit_vector);
    }
    let executable = Protection::from_bits_truncate(PROTECTION_EXECUTABLE);
    let writable = Protection::from_bits_truncate(PROTECTION_WRITABLE);
    let none = Protection::from_bits_truncate(PROTECTION_NONE);
    let mut regions: Vec<Region> = Vec::new();
    // kernel
    regions.push(Region::new("Code", symbols.code_start, symbols.code_end, executable));
    regions.push(Region::new("BSS", symbols.bss_start, symbols.bss_end, writable));
    regions.push(Region::new("Data", symbols.data_start, symbols.data_end, writable));
    regions.push(Region::new("RoData", symbols.rodata_start, symbols.rodata_end, none));
    // heap
    regions.push(Region::new("Heap", HEAP_START, HEAP_START + HEAP_SIZE, writable));
    // VGA buffer
    regions.push(Region::new("VGA", VGA_BUFFER, VGA_BUFFER + 8, writable));
    assert(regions@ =~= early_regions_spec(*symbols));
    regions
}

/// The flags that the protection of a region asks for.
pub open spec fn protection_flags(protection: u64) -> u64 {
    (if protection & PROTECTION_WRITABLE == PROTECTION_WRITABLE {
        WRITABLE
    } else {
        0
    }) | (if protection & PROTECTION_USER_ACCESSIBLE == PROTECTION_USER_ACCESSIBLE {
        crate::memory::paging::entry::USER_ACCESSIBLE
    } else {
        0
    }) | (if protection & PROTECTION_EXECUTABLE == PROTECTION_EXECUTABLE {
        0
    } else {
        crate::memory::paging::entry::NO_EXECUTE
    })
}

/// How far the pages of a region lie above its frames, in bytes: a region
/// above `KERNEL_BASE` lies `KERNEL_BASE` above them, any other at their
/// own addresses.
pub open spec fn region_shift(region: Region) -> u64 {
    if region.start > KERNEL_BASE {
        KERNEL_BASE
    } else {
        0
    }
}

/// The requests for a region: one for every frame from the one that holds
/// its first byte to the one that holds the byte two below its end, with the
/// flags that its protection asks for. `None` where the region ends less
/// than two bytes above where its frames start, or where a frame or a page
/// does not exist.
pub open spec fn region_requests(region: Region) -> Option<Seq<(u64, u64, u64, bool)>> {
    let shift = region_shift(region);
    if region.end < shift || region.end - shift < 2 {
        None
    } else {
        let first = ((region.start - shift) / (PAGE_SIZE as int)) as u64;
        let last = ((region.end - shift - 2) / (PAGE_SIZE as int)) as u64;
        let offset = shift / PAGE_SIZE;
        if frames_fit(first, last, offset) {
            Some(
                frame_requests(
                    first,
                    run_length(first, last),
                    offset,
                    protection_flags(region.protection@),
                    true,
                ),
            )
        } else {
            None
        }
    }
}

/// The requests for the regions of a list, in order; `None` where one of
/// the regions has none.
pub open spec fn regions_requests(regions: Seq<Region>) -> Option<Seq<(u64, u64, u64, bool)>>
    decreases regions.len(),
{
    if regions.len() == 0 {
        Some(Seq::empty())
    } else {
        match (regions_requests(regions.drop_last()), region_requests(regions.last())) {
            (Some(before), Some(last)) => Some(before + last),
            _ => None,
        }
    }
}

/// All the early requests: for the regions, and for the boot information.
pub open spec fn early_requests_spec(regions: Seq<Region>, start: u64, end: u64) -> Option<
    Seq<(u64, u64, u64, bool)>,
> {
    match (regions_requests(regions), multiboot_requests(start, end)) {
        (Some(early), Some(multiboot)) => Some(early + multiboot),
        _ => None,
    }
}

/// Where a region of a list has no requests, the list has none.
pub proof fn lemma_regions_fail(regions: Seq<Region>, at: int)
    requires
        0 <= at < regions.len(),
        region_requests(regions[at]) is None,
    ensures
        regions_requests(regions) is None,
    decreases regions.len(),
{
    if at < regions.len() - 1 {
        assert(regions.drop_last()[at] == regions[at]);
        lemma_regions_fail(regions.drop_last(), at);
    }
}

/// The index of the page that lies `offset` pages above the frame with
/// index `frame`.
pub open spec fn page_above(frame: u64, offset: u64) -> u64 {
    (frame + offset) as u64
}

/// The frames of the region from `start` to `end` are mapped at the pages of
/// the region, but for the page `guard`.
pub open spec fn frames_mapped(table: Mapper, start: u64, end: u64, guard: u64) -> bool {
    let shift = if start > KERNEL_BASE {
        KERNEL_BASE
    } else {
        0
    };
    let first = ((start - shift) / (PAGE_SIZE as int)) as u64;
    let last = ((end - shift - 2) / (PAGE_SIZE as int)) as u64;
    let offset = shift / PAGE_SIZE;
    forall|f: u64|
        first <= f <= last && #[trigger] page_above(f, offset) != guard
            ==> table.translate_page_spec(page_above(f, offset)) == Some(f)
}

/// Where a list of regions has requests, each of its regions has.
pub proof fn lemma_region_has_requests(regions: Seq<Region>, at: int)
    requires
        0 <= at < regions.len(),
        regions_requests(regions) is Some,
    ensures
        region_requests(regions[at]) is Some,
    decreases regions.len(),
{
    if at < regions.len() - 1 {
        assert(regions.drop_last()[at] == regions[at]);
        lemma_region_has_requests(regions.drop_last(), at);
    }
}

/// The request for a frame of a region is among the requests for the list
/// that the region is in.
pub proof fn lemma_region_requested(regions: Seq<Region>, at: int, frame: u64)
    requires
        0 <= at < regions.len(),
        regions_requests(regions) is Some,
        ((regions[at].start - region_shift(regions[at])) / (PAGE_SIZE as int)) as u64 <= frame <= ((
        regions[at].end - region_shift(regions[at]) - 2) / (PAGE_SIZE as int)) as u64,
    ensures
        exists|j: int|
            0 <= j < regions_requests(regions)->Some_0.len() && regions_requests(
                regions,
            )->Some_0[j] == (
                page_above(frame, region_shift(regions[at]) / PAGE_SIZE),
                frame,
                protection_flags(regions[at].protection@),
                true,
            ),
    decreases regions.len(),
{
    let all = regions_requests(regions)->Some_0;
    let before = regions_requests(regions.drop_last())->Some_0;
    let last = region_requests(regions.last())->Some_0;
    assert(all == before + last);
    let wanted = (
        page_above(frame, region_shift(regions[at]) / PAGE_SIZE),
        frame,
        protection_flags(regions[at].protection@),
        true,
    );
    if at < regions.len() - 1 {
        assert(regions.drop_last()[at] == regions[at]);
        lemma_region_requested(regions.drop_last(), at, frame);
        let j = choose|j: int| 0 <= j < before.len() && before[j] == wanted;
        assert(all[j] == wanted);
    } else {
        let region = regions[at];
        let shift = region_shift(region);
        let first = ((region.start - shift) / (PAGE_SIZE as int)) as u64;
        let i = frame - first;
        assert(last[i] == wanted);
        assert(all[before.len() + i] == wanted);
    }
}

/// Puts together what is to be mapped early: every region, in the kernel's
/// half where it lies above `KERNEL_BASE` and at its own addresses where it
/// does not, with the flags that its protection asks for; and the boot
/// information in the kernel's half.
///
/// Fails with `InvalidAddress` where a region or the boot information does
/// not lie as the kernel expects it.
pub fn early_requests(regions: &Vec<Region>, boot_info: &BootInformation) -> (result: Result<
    Vec<Mapping>,
    VmmError,
>)
    ensures
        match result {
            Ok(requests) => {
                &&& early_requests_spec(regions@, boot_info.start_address, boot_info.end_address)
                    == Some(requests_values(requests@))
            },
            Err(e) => {
                &&& e == VmmError::InvalidAddress
                &&& early_requests_spec(regions@, boot_info.start_address, boot_info.end_address)
                    is None
            },
        },
{
    let mut requests: Vec<Mapping> = Vec::new();
    let mut i: usize = 0;
    proof {
        assert(regions@.subrange(0, 0) =~= Seq::<Region>::empty());
        assert(requests_values(requests@) =~= Seq::<(u64, u64, u64, bool)>::empty());
    }
    while i < regions.len()
        invariant
            i <= regions.len(),
            regions_requests(regions@.subrange(0, i as int)) == Some(requests_values(requests@)),
        decreases regions.len() - i,
    {
        let region = regions[i];
        proof {
            let next = regions@.subrange(0, i + 1);
            assert(next.drop_last() =~= regions@.subrange(0, i as int));
            assert(next.last() == region);
        }
        // All kernel sections lie in the kernel's half
        let diff = if region.start > KERNEL_BASE {
            KERNEL_BASE
        } else {
            0
        };
        if region.end < diff || region.end - diff < 2 {
            proof {
                lemma_regions_fail(regions@, i as int);
            }
            return Err(VmmError::InvalidAddress);
        }
        let flags = EntryFlags::from_protection(region.protection);
        let first = (region.start - diff) / PAGE_SIZE;
        let last = (region.end - diff - 2) / PAGE_SIZE;
        if !push_frames(&mut requests, first, last, diff / PAGE_SIZE, flags, true) {
            proof {
                lemma_regions_fail(regions@, i as int);
            }
            return Err(VmmError::InvalidAddress);
        }
        i = i + 1;
    }
    proof {
        assert(regions@.subrange(0, i as int) =~= regions@);
        lemma_flag_facts();
    }
    // map the boot information
    let start = boot_info.start_address;
    let end = boot_info.end_address;
    if start < KERNEL_BASE || end < KERNEL_BASE || end - KERNEL_BASE < 1 {
        return Err(VmmError::InvalidAddress);
    }
    let first = (start - KERNEL_BASE) / PAGE_SIZE;
    let last = (end - KERNEL_BASE - 1) / PAGE_SIZE;
    let present = EntryFlags::from_bits_truncate(PRESENT);
    if !push_frames(&mut requests, first, last, KERNEL_BASE_PAGE, present, false) {
        return Err(VmmError::InvalidAddress);
    }
    Ok(requests)
}

/// The regions, the boot information and an allocator with the frames
/// `free` of the areas `areas` fit the kernel, where `root` is the index of
/// the frame of the table in use: the regions and the boot information lie as
/// the kernel expects them, the table in use has a page of its own in the
/// kernel's half, which is not the page that a table shows itself at, and the
/// requests for the regions can be carried out with the frames of the
/// allocator.
pub open spec fn early_fits(
    regions: Seq<Region>,
    boot_info: BootInformation,
    root: u64,
    free: Set<u64>,
    areas: Seq<MemoryArea>,
) -> bool {
    let requests = early_requests_spec(regions, boot_info.start_address, boot_info.end_address);
    &&& requests is Some
    &&& root + KERNEL_BASE_PAGE < PAGE_COUNT
    &&& root + KERNEL_BASE_PAGE != P4_PAGE
    &&& requests_fit(requests->Some_0, free, areas)
}

/// Maps each region early: builds a top-level table of the kernel's own out
/// of frames of `allocator`, switches to it, and maps what `early_requests`
/// asks for in it. The table that was in use before is wiped. Returns the
/// page that the old table appeared at in the kernel's half, and the
/// temporary page that was used, which holds no frame.
///
/// Fails with `InvalidAddress` exactly where the regions, the boot
/// information and the allocator do not fit the kernel; nothing has happened
/// then. Fails with `OutOfPhysicalMemory` only where the allocator has no
/// frame in the end, and with `AlreadyMapped` only where two requests ask for
/// one page and the later one is required.
pub fn map_regions_early(
    regions: &Vec<Region>,
    active_table: &mut ActivePageTable,
    allocator: &mut AreaFrameAllocator,
    boot_info: &BootInformation,
) -> (result: Result<(Page, TemporaryPage), VmmError>)
    requires
        old(active_table).wf(),
        freshly_booted(old(active_table).mapper.memory(), old(active_table).mapper.root()),
        !old(allocator).free_frames().contains(old(active_table).mapper.root()),
    ensures
        (result == Err::<(Page, TemporaryPage), VmmError>(VmmError::InvalidAddress)) == !early_fits(
            regions@,
            *boot_info,
            old(active_table).mapper.root(),
            old(allocator).free_frames(),
            old(allocator).areas(),
        ),
        result == Err::<(Page, TemporaryPage), VmmError>(VmmError::InvalidAddress) ==> {
            &&& final(active_table).mapper == old(active_table).mapper
            &&& final(allocator).free_frames() == old(allocator).free_frames()
        },
        result == Err::<(Page, TemporaryPage), VmmError>(VmmError::OutOfPhysicalMemory)
            ==> final(allocator).free_frames() == Set::<u64>::empty(),
        result == Err::<(Page, TemporaryPage), VmmError>(VmmError::AlreadyMapped) ==> pages_collide(
            early_requests_spec(regions@, boot_info.start_address, boot_info.end_address)->Some_0,
        ),
        final(allocator).free_frames().subset_of(old(allocator).free_frames()),
        match result {
            Ok((old_p4_page, temporary_page)) => {
                let values = early_requests_spec(
                    regions@,
                    boot_info.start_address,
                    boot_info.end_address,
                )->Some_0;
                &&& early_requests_spec(regions@, boot_info.start_address, boot_info.end_address)
                    is Some
                &&& owned(*final(active_table), final(allocator).free_frames())
                &&& final(active_table).mapper.p4_number() == final(active_table).mapper.root()
                &&& old(allocator).free_frames().contains(final(active_table).mapper.root())
                &&& old_p4_page.number() == old(active_table).mapper.root() + KERNEL_BASE_PAGE
                &&& old_p4_page.number() != P4_PAGE
                &&& temporary_page.allocator.free_frames() == Set::<u64>::empty()
                &&& forall|n: u64| final(allocator).free_frames().contains(n) ==> n < BITMAP_FRAMES
                &&& required_mapped(final(active_table).mapper, values)
                &&& taken_as_asked(final(active_table).mapper, values, false)
            },
            Err(e) => e == VmmError::InvalidAddress || e == VmmError::AlreadyMapped || e
                == VmmError::OutOfPhysicalMemory,
        },
{
    let requests = match early_requests(regions, boot_info) {
        Ok(requests) => requests,
        Err(e) => {
            return Err(e);
        },
    };
    let old_p4_page = match guard_page(&active_table.mapper.root_frame()) {
        Some(page) => page,
        None => {
            return Err(VmmError::InvalidAddress);
        },
    };
    let temporary_page = match bootstrap(active_table, allocator, &requests) {
        Ok(page) => page,
        Err(e) => {
            return Err(e);
        },
    };
    Ok((old_p4_page, temporary_page))
}

/// Takes the frames that the requests ask for out of the allocator, so that
/// none of them is handed out.
pub fn exclude_requested(allocator: &mut AreaFrameAllocator, requests: &Vec<Mapping>)
    ensures
        final(allocator).areas() == old(allocator).areas(),
        final(allocator).free_frames().subset_of(old(allocator).free_frames()),
        forall|j: int|
            0 <= j < requests.len() ==> !final(allocator).free_frames().contains(
                (#[trigger] requests@[j]).frame.number(),
            ),
        forall|n: u64|
            old(allocator).free_frames().contains(n) && !final(allocator).free_frames().contains(
                n,
            ) ==> exists|j: int|
                0 <= j < requests.len() && (#[trigger] requests@[j]).frame.number() == n,
{
    let mut j: usize = 0;
    while j < requests.len()
        invariant
            j <= requests.len(),
            allocator.areas() == old(allocator).areas(),
            allocator.free_frames().subset_of(old(allocator).free_frames()),
            forall|k: int|
                0 <= k < j ==> !allocator.free_frames().contains(
                    (#[trigger] requests@[k]).frame.number(),
                ),
            forall|n: u64|
                old(allocator).free_frames().contains(n) && !allocator.free_frames().contains(n)
                    ==> exists|k: int|
                    0 <= k < requests.len() && (#[trigger] requests@[k]).frame.number() == n,
        decreases requests.len() - j,
    {
        if allocator.is_free(&requests[j].frame) {
            allocator.exclude(&requests[j].frame);
        }
        j = j + 1;
    }
}

/// The state of memory after the early regions of the kernel were mapped,
/// where `root` is the address of the top-level table of the boot: the
/// managers of memory are well-formed; the page that the table of the boot
/// appeared at in the kernel's half is not mapped; the 101 pages from the
/// second page above the heap on are set aside for stacks; and the frames of
/// every early region are mapped where the region lies.
pub open spec fn early_state(controller: ArchSpecificVMM, root: u64, symbols: KernelSymbols) -> bool {
    let guard = (root / PAGE_SIZE + KERNEL_BASE_PAGE) as u64;
    let table = controller.active_table.mapper;
    &&& controller.wf()
    &&& controller.translate_page_spec(guard) is None
    &&& controller.stack_allocator.range().next_number() == HEAP_LAST_PAGE + 2
    &&& controller.stack_allocator.range().last_number() == HEAP_LAST_PAGE + 2 + STACK_PAGES
    &&& frames_mapped(table, symbols.code_start, symbols.code_end, guard)
    &&& frames_mapped(table, symbols.bss_start, symbols.bss_end, guard)
    &&& frames_mapped(table, symbols.data_start, symbols.data_end, guard)
    &&& frames_mapped(table, symbols.rodata_start, symbols.rodata_end, guard)
    &&& frames_mapped(table, HEAP_START, (HEAP_START + HEAP_SIZE) as u64, guard)
    &&& frames_mapped(table, VGA_BUFFER, (VGA_BUFFER + 8) as u64, guard)
}

/// The boot information lies as the kernel expects it, and it and the
/// early regions of the kernel fit the kernel: the regions and the boot
/// information lie as the kernel expects them, the frame of the top-level
/// table of the boot is not free unless a region holds it, the table has a
/// page of its own in the kernel's half, which is not the page that a table
/// shows itself at, the requests for the regions are consistent and ask for
/// no page in the recursive region, and every frame of the areas of free
/// memory has a bit in the bitmap.
pub open spec fn early_boot_fits(boot_info: BootInformation, symbols: KernelSymbols) -> bool {
    let requests = early_requests_spec(
        early_regions_spec(symbols),
        boot_info.start_address,
        boot_info.end_address,
    );
    let root = boot_info.root / PAGE_SIZE;
    &&& boot_lies_right(boot_info)
    &&& requests is Some
    &&& boot_frames(boot_info).contains(root) ==> exists|j: int|
        0 <= j < requests->Some_0.len() && (#[trigger] requests->Some_0[j]).1 == root
    &&& root + KERNEL_BASE_PAGE < PAGE_COUNT
    &&& root + KERNEL_BASE_PAGE != P4_PAGE
    &&& consistent_values(requests->Some_0)
    &&& pages_proper(requests->Some_0)
    &&& last_frame_of(boot_info.memory_areas@) < BITMAP_FRAMES
}

/// Initializes memory to a defined state, from the early regions of the
/// kernel.
///
/// The bounds of the kernel image are found, and the allocator of the boot
/// is set up over the free areas of memory, without the frames of the
/// kernel image, of the boot information, of the boot modules and of the
/// early regions. The regions are mapped into a table of the kernel's own,
/// with the flags that their protection asks for, and the frames that are
/// left go into the bitmap. The page of the old top-level table is
/// unmapped: it guards the kernel stack. The 101 pages from the second page
/// above the heap on are set aside for stacks.
///
/// Fails with `InvalidAddress` exactly where the boot information does not
/// lie as the kernel expects it or it and the regions do not fit the kernel.
/// Fails with `AlreadyMapped` only where two requests ask for one page and
/// the later one is required, or a request asks for a page of the bitmap;
/// with `NotMapped` only where no required request asks for the page of the
/// old table; and with `OutOfPhysicalMemory` where the frames run out.
pub fn arch_vmm_init_preheap(boot_info: &BootInformation, symbols: &KernelSymbols) -> (result:
    Result<ArchSpecificVMM, VmmError>)
    ensures
        (result == Err::<ArchSpecificVMM, VmmError>(VmmError::InvalidAddress)) == !early_boot_fits(
            *boot_info,
            *symbols,
        ),
        result == Err::<ArchSpecificVMM, VmmError>(VmmError::AlreadyMapped) ==> {
            let values = early_requests_spec(
                early_regions_spec(*symbols),
                boot_info.start_address,
                boot_info.end_address,
            )->Some_0;
            pages_collide(values) || asks_for_bitmap(values)
        },
        result == Err::<ArchSpecificVMM, VmmError>(VmmError::NotMapped) ==> !guard_required(
            early_requests_spec(
                early_regions_spec(*symbols),
                boot_info.start_address,
                boot_info.end_address,
            )->Some_0,
            (boot_info.root / PAGE_SIZE + KERNEL_BASE_PAGE) as u64,
        ),
        match result {
            Ok(controller) => early_state(controller, boot_info.root, *symbols),
            Err(e) => e == VmmError::InvalidAddress || e == VmmError::AlreadyMapped || e
                == VmmError::OutOfPhysicalMemory || e == VmmError::NotMapped,
        },
{
    let regions = early_regions(symbols);
    let (kernel_start, kernel_end) = match kernel_bounds(&boot_info.sections) {
        Some(bounds) => bounds,
        None => {
            return Err(VmmError::InvalidAddress);
        },
    };
    if boot_info.start_address < KERNEL_BASE || boot_info.end_address < KERNEL_BASE {
        return Err(VmmError::InvalidAddress);
    }
    let multiboot_start = boot_info.start_address - KERNEL_BASE;
    let multiboot_end = boot_info.end_address - KERNEL_BASE;
    if kernel_end > PHYSICAL_LIMIT || multiboot_end > PHYSICAL_LIMIT || boot_info.root
        >= PHYSICAL_LIMIT {
        return Err(VmmError::InvalidAddress);
    }
    let areas = match valid_areas(&boot_info.memory_areas) {
        Some(areas) => areas,
        None => {
            return Err(VmmError::InvalidAddress);
        },
    };
    let modules = match valid_areas(&boot_info.modules) {
        Some(modules) => modules,
        None => {
            return Err(VmmError::InvalidAddress);
        },
    };
    let root = Frame::containing_address(boot_info.root);
    let mut frame_allocator = AreaFrameAllocator::new(
        kernel_start,
        kernel_end,
        multiboot_start,
        multiboot_end,
        modules,
        areas,
    );
    let requests = match early_requests(&regions, boot_info) {
        Ok(requests) => requests,
        Err(e) => {
            return Err(e);
        },
    };
    let ghost free = frame_allocator.free_frames();
    let ghost values = requests_values(requests@);
    // the frames of the regions are the regions' own
    exclude_requested(&mut frame_allocator, &requests);
    proof {
        let left = frame_allocator.free_frames();
        let number = root.number();
        assert(free == boot_frames(*boot_info));
        if free.contains(number) && !left.contains(number) {
            let j = choose|j: int|
                0 <= j < requests.len() && (#[trigger] requests@[j]).frame.number() == number;
            assert(values[j].1 == number);
        }
        if exists|j: int| 0 <= j < values.len() && (#[trigger] values[j]).1 == number {
            let j = choose|j: int| 0 <= j < values.len() && (#[trigger] values[j]).1 == number;
            assert(requests@[j].frame.number() == number);
            assert(!left.contains(number));
        }
        assert forall|j: int| 0 <= j < values.len() implies !left.contains(
            (#[trigger] values[j]).1,
        ) by {
            assert(values[j].1 == requests@[j].frame.number());
        }
    }
    if frame_allocator.is_free(&root) {
        return Err(VmmError::InvalidAddress);
    }
    let mut active_table = ActivePageTable::new(root);
    let (old_p4, tmp_page) = match map_regions_early(
        &regions,
        &mut active_table,
        &mut frame_allocator,
        boot_info,
    ) {
        Ok(done) => done,
        Err(e) => {
            return Err(e);
        },
    };
    let guard = old_p4.index();
    let frame_bitmap = match seed_bitmap(
        &mut active_table,
        &mut frame_allocator,
        tmp_page,
        old_p4,
        Ghost(values),
    ) {
        Ok(bitmap) => bitmap,
        Err(e) => {
            return Err(e);
        },
    };
    let ghost mapped = active_table.mapper;
    let stack_allocator = {
        let alloc_start = Page::containing_address((HEAP_LAST_PAGE + 2) * PAGE_SIZE);
        let alloc_end = Page::containing_address((HEAP_LAST_PAGE + 2 + STACK_PAGES) * PAGE_SIZE);
        StackAllocator::new(Page::range_inclusive(alloc_start, alloc_end))
    };
    proof {
        let values = requests_values(requests@);
        let early = regions_requests(regions@)->Some_0;
        let multiboot = multiboot_requests(boot_info.start_address, boot_info.end_address)->Some_0;
        assert(values == early + multiboot);
        assert forall|k: int| 0 <= k < 6 implies frames_mapped(
            mapped,
            (#[trigger] regions@[k]).start,
            regions@[k].end,
            guard,
        ) by {
            let region = regions@[k];
            let shift = region_shift(region);
            lemma_region_has_requests(regions@, k);
            let first = ((region.start - shift) / (PAGE_SIZE as int)) as u64;
            let last = ((region.end - shift - 2) / (PAGE_SIZE as int)) as u64;
            let offset = shift / PAGE_SIZE;
            assert forall|f: u64| first <= f <= last && #[trigger] page_above(f, offset)
                != guard implies mapped.translate_page_spec(page_above(f, offset)) == Some(
                f,
            ) by {
                lemma_region_requested(regions@, k, f);
                let j = choose|j: int|
                    0 <= j < early.len() && early[j] == (
                        page_above(f, offset),
                        f,
                        protection_flags(region.protection@),
                        true,
                    );
                assert(all_mapped(mapped, values, guard));
                assert(values[j] == early[j]);
                assert(values[j].3 && values[j].0 != guard);
            }
        }
        assert(regions@[0].start == symbols.code_start);
        assert(regions@[1].start == symbols.bss_start);
        assert(regions@[2].start == symbols.data_start);
        assert(regions@[3].start == symbols.rodata_start);
        assert(regions@[4].start == HEAP_START);
        assert(regions@[5].start == VGA_BUFFER);
    }
    Ok(ArchSpecificVMM { active_table, frame_allocator: frame_bitmap, stack_allocator })
}

} // verus!
