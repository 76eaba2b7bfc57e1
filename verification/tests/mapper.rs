use esalp::memory::area_frame_allocator::{AreaFrameAllocator, MemoryArea};
use esalp::memory::paging::entry::{EntryFlags, NO_EXECUTE, PRESENT, WRITABLE};
use esalp::memory::paging::mapper::Mapper;
use esalp::memory::paging::temporary_page::TinyAllocator;
use esalp::memory::paging::{ActivePageTable, Mapping, Page, P4_ADDRESS};
use esalp::memory::{Frame, FrameAllocate, PAGE_SIZE};
use esalp::vmm::VmmError;

fn frames(first: u64, count: u64) -> AreaFrameAllocator {
    AreaFrameAllocator::new(
        0,
        0,
        0,
        0,
        Vec::new(),
        vec![MemoryArea { base_addr: first * PAGE_SIZE, length: count * PAGE_SIZE }],
    )
}

fn writable() -> EntryFlags {
    EntryFlags::from_bits_truncate(WRITABLE)
}

#[test]
fn fresh_table_maps_only_itself() {
    let mapper = Mapper::new(Frame::containing_address(PAGE_SIZE));
    assert_eq!(mapper.translate(0), None);
    assert_eq!(mapper.translate(0x1234_5678), None);
    assert_eq!(mapper.translate(P4_ADDRESS), Some(PAGE_SIZE));
    assert_eq!(mapper.translate(P4_ADDRESS + 0x10), Some(PAGE_SIZE + 0x10));
    assert_eq!(mapper.root_frame().index(), 1);
    assert_eq!(mapper.p4().frame().index(), 1);
}

#[test]
fn map_to_then_translate_round_trips() {
    let mut mapper = Mapper::new(Frame::containing_address(PAGE_SIZE));
    let mut allocator = frames(0x100, 16);
    let page = Page::containing_address(16 * 4096);
    let result = mapper.map_to(page, Frame::containing_address(5 * 4096), writable(), &mut allocator);
    assert_eq!(result, Ok(()));
    assert_eq!(mapper.translate(16 * 4096), Some(5 * 4096));
    assert_eq!(mapper.translate(16 * 4096 + 0xabc), Some(5 * 4096 + 0xabc));
    assert_eq!(mapper.translate(17 * 4096), None);
    // three tables were made on the way
    assert_eq!(allocator.allocate_frame().map(|f| f.index()), Some(0x103));
}

#[test]
fn map_to_the_same_page_twice_is_already_mapped() {
    let mut mapper = Mapper::new(Frame::containing_address(PAGE_SIZE));
    let mut allocator = frames(0x100, 16);
    let page = Page::containing_address(16 * 4096);
    assert_eq!(mapper.map_to(page, Frame::containing_address(5 * 4096), writable(), &mut allocator), Ok(()));
    assert_eq!(
        mapper.map_to(page, Frame::containing_address(6 * 4096), writable(), &mut allocator),
        Err(VmmError::AlreadyMapped)
    );
    assert_eq!(mapper.translate(16 * 4096), Some(5 * 4096));
    // nothing was taken for the second try
    assert_eq!(allocator.allocate_frame().map(|f| f.index()), Some(0x103));
}

#[test]
fn map_to_sets_present_whatever_the_flags() {
    let mut mapper = Mapper::new(Frame::containing_address(PAGE_SIZE));
    let mut allocator = frames(0x100, 16);
    let page = Page::containing_address(0x40_0000);
    assert_eq!(mapper.map_to(page, Frame::containing_address(9 * 4096), EntryFlags::empty(), &mut allocator), Ok(()));
    assert_eq!(mapper.translate_page(page).map(|f| f.index()), Some(9));
    assert!(mapper.is_allocated(page));
}

#[test]
fn map_to_without_frames_for_tables_is_out_of_memory() {
    let mut mapper = Mapper::new(Frame::containing_address(PAGE_SIZE));
    let mut allocator = frames(0x100, 2);
    let page = Page::containing_address(16 * 4096);
    assert_eq!(
        mapper.map_to(page, Frame::containing_address(5 * 4096), writable(), &mut allocator),
        Err(VmmError::OutOfPhysicalMemory)
    );
    assert_eq!(mapper.translate(16 * 4096), None);
    assert_eq!(allocator.allocate_frame(), None);
    // with frames again the tables that were made are used
    let mut more = frames(0x200, 1);
    assert_eq!(mapper.map_to(page, Frame::containing_address(5 * 4096), writable(), &mut more), Ok(()));
    assert_eq!(mapper.translate(16 * 4096), Some(5 * 4096));
    assert_eq!(more.allocate_frame(), None);
}

#[test]
fn map_takes_a_frame_from_the_allocator() {
    let mut mapper = Mapper::new(Frame::containing_address(PAGE_SIZE));
    let mut allocator = frames(0x100, 16);
    let page = Page::containing_address(0x1000_0000);
    assert_eq!(mapper.map(page, writable(), &mut allocator), Ok(()));
    // the first frame is the page's, the next three are tables
    assert_eq!(mapper.translate(0x1000_0000), Some(0x100 * 4096));
    assert_eq!(allocator.allocate_frame().map(|f| f.index()), Some(0x104));
    let mut empty = frames(0x300, 0);
    assert_eq!(
        mapper.map(Page::containing_address(0x1000_1000), writable(), &mut empty),
        Err(VmmError::OutOfPhysicalMemory)
    );
}

#[test]
fn identity_map_maps_a_frame_at_its_own_address() {
    let mut mapper = Mapper::new(Frame::containing_address(PAGE_SIZE));
    let mut allocator = frames(0x100, 16);
    assert_eq!(mapper.identity_map(Frame::containing_address(0xb8000), writable(), &mut allocator), Ok(()));
    assert_eq!(mapper.translate(0xb8000), Some(0xb8000));
    assert_eq!(mapper.translate(0xb8123), Some(0xb8123));
}

#[test]
fn unmap_twice_is_one_success_and_one_not_mapped() {
    let mut mapper = Mapper::new(Frame::containing_address(PAGE_SIZE));
    let mut allocator = frames(0x100, 16);
    let mut freed = TinyAllocator::new();
    let page = Page::containing_address(16 * 4096);
    assert_eq!(mapper.map_to(page, Frame::containing_address(5 * 4096), writable(), &mut allocator), Ok(()));
    assert_eq!(mapper.unmap(page, &mut freed), Ok(()));
    assert_eq!(mapper.translate(16 * 4096), None);
    assert_eq!(mapper.unmap(page, &mut freed), Err(VmmError::NotMapped));
    assert_eq!(mapper.translate(16 * 4096), None);
    // the frame went to the allocator, once
    assert_eq!(freed.allocate_frame().map(|f| f.index()), Some(5));
    assert_eq!(freed.allocate_frame(), None);
    // the recursive mapping is untouched
    assert_eq!(mapper.translate(P4_ADDRESS), Some(PAGE_SIZE));
}

#[test]
fn unmap_of_a_page_that_was_never_mapped_is_not_mapped() {
    let mut mapper = Mapper::new(Frame::containing_address(PAGE_SIZE));
    let mut freed = TinyAllocator::new();
    assert_eq!(mapper.unmap(Page::containing_address(0x7000), &mut freed), Err(VmmError::NotMapped));
    assert!(freed.is_empty());
}

#[test]
fn unmap_page_hands_the_frame_to_the_caller() {
    let mut mapper = Mapper::new(Frame::containing_address(PAGE_SIZE));
    let mut allocator = frames(0x100, 16);
    let page = Page::containing_address(0x7000);
    assert_eq!(mapper.map_to(page, Frame::containing_address(0x55000), writable(), &mut allocator), Ok(()));
    assert_eq!(mapper.unmap_page(page).map(|f| f.index()), Ok(0x55));
    assert_eq!(mapper.unmap_page(page), Err(VmmError::NotMapped));
    // the tables stay: mapping again takes no frame
    let mut empty = frames(0x300, 0);
    assert_eq!(mapper.map_to(page, Frame::containing_address(0x56000), writable(), &mut empty), Ok(()));
    assert_eq!(mapper.translate(0x7000), Some(0x56000));
}

#[test]
fn tables_show_through_the_recursive_entry() {
    let mut mapper = Mapper::new(Frame::containing_address(PAGE_SIZE));
    let mut allocator = frames(0x100, 16);
    let page = Page::containing_address(0);
    assert_eq!(mapper.map_to(page, Frame::containing_address(0x55000), writable(), &mut allocator), Ok(()));
    // 0o177777_776_776_776_000_0000: the table of level 3 behind entry 0
    let p3: u64 = 0xffff_ff7f_bfc0_0000;
    assert_eq!(mapper.translate(p3), Some(0x100 * 4096));
    // 0o177777_776_776_000_000_0000: the table of level 2 behind that
    let p2: u64 = 0xffff_ff7f_8000_0000;
    assert_eq!(mapper.translate(p2), Some(0x101 * 4096));
    // 0o177777_776_000_000_000_0000: the table of level 1
    let p1: u64 = 0xffff_ff00_0000_0000;
    assert_eq!(mapper.translate(p1), Some(0x102 * 4096));
}

#[test]
fn map_all_reports_each_request() {
    let mut mapper = Mapper::new(Frame::containing_address(PAGE_SIZE));
    let mut allocator = frames(0x100, 16);
    let request = |page: u64, frame: u64| Mapping {
        page: Page::containing_address(page * PAGE_SIZE),
        frame: Frame::containing_address(frame * PAGE_SIZE),
        flags: EntryFlags::from_bits_truncate(PRESENT | NO_EXECUTE),
        required: true,
    };
    let requests = vec![request(0x10, 0x50), request(0x11, 0x51), request(0x10, 0x52)];
    let results = mapper.map_all(&requests, &mut allocator);
    assert_eq!(results, vec![Ok(()), Ok(()), Err(VmmError::AlreadyMapped)]);
    assert_eq!(mapper.translate(0x10 * 4096), Some(0x50 * 4096));
    assert_eq!(mapper.translate(0x11 * 4096), Some(0x51 * 4096));
}

#[test]
fn active_table_starts_self_mapped() {
    let table = ActivePageTable::new(Frame::containing_address(0x7000));
    assert_eq!(table.mapper.translate(P4_ADDRESS), Some(0x7000));
}

#[test]
fn map_on_a_taken_page_takes_no_frame() {
    let mut mapper = Mapper::new(Frame::containing_address(PAGE_SIZE));
    let mut allocator = frames(0x100, 16);
    let page = Page::containing_address(16 * 4096);
    assert!(!mapper.is_taken(page));
    assert_eq!(mapper.map(page, writable(), &mut allocator), Ok(()));
    assert!(mapper.is_taken(page));
    let mapped = mapper.translate(16 * 4096);
    // one frame for the page and three for its tables are gone
    assert!(allocator.is_free(&Frame::containing_address(0x104 * PAGE_SIZE)));
    assert_eq!(mapper.map(page, writable(), &mut allocator), Err(VmmError::AlreadyMapped));
    assert_eq!(mapper.translate(16 * 4096), mapped);
    assert_eq!(allocator.allocate_frame().map(|f| f.index()), Some(0x104));
}

#[test]
fn map_without_a_frame_is_out_of_memory() {
    let mut mapper = Mapper::new(Frame::containing_address(PAGE_SIZE));
    let mut allocator = frames(0x100, 3);
    let page = Page::containing_address(16 * 4096);
    assert_eq!(mapper.map(page, writable(), &mut allocator), Err(VmmError::OutOfPhysicalMemory));
    assert_eq!(allocator.allocate_frame(), None);
    assert_eq!(mapper.translate(16 * 4096), None);
    assert!(!mapper.is_taken(page));
}

#[test]
fn mapping_a_page_leaves_its_neighbours_alone() {
    let mut mapper = Mapper::new(Frame::containing_address(PAGE_SIZE));
    let mut allocator = frames(0x100, 16);
    let page = Page::containing_address(16 * 4096);
    let neighbour = Page::containing_address(17 * 4096);
    let far = Page::containing_address(0x40_0000_0000);
    assert_eq!(mapper.map(page, writable(), &mut allocator), Ok(()));
    assert!(!mapper.is_taken(neighbour));
    assert!(!mapper.is_taken(far));
    assert_eq!(mapper.translate(17 * 4096), None);
    assert_eq!(mapper.translate(15 * 4096), None);
    assert_eq!(mapper.translate(0x40_0000_0000), None);
    assert_eq!(mapper.map(neighbour, writable(), &mut allocator), Ok(()));
    // the neighbour shares the tables: one frame more is gone
    assert_eq!(allocator.allocate_frame().map(|f| f.index()), Some(0x105));
}

#[test]
fn huge_page_stands_in_the_place_of_its_pages() {
    let mut mapper = Mapper::new(Frame::containing_address(PAGE_SIZE));
    let mut allocator = frames(0x100, 16);
    let root = mapper.p4();
    let p3 = Frame::containing_address(0x50 * PAGE_SIZE);
    mapper.set_table_entry(&root, 0, p3, writable().union(EntryFlags::from_bits_truncate(PRESENT)));
    let table = mapper.next_table(&root, 0).unwrap();
    let huge = EntryFlags::from_bits_truncate(PRESENT | esalp::memory::paging::entry::HUGE_PAGE);
    mapper.set_table_entry(&table, 0, Frame::containing_address(0), huge);
    let page = Page::containing_address(16 * 4096);
    assert!(mapper.is_taken(page));
    assert_eq!(mapper.map(page, writable(), &mut allocator), Err(VmmError::AlreadyMapped));
    assert_eq!(allocator.allocate_frame().map(|f| f.index()), Some(0x100));
}

fn mapper_with_tables() -> Mapper {
    // a table of level 3 in frame 0x50 and one of level 2 in frame 0x51
    let mut mapper = Mapper::new(Frame::containing_address(PAGE_SIZE));
    let pointer = EntryFlags::from_bits_truncate(PRESENT | WRITABLE);
    let root = mapper.p4();
    mapper.set_table_entry(&root, 0, Frame::containing_address(0x50 * PAGE_SIZE), pointer);
    let p3 = mapper.next_table(&root, 0).unwrap();
    mapper.set_table_entry(&p3, 0, Frame::containing_address(0x51 * PAGE_SIZE), pointer);
    mapper
}

fn huge() -> EntryFlags {
    EntryFlags::from_bits_truncate(PRESENT | esalp::memory::paging::entry::HUGE_PAGE)
}

#[test]
fn translate_goes_through_a_huge_page_of_two_mebibytes() {
    let mut mapper = mapper_with_tables();
    let root = mapper.p4();
    let p3 = mapper.next_table(&root, 0).unwrap();
    let p2 = mapper.next_table(&p3, 0).unwrap();
    // aligned to 2 MiB, not to 1 GiB
    mapper.set_table_entry(&p2, 1, Frame::containing_address(0x400 * PAGE_SIZE), huge());
    let page = Page::containing_address((512 + 5) * PAGE_SIZE);
    assert_eq!(mapper.translate_page(page).map(|f| f.index()), Some(0x405));
    assert_eq!(mapper.translate((512 + 5) * PAGE_SIZE + 0x123), Some(0x405 * PAGE_SIZE + 0x123));
    assert_eq!(
        mapper.translate_page(Page::containing_address(1023 * PAGE_SIZE)).map(|f| f.index()),
        Some(0x400 + 511)
    );
    assert_eq!(mapper.translate_page(Page::containing_address(1024 * PAGE_SIZE)), None);
    assert!(mapper.is_taken(page));
}

#[test]
fn translate_goes_through_a_huge_page_of_one_gibibyte() {
    let mut mapper = mapper_with_tables();
    let root = mapper.p4();
    let p3 = mapper.next_table(&root, 0).unwrap();
    mapper.set_table_entry(&p3, 1, Frame::containing_address(0x80000 * PAGE_SIZE), huge());
    let number = (1 << 18) + 2 * 512 + 3;
    let page = Page::containing_address(number * PAGE_SIZE);
    assert_eq!(mapper.translate_page(page).map(|f| f.index()), Some(0x80000 + 2 * 512 + 3));
}

#[test]
fn huge_page_on_a_frame_that_is_not_aligned_maps_nothing() {
    let mut mapper = mapper_with_tables();
    let root = mapper.p4();
    let p3 = mapper.next_table(&root, 0).unwrap();
    let p2 = mapper.next_table(&p3, 0).unwrap();
    mapper.set_table_entry(&p2, 1, Frame::containing_address(0x401 * PAGE_SIZE), huge());
    // aligned to 2 MiB only: not enough at level 3
    mapper.set_table_entry(&p3, 1, Frame::containing_address(0x400 * PAGE_SIZE), huge());
    assert_eq!(mapper.translate_page(Page::containing_address(517 * PAGE_SIZE)), None);
    assert_eq!(mapper.translate_page(Page::containing_address((1 << 18) * PAGE_SIZE)), None);
    // something stands in the place of the pages all the same
    assert!(mapper.is_taken(Page::containing_address(517 * PAGE_SIZE)));
}

#[test]
fn map_to_takes_any_flags() {
    let mut mapper = Mapper::new(Frame::containing_address(PAGE_SIZE));
    let mut allocator = frames(0x100, 16);
    let page = Page::containing_address(16 * 4096);
    // the huge-page flag means nothing in an entry of level 1
    let flags = EntryFlags::from_bits_truncate(esalp::memory::paging::entry::HUGE_PAGE | NO_EXECUTE);
    assert_eq!(mapper.map_to(page, Frame::containing_address(5 * 4096), flags, &mut allocator), Ok(()));
    assert_eq!(mapper.translate(16 * 4096), Some(5 * 4096));
    let other = Page::containing_address(17 * 4096);
    assert_eq!(mapper.map(other, EntryFlags::empty(), &mut allocator), Ok(()));
    assert!(mapper.translate(17 * 4096).is_some());
    let mut empty = frames(0x300, 0);
    let third = Page::containing_address(18 * 4096);
    assert_eq!(mapper.map(third, huge(), &mut empty), Err(VmmError::OutOfPhysicalMemory));
    assert_eq!(mapper.translate(18 * 4096), None);
}
