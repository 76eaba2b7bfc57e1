use esalp::memory::paging::{address_is_canonical, Page, ENTRY_COUNT, P4_ADDRESS, P4_PAGE};
use esalp::memory::area_frame_allocator::MemoryArea;
use esalp::memory::boot::{init, BootInformation, ElfSection};
use esalp::memory::{Frame, KERNEL_BASE, PAGE_SIZE};
use esalp::vmm::VmmError;

#[test]
fn frame_contains_its_addresses() {
    let frame = Frame::containing_address(0x108000);
    assert_eq!(frame.index(), 0x108);
    assert_eq!(frame.start_address(), 0x108000);
    assert_eq!(Frame::containing_address(0x108fff), frame);
    assert_ne!(Frame::containing_address(0x109000), frame);
}

#[test]
fn frame_clone_is_the_same_frame() {
    let frame = Frame::containing_address(5 * PAGE_SIZE);
    let copy = frame.clone();
    assert_eq!(copy, frame);
    assert_eq!(copy.start_address(), 5 * 4096);
}

#[test]
fn frame_range_is_inclusive_and_in_order() {
    let mut range = Frame::range_inclusive(
        Frame::containing_address(3 * PAGE_SIZE),
        Frame::containing_address(5 * PAGE_SIZE),
    );
    assert_eq!(range.next().map(|f| f.index()), Some(3));
    assert_eq!(range.next().map(|f| f.index()), Some(4));
    assert_eq!(range.next().map(|f| f.index()), Some(5));
    assert_eq!(range.next(), None);
    assert_eq!(range.next(), None);
}

#[test]
fn frame_range_that_ends_before_it_starts_is_empty() {
    let mut range = Frame::range_inclusive(
        Frame::containing_address(5 * PAGE_SIZE),
        Frame::containing_address(3 * PAGE_SIZE),
    );
    assert_eq!(range.next(), None);
}

#[test]
fn canonical_addresses_are_told_apart() {
    assert!(address_is_canonical(0));
    assert!(address_is_canonical(0x0000_7fff_ffff_ffff));
    assert!(!address_is_canonical(0x0000_8000_0000_0000));
    assert!(!address_is_canonical(0xffff_7fff_ffff_ffff));
    assert!(address_is_canonical(0xffff_8000_0000_0000));
    assert!(address_is_canonical(KERNEL_BASE));
}

#[test]
fn page_splits_into_four_indices() {
    // 0o177777_723_456_701_234_0000
    let address: u64 = 0xffff_0000_0000_0000 | (0o723 << 39) | (0o456 << 30) | (0o701 << 21) | (0o234 << 12);
    assert!(address_is_canonical(address));
    let page = Page::containing_address(address);
    assert_eq!(page.p4_index(), 0o723);
    assert_eq!(page.p1_index(), 0o234);
    let low: u64 = (0o012 << 39) | (0o456 << 30) | (0o701 << 21) | (0o234 << 12) | 0x123;
    let page = Page::containing_address(low);
    assert_eq!(page.p4_index(), 0o012);
    assert_eq!(page.p3_index(), 0o456);
    assert_eq!(page.p2_index(), 0o701);
    assert_eq!(page.p1_index(), 0o234);
    assert_eq!(page.start_address(), low - 0x123);
    assert!(page.p4_index() < ENTRY_COUNT);
}

#[test]
fn page_of_the_top_level_table_has_index_510_four_times() {
    let page = Page::containing_address(P4_ADDRESS);
    assert_eq!(page.index(), P4_PAGE);
    assert_eq!(page.p4_index(), 510);
    assert_eq!(page.p3_index(), 510);
    assert_eq!(page.p2_index(), 510);
    assert_eq!(page.p1_index(), 510);
}

#[test]
fn page_add_moves_up() {
    let page = Page::containing_address(16 * PAGE_SIZE);
    assert_eq!(page.add(1).index(), 17);
    assert_eq!(page.add(100).start_address(), 116 * 4096);
}

#[test]
fn page_range_is_inclusive_and_nth_skips() {
    let start = Page::containing_address(0x10 * PAGE_SIZE);
    let end = Page::containing_address(0x14 * PAGE_SIZE);
    let mut range = Page::range_inclusive(start, end);
    assert_eq!(range.pages_left(), 5);
    assert_eq!(range.next().map(|p| p.index()), Some(0x10));
    assert_eq!(range.nth(2).map(|p| p.index()), Some(0x13));
    assert_eq!(range.pages_left(), 1);
    assert_eq!(range.nth(1), None);
    assert_eq!(range.pages_left(), 0);
    assert_eq!(range.next(), None);
}

#[test]
fn frames_and_pages_are_ordered_by_their_index() {
    let low = Frame::containing_address(0x1000);
    let high = Frame::containing_address(0x5000);
    assert!(low < high);
    assert!(high > low);
    assert!(low <= Frame::containing_address(0x1fff));
    assert_eq!(low.max(high).index(), 5);
    let first = Page::containing_address(0x2000);
    let second = Page::containing_address(0xffff_8000_0000_0000);
    assert!(first < second);
    assert_eq!(first.min(second), first);
}

#[test]
fn unmap_of_a_page_that_is_not_mapped_changes_nothing() {
    let boot = BootInformation {
        start_address: KERNEL_BASE + 0x108000,
        end_address: KERNEL_BASE + 0x108800,
        memory_areas: vec![MemoryArea { base_addr: 0x100000, length: 0x2000000 - 0x100000 }],
        sections: vec![ElfSection {
            addr: KERNEL_BASE + 0x100000,
            size: 0x8000,
            allocated: true,
            writable: true,
            executable: true,
            init: false,
        }],
        modules: Vec::new(),
        root: 0x105000,
    };
    let mut controller = init(&boot).unwrap();
    let page = Page::containing_address(0x7000_0000);
    assert_eq!(page.unmap(&mut controller), Err(VmmError::NotMapped));
    let flags = esalp::memory::paging::entry::EntryFlags::empty();
    assert_eq!(page.map(&mut controller, flags), Ok(()));
    assert!(controller.active_table.mapper.translate(0x7000_0000).is_some());
    assert_eq!(page.unmap(&mut controller), Ok(()));
    assert_eq!(controller.active_table.mapper.translate(0x7000_0000), None);
    assert_eq!(page.unmap(&mut controller), Err(VmmError::NotMapped));
}
