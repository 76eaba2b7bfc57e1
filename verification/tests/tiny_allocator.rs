use esalp::memory::area_frame_allocator::{AreaFrameAllocator, MemoryArea};
use esalp::memory::paging::temporary_page::{TemporaryPage, TinyAllocator};
use esalp::memory::paging::{ActivePageTable, InactivePageTable, Mapping, Page, P4_ADDRESS};
use esalp::memory::paging::entry::{EntryFlags, WRITABLE};
use esalp::memory::{Frame, FrameAllocate, FrameDeallocate, PAGE_SIZE};

fn frames(first: u64, count: u64) -> AreaFrameAllocator {
    AreaFrameAllocator::new(
        0,
        0,
        0,
        0,
        Vec::new(),
        vec![MemoryArea { base_addr: first * PAGE_SIZE, length: count * PAGE_SIZE }],
    )
}

#[test]
fn tiny_allocator_holds_three_frames() {
    let mut tiny = TinyAllocator::new();
    assert!(tiny.is_empty());
    assert!(!tiny.is_full());
    let mut source = frames(0x10, 8);
    tiny.fill(&mut source);
    assert!(tiny.is_full());
    assert!(!tiny.is_empty());
    assert_eq!(source.allocate_frame().map(|f| f.index()), Some(0x13));
    assert_eq!(tiny.allocate_frame().map(|f| f.index()), Some(0x10));
    assert_eq!(tiny.allocate_frame().map(|f| f.index()), Some(0x11));
    assert!(!tiny.is_full());
    tiny.deallocate_frame(Frame::containing_address(0x77 * PAGE_SIZE));
    assert_eq!(tiny.allocate_frame().map(|f| f.index()), Some(0x77));
    assert_eq!(tiny.allocate_frame().map(|f| f.index()), Some(0x12));
    assert_eq!(tiny.allocate_frame(), None);
    assert!(tiny.is_empty());
}

#[test]
fn fill_takes_what_there_is() {
    let mut tiny = TinyAllocator::new();
    let mut source = frames(0x10, 2);
    tiny.fill(&mut source);
    assert!(!tiny.is_full());
    assert_eq!(source.allocate_frame(), None);
    let mut more = frames(0x20, 4);
    tiny.fill(&mut more);
    assert!(tiny.is_full());
    assert_eq!(more.allocate_frame().map(|f| f.index()), Some(0x21));
    let frames: Vec<u64> = tiny.flush().iter().map(|f| f.index()).collect();
    assert_eq!(frames, vec![0x10, 0x11, 0x20]);
}

#[test]
fn flush_empties_the_allocator() {
    let mut tiny = TinyAllocator::new();
    tiny.deallocate_frame(Frame::containing_address(0x30 * PAGE_SIZE));
    tiny.deallocate_frame(Frame::containing_address(0x31 * PAGE_SIZE));
    let flushed: Vec<u64> = tiny.flush().iter().map(|f| f.index()).collect();
    assert_eq!(flushed, vec![0x30, 0x31]);
    assert!(tiny.is_empty());
    assert!(tiny.flush().is_empty());
}

#[test]
fn consume_hands_every_frame_over() {
    let mut tiny = TinyAllocator::new();
    tiny.deallocate_frame(Frame::containing_address(0x30 * PAGE_SIZE));
    tiny.deallocate_frame(Frame::containing_address(0x31 * PAGE_SIZE));
    let mut other = TinyAllocator::new();
    tiny.consume(&mut other);
    assert_eq!(other.allocate_frame().map(|f| f.index()), Some(0x30));
    assert_eq!(other.allocate_frame().map(|f| f.index()), Some(0x31));
    assert_eq!(other.allocate_frame(), None);
}

#[test]
fn temporary_page_maps_and_unmaps_a_frame() {
    let mut active = ActivePageTable::new(Frame::containing_address(PAGE_SIZE));
    let mut source = frames(0x100, 8);
    let mut temporary = TemporaryPage::new(Page::containing_address(0xdead_beef_000), &mut source);
    assert!(temporary.allocator.is_full());
    let address = temporary.map(Frame::containing_address(0x500 * PAGE_SIZE), &mut active);
    assert_eq!(address, Ok(0xdead_beef_000));
    assert_eq!(active.mapper.translate(0xdead_beef_000), Some(0x500 * 4096));
    assert!(temporary.allocator.is_empty());
    assert_eq!(temporary.unmap(&mut active), Ok(()));
    assert_eq!(active.mapper.translate(0xdead_beef_000), None);
    // the frame that was mapped is in the page's allocator now
    assert_eq!(temporary.allocator.allocate_frame().map(|f| f.index()), Some(0x500));
    let mut sink = TinyAllocator::new();
    temporary.consume(&mut sink);
    assert!(sink.is_empty());
}

#[test]
fn inactive_table_is_zeroed_and_self_mapped() {
    let mut active = ActivePageTable::new(Frame::containing_address(PAGE_SIZE));
    let mut source = frames(0x100, 8);
    let mut temporary = TemporaryPage::new(Page::containing_address(0xdead_beef_000), &mut source);
    let frame = source.allocate_frame().unwrap();
    assert_eq!(frame.index(), 0x103);
    let table = InactivePageTable::new(frame, &mut active, &mut temporary).unwrap();
    assert_eq!(table.p4_frame.index(), 0x103);
    assert!(temporary.allocator.is_empty());
    assert_eq!(active.mapper.translate(0xdead_beef_000), None);
    assert_eq!(active.mapper.translate(P4_ADDRESS), Some(PAGE_SIZE));
    // after the switch the new table shows itself through its own entry 510
    let old = active.switch(table);
    assert_eq!(old.p4_frame.index(), 1);
    assert_eq!(active.mapper.root_frame().index(), 0x103);
    assert_eq!(active.mapper.translate(P4_ADDRESS), Some(0x103 * 4096));
    assert_eq!(active.mapper.translate(0xdead_beef_000), None);
}

#[test]
fn with_maps_into_the_table_that_is_not_in_use() {
    let mut active = ActivePageTable::new(Frame::containing_address(PAGE_SIZE));
    let mut source = frames(0x100, 32);
    let mut temporary = TemporaryPage::new(Page::containing_address(0xdead_beef_000), &mut source);
    let frame = source.allocate_frame().unwrap();
    let table = InactivePageTable::new(frame, &mut active, &mut temporary).unwrap();
    let requests = vec![
        Mapping {
            page: Page::containing_address(0x40_0000),
            frame: Frame::containing_address(0x900 * PAGE_SIZE),
            flags: EntryFlags::from_bits_truncate(WRITABLE),
            required: true,
        },
        Mapping {
            page: Page::containing_address(0x40_1000),
            frame: Frame::containing_address(0x901 * PAGE_SIZE),
            flags: EntryFlags::from_bits_truncate(WRITABLE),
            required: true,
        },
    ];
    let results = active.with(&table, &mut temporary, &requests, &mut source);
    assert_eq!(results, Ok(vec![Ok(()), Ok(())]));
    // the active table is as it was
    assert_eq!(active.mapper.translate(0x40_0000), None);
    assert_eq!(active.mapper.translate(P4_ADDRESS), Some(PAGE_SIZE));
    assert_eq!(active.mapper.translate(0xdead_beef_000), None);
    assert!(temporary.allocator.is_empty());
    // the new table has the mappings
    let _old = active.switch(table);
    assert_eq!(active.mapper.translate(0x40_0000), Some(0x900 * 4096));
    assert_eq!(active.mapper.translate(0x40_1234), Some(0x901 * 4096 + 0x234));
    assert_eq!(active.mapper.translate(P4_ADDRESS), Some(0x103 * 4096));
}
