use esalp::memory::area_frame_allocator::{AreaFrameAllocator, MemoryArea};
use esalp::memory::{Frame, FrameAllocate, PAGE_SIZE};

fn area(base_addr: u64, length: u64) -> MemoryArea {
    MemoryArea { base_addr, length }
}

#[test]
fn first_allocation_skips_the_kernel() {
    // one free area [0x100000, 0x2000000); the kernel lies in [0x100000, 0x108000)
    let mut allocator = AreaFrameAllocator::new(
        0x100000,
        0x108000,
        0,
        0,
        Vec::new(),
        vec![area(0x100000, 0x2000000 - 0x100000)],
    );
    let frame = allocator.allocate_frame();
    assert_eq!(frame.map(|f| f.index()), Some(0x108000 / 4096));
}

#[test]
fn frames_come_in_increasing_order() {
    let mut allocator = AreaFrameAllocator::new(0, 0, 0, 0, Vec::new(), vec![area(0x5000, 0x3000)]);
    assert_eq!(allocator.allocate_frame().map(|f| f.index()), Some(5));
    assert_eq!(allocator.allocate_frame().map(|f| f.index()), Some(6));
    assert_eq!(allocator.allocate_frame().map(|f| f.index()), Some(7));
    assert_eq!(allocator.allocate_frame(), None);
    assert_eq!(allocator.allocate_frame(), None);
}

#[test]
fn areas_are_taken_by_lowest_base_first() {
    let mut allocator = AreaFrameAllocator::new(
        0,
        0,
        0,
        0,
        Vec::new(),
        vec![area(0x20000, 0x2000), area(0x10000, 0x2000)],
    );
    let mut seen = Vec::new();
    while let Some(frame) = allocator.allocate_frame() {
        seen.push(frame.index());
    }
    assert_eq!(seen, vec![0x10, 0x11, 0x20, 0x21]);
}

#[test]
fn exclusions_are_left_out() {
    let modules = vec![area(0x14000, 0x1000)];
    let mut allocator = AreaFrameAllocator::new(
        0x10000,
        0x12000,
        0x12000,
        0x13800,
        modules,
        vec![area(0x10000, 0x8000)],
    );
    let mut seen = Vec::new();
    while let Some(frame) = allocator.allocate_frame() {
        seen.push(frame.index());
    }
    // 0x10, 0x11: kernel; 0x12, 0x13: boot information; 0x14: module
    assert_eq!(seen, vec![0x15, 0x16, 0x17]);
}

#[test]
fn no_area_means_no_frame() {
    let mut allocator = AreaFrameAllocator::new(0, 0x1000, 0, 0, Vec::new(), Vec::new());
    assert_eq!(allocator.allocate_frame(), None);
}

#[test]
fn area_that_is_all_excluded_gives_nothing() {
    let mut allocator = AreaFrameAllocator::new(0x1000, 0x4000, 0, 0, Vec::new(), vec![area(0x1000, 0x3000)]);
    assert_eq!(allocator.allocate_frame(), None);
}

#[test]
fn is_free_tells_what_is_still_to_come() {
    let mut allocator = AreaFrameAllocator::new(0x5000, 0x6000, 0, 0, Vec::new(), vec![area(0x5000, 0x3000)]);
    assert!(!allocator.is_free(&Frame::containing_address(4 * PAGE_SIZE)));
    assert!(!allocator.is_free(&Frame::containing_address(5 * PAGE_SIZE)));
    assert!(allocator.is_free(&Frame::containing_address(6 * PAGE_SIZE)));
    assert!(allocator.is_free(&Frame::containing_address(7 * PAGE_SIZE)));
    assert!(!allocator.is_free(&Frame::containing_address(8 * PAGE_SIZE)));
    assert_eq!(allocator.allocate_frame().map(|f| f.index()), Some(6));
    assert!(!allocator.is_free(&Frame::containing_address(6 * PAGE_SIZE)));
    assert!(allocator.is_free(&Frame::containing_address(7 * PAGE_SIZE)));
    assert_eq!(allocator.last_frame(), 7);
}

#[test]
fn area_bounds_that_are_not_aligned_count_whole_frames() {
    let a = area(0x5800, 0x1000);
    assert_eq!(a.start_frame(), 5);
    assert_eq!(a.end_frame(), 6);
}
