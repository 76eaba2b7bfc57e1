use esalp::memory::area_frame_allocator::{AreaFrameAllocator, MemoryArea};
use esalp::memory::boot::{
    arch_vmm_init_preheap, early_regions, early_requests, guard_page, init, kernel_bounds,
    kernel_requests, map_regions_early, remap_the_kernel, requests_consistent, BootInformation,
    ElfSection, KernelSymbols,
};
use esalp::memory::frame_bitmap::{bitmap_place, first_bit, get_frame, FrameBitmap, BITMAP_BASE};
use esalp::memory::paging::entry::{NO_EXECUTE, PRESENT, WRITABLE};
use esalp::memory::paging::{ActivePageTable, P4_ADDRESS};
use esalp::memory::{
    alloc_stack, arch_map, arch_map_to, arch_unmap, region_range, Frame, FrameAllocate,
    FrameDeallocate, HEAP_START, KERNEL_BASE, PAGE_SIZE,
};
use esalp::memory::stack_allocator::StackError;
use esalp::vmm::{
    arch_vmm_init, vm_init, Protection, Region, VmmError, PROTECTION_EXECUTABLE, PROTECTION_NONE,
    PROTECTION_WRITABLE, VMM,
};

fn section(addr: u64, size: u64, writable: bool, executable: bool) -> ElfSection {
    ElfSection { addr, size, allocated: true, writable, executable, init: false }
}

fn boot_information() -> BootInformation {
    BootInformation {
        start_address: KERNEL_BASE + 0x108000,
        end_address: KERNEL_BASE + 0x108800,
        memory_areas: vec![MemoryArea { base_addr: 0x100000, length: 0x2000000 - 0x100000 }],
        sections: vec![
            section(KERNEL_BASE + 0x100000, 0x4000, false, true),
            section(KERNEL_BASE + 0x104000, 0x4000, true, false),
            ElfSection { addr: 0x5000, size: 0x100, allocated: false, writable: false, executable: false, init: false },
        ],
        modules: Vec::new(),
        root: 0x105000,
    }
}

#[test]
fn kernel_bounds_are_lowest_start_and_highest_end() {
    let boot = boot_information();
    assert_eq!(kernel_bounds(&boot.sections), Some((0x100000, 0x108000)));
    assert_eq!(kernel_bounds(&Vec::new()), None);
    let low = vec![section(0x1000, 0x1000, false, false)];
    assert_eq!(kernel_bounds(&low), None);
}

#[test]
fn kernel_requests_cover_sections_screen_and_boot_information() {
    let boot = boot_information();
    let requests = kernel_requests(&boot).unwrap();
    // 4 + 4 frames of the sections, the screen, one frame of boot information
    assert_eq!(requests.len(), 10);
    assert_eq!(requests[0].frame.index(), 0x100);
    assert_eq!(requests[0].page.start_address(), KERNEL_BASE + 0x100000);
    assert_eq!(requests[0].flags.bits(), PRESENT);
    assert!(requests[0].required);
    assert_eq!(requests[7].frame.index(), 0x107);
    assert_eq!(requests[7].flags.bits(), PRESENT | WRITABLE | NO_EXECUTE);
    assert_eq!(requests[8].frame.index(), 0xb8);
    assert_eq!(requests[8].page.start_address(), 0xb8000);
    assert_eq!(requests[8].flags.bits(), WRITABLE);
    assert_eq!(requests[9].frame.index(), 0x108);
    assert_eq!(requests[9].page.start_address(), KERNEL_BASE + 0x108000);
    assert_eq!(requests[9].flags.bits(), PRESENT);
    assert!(!requests[9].required);
    assert!(requests_consistent(&requests));
}

#[test]
fn kernel_requests_refuse_a_section_that_is_not_aligned() {
    let mut boot = boot_information();
    boot.sections.push(section(KERNEL_BASE + 0x110800, 0x1000, false, false));
    assert_eq!(kernel_requests(&boot).err(), Some(VmmError::InvalidAddress));
    let mut boot = boot_information();
    boot.sections.push(section(0x110000, 0x1000, false, false));
    assert_eq!(kernel_requests(&boot).err(), Some(VmmError::InvalidAddress));
    let mut boot = boot_information();
    boot.start_address = 0x108000;
    assert_eq!(kernel_requests(&boot).err(), Some(VmmError::InvalidAddress));
}

#[test]
fn sections_of_the_boot_only_are_not_mapped() {
    let mut boot = boot_information();
    boot.sections.push(ElfSection {
        addr: KERNEL_BASE + 0x10a000,
        size: 0x1000,
        allocated: true,
        writable: false,
        executable: true,
        init: true,
    });
    let requests = kernel_requests(&boot).unwrap();
    assert_eq!(requests.len(), 10);
}

#[test]
fn init_remaps_the_kernel() {
    let boot = boot_information();
    let controller = init(&boot).unwrap();
    let mapper = &controller.active_table.mapper;
    // the sections, in the kernel's half
    assert_eq!(mapper.translate(KERNEL_BASE + 0x100000), Some(0x100000));
    assert_eq!(mapper.translate(KERNEL_BASE + 0x103fff), Some(0x103fff));
    assert_eq!(mapper.translate(KERNEL_BASE + 0x104010), Some(0x104010));
    assert_eq!(mapper.translate(KERNEL_BASE + 0x107000), Some(0x107000));
    // the page of the old table guards the stack
    assert_eq!(mapper.translate(KERNEL_BASE + 0x105000), None);
    // the screen and the boot information
    assert_eq!(mapper.translate(0xb8000), Some(0xb8000));
    assert_eq!(mapper.translate(KERNEL_BASE + 0x108000), Some(0x108000));
    // nothing else of the old address space
    assert_eq!(mapper.translate(0), None);
    assert_eq!(mapper.translate(0x100000), None);
    // the new table is a frame of the allocator and shows itself
    let root = mapper.root_frame().index();
    assert_eq!(root, 0x10c);
    assert_eq!(mapper.translate(P4_ADDRESS), Some(root * PAGE_SIZE));
    // the heap and the bitmap are mapped
    assert_eq!(mapper.translate(HEAP_START), Some(0x105 * PAGE_SIZE));
    assert!(mapper.translate(HEAP_START + 24 * PAGE_SIZE).is_some());
    assert_eq!(mapper.translate(HEAP_START + 25 * PAGE_SIZE), None);
    assert!(mapper.translate(BITMAP_BASE).is_some());
}

#[test]
fn init_keeps_used_frames_out_of_the_bitmap() {
    let boot = boot_information();
    let mut controller = init(&boot).unwrap();
    let bitmap = &mut controller.frame_allocator;
    // the kernel, the boot information, the tables
    for number in [0x100u64, 0x104, 0x107, 0x108, 0x109, 0x10c] {
        assert!(!bitmap.is_free(&Frame::containing_address(number * PAGE_SIZE)), "{:#x}", number);
    }
    // the frame of the old table was given back, and is the first of the heap now
    assert!(!bitmap.is_free(&Frame::containing_address(0x105 * PAGE_SIZE)));
    assert!(bitmap.is_free(&Frame::containing_address(0x1fff * PAGE_SIZE)));
    assert!(!bitmap.is_free(&Frame::containing_address(0x2000 * PAGE_SIZE)));
    assert_eq!(bitmap.frame_capacity(), 0x2000);
}

#[test]
fn init_fails_on_boot_information_that_does_not_fit() {
    let mut boot = boot_information();
    boot.sections.clear();
    assert_eq!(init(&boot).err(), Some(VmmError::InvalidAddress));
    let mut boot = boot_information();
    boot.memory_areas.push(MemoryArea { base_addr: 0x5000_0000, length: 0 });
    assert_eq!(init(&boot).err(), Some(VmmError::InvalidAddress));
    // the table of the boot lies in free memory
    let mut boot = boot_information();
    boot.root = 0x200000;
    assert_eq!(init(&boot).err(), Some(VmmError::InvalidAddress));
    // no memory at all
    let mut boot = boot_information();
    boot.memory_areas.clear();
    assert_eq!(init(&boot).err(), Some(VmmError::OutOfPhysicalMemory));
}

#[test]
fn remap_the_kernel_fills_the_bitmap() {
    let boot = boot_information();
    let mut active = ActivePageTable::new(Frame::containing_address(boot.root));
    let mut allocator = AreaFrameAllocator::new(
        0x100000,
        0x108000,
        0x108000,
        0x108800,
        Vec::new(),
        vec![MemoryArea { base_addr: 0x100000, length: 0x20000 }],
    );
    let mut bitmap = remap_the_kernel(&mut active, &mut allocator, &boot).unwrap();
    // every frame went into the bitmap or into a table
    assert_eq!(allocator.allocate_frame(), None);
    let mut free = Vec::new();
    while let Some(frame) = bitmap.allocate_frame() {
        free.push(frame.index());
    }
    // 0x100..0x108: kernel, but the old table at 0x105 is given back;
    // 0x108: boot information; 0x109..0x10b: tables of the temporary page;
    // 0x10c: the new table; 0x10d..: tables of the new address space
    assert!(free.contains(&0x105));
    assert!(!free.contains(&0x104));
    assert!(!free.contains(&0x10c));
    assert!(free.contains(&0x11f));
    assert!(!free.contains(&0x120));
    let mut sorted = free.clone();
    sorted.sort();
    sorted.dedup();
    assert_eq!(sorted.len(), free.len());
}

#[test]
fn bitmap_gives_back_what_it_was_given() {
    let mut active = ActivePageTable::new(Frame::containing_address(PAGE_SIZE));
    let mut allocator = AreaFrameAllocator::new(
        0,
        0,
        0,
        0,
        Vec::new(),
        vec![MemoryArea { base_addr: 0x100000, length: 0x90000 }],
    );
    let mut bitmap = FrameBitmap::new(&mut allocator, &mut active).unwrap();
    // 0x100: the first page of the bitmap; 0x101..0x103: its tables
    assert!(active.mapper.translate(BITMAP_BASE).is_some());
    assert_eq!(bitmap.frame_capacity(), 0x1c0);
    let mut taken = Vec::new();
    while let Some(frame) = bitmap.allocate_frame() {
        taken.push(frame.index());
    }
    assert_eq!(taken, (0x104..0x190).collect::<Vec<u64>>());
    assert_eq!(bitmap.allocate_frame(), None);
    // a frame that is given back comes out again, once
    bitmap.deallocate_frame(Frame::containing_address(0x150 * PAGE_SIZE));
    assert!(bitmap.is_free(&Frame::containing_address(0x150 * PAGE_SIZE)));
    assert_eq!(bitmap.allocate_frame().map(|f| f.index()), Some(0x150));
    assert_eq!(bitmap.allocate_frame(), None);
    // the search goes on from the word of the last frame, once around
    bitmap.deallocate_frame(Frame::containing_address(0x105 * PAGE_SIZE));
    bitmap.deallocate_frame(Frame::containing_address(0x17f * PAGE_SIZE));
    bitmap.deallocate_frame(Frame::containing_address(0x141 * PAGE_SIZE));
    assert_eq!(bitmap.allocate_frame().map(|f| f.index()), Some(0x141));
    assert_eq!(bitmap.allocate_frame().map(|f| f.index()), Some(0x17f));
    assert_eq!(bitmap.allocate_frame().map(|f| f.index()), Some(0x105));
    assert_eq!(bitmap.allocate_frame(), None);
}

#[test]
fn bitmap_reserve_takes_a_frame_out() {
    let mut active = ActivePageTable::new(Frame::containing_address(PAGE_SIZE));
    let mut allocator = AreaFrameAllocator::new(
        0,
        0,
        0,
        0,
        Vec::new(),
        vec![MemoryArea { base_addr: 0x100000, length: 0x8000 }],
    );
    let mut bitmap = FrameBitmap::new(&mut allocator, &mut active).unwrap();
    assert!(bitmap.reserve(&Frame::containing_address(0x105 * PAGE_SIZE)));
    assert!(!bitmap.reserve(&Frame::containing_address(0x105 * PAGE_SIZE)));
    assert!(!bitmap.reserve(&Frame::containing_address(0x100 * PAGE_SIZE)));
    let mut taken = Vec::new();
    while let Some(frame) = bitmap.allocate_frame() {
        taken.push(frame.index());
    }
    assert_eq!(taken, vec![0x104, 0x106, 0x107]);
}

#[test]
fn bitmap_places_are_word_and_bit() {
    assert_eq!(bitmap_place(&Frame::containing_address(0)), (0, 1));
    assert_eq!(bitmap_place(&Frame::containing_address(63 * PAGE_SIZE)), (0, 1 << 63));
    assert_eq!(bitmap_place(&Frame::containing_address(64 * PAGE_SIZE)), (1, 1));
    assert_eq!(bitmap_place(&Frame::containing_address(0x105 * PAGE_SIZE)), (4, 1 << 5));
    assert_eq!(first_bit(0), 64);
    assert_eq!(first_bit(0b1000), 3);
    assert_eq!(first_bit(1 << 63), 63);
    let mut word: u64 = 0b1010_0000;
    assert_eq!(get_frame(2, &mut word).index(), 2 * 64 + 5);
    assert_eq!(word, 0b1000_0000);
    assert_eq!(get_frame(2, &mut word).index(), 2 * 64 + 7);
    assert_eq!(word, 0);
}

#[test]
fn alloc_stack_leaves_a_guard_page() {
    let boot = boot_information();
    let mut controller = init(&boot).unwrap();
    // the pages for stacks start above the heap, at page 0x219
    let stack = alloc_stack(&mut controller, 2).unwrap();
    assert_eq!(stack.bottom(), 0x21a * PAGE_SIZE);
    assert_eq!(stack.top(), 0x21c * PAGE_SIZE);
    let mapper = &controller.active_table.mapper;
    assert_eq!(mapper.translate(0x219 * PAGE_SIZE), None);
    assert!(mapper.translate(0x21a * PAGE_SIZE).is_some());
    assert!(mapper.translate(0x21b * PAGE_SIZE).is_some());
    assert_eq!(mapper.translate(0x21c * PAGE_SIZE), None);
    let next = alloc_stack(&mut controller, 1).unwrap();
    assert_eq!(next.bottom(), 0x21d * PAGE_SIZE);
    assert_eq!(next.top(), 0x21e * PAGE_SIZE);
}

#[test]
fn alloc_stack_refuses_what_it_cannot_give() {
    let boot = boot_information();
    let mut controller = init(&boot).unwrap();
    assert_eq!(alloc_stack(&mut controller, 0).err(), Some(StackError::ZeroSized));
    // 101 pages are there: a stack of 101 pages and its guard page do not fit
    assert_eq!(alloc_stack(&mut controller, 101).err(), Some(StackError::NotEnoughPages));
    let whole = alloc_stack(&mut controller, 100).unwrap();
    assert_eq!(whole.bottom(), 0x21a * PAGE_SIZE);
    assert_eq!(whole.top(), (0x21a + 100) * PAGE_SIZE);
    assert_eq!(alloc_stack(&mut controller, 1).err(), Some(StackError::NotEnoughPages));
}

#[test]
fn arch_map_and_unmap_work_on_whole_regions() {
    let boot = boot_information();
    let mut controller = init(&boot).unwrap();
    let protection = Protection::from_bits_truncate(PROTECTION_WRITABLE);
    let region = Region::new("Test region", 0x100000, 0x100000 + 5 * PAGE_SIZE, protection);
    assert_eq!(arch_map(&mut controller, region), Ok(()));
    for page in 0..6u64 {
        assert!(controller.active_table.mapper.translate(0x100000 + page * PAGE_SIZE).is_some());
    }
    assert_eq!(controller.active_table.mapper.translate(0x106000), None);
    assert_eq!(arch_map(&mut controller, region), Err(VmmError::AlreadyMapped));
    let frame = controller.active_table.mapper.translate(0x102000).unwrap() / PAGE_SIZE;
    assert!(!controller.frame_allocator.is_free(&Frame::containing_address(frame * PAGE_SIZE)));
    arch_unmap(&mut controller, region);
    for page in 0..6u64 {
        assert_eq!(controller.active_table.mapper.translate(0x100000 + page * PAGE_SIZE), None);
    }
    assert!(controller.frame_allocator.is_free(&Frame::containing_address(frame * PAGE_SIZE)));
    assert_eq!(arch_map(&mut controller, region), Ok(()));
}

#[test]
fn arch_map_to_maps_the_frames_it_is_given() {
    let boot = boot_information();
    let mut controller = init(&boot).unwrap();
    let protection = Protection::from_bits_truncate(PROTECTION_WRITABLE);
    let region = Region::new("module", 0x7000_0000, 0x7000_1fff, protection);
    assert_eq!(arch_map_to(&mut controller, region, 0x1f00000), Ok(()));
    assert_eq!(controller.active_table.mapper.translate(0x7000_0000), Some(0x1f00000));
    assert_eq!(controller.active_table.mapper.translate(0x7000_1abc), Some(0x1f01abc));
    // the frames are not handed out while they are mapped
    assert!(!controller.frame_allocator.is_free(&Frame::containing_address(0x1f00000)));
    assert!(!controller.frame_allocator.is_free(&Frame::containing_address(0x1f01000)));
    assert!(controller.frame_allocator.is_free(&Frame::containing_address(0x1f02000)));
    assert_eq!(arch_map_to(&mut controller, region, 0x1f10000), Err(VmmError::AlreadyMapped));
    let wide = Region::new("too far", 0x7100_0000, 0x7100_1fff, protection);
    assert_eq!(arch_map_to(&mut controller, wide, 0xf_ffff_ffff_f000), Err(VmmError::InvalidAddress));
}

#[test]
fn regions_with_bounds_that_are_not_canonical_are_refused() {
    let boot = boot_information();
    let mut controller = init(&boot).unwrap();
    let protection = Protection::from_bits_truncate(PROTECTION_WRITABLE);
    let region = Region::new("hole", 0x7fff_ffff_f000, 0x8000_0000_0000, protection);
    assert!(region_range(region).is_none());
    assert_eq!(arch_map(&mut controller, region), Err(VmmError::InvalidAddress));
    let across = Region::new("across", 0x7fff_ffff_f000, 0xffff_8000_0000_0000, protection);
    assert!(region_range(across).is_none());
    let fine = Region::new("fine", 0x1234, 0x5678, protection);
    let mut range = region_range(fine).unwrap();
    assert_eq!(range.pages_left(), 5);
    assert_eq!(range.next().map(|p| p.index()), Some(1));
}

fn symbols() -> KernelSymbols {
    KernelSymbols {
        code_start: KERNEL_BASE + 0x100000,
        code_end: KERNEL_BASE + 0x101fff,
        rodata_start: KERNEL_BASE + 0x102000,
        rodata_end: KERNEL_BASE + 0x103fff,
        data_start: KERNEL_BASE + 0x104000,
        data_end: KERNEL_BASE + 0x105fff,
        bss_start: KERNEL_BASE + 0x106000,
        bss_end: KERNEL_BASE + 0x107fff,
    }
}

#[test]
fn early_regions_are_six() {
    let regions = early_regions(&symbols());
    let names: Vec<&str> = regions.iter().map(|r| r.name).collect();
    assert_eq!(names, vec!["Code", "BSS", "Data", "RoData", "Heap", "VGA"]);
    assert_eq!(regions[0].start, KERNEL_BASE + 0x100000);
    assert_eq!(regions[0].end, KERNEL_BASE + 0x101fff);
    assert_eq!(regions[0].protection.bits(), PROTECTION_EXECUTABLE);
    assert_eq!(regions[1].start, KERNEL_BASE + 0x106000);
    assert_eq!(regions[1].protection.bits(), PROTECTION_WRITABLE);
    assert_eq!(regions[2].end, KERNEL_BASE + 0x105fff);
    assert_eq!(regions[3].protection.bits(), PROTECTION_NONE);
    assert_eq!((regions[4].start, regions[4].end), (0x200000, 0x219000));
    assert_eq!((regions[5].start, regions[5].end), (0xb8000, 0xb8008));
}

#[test]
fn early_requests_map_regions_where_they_lie() {
    let boot = boot_information();
    let requests = early_requests(&early_regions(&symbols()), &boot).unwrap();
    // 4 regions of 2 frames, 25 frames of heap, the screen, the boot information
    assert_eq!(requests.len(), 8 + 25 + 1 + 1);
    assert_eq!(requests[0].frame.index(), 0x100);
    assert_eq!(requests[0].page.start_address(), KERNEL_BASE + 0x100000);
    assert_eq!(requests[0].flags.bits(), 0);
    assert_eq!(requests[2].frame.index(), 0x106);
    assert_eq!(requests[2].flags.bits(), WRITABLE | NO_EXECUTE);
    assert_eq!(requests[8].frame.index(), 0x200);
    assert_eq!(requests[8].page.index(), 0x200);
    assert_eq!(requests[32].frame.index(), 0x218);
    assert_eq!(requests[33].frame.index(), 0xb8);
    assert_eq!(requests[33].page.index(), 0xb8);
    assert_eq!(requests[34].frame.index(), 0x108);
    assert!(!requests[34].required);
    let short = vec![Region::new("short", 0, 1, Protection::empty())];
    assert_eq!(early_requests(&short, &boot).err(), Some(VmmError::InvalidAddress));
    // a region that ends one byte into a frame does not reach it
    let one = vec![Region::new("one", 0x5000, 0x5001, Protection::empty())];
    assert_eq!(early_requests(&one, &boot).unwrap().len(), 1);
    let two = vec![Region::new("two", 0x5000, 0x5002, Protection::empty())];
    assert_eq!(early_requests(&two, &boot).unwrap().len(), 2);
}

#[test]
fn guard_page_lies_in_the_kernels_half() {
    let page = guard_page(&Frame::containing_address(0x106000)).unwrap();
    assert_eq!(page.start_address(), KERNEL_BASE + 0x106000);
    assert!(guard_page(&Frame::containing_address(0x8000_0000)).is_none());
    assert!(guard_page(&Frame::containing_address(0x7fff_f000)).is_some());
}

#[test]
fn early_init_maps_the_regions() {
    let mut boot = boot_information();
    boot.root = 0x106000;
    let controller = arch_vmm_init_preheap(&boot, &symbols()).unwrap();
    let mapper = &controller.active_table.mapper;
    assert_eq!(mapper.translate(KERNEL_BASE + 0x100000), Some(0x100000));
    assert_eq!(mapper.translate(KERNEL_BASE + 0x105fff), Some(0x105fff));
    assert_eq!(mapper.translate(KERNEL_BASE + 0x107000), Some(0x107000));
    // the page of the old table guards the stack
    assert_eq!(mapper.translate(KERNEL_BASE + 0x106000), None);
    // the heap and the screen lie at their own addresses
    assert_eq!(mapper.translate(HEAP_START), Some(HEAP_START));
    assert_eq!(mapper.translate(HEAP_START + 24 * PAGE_SIZE + 5), Some(HEAP_START + 24 * PAGE_SIZE + 5));
    assert_eq!(mapper.translate(HEAP_START + 25 * PAGE_SIZE), None);
    assert_eq!(mapper.translate(0xb8000), Some(0xb8000));
    assert_eq!(mapper.translate(KERNEL_BASE + 0x108000), Some(0x108000));
    let root = mapper.root_frame().index();
    assert_eq!(mapper.translate(P4_ADDRESS), Some(root * PAGE_SIZE));
    // the frames of the heap are the heap's own
    for number in [0x200u64, 0x210, 0x218, 0x100, 0x108] {
        assert!(!controller.frame_allocator.is_free(&Frame::containing_address(number * PAGE_SIZE)));
    }
    assert!(controller.frame_allocator.is_free(&Frame::containing_address(0x219 * PAGE_SIZE)));
    assert!(controller.frame_allocator.is_free(&Frame::containing_address(0x106 * PAGE_SIZE)));
}

#[test]
fn early_init_sets_pages_aside_for_stacks() {
    let mut boot = boot_information();
    boot.root = 0x106000;
    let mut controller = arch_vmm_init_preheap(&boot, &symbols()).unwrap();
    let stack = alloc_stack(&mut controller, 1).unwrap();
    assert_eq!(stack.bottom(), 0x21b * PAGE_SIZE);
    assert_eq!(stack.top(), 0x21c * PAGE_SIZE);
    assert_eq!(alloc_stack(&mut controller, 99).err(), Some(StackError::NotEnoughPages));
    assert!(alloc_stack(&mut controller, 98).is_ok());
}

#[test]
fn map_regions_early_switches_to_a_new_table() {
    let boot = boot_information();
    let regions = vec![Region::new(
        "kernel",
        KERNEL_BASE + 0x100000,
        KERNEL_BASE + 0x107fff,
        Protection::from_bits_truncate(PROTECTION_WRITABLE),
    )];
    let mut active = ActivePageTable::new(Frame::containing_address(boot.root));
    let mut allocator = AreaFrameAllocator::new(
        0x100000,
        0x108000,
        0x108000,
        0x108800,
        Vec::new(),
        vec![MemoryArea { base_addr: 0x100000, length: 0x100000 }],
    );
    let (old_p4, temporary) = map_regions_early(&regions, &mut active, &mut allocator, &boot).unwrap();
    assert_eq!(old_p4.start_address(), KERNEL_BASE + 0x105000);
    assert!(temporary.allocator.is_empty());
    assert_eq!(active.mapper.root_frame().index(), 0x10c);
    assert_eq!(active.mapper.translate(KERNEL_BASE + 0x105000), Some(0x105000));
    assert_eq!(active.mapper.translate(KERNEL_BASE + 0x107abc), Some(0x107abc));
    assert_eq!(active.mapper.translate(0xdead_beef_000), None);
    // a region whose frames the allocator has is refused
    let mut active = ActivePageTable::new(Frame::containing_address(boot.root));
    let free = vec![Region::new("free", 0x110000, 0x112000, Protection::empty())];
    assert_eq!(
        map_regions_early(&free, &mut active, &mut allocator, &boot).err(),
        Some(VmmError::InvalidAddress)
    );
}

#[test]
fn vm_init_claims_the_early_regions() {
    let mut boot = boot_information();
    boot.root = 0x106000;
    let mut vmm = vm_init(&boot, &symbols()).unwrap();
    let names: Vec<&str> = (0..vmm.len()).map(|i| vmm.get(i).unwrap().name).collect();
    assert_eq!(names, vec!["Bitmap", "BSS", "Data", "RoData", "Code", "Heap", "VGA"]);
    let bitmap = vmm.get(0).unwrap();
    assert_eq!(bitmap.start, BITMAP_BASE);
    assert_eq!(bitmap.end, BITMAP_BASE + (0x2000 / 64) * 8 - 1);
    assert_eq!(vmm.translate(KERNEL_BASE + 0x100000), Some(0x100000));
    // the heap is claimed: it cannot be mapped again
    let heap = Region::new("again", HEAP_START, HEAP_START + 0x1000, Protection::empty());
    assert_eq!(esalp::vmm::map(&mut vmm, heap), Err(VmmError::RegionConflict));
}

#[test]
fn arch_vmm_init_skips_what_is_no_interval() {
    let boot = boot_information();
    let mut vmm = VMM::new(init(&boot).unwrap());
    let regions = vec![
        Region::new("a", 0x1000, 0x1fff, Protection::empty()),
        Region::new("backwards", 0x5000, 0x4000, Protection::empty()),
        Region::new("b", 0x1800, 0x2800, Protection::empty()),
        Region::new("c", 0x3000, 0x3fff, Protection::empty()),
    ];
    arch_vmm_init(&mut vmm, &regions);
    let names: Vec<&str> = (0..vmm.len()).map(|i| vmm.get(i).unwrap().name).collect();
    assert_eq!(names, vec!["Bitmap", "c", "a"]);
}

#[test]
fn bitmap_takes_every_frame_of_the_allocator() {
    let mut active = ActivePageTable::new(Frame::containing_address(PAGE_SIZE));
    let mut allocator = AreaFrameAllocator::new(
        0,
        0,
        0,
        0,
        Vec::new(),
        vec![MemoryArea { base_addr: 0x100000, length: 0x90000 }],
    );
    assert!(FrameBitmap::new(&mut allocator, &mut active).is_ok());
    assert_eq!(allocator.allocate_frame(), None);
}

#[test]
fn bitmap_without_frames_for_its_page_is_out_of_memory() {
    let mut active = ActivePageTable::new(Frame::containing_address(PAGE_SIZE));
    let mut allocator = AreaFrameAllocator::new(
        0,
        0,
        0,
        0,
        Vec::new(),
        vec![MemoryArea { base_addr: 0x100000, length: 0x2000 }],
    );
    assert_eq!(
        FrameBitmap::new(&mut allocator, &mut active).err(),
        Some(VmmError::OutOfPhysicalMemory)
    );
    assert_eq!(allocator.allocate_frame(), None);
    assert_eq!(active.mapper.translate(BITMAP_BASE), None);
}

#[test]
fn bitmap_page_that_is_taken_is_already_mapped() {
    let mut active = ActivePageTable::new(Frame::containing_address(PAGE_SIZE));
    let mut allocator = AreaFrameAllocator::new(
        0,
        0,
        0,
        0,
        Vec::new(),
        vec![MemoryArea { base_addr: 0x100000, length: 0x90000 }],
    );
    let mut other = AreaFrameAllocator::new(
        0,
        0,
        0,
        0,
        Vec::new(),
        vec![MemoryArea { base_addr: 0x400000, length: 0x10000 }],
    );
    let page = esalp::memory::paging::Page::containing_address(BITMAP_BASE);
    let flags = esalp::memory::paging::entry::EntryFlags::from_bits_truncate(WRITABLE);
    assert_eq!(active.mapper.map(page, flags, &mut other), Ok(()));
    assert_eq!(
        FrameBitmap::new(&mut allocator, &mut active).err(),
        Some(VmmError::AlreadyMapped)
    );
    // nothing was taken
    assert_eq!(allocator.allocate_frame().map(|f| f.index()), Some(0x100));
}

#[test]
fn remap_the_kernel_without_frames_is_out_of_memory() {
    let boot = boot_information();
    let mut active = ActivePageTable::new(Frame::containing_address(boot.root));
    let mut allocator = AreaFrameAllocator::new(
        0x100000,
        0x108000,
        0x108000,
        0x108800,
        Vec::new(),
        vec![MemoryArea { base_addr: 0x100000, length: 0xb000 }],
    );
    assert_eq!(
        remap_the_kernel(&mut active, &mut allocator, &boot).err(),
        Some(VmmError::OutOfPhysicalMemory)
    );
    assert_eq!(allocator.allocate_frame(), None);
}

#[test]
fn remap_the_kernel_refuses_an_allocator_with_a_frame_of_the_kernel() {
    let boot = boot_information();
    let mut active = ActivePageTable::new(Frame::containing_address(boot.root));
    // only the frame of the table is left out: the other frames of the
    // kernel are free
    let mut allocator = AreaFrameAllocator::new(
        0x105000,
        0x106000,
        0x108000,
        0x108800,
        Vec::new(),
        vec![MemoryArea { base_addr: 0x100000, length: 0x20000 }],
    );
    assert!(!allocator.is_free(&Frame::containing_address(boot.root)));
    assert_eq!(
        remap_the_kernel(&mut active, &mut allocator, &boot).err(),
        Some(VmmError::InvalidAddress)
    );
    // nothing has happened
    assert_eq!(allocator.allocate_frame().map(|f| f.index()), Some(0x100));
    assert_eq!(active.mapper.translate(0), None);
}

#[test]
fn init_with_two_sections_on_one_page_is_already_mapped() {
    let mut boot = boot_information();
    // the second section lies on the last page of the first
    boot.sections.insert(1, section(KERNEL_BASE + 0x103000, 0x1000, false, true));
    assert_eq!(init(&boot).err(), Some(VmmError::AlreadyMapped));
}

#[test]
fn init_with_a_table_outside_the_kernel_is_not_mapped() {
    let mut boot = boot_information();
    // the table of the boot lies in no section: its page is not mapped,
    // and cannot become the guard page
    boot.root = 0x50000;
    assert_eq!(init(&boot).err(), Some(VmmError::NotMapped));
}

#[test]
fn remap_maps_every_request_but_the_guard_page() {
    let boot = boot_information();
    let controller = init(&boot).unwrap();
    let mapper = &controller.active_table.mapper;
    for frame in 0x100..0x108u64 {
        let address = KERNEL_BASE + frame * PAGE_SIZE;
        if frame == boot.root / PAGE_SIZE {
            assert_eq!(mapper.translate(address), None);
        } else {
            assert_eq!(mapper.translate(address), Some(frame * PAGE_SIZE));
        }
    }
    assert_eq!(mapper.translate(KERNEL_BASE + 0x108000), Some(0x108000));
}

#[test]
fn bitmap_hands_out_frames_that_it_can_take_back() {
    let boot = boot_information();
    let mut controller = init(&boot).unwrap();
    let capacity = controller.frame_allocator.frame_capacity();
    let frame = controller.frame_allocator.allocate_frame().unwrap();
    assert!(frame.index() < capacity);
    let index = frame.index();
    assert!(!controller.frame_allocator.is_free(&Frame::containing_address(index * PAGE_SIZE)));
    controller.frame_allocator.deallocate_frame(frame);
    assert!(controller.frame_allocator.is_free(&Frame::containing_address(index * PAGE_SIZE)));
}
