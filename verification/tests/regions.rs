use esalp::memory::area_frame_allocator::MemoryArea;
use esalp::memory::boot::{init, BootInformation, ElfSection};
use esalp::memory::{Frame, KERNEL_BASE, PAGE_SIZE};
use esalp::vmm::{
    alloc_stack, map_to, unmap, Protection, Region, RegionOrder, VmmError, PROTECTION_WRITABLE,
    VMM,
};

fn vmm() -> VMM {
    let boot = BootInformation {
        start_address: KERNEL_BASE + 0x108000,
        end_address: KERNEL_BASE + 0x108800,
        memory_areas: vec![MemoryArea { base_addr: 0x100000, length: 0x2000000 - 0x100000 }],
        sections: vec![ElfSection {
            addr: KERNEL_BASE + 0x100000,
            size: 0x8000,
            allocated: true,
            writable: true,
            executable: true,
            init: false,
        }],
        modules: Vec::new(),
        root: 0x105000,
    };
    VMM::new(init(&boot).unwrap())
}

fn region(name: &'static str, start: u64, end: u64) -> Region {
    Region::new(name, start, end, Protection::from_bits_truncate(PROTECTION_WRITABLE))
}

fn names(vmm: &VMM) -> Vec<&'static str> {
    (0..vmm.len()).map(|i| vmm.get(i).unwrap().name).collect()
}

#[test]
fn regions_that_share_an_address_intersect() {
    let a = region("A", 0x1000, 0x2000);
    let b = region("B", 0x1500, 0x2500);
    assert!(a.intersects(&b));
    assert!(b.intersects(&a));
    assert_eq!(a.relation(&b), RegionOrder::Intersects);
    // the bounds are part of the region
    let c = region("C", 0x2000, 0x3000);
    assert!(a.intersects(&c));
    let d = region("D", 0x2001, 0x3000);
    assert!(!a.intersects(&d));
    assert_eq!(a.relation(&d), RegionOrder::Less);
    assert_eq!(d.relation(&a), RegionOrder::Greater);
}

#[test]
fn region_contains_its_bounds() {
    let a = region("A", 0x1000, 0x2000);
    assert!(!a.contains(0xfff));
    assert!(a.contains(0x1000));
    assert!(a.contains(0x1800));
    assert!(a.contains(0x2000));
    assert!(!a.contains(0x2001));
    assert_eq!(a.name, "A");
    assert_eq!(a.start, 0x1000);
    assert_eq!(a.end, 0x2000);
    assert_eq!(a.protection.bits(), PROTECTION_WRITABLE);
}

#[test]
fn second_of_two_overlapping_regions_is_refused() {
    let mut vmm = vmm();
    assert!(vmm.insert(region("A", 0x1000, 0x2000)));
    assert!(!vmm.insert(region("B", 0x1500, 0x2500)));
    assert_eq!(names(&vmm), vec!["A"]);
    assert_eq!(vmm.len(), 1);
}

#[test]
fn either_order_of_two_overlapping_regions_keeps_the_first() {
    let mut vmm = vmm();
    assert!(vmm.insert(region("B", 0x1500, 0x2500)));
    assert!(!vmm.insert(region("A", 0x1000, 0x2000)));
    assert_eq!(names(&vmm), vec!["B"]);
}

#[test]
fn regions_are_kept_from_the_highest_addresses_down() {
    let mut vmm = vmm();
    assert!(vmm.insert(region("c", 0x3000, 0x3fff)));
    assert!(vmm.insert(region("a", 0x1000, 0x1fff)));
    assert!(vmm.insert(region("e", 0x5000, 0x5fff)));
    assert!(vmm.insert(region("b", 0x2000, 0x2fff)));
    assert!(vmm.insert(region("d", 0x4000, 0x4fff)));
    assert_eq!(names(&vmm), vec!["e", "d", "c", "b", "a"]);
    assert!(!vmm.insert(region("x", 0x2fff, 0x3000)));
    assert!(!vmm.insert(region("y", 0, 0xffff_ffff)));
    assert_eq!(vmm.len(), 5);
    assert!(vmm.get(5).is_none());
}

#[test]
fn containing_region_finds_the_one_region() {
    let mut vmm = vmm();
    assert!(vmm.insert(region("a", 0x1000, 0x1fff)));
    assert!(vmm.insert(region("b", 0x3000, 0x3fff)));
    assert_eq!(vmm.containing_region(0x1000).map(|r| r.name), Some("a"));
    assert_eq!(vmm.containing_region(0x3fff).map(|r| r.name), Some("b"));
    assert_eq!(vmm.containing_region(0x2000).map(|r| r.name), None);
    assert_eq!(vmm.containing_region(0).map(|r| r.name), None);
}

#[test]
fn remove_region_takes_the_one_region_out() {
    let mut vmm = vmm();
    assert!(vmm.insert(region("a", 0x1000, 0x1fff)));
    assert!(vmm.insert(region("b", 0x3000, 0x3fff)));
    assert!(vmm.insert(region("c", 0x5000, 0x5fff)));
    assert_eq!(vmm.remove_region(0x2000).map(|r| r.name), None);
    assert_eq!(vmm.len(), 3);
    assert_eq!(vmm.remove_region(0x3800).map(|r| r.name), Some("b"));
    assert_eq!(names(&vmm), vec!["c", "a"]);
    assert_eq!(vmm.remove_region(0x3800).map(|r| r.name), None);
    assert!(vmm.insert(region("b2", 0x2000, 0x4fff)));
    assert_eq!(names(&vmm), vec!["c", "b2", "a"]);
}

#[test]
fn map_claims_a_region_and_maps_its_pages() {
    let mut vmm = vmm();
    let test = region("Test region", 0x100000, 0x100000 + 5 * PAGE_SIZE);
    assert_eq!(esalp::vmm::map(&mut vmm, test), Ok(()));
    assert_eq!(names(&vmm), vec!["Test region"]);
    assert!(vmm.translate(0x100000).is_some());
    assert!(vmm.translate(0x105fff).is_some());
    assert_eq!(vmm.translate(0x106000), None);
    assert_eq!(esalp::vmm::map(&mut vmm, region("again", 0x104000, 0x110000)), Err(VmmError::RegionConflict));
    assert_eq!(names(&vmm), vec!["Test region"]);
    assert_eq!(vmm.translate(0x108000), None);
    assert!(unmap(&mut vmm, 0x100000));
    assert_eq!(vmm.len(), 0);
    assert_eq!(vmm.translate(0x100000), None);
    assert!(!unmap(&mut vmm, 0x100000));
}

#[test]
fn map_gives_the_claim_up_when_mapping_fails() {
    let mut vmm = vmm();
    // the page of the screen is mapped, but no region claims it
    assert_eq!(esalp::vmm::map(&mut vmm, region("screen", 0xb7000, 0xb8fff)), Err(VmmError::AlreadyMapped));
    assert_eq!(vmm.len(), 0);
    assert_eq!(vmm.translate(0xb7000), None);
    // bounds that are not canonical
    assert_eq!(
        esalp::vmm::map(&mut vmm, region("hole", 0x8000_0000_0000, 0x8000_0000_1000)),
        Err(VmmError::InvalidAddress)
    );
    assert_eq!(vmm.len(), 0);
}

#[test]
fn map_to_maps_a_region_to_physical_memory() {
    let mut vmm = vmm();
    let keyboard = region("Keyboard Region", 0x30_0000, 0x30_0000 + PAGE_SIZE);
    assert_eq!(map_to(&mut vmm, keyboard, 0x1e0_0000), Ok(()));
    assert_eq!(vmm.translate(0x30_0000), Some(0x1e0_0000));
    assert_eq!(vmm.translate(0x30_1008), Some(0x1e0_1008));
    assert!(!vmm.frame_is_free(&Frame::containing_address(0x1e0_0000)));
    assert_eq!(map_to(&mut vmm, region("over", 0x30_1000, 0x30_2000), 0x1e1_0000), Err(VmmError::RegionConflict));
    assert!(unmap(&mut vmm, 0x30_0800));
    assert_eq!(vmm.translate(0x30_0000), None);
    assert!(vmm.frame_is_free(&Frame::containing_address(0x1e0_0000)));
}

#[test]
fn out_of_memory_gives_the_claim_up() {
    let mut vmm = vmm();
    // more pages than there are frames
    let huge = region("huge", 0x4000_0000, 0x4000_0000 + 0x2000 * PAGE_SIZE);
    assert_eq!(esalp::vmm::map(&mut vmm, huge), Err(VmmError::OutOfPhysicalMemory));
    assert_eq!(vmm.len(), 0);
    assert_eq!(esalp::vmm::map(&mut vmm, region("small", 0x5000_0000, 0x5000_0fff)), Err(VmmError::OutOfPhysicalMemory));
    // what was mapped before the frames ran out stays mapped: unmapping the
    // region by hand gives the frames back
    assert!(vmm.insert(huge));
    assert!(unmap(&mut vmm, 0x4000_0000));
    assert_eq!(esalp::vmm::map(&mut vmm, region("small", 0x5000_0000, 0x5000_0fff)), Ok(()));
}

#[test]
fn vmm_allocates_stacks() {
    let mut vmm = vmm();
    let stack = alloc_stack(&mut vmm, 1).unwrap();
    assert_eq!(stack.top() - stack.bottom(), PAGE_SIZE);
    assert!(vmm.translate(stack.bottom()).is_some());
    assert_eq!(vmm.translate(stack.bottom() - 1), None);
}

#[test]
fn frames_are_free_tells_what_map_to_may_take() {
    let mut vmm = vmm();
    let device = region("device", 0x5000_0000, 0x5000_0000 + 2 * PAGE_SIZE);
    // frames of free memory
    assert!(esalp::vmm::frames_are_free(&vmm, device, 0x50_0000));
    // frames of the kernel image
    assert!(!esalp::vmm::frames_are_free(&vmm, device, 0x10_1000));
    // frames that do not exist
    assert!(!esalp::vmm::frames_are_free(&vmm, device, 0xf_ffff_ffff_f000));
    assert_eq!(map_to(&mut vmm, device, 0x50_0000), Ok(()));
    assert_eq!(vmm.translate(0x5000_1000), Some(0x50_1000));
    // the frames are taken now
    assert!(!esalp::vmm::frames_are_free(&vmm, device, 0x50_0000));
}
