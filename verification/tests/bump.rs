use esalp::bump_alloc::{align_down, align_up, Allocator};

#[test]
fn align_down_rounds_to_the_alignment() {
    assert_eq!(align_down(0x1234, 0x1000), 0x1000);
    assert_eq!(align_down(0x1000, 0x1000), 0x1000);
    assert_eq!(align_down(0xfff, 0x1000), 0);
    assert_eq!(align_down(17, 1), 17);
    assert_eq!(align_down(17, 8), 16);
    assert_eq!(align_down(u64::MAX, 2), u64::MAX - 1);
}

#[test]
fn align_down_with_zero_leaves_the_address() {
    assert_eq!(align_down(0x1234, 0), 0x1234);
}

#[test]
fn align_up_rounds_to_the_alignment() {
    assert_eq!(align_up(0x1234, 0x1000), 0x2000);
    assert_eq!(align_up(0x1000, 0x1000), 0x1000);
    assert_eq!(align_up(1, 8), 8);
    assert_eq!(align_up(0, 8), 0);
    assert_eq!(align_up(9, 1), 9);
}

#[test]
fn allocator_moves_its_mark_forward() {
    let mut heap = Allocator::new(0x1000, 0x100);
    assert_eq!(heap.allocate(0x10, 8), Some(0x1000));
    assert_eq!(heap.allocate(1, 1), Some(0x1010));
    assert_eq!(heap.allocate(8, 16), Some(0x1020));
    assert_eq!(heap.allocate(0xd8, 8), Some(0x1028));
    assert_eq!(heap.allocate(1, 1), None);
    assert_eq!(heap.allocate(0, 1), Some(0x1100));
}

#[test]
fn allocator_refuses_what_does_not_fit() {
    let mut heap = Allocator::new(0x1001, 0x20);
    assert_eq!(heap.allocate(0x21, 1), None);
    assert_eq!(heap.allocate(0x20, 0x10), None);
    assert_eq!(heap.allocate(0x11, 0x10), Some(0x1010));
    assert_eq!(heap.allocate(1, 1), None);
    let mut top = Allocator::new(u64::MAX - 0x10, 0x10);
    assert_eq!(top.allocate(1, 0x100), None);
    assert_eq!(top.allocate(0x10, 1), Some(u64::MAX - 0x10));
}
