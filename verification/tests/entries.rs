use esalp::memory::paging::entry::{
    Entry, EntryFlags, ALL_FLAGS, GLOBAL, HUGE_PAGE, NO_EXECUTE, PRESENT, USER_ACCESSIBLE, WRITABLE,
};
use esalp::memory::{Frame, PAGE_SIZE};
use esalp::vmm::{
    Protection, PROTECTION_EXECUTABLE, PROTECTION_NONE, PROTECTION_USER_ACCESSIBLE,
    PROTECTION_WRITABLE,
};

#[test]
fn new_entry_is_unused() {
    let entry = Entry(0);
    assert!(entry.is_unused());
    assert_eq!(entry.pointed_frame(), None);
    assert_eq!(entry.flags().bits(), 0);
}

#[test]
fn set_entry_points_to_frame_with_flags() {
    let mut entry = Entry(0);
    let flags = EntryFlags::from_bits_truncate(PRESENT | WRITABLE | NO_EXECUTE);
    entry.set(Frame::containing_address(5 * PAGE_SIZE), flags);
    assert_eq!(entry.0, 0x8000_0000_0000_5003);
    assert!(!entry.is_unused());
    assert_eq!(entry.pointed_frame().map(|f| f.index()), Some(5));
    assert_eq!(entry.flags(), flags);
    assert!(entry.flags().has(WRITABLE));
    assert!(!entry.flags().has(HUGE_PAGE));
}

#[test]
fn entry_without_present_flag_points_nowhere() {
    let mut entry = Entry(0);
    entry.set(Frame::containing_address(7 * PAGE_SIZE), EntryFlags::from_bits_truncate(WRITABLE));
    assert!(!entry.is_unused());
    assert_eq!(entry.pointed_frame(), None);
}

#[test]
fn set_unused_zeroes_the_entry() {
    let mut entry = Entry(0xffff_ffff_ffff_ffff);
    entry.set_unused();
    assert!(entry.is_unused());
    assert_eq!(entry.0, 0);
}

#[test]
fn flags_drop_the_bits_that_are_no_flags() {
    let flags = EntryFlags::from_bits_truncate(0xffff_ffff_ffff_ffff);
    assert_eq!(flags.bits(), ALL_FLAGS);
    let entry = Entry(0x0000_0000_0012_3fff);
    assert_eq!(entry.flags().bits(), 0x1ff);
    assert_eq!(entry.pointed_frame().map(|f| f.index()), Some(0x123));
}

#[test]
fn flags_union_and_contains() {
    let present = EntryFlags::from_bits_truncate(PRESENT);
    let global = EntryFlags::from_bits_truncate(GLOBAL);
    let both = present.union(global);
    assert_eq!(both.bits(), PRESENT | GLOBAL);
    assert!(both.contains(present));
    assert!(both.contains(global));
    assert!(!present.contains(both));
    assert!(EntryFlags::empty().union(present) == present);
}

#[test]
fn flags_from_elf_section_flags() {
    assert_eq!(EntryFlags::from_elf_section_flags(true, false, true).bits(), PRESENT);
    assert_eq!(EntryFlags::from_elf_section_flags(true, true, false).bits(), PRESENT | WRITABLE | NO_EXECUTE);
    assert_eq!(EntryFlags::from_elf_section_flags(false, false, false).bits(), NO_EXECUTE);
    assert_eq!(EntryFlags::from_elf_section_flags(false, true, true).bits(), WRITABLE);
}

#[test]
fn flags_from_protection() {
    let none = Protection::from_bits_truncate(PROTECTION_NONE);
    assert_eq!(EntryFlags::from_protection(none).bits(), NO_EXECUTE);
    let writable = Protection::from_bits_truncate(PROTECTION_WRITABLE);
    assert_eq!(EntryFlags::from_protection(writable).bits(), WRITABLE | NO_EXECUTE);
    let all = Protection::from_bits_truncate(
        PROTECTION_WRITABLE | PROTECTION_USER_ACCESSIBLE | PROTECTION_EXECUTABLE,
    );
    assert_eq!(EntryFlags::from_protection(all).bits(), WRITABLE | USER_ACCESSIBLE);
    assert_eq!(Protection::from_bits_truncate(0xff).bits(), 0x7);
    assert_eq!(Protection::empty().bits(), 0);
}
