use esalp::interrupts::gdt::{Descriptor, Gdt};
use esalp::interrupts::idt::{Entry, EntryOptions, Idt};
use esalp::interrupts::keyboard::Keyboard;
use esalp::interrupts::pic::{ChainedPICs, PIC, UnsafePort};

#[test]
fn minimal_options_have_the_must_be_one_bits() {
    assert_eq!(EntryOptions::minimal().0, 0b111 << 9);
    assert!(!EntryOptions::minimal().is_present());
}

#[test]
fn new_options_are_present_with_interrupts_disabled() {
    let options = EntryOptions::new();
    assert_eq!(options.0, 0x8e00);
    assert!(options.is_present());
}

#[test]
fn set_present_sets_and_resets_bit_15() {
    let mut options = EntryOptions::minimal();
    options.set_present(true);
    assert_eq!(options.0, 0x8e00);
    assert!(options.is_present());
    options.set_present(false);
    assert_eq!(options.0, 0x0e00);
    assert!(!options.is_present());
}

#[test]
fn disable_interrupts_clears_bit_8() {
    let mut options = EntryOptions::minimal();
    options.disable_interrupts(false);
    assert_eq!(options.0, 0x0f00);
    options.disable_interrupts(true);
    assert_eq!(options.0, 0x0e00);
}

#[test]
fn set_privilege_level_writes_bits_13_and_14() {
    let mut options = EntryOptions::new();
    options.set_privilege_level(3);
    assert_eq!(options.0, 0xee00);
    options.set_privilege_level(1);
    assert_eq!(options.0, 0xae00);
    options.set_privilege_level(0);
    assert_eq!(options.0, 0x8e00);
}

#[test]
fn stack_index_is_stored_plus_one() {
    let mut options = EntryOptions::new();
    assert_eq!(options.get_stack_index(), None);
    options.set_stack_index(0);
    assert_eq!(options.0, 0x8e01);
    assert_eq!(options.get_stack_index(), Some(0));
    options.set_stack_index(6);
    assert_eq!(options.0, 0x8e07);
    assert_eq!(options.get_stack_index(), Some(6));
}

#[test]
fn entry_splits_the_handler_address() {
    let entry = Entry::new(8, 0x1234_5678_9abc_def0);
    assert_eq!(entry.gdt_selector, 8);
    assert_eq!(entry.pointer_low, 0xdef0);
    assert_eq!(entry.pointer_middle, 0x9abc);
    assert_eq!(entry.pointer_high, 0x1234_5678);
    assert_eq!(entry.reserved, 0);
    assert_eq!(entry.options().0, 0x8e00);
    assert_eq!(entry.func(), Some(0x1234_5678_9abc_def0));
}

#[test]
fn missing_entry_has_no_handler() {
    let entry = Entry::missing();
    assert_eq!(entry.func(), None);
    assert_eq!(entry.options().0, 0x0e00);
    assert_eq!(entry.pointer_low, 0);
}

#[test]
fn idt_starts_empty_and_takes_handlers() {
    let mut idt = Idt::new();
    assert_eq!(idt.get_handler(0).func(), None);
    assert_eq!(idt.get_handler(39).func(), None);
    let options = idt.set_handler(3, 8, 0xffff_ffff_8010_2030);
    assert_eq!(options.0, 0x8e00);
    assert_eq!(idt.get_handler(3).func(), Some(0xffff_ffff_8010_2030));
    assert_eq!(idt.get_handler(3).gdt_selector, 8);
    assert_eq!(idt.get_handler(2).func(), None);
    assert_eq!(idt.get_handler(4).func(), None);
}

#[test]
fn kernel_code_segment_has_its_flags() {
    assert_eq!(
        Descriptor::kernel_code_segment(),
        Descriptor::UserSegment((1 << 44) | (1 << 47) | (1 << 43) | (1 << 53))
    );
}

#[test]
fn tss_segment_spreads_the_address() {
    let descriptor = Descriptor::tss_segment(0xffff_ffff_8012_3456);
    let low: u64 = (1 << 47) | (0x12_3456 << 16) | (0x80 << 56) | 103 | (0b1001 << 40);
    assert_eq!(descriptor, Descriptor::SystemSegment(low, 0xffff_ffff));
}

#[test]
fn gdt_hands_out_selectors() {
    let mut gdt = Gdt::new();
    assert_eq!(gdt.len(), 1);
    assert_eq!(gdt.word(0), 0);
    let code = gdt.add_entry(Descriptor::kernel_code_segment());
    assert_eq!(code, Some(8));
    assert_eq!(gdt.word(1), 0x0020_9800_0000_0000);
    let tss = gdt.add_entry(Descriptor::SystemSegment(0x1111, 0x2222));
    assert_eq!(tss, Some(16));
    assert_eq!(gdt.word(2), 0x1111);
    assert_eq!(gdt.word(3), 0x2222);
    assert_eq!(gdt.len(), 4);
}

#[test]
fn gdt_that_is_full_takes_nothing() {
    let mut gdt = Gdt::new();
    for index in 1..8u16 {
        assert_eq!(gdt.add_entry(Descriptor::UserSegment(index as u64)), Some(index << 3));
    }
    assert_eq!(gdt.len(), 8);
    assert_eq!(gdt.add_entry(Descriptor::UserSegment(9)), None);
    assert_eq!(gdt.add_entry(Descriptor::SystemSegment(1, 2)), None);
    assert_eq!(gdt.len(), 8);
    assert_eq!(gdt.word(7), 7);
    let mut other = Gdt::new();
    for index in 1..7u16 {
        assert_eq!(other.add_entry(Descriptor::UserSegment(index as u64)), Some(index << 3));
    }
    // one word is left: a system segment needs two
    assert_eq!(other.add_entry(Descriptor::SystemSegment(1, 2)), None);
    assert_eq!(other.len(), 7);
    assert_eq!(other.word(7), 0);
}

#[test]
fn pic_handles_its_vectors() {
    let pic = PIC { offset: 0x20, command: UnsafePort { port: 0x20 }, data: UnsafePort { port: 0x21 } };
    assert!(!pic.handles_interrupt(0x1f));
    assert!(pic.handles_interrupt(0x20));
    assert!(pic.handles_interrupt(0x28));
    assert!(!pic.handles_interrupt(0x29));
    let high = PIC { offset: 0xfc, command: UnsafePort { port: 0x20 }, data: UnsafePort { port: 0x21 } };
    assert!(high.handles_interrupt(0xff));
    assert!(!high.handles_interrupt(0xfb));
}

#[test]
fn chained_pics_handle_what_both_handle() {
    let pics = ChainedPICs::new(0x20, 0x28);
    assert_eq!(pics.master.command.port, 0x20);
    assert_eq!(pics.master.data.port, 0x21);
    assert_eq!(pics.slave.command.port, 0xa0);
    assert_eq!(pics.slave.data.port, 0xa1);
    assert!(pics.handles_interrupt(0x28));
    assert!(!pics.handles_interrupt(0x20));
    assert!(!pics.handles_interrupt(0x30));
    assert!(!pics.handles_interrupt(0x31));
}

#[test]
fn keyboard_takes_a_new_map() {
    let mut keyboard = Keyboard::new();
    assert_eq!(keyboard.port.port, 0x60);
    assert_eq!(keyboard.kbmap[2], b'1');
    assert_eq!(keyboard.kbmap[16], b'q');
    assert!(keyboard.keys.iter().all(|down| !down));
    let mut second = [0u8; 128];
    second[2] = b'&';
    second[16] = b'a';
    keyboard.change_kbmap(&second);
    assert_eq!(keyboard.kbmap[2], b'&');
    assert_eq!(keyboard.kbmap[16], b'a');
    assert_eq!(keyboard.kbmap, second);
}

#[test]
fn tss_limit_is_the_size_of_the_segment_less_one() {
    let size = core::mem::size_of::<x86_64::structures::tss::TaskStateSegment>() as u64;
    assert_eq!(size - 1, esalp::interrupts::gdt::TSS_LIMIT);
}

#[test]
fn controllers_are_initialized_master_first() {
    let pics = ChainedPICs::new(0x20, 0x28);
    let writes: Vec<(u16, u8)> =
        pics.initialize(0xfb, 0xff).iter().map(|write| (write.port, write.value)).collect();
    assert_eq!(
        writes,
        vec![
            (0x20, 0x11),
            (0x80, 0),
            (0xa0, 0x11),
            (0x80, 0),
            (0x21, 0x20),
            (0x80, 0),
            (0xa1, 0x28),
            (0x80, 0),
            (0x21, 4),
            (0x80, 0),
            (0xa1, 2),
            (0x80, 0),
            (0x21, 1),
            (0x80, 0),
            (0xa1, 1),
            (0x80, 0),
            (0x21, 0xfb),
            (0xa1, 0xff),
        ]
    );
}

#[test]
fn end_of_interrupt_goes_to_the_command_port() {
    let pics = ChainedPICs::new(0x20, 0x28);
    let write = pics.master.end_of_interrupt();
    assert_eq!((write.port, write.value), (0x20, 0x20));
    let write = pics.slave.end_of_interrupt();
    assert_eq!((write.port, write.value), (0xa0, 0x20));
}

#[test]
fn masks_are_set_on_the_controller_of_the_line() {
    let pics = ChainedPICs::new(0x20, 0x28);
    let write = pics.set_mask(0b0000_0001, 3);
    assert_eq!((write.port, write.value), (0x21, 0b0000_1001));
    let write = pics.set_mask(0b0000_0001, 8);
    assert_eq!((write.port, write.value), (0xa1, 0b0000_0001));
    let write = pics.set_mask(0, 15);
    assert_eq!((write.port, write.value), (0xa1, 0b1000_0000));
    let write = pics.master.set_mask(0xf0, 0);
    assert_eq!((write.port, write.value), (0x21, 0xf1));
    assert_eq!(pics.line(7).1, 7);
    assert_eq!(pics.line(7).0, pics.master);
    assert_eq!(pics.line(8).1, 0);
    assert_eq!(pics.line(8).0, pics.slave);
}

#[test]
fn clearing_a_mask_sets_every_other_bit() {
    let pics = ChainedPICs::new(0x20, 0x28);
    let write = pics.clear_mask(0, 3);
    assert_eq!((write.port, write.value), (0x21, 0b1111_0111));
    let write = pics.clear_mask(0b0000_1000, 3);
    assert_eq!((write.port, write.value), (0x21, 0xff));
    let write = pics.clear_mask(0, 9);
    assert_eq!((write.port, write.value), (0xa1, 0b1111_1101));
    let write = pics.slave.clear_mask(0x0f, 7);
    assert_eq!((write.port, write.value), (0xa1, 0x7f));
}
