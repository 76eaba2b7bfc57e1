use esalp::cpuio::{Serial, COM1, COM2, COM3, COM4};
use esalp::tap::{Line, TestGroup};

#[test]
fn serial_line_has_eight_ports_in_a_row() {
    let serial = Serial::new(COM1);
    assert_eq!(COM1, 0x3f8);
    assert_eq!((COM2, COM3, COM4), (0x2f8, 0x3e8, 0x2e8));
    assert_eq!(serial.data.port, 0x3f8);
    assert_eq!(serial.interrupt_enable.port, 0x3f9);
    assert_eq!(serial.fifo.port, 0x3fa);
    assert_eq!(serial.line_ctrl.port, 0x3fb);
    assert_eq!(serial.modem_ctrl.port, 0x3fc);
    assert_eq!(serial.line_stat.port, 0x3fd);
    assert_eq!(serial.modem_stat.port, 0x3fe);
    assert_eq!(serial.scratch.port, 0x3ff);
    assert_eq!(Serial::new(0xfff8).scratch.port, 0xffff);
}

#[test]
fn serial_line_is_set_up_in_seven_writes() {
    let serial = Serial::new(COM1);
    let writes: Vec<(u16, u8)> =
        serial.init().iter().map(|write| (write.port, write.value)).collect();
    assert_eq!(
        writes,
        vec![
            (0x3f9, 0x00),
            (0x3fb, 0x80),
            (0x3f8, 0x03),
            (0x3f9, 0x00),
            (0x3fb, 0x03),
            (0x3fa, 0xc7),
            (0x3fc, 0x0f),
        ]
    );
}

#[test]
fn line_status_tells_when_to_read_and_write() {
    assert!(Serial::serial_received(0x01));
    assert!(Serial::serial_received(0x61));
    assert!(!Serial::serial_received(0x60));
    assert!(!Serial::serial_received(0x00));
    assert!(Serial::is_transmit_empty(0x20));
    assert!(Serial::is_transmit_empty(0x61));
    assert!(!Serial::is_transmit_empty(0x41));
    assert!(!Serial::is_transmit_empty(0x00));
    let write = Serial::new(COM2).write(b'x');
    assert_eq!((write.port, write.value), (0x2f8, b'x'));
}

#[test]
fn test_group_numbers_its_tests() {
    let (mut group, plan) = TestGroup::new(3);
    assert_eq!(plan, Line::Plan { count: 3 });
    assert_eq!(group.left(), 3);
    assert_eq!(group.diagnostic("Testing"), Line::Diagnostic { message: "Testing" });
    assert_eq!(group.left(), 3);
    assert_eq!(
        group.ok(Some("mapped")),
        Line::Passed { number: 1, message: Some("mapped") }
    );
    assert_eq!(group.ok(None), Line::Passed { number: 2, message: None });
    assert_eq!(group.left(), 1);
    assert_eq!(group.not_ok("lost"), Line::Failed { number: 3, message: "lost" });
    assert_eq!(group.left(), 0);
    assert_eq!(group.finish(), Line::Diagnostic { message: "EOT" });
}

#[test]
fn assert_tap_reports_by_the_outcome() {
    let (mut group, _) = TestGroup::new(2);
    assert_eq!(
        group.assert_tap(true, "Could not map region"),
        Line::Passed { number: 1, message: None }
    );
    assert_eq!(
        group.assert_tap(false, "Could not read"),
        Line::Failed { number: 2, message: "Could not read" }
    );
    assert_eq!(group.left(), 0);
}

#[test]
fn empty_test_group_has_nothing_left() {
    let (group, plan) = TestGroup::new(0);
    assert_eq!(plan, Line::Plan { count: 0 });
    assert_eq!(group.left(), 0);
}
