use esalp::interrupts::keyboard::{shifted, Keyboard, KBDUS, LEFT_SHIFT, RIGHT_SHIFT};

fn keyboard() -> Keyboard {
    Keyboard::new()
}

#[test]
fn keyboard_starts_with_the_us_layout() {
    let keyboard = Keyboard::new();
    assert_eq!(keyboard.kbmap, KBDUS);
    assert_eq!(&KBDUS[2..14], b"1234567890-=");
    assert_eq!(&KBDUS[16..28], b"qwertyuiop[]");
    assert_eq!(&KBDUS[30..42], b"asdfghjkl;'`");
    assert_eq!(&KBDUS[43..54], b"\\zxcvbnm,./");
    assert_eq!(KBDUS[14], 0x08);
    assert_eq!(KBDUS[15], b'\t');
    assert_eq!(KBDUS[28], b'\n');
    assert_eq!(KBDUS[55], b'*');
    assert_eq!(KBDUS[57], b' ');
    assert_eq!(KBDUS[74], b'-');
    assert_eq!(KBDUS[78], b'+');
    assert_eq!(KBDUS.iter().filter(|byte| **byte != 0).count(), 55);
}

#[test]
fn shift_turns_letters_digits_and_marks() {
    assert_eq!(shifted(b'a'), b'A');
    assert_eq!(shifted(b'z'), b'Z');
    assert_eq!(shifted(b'1'), b'!');
    assert_eq!(shifted(b'2'), b'@');
    assert_eq!(shifted(b'3'), b'#');
    assert_eq!(shifted(b'4'), b'$');
    assert_eq!(shifted(b'5'), b'%');
    assert_eq!(shifted(b'6'), b'^');
    assert_eq!(shifted(b'7'), b'&');
    assert_eq!(shifted(b'8'), b'*');
    assert_eq!(shifted(b'9'), b'(');
    assert_eq!(shifted(b'0'), b')');
    assert_eq!(shifted(b'`'), b'~');
    assert_eq!(shifted(b'-'), b'_');
    assert_eq!(shifted(b'='), b'+');
    assert_eq!(shifted(b'['), b'{');
    assert_eq!(shifted(b']'), b'}');
    assert_eq!(shifted(b'\\'), b'|');
    assert_eq!(shifted(b';'), b':');
    assert_eq!(shifted(b'\''), b'"');
    assert_eq!(shifted(b','), b'<');
    assert_eq!(shifted(b'.'), b'>');
}

#[test]
fn shift_turns_everything_else_to_nul() {
    assert_eq!(shifted(b' '), 0);
    assert_eq!(shifted(b'A'), 0);
    assert_eq!(shifted(b'/'), 0);
    assert_eq!(shifted(0), 0);
    assert_eq!(shifted(0x7b), 0);
    assert_eq!(shifted(0xff), 0);
}

#[test]
fn key_going_down_gives_its_character() {
    let mut keyboard = keyboard();
    assert_eq!(keyboard.key_event(30), Some(b'a'));
    assert!(keyboard.keys[30]);
    assert_eq!(keyboard.key_event(2), Some(b'1'));
    assert_eq!(keyboard.key_event(29), Some(0));
    assert_eq!(keyboard.keys.iter().filter(|down| **down).count(), 3);
}

#[test]
fn key_going_up_gives_nothing() {
    let mut keyboard = keyboard();
    keyboard.key_event(30);
    assert_eq!(keyboard.key_event(30 + 0x80), None);
    assert!(!keyboard.keys[30]);
    assert_eq!(keyboard.key_event(0xff), None);
    assert!(keyboard.keys.iter().all(|down| !down));
}

#[test]
fn shift_keys_turn_characters_while_they_are_down() {
    let mut keyboard = keyboard();
    assert_eq!(keyboard.key_event(LEFT_SHIFT), Some(0));
    assert_eq!(keyboard.key_event(16), Some(b'Q'));
    assert_eq!(keyboard.key_event(39), Some(b':'));
    assert_eq!(keyboard.key_event(57), Some(0));
    assert_eq!(keyboard.key_event(LEFT_SHIFT + 0x80), None);
    assert_eq!(keyboard.key_event(16), Some(b'q'));
    assert_eq!(keyboard.key_event(RIGHT_SHIFT), Some(0));
    assert_eq!(keyboard.key_event(2), Some(b'!'));
    assert_eq!(keyboard.key_event(RIGHT_SHIFT + 0x80), None);
    assert_eq!(keyboard.key_event(2), Some(b'1'));
}
