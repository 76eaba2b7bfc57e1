//! The keyboard: the table that turns the codes of its keys into
//! characters, and which keys are down.

use vstd::prelude::*;
use crate::interrupts::pic::Port;

verus! {

/// The port of the keyboard.
pub const KEYBOARD_PORT: u16 = 0x60;

/// The characters of the keys of a keyboard with the layout of the United
/// States.
pub const KBDUS: [u8; 128] = [
    0x00, 0x27, 0x31, 0x32, 0x33, 0x34, 0x35, 0x36, 0x37, 0x38, 0x39, 0x30, 0x2d, 0x3d, 0x08, 0x09,
    0x71, 0x77, 0x65, 0x72, 0x74, 0x79, 0x75, 0x69, 0x6f, 0x70, 0x5b, 0x5d, 0x0a, 0x00, 0x61, 0x73,
    0x64, 0x66, 0x67, 0x68, 0x6a, 0x6b, 0x6c, 0x3b, 0x27, 0x60, 0x00, 0x5c, 0x7a, 0x78, 0x63, 0x76,
    0x62, 0x6e, 0x6d, 0x2c, 0x2e, 0x2f, 0x00, 0x2a, 0x00, 0x20, 0x00, 0x00, 0x00, 0x00, 0x00, 0x00,
    0x00, 0x00, 0x00, 0x00, 0x00, 0x00, 0x00, 0x00, 0x00, 0x00, 0x2d, 0x00, 0x00, 0x00, 0x2b, 0x00,
    0x00, 0x00, 0x00, 0x00, 0x00, 0x00, 0x00, 0x00, 0x00, 0x00, 0x00, 0x00, 0x00, 0x00, 0x00, 0x00,
    0x00, 0x00, 0x00, 0x00, 0x00, 0x00, 0x00, 0x00, 0x00, 0x00, 0x00, 0x00, 0x00, 0x00, 0x00, 0x00,
    0x00, 0x00, 0x00, 0x00, 0x00, 0x00, 0x00, 0x00, 0x00, 0x00, 0x00, 0x00, 0x00, 0x00, 0x00, 0x00,
];

/// The code of the left shift key.
pub const LEFT_SHIFT: u8 = 42;

/// The code of the right shift key.
pub const RIGHT_SHIFT: u8 = 54;

/// The character that a key gives while a shift key is down: the capital of
/// a small letter, the sign above a digit or a punctuation mark, and zero
/// for every other character.
pub open spec fn shifted_spec(byte: u8) -> u8 {
    if 0x61 <= byte <= 0x7a {
        (byte - 0x20) as u8
    } else if byte == 0x31 {
        0x21
    } else if byte == 0x32 {
        0x40
    } else if byte == 0x33 {
        0x23
    } else if byte == 0x34 {
        0x24
    } else if byte == 0x35 {
        0x25
    } else if byte == 0x36 {
        0x5e
    } else if byte == 0x37 {
        0x26
    } else if byte == 0x38 {
        0x2a
    } else if byte == 0x39 {
        0x28
    } else if byte == 0x30 {
        0x29
    } else if byte == 0x60 {
        0x7e
    } else if byte == 0x2d {
        0x5f
    } else if byte == 0x3d {
        0x2b
    } else if byte == 0x5b {
        0x7b
    } else if byte == 0x5d {
        0x7d
    } else if byte == 0x5c {
        0x7c
    } else if byte == 0x3b {
        0x3a
    } else if byte == 0x27 {
        0x22
    } else if byte == 0x2c {
        0x3c
    } else if byte == 0x2e {
        0x3e
    } else {
        0
    }
}

/// The character that a key gives while a shift key is down.
pub fn shifted(byte: u8) -> (character: u8)
    ensures
        character == shifted_spec(byte),
{
    if 0x61 <= byte && byte <= 0x7a {
        byte - 0x20
    } else {
        match byte {
            0x31 => 0x21,
            0x32 => 0x40,
            0x33 => 0x23,
            0x34 => 0x24,
            0x35 => 0x25,
            0x36 => 0x5e,
            0x37 => 0x26,
            0x38 => 0x2a,
            0x39 => 0x28,
            0x30 => 0x29,
            0x60 => 0x7e,
            0x2d => 0x5f,
            0x3d => 0x2b,
            0x5b => 0x7b,
            0x5d => 0x7d,
            0x5c => 0x7c,
            0x3b => 0x3a,
            0x27 => 0x22,
            0x2c => 0x3c,
            0x2e => 0x3e,
            _ => 0,
        }
    }
}

/// The keyboard.
pub struct Keyboard {
    /// The port of the keyboard, which is 0x60.
    pub port: Port,
    /// The characters of the keys; a key without a character has zero.
    pub kbmap: [u8; 128],
    /// Which keys are down.
    pub keys: [bool; 128],
}

impl Keyboard {
    /// Returns a keyboard with the layout of the United States and no key
    /// down.
    pub fn new() -> (keyboard: Keyboard)
        ensures
            keyboard.port.port == KEYBOARD_PORT,
            keyboard.kbmap == KBDUS,
            forall|i: int| 0 <= i < 128 ==> !(#[trigger] keyboard.keys[i]),
    {
        Keyboard { port: Port::new(KEYBOARD_PORT), kbmap: KBDUS, keys: [false;128] }
    }

    /// Takes over the given table of characters.
    pub fn change_kbmap(&mut self, kbmap: &[u8; 128])
        ensures
            final(self).kbmap == *kbmap,
            final(self).keys == old(self).keys,
            final(self).port == old(self).port,
    {
        self.kbmap = *kbmap;
    }

    /// The character that the key with the given code gives, by the table
    /// of characters and by the shift keys that are down.
    pub open spec fn character_of(self, key: int) -> u8 {
        if self.keys[LEFT_SHIFT as int] || self.keys[RIGHT_SHIFT as int] {
            shifted_spec(self.kbmap[key])
        } else {
            self.kbmap[key]
        }
    }

    /// Takes in a code that the keyboard sent. A code below 0x80 says that
    /// the key of that code went down: the key is noted as down, and its
    /// character is returned, as the shift keys, this key among them, turn it.
    /// A code from 0x80 on says that the key of the code less 0x80 went up:
    /// the key is noted as up, and nothing is returned.
    pub fn key_event(&mut self, code: u8) -> (character: Option<u8>)
        ensures
            final(self).port == old(self).port,
            final(self).kbmap == old(self).kbmap,
            final(self).keys@ == old(self).keys@.update((code % 0x80) as int, code < 0x80),
            code < 0x80 ==> character == Some(final(self).character_of(code as int)),
            code >= 0x80 ==> character.is_none(),
    {
        if code < 0x80 {
            self.keys[code as usize] = true;
            let byte = self.kbmap[code as usize];
            if self.keys[LEFT_SHIFT as usize] || self.keys[RIGHT_SHIFT as usize] {
                Some(shifted(byte))
            } else {
                Some(byte)
            }
        } else {
            let key = code - 0x80;
            self.keys[key as usize] = false;
            None
        }
    }
}

} // verus!
