//! Single bits and runs of bits of a word, read and written through the
//! `bit_field` crate.

use bit_field::BitField;
use vstd::prelude::*;

verus! {

/// The bits `start..end` of a 16-bit word, set.
pub open spec fn field_mask(start: u16, end: u16) -> u16 {
    (((0xffffu16 << ((16 - end) as u16)) >> ((16 - end) as u16)) >> start) << start
}

/// Calls `BitField::get_bit` on a `u16`: tells whether bit `bit` of the word
/// is set. The bit has to exist.
#[verifier::external_body]
pub(crate) fn get_bit(value: u16, bit: u16) -> (set: bool)
    requires
        bit < 16,
    ensures
        set == (value & (1u16 << bit) != 0),
{
    value.get_bit(bit as usize)
}

/// Calls `BitField::set_bit` on a `u16`: returns the word with bit `bit` set
/// or cleared, as `on` says. The bit has to exist.
#[verifier::external_body]
pub(crate) fn set_bit(value: u16, bit: u16, on: bool) -> (result: u16)
    requires
        bit < 16,
    ensures
        result == if on {
            value | (1u16 << bit)
        } else {
            value & !(1u16 << bit)
        },
{
    let mut word = value;
    word.set_bit(bit as usize, on);
    word
}

/// Calls `BitField::get_bits` on a `u16`: returns the bits `start..end` of
/// the word, moved down to bit 0. The run has to exist and hold a bit.
#[verifier::external_body]
pub(crate) fn get_bits(value: u16, start: u16, end: u16) -> (bits: u16)
    requires
        start < end <= 16,
    ensures
        bits == ((value << ((16 - end) as u16)) >> ((16 - end) as u16)) >> start,
{
    value.get_bits((start as usize)..(end as usize))
}

/// Calls `BitField::set_bits` on a `u16`: returns the word with its bits
/// `start..end` replaced by the lowest bits of `bits`. The run has to exist
/// and hold a bit, and `bits` has to fit into it.
#[verifier::external_body]
pub(crate) fn set_bits(value: u16, start: u16, end: u16, bits: u16) -> (result: u16)
    requires
        start < end <= 16,
        (bits << ((16 - (end - start)) as u16)) >> ((16 - (end - start)) as u16) == bits,
    ensures
        result == (value & !field_mask(start, end)) | (bits << start),
{
    let mut word = value;
    word.set_bits((start as usize)..(end as usize), bits);
    word
}

/// The bits `start..end` of a 64-bit word, set.
pub open spec fn field_mask_64(start: u64, end: u64) -> u64 {
    (((0xffff_ffff_ffff_ffffu64 << ((64 - end) as u64)) >> ((64 - end) as u64)) >> start) << start
}

/// Calls `BitField::get_bits` on a `u64`: returns the bits `start..end` of
/// the word, moved down to bit 0. The run has to exist and hold a bit.
#[verifier::external_body]
pub(crate) fn get_bits_64(value: u64, start: u64, end: u64) -> (bits: u64)
    requires
        start < end <= 64,
    ensures
        bits == ((value << ((64 - end) as u64)) >> ((64 - end) as u64)) >> start,
{
    value.get_bits((start as usize)..(end as usize))
}

/// Calls `BitField::set_bits` on a `u64`: returns the word with its bits
/// `start..end` replaced by the lowest bits of `bits`. The run has to exist
/// and hold a bit, and `bits` has to fit into it.
#[verifier::external_body]
pub(crate) fn set_bits_64(value: u64, start: u64, end: u64, bits: u64) -> (result: u64)
    requires
        start < end <= 64,
        (bits << ((64 - (end - start)) as u64)) >> ((64 - (end - start)) as u64) == bits,
    ensures
        result == (value & !field_mask_64(start, end)) | (bits << start),
{
    let mut word = value;
    word.set_bits((start as usize)..(end as usize), bits);
    word
}

} // verus!
