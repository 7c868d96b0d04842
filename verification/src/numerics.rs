//! Tables that make numeric primitives give the same bits everywhere.
//!
//! Numbers are given by their bits: binary16 for the activation table, binary32 for the others.

use vstd::prelude::*;

verus! {

/// The size of the activation table: two bytes for each binary16 number.
pub const GELU_TABLE_SIZE: usize = 131_072;

/// How many numbers between minus one and zero have a correction of their own.
pub const EXP2_SUBUNIT_ENTRIES: u32 = 11_629_080;

/// The table's entry for a number, least byte first.
pub open spec fn gelu_entry(table: Seq<u8>, bits: u16) -> int {
    table[2 * bits] + 256 * table[2 * bits + 1]
}

/// The activation of a number.
pub fn gelu(table: &[u8], bits: u16) -> (result: u16)
    requires
        table@.len() == GELU_TABLE_SIZE,
    ensures
        result == gelu_entry(table@, bits),
{
    let offset: usize = bits as usize * 2;
    table[offset] as u16 + 256 * table[offset + 1] as u16
}

/// The activations of numbers.
pub fn gelu_values(table: &[u8], values: &[u16]) -> (result: Vec<u16>)
    requires
        table@.len() == GELU_TABLE_SIZE,
    ensures
        result@.len() == values@.len(),
        forall|index: int|
            0 <= index < values@.len() ==> #[trigger] result@[index] == gelu_entry(
                table@,
                values@[index],
            ),
{
    let mut result: Vec<u16> = Vec::new();
    for index in 0..values.len()
        invariant
            table@.len() == GELU_TABLE_SIZE,
            result@.len() == index,
            forall|place: int|
                0 <= place < index ==> #[trigger] result@[place] == gelu_entry(
                    table@,
                    values@[place],
                ),
    {
        result.push(gelu(table, values[index]));
    }
    result
}

/// The correction code of an index: two bits each, four to a byte, lowest first. An index past the
/// table has code zero.
pub open spec fn correction_code(corrections: Seq<u8>, index: u32) -> int {
    let byte = corrections[index as int / 4] as int;
    if index as int / 4 >= corrections.len() {
        0
    } else if index % 4 == 0 {
        byte % 4
    } else if index % 4 == 1 {
        byte / 4 % 4
    } else if index % 4 == 2 {
        byte / 16 % 4
    } else {
        byte / 64
    }
}

/// By how much a code changes the bits of a number.
pub open spec fn correction_step(code: int) -> int {
    if code == 0 {
        0
    } else if code == 1 {
        1
    } else if code == 2 {
        -1
    } else {
        -2
    }
}

/// The bits of a number after its correction, which may wrap around.
pub open spec fn corrected(value: u32, index: u32, corrections: Seq<u8>) -> int {
    (value + correction_step(correction_code(corrections, index))) % 0x1_0000_0000
}

/// Corrects a number by the entry of an index.
pub fn apply_packed_correction(value: u32, index: u32, corrections: &[u8]) -> (result: u32)
    ensures
        result == corrected(value, index, corrections@),
{
    let byte_index: usize = (index / 4) as usize;
    if byte_index >= corrections.len() {
        return value;
    }
    let byte: u8 = corrections[byte_index];
    let slot: u32 = index % 4;
    let code: u8 = if slot == 0 {
        byte % 4
    } else if slot == 1 {
        byte / 4 % 4
    } else if slot == 2 {
        byte / 16 % 4
    } else {
        byte / 64
    };
    if code == 0 {
        value
    } else if code == 1 {
        if value == u32::MAX {
            0
        } else {
            value + 1
        }
    } else if code == 2 {
        if value == 0 {
            u32::MAX
        } else {
            value - 1
        }
    } else if value >= 2 {
        value - 2
    } else {
        value + 0xffff_fffe
    }
}

/// A positive normal number: the only ones whose results are corrected.
pub open spec fn is_positive_normal(bits: u32) -> bool {
    0x0080_0000 <= bits < 0x7f80_0000
}

/// The reciprocal of a number, given the rounded one: corrected by the fraction of the number.
pub fn softmax_reciprocal(rounded: u32, value: u32, corrections: &[u8]) -> (result: u32)
    ensures
        result == if is_positive_normal(value) {
            corrected(rounded, (value % 0x80_0000) as u32, corrections@)
        } else {
            rounded as int
        },
{
    if value < 0x0080_0000 || value >= 0x7f80_0000 {
        return rounded;
    }
    apply_packed_correction(rounded, value % 0x80_0000, corrections)
}

/// The reciprocal square root of a number, given the rounded one: corrected by the fraction of the
/// number and the lowest bit of its exponent.
pub fn layer_norm_rsqrt(rounded: u32, value: u32, corrections: &[u8]) -> (result: u32)
    ensures
        result == if is_positive_normal(value) {
            corrected(rounded, (value % 0x100_0000) as u32, corrections@)
        } else {
            rounded as int
        },
{
    if value < 0x0080_0000 || value >= 0x7f80_0000 {
        return rounded;
    }
    apply_packed_correction(rounded, value % 0x100_0000, corrections)
}

/// The power of two of a number between minus one and zero, given the rounded one.
pub fn subunit_exponential(rounded: u32, index: u32, corrections: &[u8]) -> (result: u32)
    ensures
        result == if index >= EXP2_SUBUNIT_ENTRIES {
            rounded as int
        } else {
            corrected(rounded, index, corrections@)
        },
{
    if index >= EXP2_SUBUNIT_ENTRIES {
        return rounded;
    }
    apply_packed_correction(rounded, index, corrections)
}

/// A correction moves a number by at most two places.
pub proof fn law_corrections_are_small(value: u32, index: u32, corrections: Seq<u8>)
    requires
        2 <= value < u32::MAX,
    ensures
        -2 <= corrected(value, index, corrections) - value <= 1,
{
}

/// A power of two as a factor, by its bits: the exponent field holds the power plus its bias.
pub fn power_of_two(exponent: i32) -> (result: u32)
    requires
        -127 <= exponent <= 128,
    ensures
        result == (exponent + 127) * 0x80_0000,
{
    ((exponent + 127) as u32) * 0x80_0000
}

/// The four codes of a byte make it up, the first one in its lowest bits.
pub proof fn law_codes_fill_their_byte(corrections: Seq<u8>, byte: u32)
    requires
        byte < corrections.len(),
        byte <= 0x3fff_ffff,
    ensures
        corrections[byte as int] == correction_code(corrections, (4 * byte) as u32) + 4
            * correction_code(corrections, (4 * byte + 1) as u32) + 16 * correction_code(
            corrections,
            (4 * byte + 2) as u32,
        ) + 64 * correction_code(corrections, (4 * byte + 3) as u32),
        0 <= correction_code(corrections, (4 * byte) as u32) < 4,
        0 <= correction_code(corrections, (4 * byte + 1) as u32) < 4,
        0 <= correction_code(corrections, (4 * byte + 2) as u32) < 4,
        0 <= correction_code(corrections, (4 * byte + 3) as u32) < 4,
{
}

}
