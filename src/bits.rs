//! Widening of reduced-precision channel values to eight bits.
use vstd::prelude::*;

verus! {

/// `v * 255 / max`, rounded half up: the eight-bit value that a channel of
/// `max + 1` levels at level `v` stands for.
pub open spec fn widen(v: int, max: int) -> int {
    (v * 255 + max / 2) / max
}

/// Widens a five-bit channel value to eight bits.
pub fn convert_5_bits_to_8(byte: u16) -> (r: u8)
    requires
        byte < 32,
    ensures
        r == widen(byte as int, 31),
{
    ((byte * 255 + 15) / 31) as u8
}

/// Widens a four-bit channel value to eight bits.
pub fn convert_4_bits_to_8(byte: u16) -> (r: u8)
    requires
        byte < 16,
    ensures
        r == widen(byte as int, 15),
        r == byte * 17,
{
    (byte * 17) as u8
}

/// Widens a three-bit channel value to eight bits.
pub fn convert_3_bits_to_8(byte: u16) -> (r: u8)
    requires
        byte < 8,
    ensures
        r == widen(byte as int, 7),
{
    ((byte * 255 + 3) / 7) as u8
}

} // verus!
