//! Compact representation of the symbols produced by the lz77 pass.
use vstd::prelude::*;
use crate::huffman_table::MAX_DISTANCE;

verus! {

/// Tag bits that mark a literal.
pub const LITERAL_MASK: u16 = 0xC000;
/// Tag bits that mark a match length.
pub const LENGTH_MASK: u16 = 0x8000;

/// A decoded lz77 symbol: a literal byte, a match length or a match distance.
#[derive(Debug, Copy, Clone, PartialEq, Eq)]
pub enum LDPair {
    Literal(u8),
    Length(u16),
    Distance(u16),
}

/// One lz77 symbol packed into 16 bits.
///
/// The two top bits tell the kind: `11` is a literal, `10` a length, anything else a distance
/// (where the value 0 stands for the largest distance, 32768).
#[derive(Debug, Copy, Clone, PartialEq, Eq)]
pub struct LZValue {
    pub data: u16,
}

/// What a packed value decodes to.
pub open spec fn decode_lzvalue(data: u16) -> LDPair {
    if data & LITERAL_MASK == LITERAL_MASK {
        LDPair::Literal((data % 256) as u8)
    } else if data & LITERAL_MASK == LENGTH_MASK {
        LDPair::Length((data % 0x8000) as u16)
    } else if data == 0 {
        LDPair::Distance(MAX_DISTANCE)
    } else {
        LDPair::Distance(data)
    }
}

impl View for LZValue {
    type V = LDPair;

    open spec fn view(&self) -> LDPair {
        decode_lzvalue(self.data)
    }
}

impl LZValue {
    /// A literal byte.
    pub fn literal(value: u8) -> (r: LZValue)
        ensures
            r@ == LDPair::Literal(value),
            r.data == value as u16 + LITERAL_MASK,
    {
        let data = value as u16 ^ LITERAL_MASK;
        assert(data == value as u16 + 0xC000u16 && data & 0xC000u16 == 0xC000u16 && data % 256 == value)
            by (bit_vector)
            requires data == value as u16 ^ 0xC000u16;
        LZValue { data }
    }

    /// A match length; lengths below 2^14 (all lengths DEFLATE can use) decode to themselves.
    pub fn length(length: u16) -> (r: LZValue)
        ensures
            r.data == length ^ LENGTH_MASK,
            length < 0x4000 ==> r@ == LDPair::Length(length),
    {
        let data = length ^ LENGTH_MASK;
        assert(length < 0x4000 ==> (data & 0xC000u16 == 0x8000u16 && data % 0x8000 == length))
            by (bit_vector)
            requires data == length ^ 0x8000u16;
        LZValue { data }
    }

    /// A match distance; the distances 1 to 32768 decode to themselves.
    pub fn distance(distance: u16) -> (r: LZValue)
        ensures
            r.data == (if distance == MAX_DISTANCE { 0 } else { distance }),
            1 <= distance <= MAX_DISTANCE ==> r@ == LDPair::Distance(distance),
    {
        let mut distance = distance;
        if distance == MAX_DISTANCE {
            distance = 0;
        }
        assert(0u16 & 0xC000u16 == 0u16) by (bit_vector);
        if 1 <= distance && distance < 0x8000 {
            assert(distance & 0xC000u16 != 0xC000u16 && distance & 0xC000u16 != 0x8000u16)
                by (bit_vector)
                requires 1 <= distance < 0x8000u16;
        }
        LZValue { data: distance }
    }

    /// Decode the symbol.
    pub fn value(&self) -> (r: LDPair)
        ensures
            r == self@,
    {
        let d = self.data;
        let tag = d & LITERAL_MASK;
        if tag == LITERAL_MASK {
            assert(d as u8 == d % 256) by (bit_vector);
            LDPair::Literal(d as u8)
        } else if tag == LENGTH_MASK {
            assert(d & !0x8000u16 == d % 0x8000) by (bit_vector);
            LDPair::Length(d & !LENGTH_MASK)
        } else if d == 0 {
            LDPair::Distance(MAX_DISTANCE)
        } else {
            LDPair::Distance(d)
        }
    }
}

/// Decoding inverts the three constructors on the values DEFLATE uses.
pub proof fn lemma_lzvalue_roundtrip(literal: u8, length: u16, distance: u16)
    requires
        3 <= length <= 258,
        1 <= distance <= MAX_DISTANCE,
    ensures
        decode_lzvalue((literal as u16 + LITERAL_MASK) as u16) == LDPair::Literal(literal),
        decode_lzvalue(length ^ LENGTH_MASK) == LDPair::Length(length),
        decode_lzvalue(if distance == MAX_DISTANCE { 0 } else { distance }) == LDPair::Distance(distance),
{
    let d = (literal as u16 + 0xC000u16) as u16;
    assert(d & 0xC000u16 == 0xC000u16 && d % 256 == literal) by (bit_vector)
        requires d == (literal as u16 + 0xC000u16) as u16;
    let e = length ^ 0x8000u16;
    assert(e & 0xC000u16 == 0x8000u16 && e % 0x8000 == length) by (bit_vector)
        requires e == length ^ 0x8000u16, length <= 258;
    assert(0u16 & 0xC000u16 == 0u16) by (bit_vector);
    if distance < MAX_DISTANCE {
        assert(distance & 0xC000u16 != 0xC000u16 && distance & 0xC000u16 != 0x8000u16) by (bit_vector)
            requires 1 <= distance < 0x8000u16;
        assert(decode_lzvalue(distance) == LDPair::Distance(distance));
    }
}

} // verus!
