//! The zlib header (RFC 1950).
use vstd::prelude::*;

verus! {

// Compression method 8 (DEFLATE) with a window of 2^(7 + 8) bytes.
pub const DEFAULT_CMF: u8 = 0x78;
/// The 16-bit value consisting of CMF and FLG must be divisible by this to be valid.
pub const FCHECK_DIVISOR: u8 = 31;

/// The compression level recorded in the header.
#[derive(Clone, Copy, Debug, PartialEq, Eq, Structural)]
pub enum CompressionLevel {
    Fastest,
    Fast,
    Default,
    Maximum,
}

/// The two bits of FLG that hold the level.
pub open spec fn level_bits(level: CompressionLevel) -> u8 {
    match level {
        CompressionLevel::Fastest => 0,
        CompressionLevel::Fast => 0x40,
        CompressionLevel::Default => 0x80,
        CompressionLevel::Maximum => 0xc0,
    }
}

fn level_flag(level: CompressionLevel) -> (r: u8)
    ensures
        r == level_bits(level),
{
    match level {
        CompressionLevel::Fastest => 0,
        CompressionLevel::Fast => 0x40,
        CompressionLevel::Default => 0x80,
        CompressionLevel::Maximum => 0xc0,
    }
}

/// Generate FCHECK from CMF and FLG so that they are correct according to the
/// specification, i.e (CMF*256 + FLG) % 31 = 0.
/// Returns flg with the FCHECK bits added (any existing FCHECK bits are ignored).
fn add_fcheck(cmf: u8, flg: u8) -> (r: u8)
    ensures
        (cmf * 256 + r) % 31 == 0,
        r / 32 == flg / 32,
{
    let rem = ((cmf as u32 * 256) + flg as u32) % FCHECK_DIVISOR as u32;
    // Clear existing FCHECK if any
    let high = flg & 0b11100000;
    assert(high == flg - flg % 32 && high / 32 == flg / 32) by (bit_vector)
        requires
            high == flg & 0b11100000u8,
    ;
    assert((cmf * 256 + flg) % 31 == rem);
    // The value of the FCHECK bits: at most 31, so it fits the five low bits.
    let check = (FCHECK_DIVISOR as u32 - ((cmf as u32 * 256 + high as u32) % FCHECK_DIVISOR as u32)) as u8;
    let r = high + check;
    proof {
        let t = cmf * 256 + high;
        assert((t + (31 - t % 31)) % 31 == 0) by (nonlinear_arith)
            requires
                t >= 0,
        {
            vstd::arithmetic::div_mod::lemma_fundamental_div_mod(t, 31);
            vstd::arithmetic::div_mod::lemma_mod_multiples_basic(t / 31 + 1, 31);
        }
    }
    r
}

/// Get the zlib header for the `CompressionLevel` level using the default window size and no
/// dictionary.
pub fn get_zlib_header(level: CompressionLevel) -> (r: [u8; 2])
    ensures
        r@[0] == DEFAULT_CMF,
        (r@[0] * 256 + r@[1]) % 31 == 0,
        r@[1] / 32 == level_bits(level) / 32,
{
    let cmf = DEFAULT_CMF;
    [cmf, add_fcheck(cmf, level_flag(level))]
}

/// Write a zlib header with an empty dictionary to the writer using the specified
/// compression level preset.
pub fn write_zlib_header(writer: &mut Vec<u8>, level: CompressionLevel)
    ensures
        final(writer)@.len() == old(writer)@.len() + 2,
        final(writer)@.take(old(writer)@.len() as int) == old(writer)@,
        final(writer)@[old(writer)@.len() as int] == DEFAULT_CMF,
        (final(writer)@[old(writer)@.len() as int] * 256 + final(writer)@[old(writer)@.len() as int + 1]) % 31 == 0,
        final(writer)@[old(writer)@.len() as int + 1] / 32 == level_bits(level) / 32,
{
    let header = get_zlib_header(level);
    writer.push(header[0]);
    writer.push(header[1]);
    proof {
        assert(writer@.take(old(writer)@.len() as int) =~= old(writer)@);
    }
}

/// The four bytes of `v`, most significant first.
pub open spec fn be_bytes(v: u32) -> Seq<u8> {
    seq![(v / 0x1000000) as u8, (v / 0x10000 % 0x100) as u8, (v / 0x100 % 0x100) as u8, (v % 0x100) as u8]
}

/// The four bytes of `v`, least significant first.
pub open spec fn le_bytes(v: u32) -> Seq<u8> {
    seq![(v % 0x100) as u8, (v / 0x100 % 0x100) as u8, (v / 0x10000 % 0x100) as u8, (v / 0x1000000) as u8]
}

/// Append `v` to `writer` in little-endian byte order.
pub fn write_u32_le(writer: &mut Vec<u8>, v: u32)
    ensures
        final(writer)@ == old(writer)@ + le_bytes(v),
{
    let b0 = v as u8;
    let b1 = (v >> 8) as u8;
    let b2 = (v >> 16) as u8;
    let b3 = (v >> 24) as u8;
    assert(b3 == (v / 0x1000000) as u8 && b2 == (v / 0x10000 % 0x100) as u8 && b1 == (v / 0x100 % 0x100) as u8
        && b0 == (v % 0x100) as u8) by (bit_vector)
        requires
            b3 == (v >> 24) as u8,
            b2 == (v >> 16) as u8,
            b1 == (v >> 8) as u8,
            b0 == v as u8,
    ;
    writer.push(b0);
    writer.push(b1);
    writer.push(b2);
    writer.push(b3);
    assert(writer@ =~= old(writer)@ + le_bytes(v));
}

/// The zlib header of the default compression level, as written by `write_zlib_header`.
pub open spec fn default_header() -> Seq<u8> {
    seq![0x78u8, 0x9cu8]
}

/// Append `v` to `writer` in big-endian byte order.
pub fn write_u32_be(writer: &mut Vec<u8>, v: u32)
    ensures
        final(writer)@ == old(writer)@ + be_bytes(v),
{
    let b0 = (v >> 24) as u8;
    let b1 = (v >> 16) as u8;
    let b2 = (v >> 8) as u8;
    let b3 = v as u8;
    assert(b0 == (v / 0x1000000) as u8 && b1 == (v / 0x10000 % 0x100) as u8 && b2 == (v / 0x100 % 0x100) as u8
        && b3 == (v % 0x100) as u8) by (bit_vector)
        requires
            b0 == (v >> 24) as u8,
            b1 == (v >> 16) as u8,
            b2 == (v >> 8) as u8,
            b3 == v as u8,
    ;
    writer.push(b0);
    writer.push(b1);
    writer.push(b2);
    writer.push(b3);
    assert(writer@ =~= old(writer)@ + be_bytes(v));
}

/// The header of the default level is the two bytes `0x78 0x9c`.
pub proof fn lemma_default_header(w0: Seq<u8>, w1: Seq<u8>)
    requires
        w1.len() == w0.len() + 2,
        w1.take(w0.len() as int) == w0,
        w1[w0.len() as int] == DEFAULT_CMF,
        (w1[w0.len() as int] * 256 + w1[w0.len() as int + 1]) % 31 == 0,
        w1[w0.len() as int + 1] / 32 == level_bits(CompressionLevel::Default) / 32,
    ensures
        w1 == w0 + default_header(),
{
    assert(w1 =~= w0 + default_header());
}

} // verus!
