//! Stored (uncompressed) DEFLATE blocks.
use vstd::prelude::*;
use vstd::arithmetic::power2::{pow2, lemma2_to64};
use crate::bitstream::{LsbWriter, int_bits, bytes_bits};

verus! {

pub const BLOCK_SIZE: u16 = 32000;

pub const STORED_FIRST_BYTE: u8 = 0b0000_0000;
pub const STORED_FIRST_BYTE_FINAL: u8 = 0b0000_0001;

/// The largest amount of data a stored block can hold.
pub const MAX_STORED_BLOCK_LENGTH: usize = 65535;

/// The four bytes after the block type of a stored block of `n` bytes: the length and its ones
/// complement, least significant byte first.
pub open spec fn stored_header(n: u16) -> Seq<u8> {
    seq![(n % 256) as u8, (n / 256) as u8, ((0xffff - n) % 256) as u8, ((0xffff - n) / 256) as u8]
}

/// Split an u16 value into two bytes taking into account endianess
pub fn put16(value: u16) -> (r: (u8, u8))
    ensures
        r.0 == value % 256,
        r.1 == value / 256,
        r.0 + 256 * r.1 == value,
{
    let low = value as u8;
    let high = (value >> 8) as u8;
    assert(low == value % 256 && high == value / 256) by (bit_vector)
        requires
            low == value as u8,
            high == (value >> 8) as u8,
    ;
    (low, high)
}

// Compress one stored block
pub fn compress_block_stored(input: &[u8], writer: &mut Vec<u8>) -> (r: usize)
    ensures
        r == input@.len(),
        final(writer)@ == old(writer)@ + stored_header(input@.len() as u16) + input@,
{
    // The header is written before this function.
    // The next two bytes indicates the length
    let n = input.len() as u16;
    let (len_0, len_1) = put16(n);
    // the next two after the length is the ones complement of the length
    let not_n = !n;
    assert(not_n == 0xffff - n) by (bit_vector)
        requires
            not_n == !n,
    ;
    let (not_len_0, not_len_1) = put16(not_n);
    writer.push(len_0);
    writer.push(len_1);
    writer.push(not_len_0);
    writer.push(not_len_1);
    let ghost mid = writer@;
    writer.extend_from_slice(input);
    proof {
        assert(writer@ =~= mid + input@) by {
            assert forall|i: int| 0 <= i < input@.len() implies writer@[mid.len() + i] == input@[i] by {
                assert(vstd::pervasive::cloned::<u8>(input@[i], writer@[mid.len() + i]));
            }
        }
        assert(mid =~= old(writer)@ + stored_header(n));
    }
    input.len()
}

/// Write the three header bits of a stored block and pad to the next byte boundary.
pub fn write_stored_header(writer: &mut LsbWriter, final_block: bool)
    requires
        old(writer).wf(),
    ensures
        final(writer).wf(),
        final(writer).pending() == Seq::<bool>::empty(),
        final(writer).stream() == old(writer).stream() + int_bits(
            if final_block { STORED_FIRST_BYTE_FINAL as int } else { STORED_FIRST_BYTE as int },
            3,
        ) + int_bits(0, ((8 - (old(writer).pending().len() + 3) % 8) % 8) as nat),
        final(writer).w@.len() >= old(writer).w@.len(),
        final(writer).w@.subrange(0, old(writer).w@.len() as int) == old(writer).w@,
{
    let header = if final_block { STORED_FIRST_BYTE_FINAL } else { STORED_FIRST_BYTE };
    proof {
        lemma2_to64();
    }
    let ghost w0 = writer.w@;
    // Write the block header
    writer.write_bits(header as u16, 3);
    let ghost w1 = writer.w@;
    // Flush the writer to make sure we are aligned to the byte boundary.
    writer.flush_raw();
    proof {
        assert(writer.w@.subrange(0, w0.len() as int) =~= w1.subrange(0, w0.len() as int));
    }
}

/// The stored blocks `compress_data_stored` makes of `s`: blocks of `BLOCK_SIZE` bytes, the
/// last one shorter and marked final.
pub open spec fn stored_blocks(s: Seq<u8>) -> Seq<u8>
    decreases s.len(),
{
    if s.len() == 0 {
        Seq::empty()
    } else if s.len() <= BLOCK_SIZE {
        seq![STORED_FIRST_BYTE_FINAL] + stored_header(s.len() as u16) + s
    } else {
        seq![STORED_FIRST_BYTE] + stored_header(BLOCK_SIZE) + s.take(BLOCK_SIZE as int) + stored_blocks(
            s.skip(BLOCK_SIZE as int),
        )
    }
}

/// Compress the data as stored blocks only.
pub fn compress_data_stored(input: &[u8]) -> (r: Vec<u8>)
    ensures
        r@ == stored_blocks(input@),
{
    let block_length = BLOCK_SIZE as usize;
    let mut output: Vec<u8> = Vec::new();
    let mut pos: usize = 0;
    proof {
        assert(input@.skip(0) =~= input@);
        assert(Seq::<u8>::empty() + stored_blocks(input@) =~= stored_blocks(input@));
    }
    while pos < input.len()
        invariant
            pos <= input@.len(),
            block_length == 32000,
            output@ + stored_blocks(input@.skip(pos as int)) == stored_blocks(input@),
        decreases input@.len() - pos,
    {
        let rest = input.len() - pos;
        let end = if rest > block_length { pos + block_length } else { input.len() };
        let last_chunk = end == input.len();
        // First bit tells us if this is the final chunk
        // the next two details compression type (none in this case)
        let first_byte = if last_chunk { STORED_FIRST_BYTE_FINAL } else { STORED_FIRST_BYTE };
        let ghost o0 = output@;
        let ghost r0 = input@.skip(pos as int);
        output.push(first_byte);
        let chunk = vstd::slice::slice_subrange(input, pos, end);
        compress_block_stored(chunk, &mut output);
        proof {
            if last_chunk {
                assert(chunk@ =~= r0);
                assert(input@.skip(end as int) =~= Seq::<u8>::empty());
            } else {
                assert(end == pos + 32000);
                assert(chunk@ =~= r0.take(BLOCK_SIZE as int));
                assert(input@.skip(end as int) =~= r0.skip(BLOCK_SIZE as int));
            }
            assert(output@ =~= o0 + seq![first_byte] + stored_header(chunk@.len() as u16) + chunk@);
            assert(output@ + stored_blocks(input@.skip(end as int)) =~= o0 + stored_blocks(r0));
        }
        pos = end;
    }
    proof {
        assert(input@.skip(input@.len() as int) =~= Seq::<u8>::empty());
        assert(output@ + Seq::<u8>::empty() =~= output@);
    }
    output
}

/// What a reader of stored blocks gets back: each block's length from its header, then that
/// many bytes, up to the block marked final.
pub open spec fn read_stored_blocks(s: Seq<u8>) -> Seq<u8>
    decreases s.len(),
{
    if s.len() < 5 {
        Seq::empty()
    } else {
        let len = s[1] + 256 * s[2];
        let body = s.subrange(5, if 5 + len <= s.len() { 5 + len } else { s.len() as int });
        if s[0] % 2 == 1 || 5 + len >= s.len() {
            body
        } else {
            body + read_stored_blocks(s.skip(5 + len))
        }
    }
}

/// Reading back stored blocks gives the data they were made of.
pub proof fn stored_roundtrip(s: Seq<u8>)
    ensures
        read_stored_blocks(stored_blocks(s)) == s,
    decreases s.len(),
{
    let out = stored_blocks(s);
    if s.len() == 0 {
    } else if s.len() <= BLOCK_SIZE {
        let n = s.len() as u16;
        assert(out[1] + 256 * out[2] == n);
        assert(out.subrange(5, 5 + n) =~= s);
    } else {
        stored_roundtrip(s.skip(BLOCK_SIZE as int));
        assert(out[1] + 256 * out[2] == BLOCK_SIZE);
        assert(out.subrange(5, 5 + BLOCK_SIZE) =~= s.take(BLOCK_SIZE as int));
        assert(out.skip(5 + BLOCK_SIZE) =~= stored_blocks(s.skip(BLOCK_SIZE as int)));
        assert(s.take(BLOCK_SIZE as int) + s.skip(BLOCK_SIZE as int) =~= s);
    }
}

} // verus!
