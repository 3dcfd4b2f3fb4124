//! A simple bit writer collecting bits in a byte buffer, least significant bit first.
use vstd::prelude::*;
use vstd::arithmetic::power2::*;
use vstd::arithmetic::div_mod::*;
use crate::bitstream::{int_bits, bytes_bits, lemma_int_bits_concat, lemma_int_bits_split, lemma_bytes_bits_push};

verus! {

/// A struct that writes bit data to a buffer
pub struct BitWriter {
    pub bit_position: u8,
    pub accumulator: u32,
    // We currently just write to a vector, but this should probably be
    // replaced with a writer later
    pub buffer: Vec<u8>,
}

impl BitWriter {
    /// The bits written that do not yet make up a whole byte.
    pub open spec fn pending(&self) -> Seq<bool> {
        int_bits(self.accumulator as int, self.bit_position as nat)
    }

    pub open spec fn wf(&self) -> bool {
        self.bit_position < 8 && self.accumulator < pow2(self.bit_position as nat)
    }

    /// Everything written so far, as a sequence of bits.
    pub open spec fn stream(&self) -> Seq<bool> {
        bytes_bits(self.buffer@) + self.pending()
    }

    pub fn new() -> (r: BitWriter)
        ensures
            r.wf(),
            r.stream() == Seq::<bool>::empty(),
            r.buffer@ == Seq::<u8>::empty(),
    {
        proof {
            lemma2_to64();
            crate::bitstream::lemma_int_bits_zero_len(0);
            assert(bytes_bits(Seq::<u8>::empty()) =~= Seq::<bool>::empty()) by {
                reveal_with_fuel(bytes_bits, 1);
            }
        }
        BitWriter { bit_position: 0, accumulator: 0, buffer: Vec::new() }
    }

    /// Write the `size` low bits of `bits`; with a size of zero nothing is written.
    pub fn write_bits(&mut self, bits: u16, size: u8)
        requires
            old(self).wf(),
            size <= 16,
            size == 0 || bits < pow2(size as nat),
        ensures
            final(self).wf(),
            size == 0 ==> *final(self) == *old(self),
            final(self).stream() == old(self).stream() + int_bits(bits as int, size as nat),
            final(self).bit_position == (old(self).bit_position + size) % 8,
            final(self).buffer@.len() >= old(self).buffer@.len(),
            final(self).buffer@.subrange(0, old(self).buffer@.len() as int) == old(self).buffer@,
    {
        if size == 0 {
            proof {
                crate::bitstream::lemma_int_bits_zero_len(bits as int);
                assert(self.stream() + int_bits(bits as int, 0) =~= self.stream());
                assert(self.buffer@.subrange(0, self.buffer@.len() as int) =~= self.buffer@);
            }
            return;
        }
        let ghost old_w = self.buffer@;
        let ghost target = old(self).stream() + int_bits(bits as int, size as nat);
        proof {
            lemma2_to64();
            lemma_int_bits_concat(self.accumulator as nat, bits as nat, self.bit_position as nat, size as nat);
            lemma_pow2_adds(self.bit_position as nat, size as nat);
            lemma_pow2_strictly_increases((self.bit_position + size) as nat, 32);
            assert(bits * pow2(self.bit_position as nat) < pow2(size as nat) * pow2(self.bit_position as nat)) by (nonlinear_arith)
                requires bits < pow2(size as nat), pow2(self.bit_position as nat) > 0;
            assert(self.accumulator + bits * pow2(self.bit_position as nat) < pow2((self.bit_position + size) as nat)) by (nonlinear_arith)
                requires self.accumulator < pow2(self.bit_position as nat), bits + 1 <= pow2(size as nat),
                pow2((self.bit_position + size) as nat) == pow2(self.bit_position as nat) * pow2(size as nat);
            let sh = self.bit_position as u32;
            let vv = bits as u32;
            let a = self.accumulator;
            assert(vv << sh == vv * pow2(sh as nat)) by {
                lemma_pow2_strictly_increases(sh as nat, 8);
                assert(vv * pow2(sh as nat) <= 65535 * 256) by (nonlinear_arith)
                    requires vv <= 65535, pow2(sh as nat) <= 256;
                vstd::bits::lemma_u32_shl_is_mul(vv, sh);
            }
            assert(1u32 << sh == pow2(sh as nat)) by {
                lemma_pow2_strictly_increases(sh as nat, 8);
                vstd::bits::lemma_u32_shl_is_mul(1, sh);
            }
            assert((a | (vv << sh)) == a + (vv << sh)) by (bit_vector)
                requires a < (1u32 << sh), sh < 8, vv < 65536;
        }
        self.accumulator = self.accumulator | ((bits as u32) << self.bit_position);
        self.bit_position = self.bit_position + size;
        while self.bit_position >= 8
            invariant
                self.bit_position <= 23,
                self.bit_position % 8 == (old(self).bit_position + size) % 8,
                self.accumulator < pow2(self.bit_position as nat),
                pow2(8) == 256,
                bytes_bits(self.buffer@) + int_bits(self.accumulator as int, self.bit_position as nat) == target,
                self.buffer@.len() >= old_w.len(),
                self.buffer@.subrange(0, old_w.len() as int) == old_w,
            decreases self.bit_position,
        {
            let ghost w0 = self.buffer@;
            proof {
                lemma_int_bits_split(self.accumulator as nat, self.bit_position as nat);
                lemma_bytes_bits_push(self.buffer@, (self.accumulator % 256) as u8);
                lemma_pow2_adds(8, (self.bit_position - 8) as nat);
                lemma_pow2_pos((self.bit_position - 8) as nat);
                lemma_multiply_divide_lt(self.accumulator as int, 256, pow2((self.bit_position - 8) as nat) as int);
            }
            let a = self.accumulator;
            assert((a as u8) == a % 256) by (bit_vector);
            self.buffer.push(self.accumulator as u8);
            assert(a >> 8u32 == a / 256) by (bit_vector);
            self.accumulator = self.accumulator >> 8;
            self.bit_position = self.bit_position - 8;
            assert(self.buffer@.subrange(0, old_w.len() as int) =~= old_w);
        }
    }

    /// Write out the pending bits, padded with zeroes to a whole byte.
    pub fn finish(&mut self)
        requires
            old(self).wf(),
        ensures
            old(self).bit_position == 0 ==> final(self).buffer@ == old(self).buffer@,
            old(self).bit_position != 0 ==> final(self).buffer@ == old(self).buffer@.push(
                old(self).accumulator as u8,
            ),
            bytes_bits(final(self).buffer@) == old(self).stream() + int_bits(
                0,
                ((8 - old(self).bit_position) % 8) as nat,
            ),
    {
        // Only do something if there actually are any bits left
        if self.bit_position != 0 {
            proof {
                lemma2_to64();
                crate::bitstream::lemma_bytes_bits_push(self.buffer@, self.accumulator as u8);
                lemma_pow2_strictly_increases(self.bit_position as nat, 8);
                let a = self.accumulator;
                assert(a as u8 == a) by (bit_vector)
                    requires a < 256;
                crate::bitstream::lemma_int_bits_concat(self.accumulator as nat, 0, self.bit_position as nat, (8 - self.bit_position) as nat);
            }
            self.buffer.push(self.accumulator as u8);
            proof {
                assert(self.accumulator + 0 * pow2(old(self).bit_position as nat) == self.accumulator);
            }
        } else {
            proof {
                crate::bitstream::lemma_int_bits_zero_len(self.accumulator as int);
                crate::bitstream::lemma_int_bits_zero_len(0);
                assert(self.stream() + int_bits(0, 0) =~= bytes_bits(self.buffer@));
            }
        }
    }
}

} // verus!
