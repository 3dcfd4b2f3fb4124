//! This module provides a bit writer
use vstd::prelude::*;
use vstd::arithmetic::power2::*;
use vstd::arithmetic::div_mod::*;
use crate::huffman_table::{bit_at, lemma_bit_at_mod};

verus! {

/// The `n` low bits of `v`, least significant first.
pub open spec fn int_bits(v: int, n: nat) -> Seq<bool> {
    Seq::new(n, |i: int| bit_at(v, i as nat) == 1)
}

/// The bits of a byte sequence, each byte least significant bit first.
pub open spec fn bytes_bits(s: Seq<u8>) -> Seq<bool>
    decreases s.len(),
{
    if s.len() == 0 {
        Seq::empty()
    } else {
        bytes_bits(s.drop_last()) + int_bits(s.last() as int, 8)
    }
}

/// Bit `i + k` of `x` is bit `i` of `x / 2^k`.
pub proof fn lemma_bit_at_shift(x: nat, i: nat, k: nat)
    ensures
        bit_at(x as int, i + k) == bit_at(x as int / pow2(k) as int, i),
{
    lemma_pow2_pos(i);
    lemma_pow2_pos(k);
    lemma_pow2_adds(k, i);
    lemma_div_denominator(x as int, pow2(k) as int, pow2(i) as int);
}

/// Writing `n` bits of `v` above `b` bits of `acc` gives the bits of `acc` then those of `v`.
pub proof fn lemma_int_bits_concat(acc: nat, v: nat, b: nat, n: nat)
    requires
        acc < pow2(b),
    ensures
        int_bits((acc + v * pow2(b)) as int, b + n) == int_bits(acc as int, b) + int_bits(v as int, n),
{
    let x = acc + v * pow2(b);
    let pb = pow2(b) as int;
    lemma_pow2_pos(b);
    assert forall|i: int| 0 <= i < b + n implies int_bits(x as int, b + n)[i] == (int_bits(acc as int, b) + int_bits(
        v as int,
        n,
    ))[i] by {
        if i < b {
            assert(x as int % pb == acc as int % pb) by {
                lemma_mod_multiples_vanish(v as int, acc as int, pb);
                assert(x as int == pb * v + acc) by (nonlinear_arith)
                    requires x == acc + v * pb;
            }
            lemma_bit_at_mod(x, acc, b, i as nat);
        } else {
            lemma_bit_at_shift(x, (i - b) as nat, b);
            lemma_hoist_over_denominator(acc as int, v as int, pb as nat);
            assert(acc as int / pb == 0) by {
                lemma_basic_div(acc as int, pb);
            }
        }
    }
    assert(int_bits(x as int, b + n) =~= int_bits(acc as int, b) + int_bits(v as int, n));
}

/// Splitting off the low byte.
pub proof fn lemma_int_bits_split(x: nat, k: nat)
    requires
        k >= 8,
    ensures
        int_bits(x as int, k) == int_bits((x % 256) as int, 8) + int_bits((x / 256) as int, (k - 8) as nat),
{
    lemma2_to64();
    assert forall|i: int| 0 <= i < k implies int_bits(x as int, k)[i] == (int_bits((x % 256) as int, 8) + int_bits(
        (x / 256) as int,
        (k - 8) as nat,
    ))[i] by {
        if i < 8 {
            lemma_mod_twice(x as int, 256);
            lemma_bit_at_mod(x, x % 256, 8, i as nat);
        } else {
            lemma_bit_at_shift(x, (i - 8) as nat, 8);
        }
    }
    assert(int_bits(x as int, k) =~= int_bits((x % 256) as int, 8) + int_bits((x / 256) as int, (k - 8) as nat));
}

/// The bits of a byte sequence with one more byte.
pub proof fn lemma_bytes_bits_push(s: Seq<u8>, b: u8)
    ensures
        bytes_bits(s.push(b)) == bytes_bits(s) + int_bits(b as int, 8),
{
    assert(s.push(b).drop_last() =~= s);
}

/// The bits of two byte sequences one after the other.
pub proof fn lemma_bytes_bits_append(s: Seq<u8>, t: Seq<u8>)
    ensures
        bytes_bits(s + t) == bytes_bits(s) + bytes_bits(t),
    decreases t.len(),
{
    if t.len() == 0 {
        assert(s + t =~= s);
        assert(bytes_bits(t) =~= Seq::empty());
        assert(bytes_bits(s) + bytes_bits(t) =~= bytes_bits(s));
    } else {
        lemma_bytes_bits_append(s, t.drop_last());
        assert((s + t).drop_last() =~= s + t.drop_last());
        assert((s + t).last() == t.last());
        assert(bytes_bits(s + t) =~= bytes_bits(s) + bytes_bits(t));
    }
}

/// Eight bits per byte.
pub proof fn lemma_bytes_bits_len(s: Seq<u8>)
    ensures
        bytes_bits(s).len() == 8 * s.len(),
    decreases s.len(),
{
    if s.len() > 0 {
        lemma_bytes_bits_len(s.drop_last());
    }
}

/// A byte is given by its eight bits.
pub proof fn lemma_byte_of_bits(x: u8, y: u8)
    requires
        int_bits(x as int, 8) == int_bits(y as int, 8),
    ensures
        x == y,
{
    lemma2_to64();
    assert forall|i: nat| i < 8 implies #[trigger] bit_at(x as int, i) == bit_at(y as int, i) by {
        let k = i as int;
        assert(int_bits(x as int, 8)[k] == int_bits(y as int, 8)[k]);
        assert(int_bits(x as int, 8)[k] == (bit_at(x as int, i) == 1));
        assert(int_bits(y as int, 8)[k] == (bit_at(y as int, i) == 1));
        lemma_pow2_pos(i);
        assert(0 <= bit_at(x as int, i) < 2);
        assert(0 <= bit_at(y as int, i) < 2);
    }
    let b0 = bit_at(x as int, 0);
    assert(bit_at(x as int, 1) == (x / 2) % 2 && bit_at(x as int, 2) == (x / 4) % 2 && bit_at(x as int, 3) == (x / 8) % 2
        && bit_at(x as int, 4) == (x / 16) % 2 && bit_at(x as int, 5) == (x / 32) % 2 && bit_at(x as int, 6) == (x / 64)
        % 2 && bit_at(x as int, 7) == (x / 128) % 2 && b0 == x % 2);
    assert(bit_at(y as int, 1) == (y / 2) % 2 && bit_at(y as int, 2) == (y / 4) % 2 && bit_at(y as int, 3) == (y / 8) % 2
        && bit_at(y as int, 4) == (y / 16) % 2 && bit_at(y as int, 5) == (y / 32) % 2 && bit_at(y as int, 6) == (y / 64)
        % 2 && bit_at(y as int, 7) == (y / 128) % 2 && bit_at(y as int, 0) == y % 2);
    assert(x == y) by (bit_vector)
        requires
            x % 2 == y % 2,
            (x / 2) % 2 == (y / 2) % 2,
            (x / 4) % 2 == (y / 4) % 2,
            (x / 8) % 2 == (y / 8) % 2,
            (x / 16) % 2 == (y / 16) % 2,
            (x / 32) % 2 == (y / 32) % 2,
            (x / 64) % 2 == (y / 64) % 2,
            (x / 128) % 2 == (y / 128) % 2,
    ;
}

/// Byte sequences with the same bits are equal.
pub proof fn lemma_bytes_bits_inj(a: Seq<u8>, b: Seq<u8>)
    requires
        bytes_bits(a) == bytes_bits(b),
    ensures
        a == b,
    decreases a.len(),
{
    lemma_bytes_bits_len(a);
    lemma_bytes_bits_len(b);
    if a.len() == 0 {
        assert(a =~= b);
    } else {
        let n = bytes_bits(a.drop_last()).len() as int;
        lemma_bytes_bits_len(a.drop_last());
        lemma_bytes_bits_len(b.drop_last());
        assert(bytes_bits(a).take(n) =~= bytes_bits(a.drop_last()));
        assert(bytes_bits(b).take(n) =~= bytes_bits(b.drop_last()));
        assert(bytes_bits(a).skip(n) =~= int_bits(a.last() as int, 8));
        assert(bytes_bits(b).skip(n) =~= int_bits(b.last() as int, 8));
        lemma_bytes_bits_inj(a.drop_last(), b.drop_last());
        lemma_byte_of_bits(a.last(), b.last());
        assert(a =~= a.drop_last().push(a.last()));
        assert(b =~= b.drop_last().push(b.last()));
    }
}

/// The empty bit sequence.
pub proof fn lemma_int_bits_zero_len(v: int)
    ensures
        int_bits(v, 0) == Seq::<bool>::empty(),
{
    assert(int_bits(v, 0) =~= Seq::<bool>::empty());
}

///Writes bits to a byte stream, LSB first.
pub struct LsbWriter {
    pub w: Vec<u8>,
    pub bits: u8,
    pub acc: u32,
}

impl LsbWriter {
    /// The bits written that do not yet make up a whole byte.
    pub open spec fn pending(&self) -> Seq<bool> {
        int_bits(self.acc as int, self.bits as nat)
    }

    /// The value held by the pending bits (and any bits above them).
    pub open spec fn pending_value(&self) -> int {
        self.acc as int
    }

    pub open spec fn wf(&self) -> bool {
        self.bits < 8 && self.acc < pow2(self.bits as nat)
    }

    /// Everything written so far, as a sequence of bits.
    pub open spec fn stream(&self) -> Seq<bool> {
        bytes_bits(self.w@) + self.pending()
    }

    /// Creates a new bit writer appending to `writer`.
    pub fn new(writer: Vec<u8>) -> (r: LsbWriter)
        ensures
            r.wf(),
            r.w@ == writer@,
            r.pending() == Seq::<bool>::empty(),
            r.pending_value() == 0,
    {
        proof {
            lemma2_to64();
            lemma_int_bits_zero_len(0);
        }
        LsbWriter { w: writer, bits: 0, acc: 0 }
    }

    /// The number of bits written that do not yet make up a whole byte.
    pub fn pending_bits(&self) -> (r: u8)
        requires
            self.wf(),
        ensures
            r == self.pending().len(),
            r < 8,
    {
        self.bits
    }

    /// Write the `n` low bits of `v`.
    pub fn write_bits(&mut self, v: u16, n: u8)
        requires
            old(self).wf(),
            n <= 16,
            v < pow2(n as nat),
        ensures
            final(self).wf(),
            final(self).stream() == old(self).stream() + int_bits(v as int, n as nat),
            final(self).bits == (old(self).bits + n) % 8,
            final(self).w@.len() >= old(self).w@.len(),
            final(self).w@.subrange(0, old(self).w@.len() as int) == old(self).w@,
    {
        let ghost old_w = self.w@;
        let ghost target = old(self).stream() + int_bits(v as int, n as nat);
        proof {
            lemma2_to64();
            lemma_int_bits_concat(self.acc as nat, v as nat, self.bits as nat, n as nat);
            lemma_pow2_adds(self.bits as nat, n as nat);
            lemma_pow2_strictly_increases((self.bits + n) as nat, 32);
            assert(v * pow2(self.bits as nat) < pow2(n as nat) * pow2(self.bits as nat)) by (nonlinear_arith)
                requires v < pow2(n as nat), pow2(self.bits as nat) > 0;
            assert(self.acc + v * pow2(self.bits as nat) < pow2((self.bits + n) as nat)) by (nonlinear_arith)
                requires self.acc < pow2(self.bits as nat), v + 1 <= pow2(n as nat),
                pow2((self.bits + n) as nat) == pow2(self.bits as nat) * pow2(n as nat);
            let sh = self.bits as u32;
            let vv = v as u32;
            let a = self.acc;
            assert(vv << sh == vv * pow2(sh as nat)) by {
                lemma_pow2_strictly_increases(sh as nat, 8);
                assert(vv * pow2(sh as nat) <= 65535 * 256) by (nonlinear_arith)
                    requires vv <= 65535, pow2(sh as nat) <= 256;
                vstd::bits::lemma_u32_shl_is_mul(vv, sh);
            }
            assert(1u32 << sh == pow2(sh as nat)) by {
                lemma_pow2_strictly_increases(sh as nat, 8);
                vstd::bits::lemma_u32_shl_is_mul(1, sh);
            }
            assert((a | (vv << sh)) == a + (vv << sh)) by (bit_vector)
                requires a < (1u32 << sh), sh < 8, vv < 65536;
        }
        self.acc = self.acc | ((v as u32) << self.bits);
        self.bits = self.bits + n;
        while self.bits >= 8
            invariant
                self.bits <= 23,
                self.bits % 8 == (old(self).bits + n) % 8,
                self.acc < pow2(self.bits as nat),
                pow2(8) == 256,
                bytes_bits(self.w@) + int_bits(self.acc as int, self.bits as nat) == target,
                self.w@.len() >= old_w.len(),
                self.w@.subrange(0, old_w.len() as int) == old_w,
            decreases self.bits,
        {
            let ghost w0 = self.w@;
            proof {
                lemma_int_bits_split(self.acc as nat, self.bits as nat);
                lemma_bytes_bits_push(self.w@, (self.acc % 256) as u8);
                lemma_pow2_adds(8, (self.bits - 8) as nat);
                lemma_pow2_pos((self.bits - 8) as nat);
                lemma_multiply_divide_lt(self.acc as int, 256, pow2((self.bits - 8) as nat) as int);
            }
            let a = self.acc;
            assert((a as u8) == a % 256) by (bit_vector);
            self.w.push(self.acc as u8);
            assert(a >> 8u32 == a / 256) by (bit_vector);
            self.acc = self.acc >> 8;
            self.bits = self.bits - 8;
            assert(self.w@.subrange(0, old_w.len() as int) =~= old_w);
        }
    }

    /// Pad the pending bits with zeroes up to a byte boundary.
    pub fn flush_raw(&mut self)
        requires
            old(self).wf(),
        ensures
            final(self).wf(),
            final(self).pending() == Seq::<bool>::empty(),
            final(self).stream() == old(self).stream() + int_bits(0, ((8 - old(self).pending().len()) % 8) as nat),
            final(self).w@.len() >= old(self).w@.len(),
            final(self).w@.subrange(0, old(self).w@.len() as int) == old(self).w@,
    {
        let missing = 8 - self.bits;
        // Have to test for self.bits > 0 here,
        // otherwise flush would output an extra byte when flush was called at a byte boundary
        if missing > 0 && self.bits > 0 {
            proof {
                lemma_pow2_pos(missing as nat);
            }
            self.write_bits(0, missing);
        } else {
            proof {
                lemma_int_bits_zero_len(0);
                assert(self.stream() + int_bits(0, 0) =~= self.stream());
                assert(self.w@.subrange(0, self.w@.len() as int) =~= self.w@);
            }
        }
        proof {
            lemma2_to64();
            assert(self.pending() =~= Seq::<bool>::empty());
        }
    }

    /// Write whole bytes: appended directly when nothing is pending, else bit by bit.
    pub fn write(&mut self, buf: &[u8]) -> (r: usize)
        requires
            old(self).wf(),
        ensures
            r == buf@.len(),
            final(self).wf(),
            old(self).pending_value() == 0 ==> final(self).w@ == old(self).w@ + buf@ && final(self).pending()
                == old(self).pending() && final(self).pending_value() == 0,
            old(self).pending_value() != 0 ==> final(self).stream() == old(self).stream() + bytes_bits(buf@),
            old(self).pending() == Seq::<bool>::empty() ==> final(self).w@ == old(self).w@ + buf@
                && final(self).pending() == Seq::<bool>::empty(),
    {
        if self.acc == 0 {
            self.w.extend_from_slice(buf);
            proof {
                if old(self).pending() == Seq::<bool>::empty() {
                    lemma_int_bits_zero_len(0);
                }
            }
        } else {
            let ghost s0 = self.stream();
            let mut i: usize = 0;
            proof {
                assert(bytes_bits(buf@.take(0)) =~= Seq::<bool>::empty());
                assert(s0 + bytes_bits(buf@.take(0)) =~= s0);
            }
            while i < buf.len()
                invariant
                    i <= buf@.len(),
                    self.wf(),
                    self.stream() == s0 + bytes_bits(buf@.take(i as int)),
                decreases buf@.len() - i,
            {
                proof {
                    lemma2_to64();
                    assert(buf@.take(i + 1) =~= buf@.take(i as int).push(buf@[i as int]));
                    lemma_bytes_bits_push(buf@.take(i as int), buf@[i as int]);
                }
                self.write_bits(buf[i] as u16, 8);
                i = i + 1;
                proof {
                    assert(s0 + bytes_bits(buf@.take(i as int)) =~= s0 + bytes_bits(buf@.take(i - 1)) + int_bits(
                        buf@[i - 1] as int,
                        8,
                    ));
                }
            }
            proof {
                assert(buf@.take(buf@.len() as int) =~= buf@);
                if old(self).pending() == Seq::<bool>::empty() {
                    assert(old(self).bits == 0);
                    assert(old(self).acc < pow2(0));
                    lemma2_to64();
                }
            }
        }
        buf.len()
    }

    /// Pad the pending bits to a byte boundary.
    pub fn flush(&mut self)
        requires
            old(self).wf(),
        ensures
            final(self).wf(),
            final(self).pending() == Seq::<bool>::empty(),
            final(self).stream() == old(self).stream() + int_bits(0, ((8 - old(self).pending().len()) % 8) as nat),
            final(self).w@.subrange(0, old(self).w@.len() as int) == old(self).w@,
    {
        self.flush_raw();
    }
}

} // verus!
