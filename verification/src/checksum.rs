//! Rolling checksums of the input: none, or Adler-32 for the zlib trailer.
use vstd::prelude::*;

verus! {

/// The modulus of Adler-32.
pub const ADLER_BASE: u32 = 65521;

/// The two sums of an Adler-32 value: `a` in the low half, `b` in the high half.
pub open spec fn adler_a(h: u32) -> int {
    (h % 65536) as int
}

pub open spec fn adler_b(h: u32) -> int {
    (h / 65536) as int
}

/// Both sums are reduced.
pub open spec fn adler_valid(h: u32) -> bool {
    adler_a(h) < ADLER_BASE && adler_b(h) < ADLER_BASE
}

/// The sums after adding the bytes of `data`: `a` adds each byte, `b` adds each new `a`, both
/// modulo 65521 (RFC 1950, section 8.2).
pub open spec fn adler_sums(a: int, b: int, data: Seq<u8>) -> (int, int)
    decreases data.len(),
{
    if data.len() == 0 {
        (a, b)
    } else {
        let prev = adler_sums(a, b, data.drop_last());
        let a2 = (prev.0 + data.last()) % (ADLER_BASE as int);
        (a2, (prev.1 + a2) % (ADLER_BASE as int))
    }
}

/// The Adler-32 value after adding `data` to the running value `h`.
pub open spec fn adler_update(h: u32, data: Seq<u8>) -> u32 {
    let s = adler_sums(adler_a(h), adler_b(h), data);
    (s.1 * 65536 + s.0) as u32
}

pub proof fn lemma_adler_valid(h: u32, data: Seq<u8>)
    requires
        adler_valid(h),
    ensures
        adler_valid(adler_update(h, data)),
        adler_update(h, data) == adler_sums(adler_a(h), adler_b(h), data).1 * 65536 + adler_sums(
            adler_a(h),
            adler_b(h),
            data,
        ).0,
    decreases data.len(),
{
    lemma_adler_sums_bound(adler_a(h), adler_b(h), data);
}

proof fn lemma_adler_sums_bound(a: int, b: int, data: Seq<u8>)
    requires
        0 <= a < 65521,
        0 <= b < 65521,
    ensures
        0 <= adler_sums(a, b, data).0 < 65521,
        0 <= adler_sums(a, b, data).1 < 65521,
    decreases data.len(),
{
    if data.len() > 0 {
        lemma_adler_sums_bound(a, b, data.drop_last());
    }
}

/// Adding two runs of data one after the other.
pub proof fn lemma_adler_append(h: u32, x: Seq<u8>, y: Seq<u8>)
    requires
        adler_valid(h),
    ensures
        adler_update(adler_update(h, x), y) == adler_update(h, x + y),
{
    lemma_adler_valid(h, x);
    let s = adler_sums(adler_a(h), adler_b(h), x);
    let h2 = adler_update(h, x);
    assert(adler_a(h2) == s.0 && adler_b(h2) == s.1);
    lemma_adler_sums_append(adler_a(h), adler_b(h), x, y);
}

proof fn lemma_adler_sums_append(a: int, b: int, x: Seq<u8>, y: Seq<u8>)
    ensures
        adler_sums(adler_sums(a, b, x).0, adler_sums(a, b, x).1, y) == adler_sums(a, b, x + y),
    decreases y.len(),
{
    if y.len() == 0 {
        assert(x + y =~= x);
    } else {
        lemma_adler_sums_append(a, b, x, y.drop_last());
        assert((x + y).drop_last() =~= x + y.drop_last());
    }
}

/// Adds `data` to the running Adler-32 value `hash`, with the `adler32` crate: a
/// `RollingAdler32` made from `hash` (low half the sum of the bytes, high half the sum of those
/// sums) takes the bytes with `update_buffer`, and `hash` gives the new value. For reduced
/// sums, that crate computes the sums of RFC 1950 modulo 65521, which `adler_update` states.
#[verifier::external_body]
fn adler32_update(hash: u32, data: &[u8]) -> (r: u32)
    requires
        adler_valid(hash),
    ensures
        r == adler_update(hash, data@),
{
    let mut rolling = adler32::RollingAdler32::from_value(hash);
    rolling.update_buffer(data);
    rolling.hash()
}

/// A running checksum of the input.
pub trait RollingChecksum: Sized {
    /// The checksum value held.
    spec fn hash_view(&self) -> u32;

    /// The checksum value after `data` is added to one holding `hash`.
    spec fn hash_after(hash: u32, data: Seq<u8>) -> u32;

    fn new() -> (r: Self)
        ensures
            r.hash_view() == 1,
    ;

    fn update(&mut self, byte: u8)
        ensures
            final(self).hash_view() == Self::hash_after(old(self).hash_view(), seq![byte]),
    ;

    fn update_from_slice(&mut self, data: &[u8])
        ensures
            final(self).hash_view() == Self::hash_after(old(self).hash_view(), data@),
    ;

    fn current_hash(&self) -> (r: u32)
        ensures
            r == self.hash_view(),
    ;
}

/// No checksum at all.
pub struct NoChecksum {}

impl RollingChecksum for NoChecksum {
    open spec fn hash_view(&self) -> u32 {
        1
    }

    open spec fn hash_after(hash: u32, data: Seq<u8>) -> u32 {
        hash
    }

    fn new() -> NoChecksum {
        NoChecksum {  }
    }

    fn update(&mut self, _byte: u8) {
    }

    fn update_from_slice(&mut self, _data: &[u8]) {
    }

    fn current_hash(&self) -> (r: u32) {
        1
    }
}

/// The Adler-32 checksum of the data seen so far.
pub struct Adler32Checksum {
    hash: u32,
}

impl Adler32Checksum {
    #[verifier::type_invariant]
    spec fn sums_reduced(self) -> bool {
        adler_valid(self.hash)
    }

    /// The checksum value.
    pub closed spec fn value(self) -> u32 {
        self.hash
    }
}

impl RollingChecksum for Adler32Checksum {
    open spec fn hash_view(&self) -> u32 {
        self.value()
    }

    open spec fn hash_after(hash: u32, data: Seq<u8>) -> u32 {
        adler_update(hash, data)
    }

    fn new() -> (r: Self) {
        // A new `RollingAdler32` starts with the sums 1 and 0.
        Adler32Checksum { hash: 1 }
    }

    fn update(&mut self, byte: u8) {
        proof {
            use_type_invariant(&*self);
        }
        let data = [byte];
        let h = adler32_update(self.hash, data.as_slice());
        proof {
            assert(data@ =~= seq![byte]);
            lemma_adler_valid(self.hash, seq![byte]);
        }
        self.hash = h;
    }

    fn update_from_slice(&mut self, data: &[u8]) {
        proof {
            use_type_invariant(&*self);
            lemma_adler_valid(self.hash, data@);
        }
        self.hash = adler32_update(self.hash, data);
    }

    fn current_hash(&self) -> (r: u32) {
        self.hash
    }
}

} // verus!
