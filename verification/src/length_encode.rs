//! Run-length encoding of huffman code lengths, and generation of code lengths from symbol
//! frequencies.
use vstd::prelude::*;

verus! {

/// An enum representing the different types in the run-length encoded data used to encode
/// huffman table lengths
#[derive(Debug, PartialEq, Eq, Structural, Clone, Copy)]
pub enum EncodedLength {
    // An actual length value
    Length(u8),
    // Copy the previous value n times
    CopyPrevious(u8),
    // Repeat zero n times (with n represented by 3 bits)
    RepeatZero3Bits(u8),
    // Repeat zero n times (with n represented by 7 bits)
    RepeatZero7Bits(u8),
}

pub const COPY_PREVIOUS: usize = 16;
pub const REPEAT_ZERO_3_BITS: usize = 17;
pub const REPEAT_ZERO_7_BITS: usize = 18;

const MIN_REPEAT: u8 = 3;

/// The symbol of the code length alphabet an encoded length is written with.
pub open spec fn enc_symbol(e: EncodedLength) -> int {
    match e {
        EncodedLength::Length(l) => l as int,
        EncodedLength::CopyPrevious(_) => COPY_PREVIOUS as int,
        EncodedLength::RepeatZero3Bits(_) => REPEAT_ZERO_3_BITS as int,
        EncodedLength::RepeatZero7Bits(_) => REPEAT_ZERO_7_BITS as int,
    }
}

/// How many of the encoded lengths are written with symbol `k`.
pub open spec fn enc_count(s: Seq<EncodedLength>, k: int) -> nat
    decreases s.len(),
{
    if s.len() == 0 {
        0
    } else {
        enc_count(s.drop_last(), k) + if enc_symbol(s.last()) == k { 1nat } else { 0nat }
    }
}

/// The lengths after one more encoded length, following `out`.
pub open spec fn rle_step(out: Seq<u8>, e: EncodedLength) -> Seq<u8> {
    match e {
        EncodedLength::Length(l) => out.push(l),
        EncodedLength::CopyPrevious(n) => out + Seq::new(n as nat, |i: int| out.last()),
        EncodedLength::RepeatZero3Bits(n) => out + Seq::new(n as nat, |i: int| 0u8),
        EncodedLength::RepeatZero7Bits(n) => out + Seq::new(n as nat, |i: int| 0u8),
    }
}

/// The lengths a run-length encoding stands for.
pub open spec fn rle_decode(s: Seq<EncodedLength>) -> Seq<u8>
    decreases s.len(),
{
    if s.len() == 0 {
        Seq::empty()
    } else {
        rle_step(rle_decode(s.drop_last()), s.last())
    }
}

/// An encoded length that the DEFLATE format can express after the lengths `out`: repeat
/// counts in the range of their code, and a copy only after some length.
pub open spec fn rle_item_ok(out: Seq<u8>, e: EncodedLength) -> bool {
    match e {
        EncodedLength::Length(l) => l <= 18,
        EncodedLength::CopyPrevious(n) => 3 <= n <= 6 && out.len() > 0,
        EncodedLength::RepeatZero3Bits(n) => 3 <= n <= 10,
        EncodedLength::RepeatZero7Bits(n) => 11 <= n <= 138,
    }
}

/// Every encoded length can be expressed.
pub open spec fn rle_ok(s: Seq<EncodedLength>) -> bool
    decreases s.len(),
{
    if s.len() == 0 {
        true
    } else {
        rle_ok(s.drop_last()) && rle_item_ok(rle_decode(s.drop_last()), s.last())
    }
}

/// The lengths this encoder takes: every value fits the code length alphabet, and a value
/// above 15 never occurs four times in a row (it would have to be repeated by a copy code).
pub open spec fn lengths_encodable(s: Seq<u8>) -> bool {
    &&& forall|i: int| 0 <= i < s.len() ==> #[trigger] s[i] <= 18
    &&& forall|i: int|
        0 <= i && i + 3 < s.len() && #[trigger] s[i] > 15 ==> !(s[i] == s[i + 1] && s[i] == s[i + 2] && s[i]
            == s[i + 3])
}

proof fn lemma_rle_push(s: Seq<EncodedLength>, e: EncodedLength)
    ensures
        rle_decode(s.push(e)) == rle_step(rle_decode(s), e),
        rle_ok(s.push(e)) == (rle_ok(s) && rle_item_ok(rle_decode(s), e)),
        forall|k: int| enc_count(s.push(e), k) == enc_count(s, k) + if enc_symbol(e) == k { 1nat } else { 0nat },
{
    assert(s.push(e).drop_last() =~= s);
}

proof fn lemma_enc_count_bound(s: Seq<EncodedLength>, k: int)
    ensures
        enc_count(s, k) <= s.len(),
    decreases s.len(),
{
    if s.len() > 0 {
        lemma_enc_count_bound(s.drop_last(), k);
    }
}

impl EncodedLength {
    /// The code repeating `prev` `repeat` times.
    fn from_prev_and_repeat(prev: u8, repeat: u8) -> (r: EncodedLength)
        requires
            prev <= 15,
            3 <= repeat,
            prev != 0 ==> repeat <= 6,
            repeat <= 138,
        ensures
            prev == 0 && repeat <= 10 ==> r == EncodedLength::RepeatZero3Bits(repeat),
            prev == 0 && repeat > 10 ==> r == EncodedLength::RepeatZero7Bits(repeat),
            prev != 0 ==> r == EncodedLength::CopyPrevious(repeat),
    {
        if prev == 0 {
            if repeat <= 10 {
                EncodedLength::RepeatZero3Bits(repeat)
            } else {
                EncodedLength::RepeatZero7Bits(repeat)
            }
        } else {
            EncodedLength::CopyPrevious(repeat)
        }
    }
}

/// Append an encoded length to the output and count it.
fn update_out_and_freq(encoded: EncodedLength, output: &mut Vec<EncodedLength>, frequencies: &mut [u16; 19])
    requires
        enc_symbol(encoded) < 19,
        old(output)@.len() < u16::MAX,
        forall|k: int| 0 <= k < 19 ==> old(frequencies)@[k] == enc_count(old(output)@, k),
    ensures
        final(output)@ == old(output)@.push(encoded),
        forall|k: int| 0 <= k < 19 ==> final(frequencies)@[k] == enc_count(final(output)@, k),
{
    let index = match encoded {
        EncodedLength::Length(l) => l as usize,
        EncodedLength::CopyPrevious(_) => COPY_PREVIOUS,
        EncodedLength::RepeatZero3Bits(_) => REPEAT_ZERO_3_BITS,
        EncodedLength::RepeatZero7Bits(_) => REPEAT_ZERO_7_BITS,
    };
    proof {
        lemma_enc_count_bound(old(output)@, index as int);
        lemma_rle_push(old(output)@, encoded);
    }
    frequencies[index] = frequencies[index] + 1;
    output.push(encoded);
}

// Convenience function to check if the repeat counter should be incremented further
fn not_max_repetitions(length_value: u8, repeats: u8) -> (r: bool)
    ensures
        r == ((length_value == 0 && repeats < 138) || repeats < 6),
{
    (length_value == 0 && repeats < 138) || repeats < 6
}

/// `n` copies of `v`.
pub open spec fn repeated(v: u8, n: int) -> Seq<u8> {
    Seq::new(n as nat, |i: int| v)
}

/// Lengths that end with `r` copies of `v`.
proof fn lemma_split(a: Seq<u8>, v: u8, r: int, s: Seq<u8>, n: int)
    requires
        a + repeated(v, r) == s.take(n),
        0 <= r <= n <= s.len(),
    ensures
        a == s.take(n - r),
        forall|j: int| n - r <= j < n ==> s[j] == v,
{
    let t = a + repeated(v, r);
    assert(t.len() == n);
    assert(a.len() == n - r);
    assert forall|j: int| n - r <= j < n implies s[j] == v by {
        assert(t[j] == repeated(v, r)[j - (n - r)]);
        assert(s.take(n)[j] == t[j]);
    }
    assert(a =~= s.take(n - r)) by {
        assert forall|j: int| 0 <= j < n - r implies a[j] == s.take(n - r)[j] by {
            assert(t[j] == a[j]);
            assert(s.take(n)[j] == t[j]);
        }
    }
}

/// How many times the last value of `s` occurs in a row at its end.
pub open spec fn trailing_run(s: Seq<u8>) -> nat
    decreases s.len(),
{
    if s.len() == 0 {
        0
    } else if s.len() >= 2 && s[s.len() - 2] == s.last() {
        trailing_run(s.drop_last()) + 1
    } else {
        1
    }
}

/// A nonempty sequence ends with a run of at least one and at most all of its values.
pub proof fn lemma_trailing_run(s: Seq<u8>)
    ensures
        s.len() > 0 ==> 1 <= trailing_run(s) <= s.len(),
    decreases s.len(),
{
    if s.len() >= 2 {
        lemma_trailing_run(s.drop_last());
    }
}

/// The codes for the `r` copies of `v` that full repeat codes leave over: one repeat code if
/// there are at least three, else each copy as it is.
pub open spec fn rest_codes(v: u8, r: int) -> Seq<EncodedLength> {
    if r >= 3 {
        seq![
            if v != 0 {
                EncodedLength::CopyPrevious(r as u8)
            } else if r <= 10 {
                EncodedLength::RepeatZero3Bits(r as u8)
            } else {
                EncodedLength::RepeatZero7Bits(r as u8)
            },
        ]
    } else {
        Seq::new(r as nat, |i: int| EncodedLength::Length(v))
    }
}

/// The full repeat codes a run starts with: as many zero repeats of 138 as fit for zeros; for
/// another value, the value itself, then as many copies of six as fit after it.
pub open spec fn run_head(v: u8, k: int) -> Seq<EncodedLength> {
    if v == 0 {
        Seq::new(k as nat, |i: int| EncodedLength::RepeatZero7Bits(138))
    } else {
        seq![EncodedLength::Length(v)] + Seq::new(k as nat, |i: int| EncodedLength::CopyPrevious(6))
    }
}

/// The codes of a run of `n` copies of `v`: the full repeat codes, then the rest.
pub open spec fn run_codes(v: u8, n: int) -> Seq<EncodedLength> {
    if v == 0 {
        run_head(0, n / 138) + rest_codes(0, n % 138)
    } else {
        run_head(v, (n - 1) / 6) + rest_codes(v, (n - 1) % 6)
    }
}

/// The run-length encoding this encoder chooses: each maximal run of equal lengths, in turn,
/// written with the codes of `run_codes`.
pub open spec fn rle_encode(s: Seq<u8>) -> Seq<EncodedLength>
    decreases s.len(),
{
    if s.len() == 0 {
        Seq::empty()
    } else {
        proof {
            lemma_trailing_run(s);
        }
        rle_encode(s.take(s.len() - trailing_run(s))) + run_codes(s.last(), trailing_run(s) as int)
    }
}

/// A run of `c` copies of `v` after lengths that do not end with `v` adds its codes.
proof fn lemma_rle_encode_append(a: Seq<u8>, v: u8, c: int)
    requires
        a.len() == 0 || a.last() != v,
        c >= 1,
    ensures
        rle_encode(a + repeated(v, c)) == rle_encode(a) + run_codes(v, c),
{
    let s = a + repeated(v, c);
    assert(trailing_run(s) == c) by {
        lemma_trailing_run_of(a, v, c);
    }
    assert(s.take(s.len() - c) =~= a);
    assert(s.last() == v);
}

proof fn lemma_trailing_run_of(a: Seq<u8>, v: u8, c: int)
    requires
        a.len() == 0 || a.last() != v,
        c >= 1,
    ensures
        trailing_run(a + repeated(v, c)) == c,
    decreases c,
{
    let s = a + repeated(v, c);
    if c > 1 {
        lemma_trailing_run_of(a, v, c - 1);
        assert(s.drop_last() =~= a + repeated(v, c - 1));
        assert(s[s.len() - 2] == v);
    } else {
        if a.len() > 0 {
            assert(s[s.len() - 2] == a.last());
        }
    }
}

/// The codes of a run: its full repeat codes, then the rest.
proof fn lemma_run_codes(v: u8, c: int, k: int, r: int)
    requires
        k >= 0,
        v == 0 ==> c == 138 * k + r && 0 <= r <= 138,
        v != 0 ==> c == 1 + 6 * k + r && 0 <= r <= 6,
    ensures
        run_codes(v, c) == run_head(v, k) + rest_codes(v, r),
{
    if v == 0 {
        if r < 138 {
            vstd::arithmetic::div_mod::lemma_fundamental_div_mod_converse(c, 138, k, r);
        } else {
            vstd::arithmetic::div_mod::lemma_fundamental_div_mod_converse(c, 138, k + 1, 0);
            assert(run_head(0, k + 1) =~= run_head(0, k) + rest_codes(0, r));
        }
        assert(run_codes(v, c) =~= run_head(v, k) + rest_codes(v, r));
    } else {
        if r < 6 {
            vstd::arithmetic::div_mod::lemma_fundamental_div_mod_converse(c - 1, 6, k, r);
        } else {
            vstd::arithmetic::div_mod::lemma_fundamental_div_mod_converse(c - 1, 6, k + 1, 0);
            assert(run_head(v, k + 1) =~= run_head(v, k) + rest_codes(v, r));
        }
        assert(run_codes(v, c) =~= run_head(v, k) + rest_codes(v, r));
    }
}

/// Closing the run of `v` over `p..m`: the codes so far and the rest make up the encoding of
/// the lengths up to `m`.
proof fn lemma_close_run(s: Seq<u8>, p: int, m: int, v: u8, k: int, r: int)
    requires
        0 <= p < m <= s.len(),
        forall|j: int| p <= j < m ==> s[j] == v,
        p == 0 || s[p - 1] != v,
        k >= 0,
        v == 0 ==> m - p == 138 * k + r && 0 <= r <= 138,
        v != 0 ==> m - p == 1 + 6 * k + r && 0 <= r <= 6,
    ensures
        rle_encode(s.take(p)) + run_head(v, k) + rest_codes(v, r) == rle_encode(s.take(m)),
{
    assert(s.take(m) =~= s.take(p) + repeated(v, m - p));
    lemma_rle_encode_append(s.take(p), v, m - p);
    lemma_run_codes(v, m - p, k, r);
    assert(rle_encode(s.take(p)) + run_head(v, k) + rest_codes(v, r) =~= rle_encode(s.take(p)) + (run_head(v, k)
        + rest_codes(v, r)));
}

/// A new run starting with `l` at `n`, after lengths ending with another value.
proof fn lemma_open_run(s: Seq<u8>, n: int)
    requires
        0 <= n < s.len(),
        n == 0 || s[n - 1] != s[n],
    ensures
        rle_encode(s.take(n + 1)) == rle_encode(s.take(n)) + seq![EncodedLength::Length(s[n])],
        s[n] != 0 ==> run_head(s[n], 0) == seq![EncodedLength::Length(s[n])],
        run_head(0, 0) == Seq::<EncodedLength>::empty(),
{
    assert(s.take(n + 1) =~= s.take(n) + repeated(s[n], 1));
    lemma_rle_encode_append(s.take(n), s[n], 1);
    lemma_run_codes(s[n], 1, 0, if s[n] == 0 { 1 } else { 0 });
    assert(run_head(0, 0) =~= Seq::<EncodedLength>::empty());
    assert(run_head(s[n], 0) + rest_codes(s[n], if s[n] == 0 { 1 } else { 0 }) =~= seq![EncodedLength::Length(s[n])]);
    if s[n] != 0 {
        assert(run_head(s[n], 0) =~= seq![EncodedLength::Length(s[n])]);
    }
}

/// Where the run of the lengths being encoded stands after `n` of them: it started at `p`,
/// its full repeat codes (`k` of them) are written, and `repeat` of its copies are pending.
#[verifier::opaque]
pub open spec fn run_state(
    s: Seq<u8>,
    n: int,
    p: int,
    k: int,
    prev: u8,
    repeat: int,
    out: Seq<EncodedLength>,
) -> bool {
    &&& 0 <= p < n <= s.len()
    &&& forall|j: int| p <= j < n ==> s[j] == prev
    &&& (p == 0 || s[p - 1] != prev)
    &&& k >= 0
    &&& out == rle_encode(s.take(p)) + run_head(prev, k)
    &&& (prev == 0 ==> n - p == 138 * k + repeat)
    &&& (prev != 0 ==> n - p == 1 + 6 * k + repeat)
}

/// One more copy of the value of the run, with no code written.
proof fn lemma_run_continue(s: Seq<u8>, n: int, p: int, k: int, v: u8, r: int, out: Seq<EncodedLength>)
    requires
        run_state(s, n, p, k, v, r, out),
        n < s.len(),
        s[n] == v,
    ensures
        run_state(s, n + 1, p, k, v, r + 1, out),
{
    reveal(run_state);
}

/// One more copy of the value of the run fills a repeat code, which is written.
proof fn lemma_run_full(s: Seq<u8>, n: int, p: int, k: int, v: u8, r: int, out: Seq<EncodedLength>)
    requires
        run_state(s, n, p, k, v, r, out),
        n < s.len(),
        s[n] == v,
        v == 0 ==> r + 1 == 138,
        v != 0 ==> r + 1 == 6,
    ensures
        run_state(s, n + 1, p, k + 1, v, 0, out + rest_codes(v, r + 1)),
{
    reveal(run_state);
    assert(run_head(v, k) + rest_codes(v, r + 1) =~= run_head(v, k + 1));
    assert(out + rest_codes(v, r + 1) =~= rle_encode(s.take(p)) + run_head(v, k + 1));
}

/// The last length is one more copy of the value of the run: writing the rest of the run
/// finishes the encoding.
proof fn lemma_run_last(s: Seq<u8>, n: int, p: int, k: int, v: u8, r: int, out: Seq<EncodedLength>)
    requires
        run_state(s, n, p, k, v, r, out),
        n + 1 == s.len(),
        s[n] == v,
        v == 0 ==> r + 1 <= 138,
        v != 0 ==> r + 1 <= 6,
        r >= 0,
    ensures
        out + rest_codes(v, r + 1) == rle_encode(s),
{
    reveal(run_state);
    lemma_close_run(s, p, n + 1, v, k, r + 1);
    assert(s.take(n + 1) =~= s);
}

/// A new value at `n` ends the run before it (whose rest is written) and starts its own: with
/// its value written unless it is a zero that is not the last length.
proof fn lemma_run_new(
    s: Seq<u8>,
    n: int,
    p: int,
    k: int,
    v: u8,
    r: int,
    out: Seq<EncodedLength>,
    out1: Seq<EncodedLength>,
)
    requires
        0 <= n < s.len(),
        n == 0 ==> out.len() == 0 && r == 0,
        n > 0 ==> run_state(s, n, p, k, v, r, out) && s[n - 1] == v,
        v == 0 ==> 0 <= r <= 138,
        v != 0 ==> 0 <= r <= 6,
        s[n] != v,
        out1 == out + rest_codes(v, r) + (if s[n] != 0 || n + 1 == s.len() {
            seq![EncodedLength::Length(s[n])]
        } else {
            Seq::empty()
        }),
    ensures
        n + 1 == s.len() ==> out1 == rle_encode(s),
        n + 1 < s.len() ==> run_state(s, n + 1, n, 0, s[n], if s[n] == 0 { 1 } else { 0 }, out1),
{
    reveal(run_state);
    if n > 0 {
        lemma_close_run(s, p, n, v, k, r);
    } else {
        assert(s.take(0) =~= Seq::<u8>::empty());
        assert(rest_codes(v, 0) =~= Seq::<EncodedLength>::empty());
        assert(out =~= Seq::<EncodedLength>::empty());
    }
    assert(out + rest_codes(v, r) == rle_encode(s.take(n)));
    lemma_open_run(s, n);
    if n + 1 == s.len() {
        assert(s.take(n + 1) =~= s);
    }
    if s[n] == 0 && n + 1 < s.len() {
        assert(out1 =~= rle_encode(s.take(n)) + run_head(0, 0));
    }
}

/// Writing `m - from` copies of `v` one by one, fewer than three, writes the rest of their run.
proof fn lemma_literal_rest(s: Seq<u8>, from: int, m: int, v: u8)
    requires
        0 <= from <= m <= s.len(),
        m - from < 3,
        forall|j: int| from <= j < m ==> s[j] == v,
    ensures
        Seq::new((m - from) as nat, |j: int| EncodedLength::Length(s[from + j])) == rest_codes(v, m - from),
{
    assert(Seq::new((m - from) as nat, |j: int| EncodedLength::Length(s[from + j])) =~= rest_codes(v, m - from));
}

/// Run-length encodes the lengths of the values in `lengths` according to the deflate
/// specification. This is used for writing the code lengths for the huffman tables for
/// the deflate stream.
/// Returns a tuple containing a vec of the encoded lengths, and an array describing the
/// frequencies of the different length codes
#[verifier::spinoff_prover]
#[verifier::rlimit(40)]
pub fn encode_lengths(lengths: &[u8]) -> (r: Option<(Vec<EncodedLength>, [u16; 19])>)
    requires
        lengths_encodable(lengths@),
        lengths@.len() < u16::MAX,
    ensures
        r is None <==> lengths@.len() == 0,
        r matches Some((enc, freqs)) ==> {
            &&& enc@ == rle_encode(lengths@)
            &&& rle_decode(enc@) == lengths@
            &&& rle_ok(enc@)
            &&& forall|k: int| 0 <= k < 19 ==> freqs@[k] == enc_count(enc@, k)
        },
{
    if lengths.len() == 0 {
        return None;
    }
    let len = lengths.len();
    let mut out: Vec<EncodedLength> = Vec::new();
    let mut frequencies = [0u16; 19];
    // Number of repetitions of the current value
    let mut repeat: u8 = 0;
    // Previous value: make sure it's different from the first value to not confuse the
    // algorithm
    let first = lengths[0];
    let mut prev: u8 = !first;
    let mut n: usize = 0;
    let ghost mut p: int = 0;
    let ghost mut k: int = 0;
    proof {
        assert(lengths@.take(0) =~= Seq::<u8>::empty());
        assert(rle_decode(out@) + repeated(prev, 0) =~= Seq::<u8>::empty());
        assert(prev != first) by (bit_vector)
            requires prev == !first;
    }
    while n < len
        invariant
            len == lengths@.len(),
            0 < len < u16::MAX,
            lengths_encodable(lengths@),
            n <= len,
            n == 0 ==> prev != lengths@[0] && repeat == 0,
            n > 0 ==> prev == lengths@[n - 1],
            repeat <= n,
            (prev == 0 && repeat < 138) || repeat < 6,
            rle_decode(out@) + repeated(prev, repeat as int) == lengths@.take(n as int),
            prev != 0 && repeat > 0 ==> n - repeat >= 1 && lengths@[n - repeat - 1] == prev,
            n == len ==> repeat == 0,
            rle_ok(out@),
            out@.len() <= rle_decode(out@).len(),
            forall|k: int| 0 <= k < 19 ==> frequencies@[k] == enc_count(out@, k),
            0 < n < len ==> run_state(lengths@, n as int, p, k, prev, repeat as int, out@),
            n == len ==> out@ == rle_encode(lengths@),
        decreases len - n,
    {
        let l = lengths[n];
        let last = n + 1 == len;
        let ghost out0 = out@;
        let ghost rep0 = repeat as int;
        let ghost prev0 = prev;
        let ghost s = lengths@;
        proof {
            lemma_split(rle_decode(out0), prev0, rep0, s, n as int);
            assert(s.take(n + 1) =~= s.take(n as int).push(l));
            if n == 0 {
                assert(out0 =~= Seq::<EncodedLength>::empty());
                assert(s.take(0) =~= Seq::<u8>::empty());
            }
        }
        if l == prev && not_max_repetitions(l, repeat) {
            repeat = repeat + 1;
        }
        if l != prev || last || !not_max_repetitions(l, repeat) {
            if repeat >= MIN_REPEAT {
                // The previous value has been repeated enough times to write out a repeat code.
                proof {
                    // The repeated value occurs four times in a row when it is not zero.
                    if prev != 0 {
                        let first = n - rep0 - 1;
                        assert(s[first] == s[first + 1] && s[first] == s[first + 2] && s[first] == s[first + 3]);
                        assert(s[first] <= 15);
                    }
                }
                let val = EncodedLength::from_prev_and_repeat(prev, repeat);
                update_out_and_freq(val, &mut out, &mut frequencies);
                proof {
                    lemma_rle_push(out0, val);
                    if prev != 0 {
                        assert(rle_decode(out0).last() == prev);
                    }
                    assert(rle_decode(out@) =~= rle_decode(out0) + repeated(prev, repeat as int));
                    if l == prev0 {
                        assert(rle_decode(out@) =~= s.take(n + 1));
                    } else {
                        assert(rle_decode(out@) =~= s.take(n as int));
                    }
                    assert(out@ =~= out0 + rest_codes(prev0, repeat as int));
                    if l == prev0 {
                        if last {
                            lemma_run_last(s, n as int, p, k, prev0, rep0, out0);
                        } else {
                            lemma_run_full(s, n as int, p, k, prev0, rep0, out0);
                            k = k + 1;
                        }
                    }
                }
                let ghost out_rest = out@;
                repeat = 0;
                // If we have a new length value, output l unless the last value is 0 or l is the
                // last byte.
                if l != prev {
                    let ghost out1 = out@;
                    if l != 0 || last {
                        update_out_and_freq(EncodedLength::Length(l), &mut out, &mut frequencies);
                        proof {
                            lemma_rle_push(out1, EncodedLength::Length(l));
                        }
                        repeat = 0;
                    } else {
                        // If we have a zero, we start repeat at one instead of outputting, as
                        // there are separate codes for repeats of zero so we don't need a literal
                        // to define what byte to repeat.
                        repeat = 1;
                    }
                    proof {
                        assert(out@ =~= out0 + rest_codes(prev0, rep0) + (if l != 0 || last {
                            seq![EncodedLength::Length(l)]
                        } else {
                            Seq::empty()
                        }));
                        lemma_run_new(s, n as int, p, k, prev0, rep0, out0, out@);
                        p = n as int;
                        k = 0;
                    }
                }
                proof {
                    assert(rle_decode(out@) + repeated(l, repeat as int) =~= s.take(n + 1));
                }
            } else {
                // There haven't been enough repetitions of the previous value,
                // so just we output the lengths directly.
                // If we are at the end, and we have a value that is repeated, we need to
                // skip a byte and output the last one.
                let extra_skip: usize = if last && l == prev { 1 } else { 0 };
                // As repeats of zeroes have separate codes, we don't need to output a literal
                // here if we have a zero (unless we are at the end).
                let extra: usize = if l != 0 || last { 1 } else { 0 };
                // Get to the position of the next byte to output by starting at zero and
                // skipping.
                let from = n + extra_skip - repeat as usize;
                let count = repeat as usize + extra;
                let to = if from + count < len { from + count } else { len };
                assert(from == n - rep0);
                let mut i = from;
                let ghost base_out = rle_decode(out@);
                let ghost start_out = out@;
                while i < to
                    invariant
                        from <= i <= to <= len,
                        len == lengths@.len(),
                        len < u16::MAX,
                        base_out.len() == from,
                        out@.len() <= rle_decode(out@).len(),
                        rle_decode(out@) == base_out + lengths@.subrange(from as int, i as int),
                        out@ == start_out + Seq::new(
                            (i - from) as nat,
                            |j: int| EncodedLength::Length(lengths@[from + j]),
                        ),
                        rle_ok(out@),
                        lengths_encodable(lengths@),
                        forall|k: int| 0 <= k < 19 ==> frequencies@[k] == enc_count(out@, k),
                    decreases to - i,
                {
                    let ghost o = out@;
                    update_out_and_freq(EncodedLength::Length(lengths[i]), &mut out, &mut frequencies);
                    proof {
                        lemma_rle_push(o, EncodedLength::Length(lengths@[i as int]));
                        assert(base_out + lengths@.subrange(from as int, i + 1) =~= (base_out
                            + lengths@.subrange(from as int, i as int)).push(lengths@[i as int]));
                        assert(out@ =~= start_out + Seq::new(
                            (i + 1 - from) as nat,
                            |j: int| EncodedLength::Length(lengths@[from + j]),
                        ));
                    }
                    i = i + 1;
                }
                // If the current byte is zero we start repeat at 1 as we didn't output the
                // literal directly.
                proof {
                    assert(rle_decode(out@) =~= s.take(to as int));
                    let r = repeat as int;
                    if l == prev0 {
                        // The last length ends the run.
                        assert(to == n + 1 && from == n + 1 - r);
                        lemma_literal_rest(s, from as int, n + 1, prev0);
                        lemma_run_last(s, n as int, p, k, prev0, rep0, out0);
                    } else {
                        assert(from == n - r && to == n + extra);
                        lemma_literal_rest(s, from as int, n as int, prev0);
                        assert(out@ =~= out0 + rest_codes(prev0, r) + (if l != 0 || last {
                            seq![EncodedLength::Length(l)]
                        } else {
                            Seq::empty()
                        }));
                        lemma_run_new(s, n as int, p, k, prev0, rep0, out0, out@);
                        p = n as int;
                        k = 0;
                    }
                }
                repeat = 1 - extra as u8;
                proof {
                    assert(rle_decode(out@) + repeated(l, repeat as int) =~= s.take(n + 1));
                }
            }
        } else {
            proof {
                assert(rle_decode(out@) + repeated(l, repeat as int) =~= s.take(n + 1));
                lemma_run_continue(s, n as int, p, k, prev0, rep0, out0);
            }
        }
        prev = l;
        n = n + 1;
    }
    proof {
        assert(lengths@.take(len as int) =~= lengths@);
        assert(rle_decode(out@) + repeated(prev, 0) =~= rle_decode(out@));
    }
    Some((out, frequencies))
}


/// Weights (symbol frequencies, then sums of them) are kept in 32 bits.
type WeightType = u32;

/// A symbol and its weight; during the length computation the weight field is reused for
/// tree links and depths.
#[derive(Eq, Ord, PartialEq, PartialOrd, Debug, Clone, Copy, Default)]
pub struct Node {
    value: WeightType,
    symbol: u16,
}

/// The symbols of the nodes all lie below `n`.
pub closed spec fn symbols_below(s: Seq<Node>, n: int) -> bool {
    forall|i: int| 0 <= i < s.len() ==> (#[trigger] s[i]).symbol < n
}

/// Moving the node before the hole at `m + 1` into it moves the hole down by one, and keeps
/// the nodes, with `a` in the hole, the same.
proof fn lemma_shift_keeps_multiset(s: Seq<Node>, m: int, a: Node)
    requires
        0 <= m,
        m + 1 < s.len(),
    ensures
        s.update(m + 1, s[m]).update(m, a).to_multiset() == s.update(m + 1, a).to_multiset(),
{
    broadcast use vstd::seq_lib::to_multiset_update;
    broadcast use vstd::multiset::group_multiset_axioms;

    let t = s.update(m + 1, a);
    let t1 = t.update(m, a);
    assert(s.update(m + 1, s[m]).update(m, a) =~= t1.update(m + 1, s[m]));
    assert(t1.to_multiset() == t.to_multiset().insert(a).remove(s[m]));
    assert(t1.update(m + 1, s[m]).to_multiset() == t1.to_multiset().insert(s[m]).remove(a));
    assert(t.to_multiset().count(s[m]) > 0) by {
        vstd::seq_lib::to_multiset_contains(t, s[m]);
        assert(t[m] == s[m]);
    }
    assert(t1.to_multiset().insert(s[m]).remove(a) =~= t.to_multiset());
}

/// Sort the nodes by weight, keeping the order of nodes of equal weight.
fn sort_by_value(leaves: &mut Vec<Node>)
    ensures
        final(leaves)@.len() == old(leaves)@.len(),
        forall|i: int, j: int| 0 <= i < j < final(leaves)@.len() ==> final(leaves)@[i].value <= final(leaves)@[j].value,
        forall|n: int| symbols_below(old(leaves)@, n) ==> symbols_below(final(leaves)@, n),
        forall|i: int| 0 <= i < final(leaves)@.len() ==> old(leaves)@.contains(#[trigger] final(leaves)@[i]),
        final(leaves)@.to_multiset() == old(leaves)@.to_multiset(),
{
    let ghost orig = leaves@;
    let len = leaves.len();
    let mut k: usize = 1;
    if len == 0 {
        return;
    }
    proof {
        assert forall|i: int| 0 <= i < len implies orig.contains(#[trigger] leaves@[i]) by {
            assert(orig[i] == leaves@[i]);
        }
    }
    while k < len
        invariant
            1 <= k <= len,
            len == leaves@.len(),
            len == orig.len(),
            forall|i: int, j: int| 0 <= i < j < k ==> leaves@[i].value <= leaves@[j].value,
            forall|i: int| 0 <= i < len ==> orig.contains(#[trigger] leaves@[i]),
            leaves@.to_multiset() == orig.to_multiset(),
        decreases len - k,
    {
        let cur = leaves[k];
        let mut m = k;
        proof {
            assert(leaves@.update(m as int, cur) =~= leaves@);
        }
        // Shift the larger nodes before `cur` up by one.
        while m > 0 && leaves[m - 1].value > cur.value
            invariant
                0 <= m <= k < len,
                len == leaves@.len(),
                len == orig.len(),
                orig.contains(cur),
                forall|i: int, j: int| 0 <= i < j < k + 1 && j != m && i != m ==> leaves@[i].value <= leaves@[j].value,
                forall|j: int| m < j <= k ==> leaves@[j].value > cur.value,
                m < k ==> leaves@[m as int].value > cur.value,
                forall|i: int| 0 <= i < len && i != m ==> orig.contains(#[trigger] leaves@[i]),
                leaves@.update(m as int, cur).to_multiset() == orig.to_multiset(),
            decreases m,
        {
            let prev = leaves[m - 1];
            let ghost before = leaves@;
            leaves.set(m, prev);
            m = m - 1;
            proof {
                lemma_shift_keeps_multiset(before, m as int, cur);
            }
        }
        leaves.set(m, cur);
        k = k + 1;
    }
    proof {
        assert forall|n: int| symbols_below(orig, n) implies symbols_below(leaves@, n) by {
            assert forall|i: int| 0 <= i < leaves@.len() implies (#[trigger] leaves@[i]).symbol < n by {
                assert(orig.contains(leaves@[i]));
                let j = choose|j: int| 0 <= j < orig.len() && orig[j] == leaves@[i];
                assert(orig[j].symbol < n);
            }
        }
    }
}


/// The total weight of the nodes `a..b`.
pub closed spec fn wsum(s: Seq<Node>, a: int, b: int) -> int
    decreases b - a,
{
    if b <= a {
        0
    } else {
        wsum(s, a, b - 1) + s[b - 1].value
    }
}

proof fn lemma_wsum_first(s: Seq<Node>, a: int, b: int)
    requires
        a < b,
    ensures
        wsum(s, a, b) == s[a].value + wsum(s, a + 1, b),
    decreases b - a,
{
    reveal_with_fuel(wsum, 2);
    if b - 1 > a {
        lemma_wsum_first(s, a, b - 1);
    }
}

proof fn lemma_wsum_update(s: Seq<Node>, t: Seq<Node>, a: int, b: int)
    requires
        s.len() == t.len(),
        forall|i: int| a <= i < b ==> s[i].value == t[i].value,
    ensures
        wsum(s, a, b) == wsum(t, a, b),
    decreases b - a,
{
    if b > a {
        lemma_wsum_update(s, t, a, b - 1);
    }
}

proof fn lemma_wsum_nonneg(s: Seq<Node>, a: int, b: int)
    ensures
        wsum(s, a, b) >= 0,
    decreases b - a,
{
    if b > a {
        lemma_wsum_nonneg(s, a, b - 1);
    }
}

/// A node's weight is no more than the total weight of a range holding it.
proof fn lemma_wsum_elem(s: Seq<Node>, a: int, b: int, j: int)
    requires
        a <= j < b,
    ensures
        s[j].value <= wsum(s, a, b),
    decreases b - a,
{
    if j < b - 1 {
        lemma_wsum_elem(s, a, b - 1, j);
    } else {
        lemma_wsum_nonneg(s, a, b - 1);
    }
}

/// After the first step, the nodes before the last two hold the index of their parent.
pub closed spec fn parent_links(s: Seq<Node>) -> bool {
    forall|i: int| 0 <= i < s.len() - 2 ==> i < #[trigger] s[i].value < s.len() - 1
}

/// The parent links never decrease along the nodes, and no node is the parent of more than two.
#[verifier::opaque]
pub closed spec fn links_ordered(s: Seq<Node>, k: int) -> bool {
    &&& forall|i: int, j: int| 0 <= i < j < k ==> s[i].value <= s[j].value
    &&& forall|i: int, j: int| 0 <= i && i + 2 <= j < k ==> s[i].value < s[j].value
}

/// Only the weights changed.
pub closed spec fn same_symbols(s: Seq<Node>, t: Seq<Node>) -> bool {
    s.len() == t.len() && forall|i: int| 0 <= i < s.len() ==> (#[trigger] s[i]).symbol == t[i].symbol
}

/// Linking node `r` to the parent `next`, no smaller than the earlier links and larger than all
/// but the last of them, keeps the links ordered.
proof fn lemma_link_added(s: Seq<Node>, t: Seq<Node>, r: int, next: int)
    requires
        0 <= r < t.len(),
        s.len() == t.len(),
        links_ordered(s, r),
        forall|i: int| 0 <= i < r ==> s[i].value <= next,
        forall|i: int| 0 <= i < r - 1 ==> s[i].value < next,
        forall|i: int| 0 <= i < r ==> t[i].value == s[i].value,
        t[r].value == next,
    ensures
        links_ordered(t, r + 1),
{
    reveal(links_ordered);
    assert forall|i: int, j: int| 0 <= i < j < r + 1 implies t[i].value <= t[j].value by {
        if j < r {
            assert(s[i].value <= s[j].value);
        }
    }
    assert forall|i: int, j: int| 0 <= i && i + 2 <= j < r + 1 implies t[i].value < t[j].value by {
        if j < r {
            assert(s[i].value < s[j].value);
        }
    }
}

/// Only the links of the first `k` nodes matter.
proof fn lemma_links_frame(s: Seq<Node>, t: Seq<Node>, k: int)
    requires
        k <= 0 || links_ordered(s, k),
        forall|i: int| 0 <= i < k ==> t[i].value == s[i].value,
    ensures
        links_ordered(t, k),
{
    reveal(links_ordered);
    if k > 0 {
        assert forall|i: int, j: int| 0 <= i < j < k implies t[i].value <= t[j].value by {
            assert(s[i].value <= s[j].value);
        }
        assert forall|i: int, j: int| 0 <= i && i + 2 <= j < k implies t[i].value < t[j].value by {
            assert(s[i].value < s[j].value);
        }
    }
}

/// Build the huffman tree in place: the first pass of the algorithm of Moffat and Katajainen.
/// The leaves must be sorted by weight. Afterwards each internal node but the root holds the
/// index of its parent, and the root (at `len - 2`) the total weight.
#[verifier::spinoff_prover]
fn step_1(leaves: &mut [Node])
    requires
        2 <= old(leaves)@.len() <= 65536,
        wsum(old(leaves)@, 0, old(leaves)@.len() as int) <= u32::MAX,
    ensures
        same_symbols(old(leaves)@, final(leaves)@),
        parent_links(final(leaves)@),
        links_ordered(final(leaves)@, final(leaves)@.len() - 2),
        wsum(old(leaves)@, 0, old(leaves)@.len() - 1) < old(leaves)@[old(leaves)@.len() - 1].value ==> forall|i: int|
            0 <= i < final(leaves)@.len() - 3 ==> #[trigger] final(leaves)@[i].value < final(leaves)@.len() - 2,
{
    // If there are less than 2 non-zero frequencies, this function should not have been
    // called and we should not have gotten to this point.
    let len = leaves.len();
    let ghost total = wsum(leaves@, 0, len as int);
    let ghost orig = leaves@;
    let ghost dom = wsum(orig, 0, len - 1) < orig[len - 1].value;
    let ghost w_last = orig[len - 1].value as int;
    let mut root: usize = 0;
    let mut leaf: usize = 2;
    proof {
        lemma_wsum_first(leaves@, 0, len as int);
        lemma_wsum_first(leaves@, 1, len as int);
        lemma_wsum_nonneg(leaves@, 2, len as int);
    }
    let v0 = leaves[0].value + leaves[1].value;
    let ghost before = leaves@;
    leaves[0].value = v0;
    proof {
        lemma_wsum_update(before, leaves@, 2, len as int);
        lemma_wsum_first(leaves@, 0, 1);
    }
    let mut next: usize = 1;
    proof {
        lemma_links_frame(leaves@, leaves@, 0);
    }
    while next < len - 1
        invariant
            len == leaves@.len(),
            2 <= len <= 65536,
            1 <= next <= len - 1,
            leaf + root == 2 * next,
            root < next,
            leaf <= len,
            total <= u32::MAX,
            wsum(leaves@, root as int, next as int) + wsum(leaves@, leaf as int, len as int) == total,
            forall|i: int| 0 <= i < root ==> i < #[trigger] leaves@[i].value < next,
            same_symbols(orig, leaves@),
            links_ordered(leaves@, root as int),
            dom == (wsum(orig, 0, len - 1) < orig[len - 1].value),
            w_last == orig[len - 1].value,
            total == wsum(orig, 0, len as int),
            leaves@[len - 1].value == w_last || leaf == len,
            dom ==> leaf <= len - 1 || next == len - 1,
            dom ==> forall|i: int| 0 <= i < root && i < len - 3 ==> #[trigger] leaves@[i].value < len - 2,
        decreases len - next,
    {
        let ghost s0 = leaves@;
        let ghost root0 = root;
        let ghost leaf0 = leaf;
        proof {
            lemma_wsum_nonneg(s0, root as int, next as int);
            lemma_wsum_nonneg(s0, leaf as int, len as int);
            if dom {
                assert(wsum(orig, 0, len as int) == wsum(orig, 0, len - 1) + w_last);
                assert(wsum(s0, leaf as int, len as int) >= w_last) by {
                    lemma_wsum_elem(s0, leaf as int, len as int, len - 1);
                }
                assert forall|j: int| root <= j < next implies #[trigger] s0[j].value < w_last by {
                    lemma_wsum_elem(s0, root as int, next as int, j);
                }
            }
        }
        // The first child: an earlier internal node or the next leaf, the lighter.
        if (leaf >= len) || (leaves[root].value < leaves[leaf].value) {
            proof {
                lemma_wsum_first(s0, root as int, next as int);
            }
            let w = leaves[root].value;
            leaves[next].value = w;
            leaves[root].value = next as WeightType;
            root = root + 1;
            proof {
                lemma_wsum_update(s0, leaves@, root as int, next as int);
                lemma_wsum_update(s0, leaves@, leaf as int, len as int);
                lemma_link_added(s0, leaves@, root - 1, next as int);
            }
        } else {
            proof {
                lemma_wsum_first(s0, leaf as int, len as int);
            }
            let w = leaves[leaf].value;
            leaves[next].value = w;
            leaf = leaf + 1;
            proof {
                lemma_wsum_update(s0, leaves@, root as int, next as int);
                lemma_wsum_update(s0, leaves@, leaf as int, len as int);
                lemma_links_frame(s0, leaves@, root as int);
            }
        }
        let ghost s1 = leaves@;
        let ghost w1 = s1[next as int].value;

        proof {
            lemma_wsum_nonneg(s1, root as int, next as int);
            lemma_wsum_nonneg(s1, leaf as int, len as int);
            assert(wsum(s1, root as int, next as int) + wsum(s1, leaf as int, len as int) + w1 == total);
        }
        // The second child.
        if (leaf >= len) || (root < next && (leaves[root].value < leaves[leaf].value)) {
            proof {
                lemma_wsum_first(s1, root as int, next as int);
                lemma_wsum_nonneg(s1, root + 1, next as int);
            }
            let w = leaves[root].value;
            leaves[next].value = leaves[next].value + w;
            leaves[root].value = next as WeightType;
            root = root + 1;
            proof {
                lemma_wsum_update(s1, leaves@, root as int, next as int);
                lemma_wsum_update(s1, leaves@, leaf as int, len as int);
                lemma_link_added(s1, leaves@, root - 1, next as int);
            }
        } else {
            proof {
                lemma_wsum_first(s1, leaf as int, len as int);
                lemma_wsum_nonneg(s1, leaf + 1, len as int);
            }
            let w = leaves[leaf].value;
            leaves[next].value = leaves[next].value + w;
            leaf = leaf + 1;
            proof {
                lemma_wsum_update(s1, leaves@, root as int, next as int);
                lemma_wsum_update(s1, leaves@, leaf as int, len as int);
                lemma_links_frame(s1, leaves@, root as int);
            }
        }
        next = next + 1;
    }
    proof {
        assert(root == len - 2);
    }
}

/// The internal nodes `0..n - 1` hold their depths: the root, at `n - 2`, 0, and every other
/// node one more than its parent in `parents`. The depths never grow along the nodes, and
/// step down by at most one from a node to the next.
#[verifier::opaque]
pub closed spec fn internal_depths_ok(s: Seq<Node>, parents: Seq<Node>, n: int) -> bool {
    &&& s[n - 2].value == 0
    &&& forall|j: int| 0 <= j < n - 2 ==> #[trigger] s[j].value == s[parents[j].value as int].value + 1
    &&& forall|i: int, j: int| 0 <= i < j <= n - 2 ==> s[i].value >= s[j].value
    &&& forall|i: int| 0 <= i < n - 2 ==> #[trigger] s[i].value <= s[i + 1].value + 1
    &&& forall|j: int| 0 <= j <= n - 2 ==> #[trigger] s[j].value <= n - 2 - j
}

/// The Kraft sum of the depths held by the nodes `lo..hi`, scaled by `2^k`.
pub closed spec fn kraft_sum(s: Seq<Node>, lo: int, hi: int, k: int) -> int
    decreases hi - lo,
{
    if hi <= lo {
        0
    } else {
        p2(k - s[lo].value) + kraft_sum(s, lo + 1, hi, k)
    }
}

proof fn lemma_kraft_frame(s: Seq<Node>, t: Seq<Node>, lo: int, hi: int, k: int)
    requires
        forall|j: int| lo <= j < hi ==> s[j].value == t[j].value,
    ensures
        kraft_sum(s, lo, hi, k) == kraft_sum(t, lo, hi, k),
    decreases hi - lo,
{
    if hi > lo {
        lemma_kraft_frame(s, t, lo + 1, hi, k);
    }
}

/// Parents that never decrease and are shared by at most two nodes: the nodes `a..=b`, whose
/// parents all lie in `lo..=hi`, are at most twice as many as those parents.
proof fn lemma_children_fit(par: Seq<Node>, k: int, a: int, b: int, lo: int, hi: int)
    requires
        links_ordered(par, k),
        0 <= a <= b < k,
        forall|i: int| a <= i <= b ==> lo <= #[trigger] par[i].value <= hi,
    ensures
        b - a + 1 <= 2 * (hi - lo + 1),
{
    assert(lo <= par[a].value <= hi);
    if b - a + 1 > 2 * (hi - lo + 1) {
        let m = hi - lo + 1;
        lemma_parents_spread(par, k, a, m);
        assert(lo <= par[a].value);
        assert(par[a + 2 * m].value <= hi);
    }
}

/// Every second node has a larger parent.
proof fn lemma_parents_spread(par: Seq<Node>, k: int, a: int, m: int)
    requires
        links_ordered(par, k),
        0 <= a,
        0 <= m,
        a + 2 * m < k,
    ensures
        par[a + 2 * m].value >= par[a].value + m,
    decreases m,
{
    if m > 0 {
        lemma_parents_spread(par, k, a, m - 1);
        reveal(links_ordered);
        assert(par[a + 2 * (m - 1)].value < par[a + 2 * m].value);
    }
}

/// The nodes `t..=n - 2` hold their depths, the nodes before `t` still their parent links.
#[verifier::opaque]
pub closed spec fn partial_depths_ok(s: Seq<Node>, orig: Seq<Node>, t: int, n: int) -> bool {
    &&& forall|i: int| 0 <= i < t ==> #[trigger] s[i] == orig[i]
    &&& s[n - 2].value == 0
    &&& forall|j: int| t <= j < n - 2 ==> #[trigger] s[j].value == s[orig[j].value as int].value + 1
    &&& forall|i: int, j: int| t <= i < j <= n - 2 ==> s[i].value >= s[j].value
    &&& forall|i: int| t <= i < n - 2 ==> #[trigger] s[i].value <= s[i + 1].value + 1
    &&& forall|j: int| t <= j <= n - 2 ==> #[trigger] s[j].value <= n - 2 - j
}

/// Giving node `t - 1` the depth of its parent plus one keeps the depths in order.
#[verifier::spinoff_prover]
#[verifier::rlimit(40)]
proof fn lemma_depth_step(before: Seq<Node>, after: Seq<Node>, orig: Seq<Node>, t: int, n: int)
    requires
        2 <= n,
        1 <= t <= n - 2,
        before.len() == n,
        after.len() == n,
        orig.len() == n,
        parent_links(orig),
        links_ordered(orig, n - 2),
        partial_depths_ok(before, orig, t, n),
        after == before.update(t - 1, Node { value: (before[orig[t - 1].value as int].value + 1) as u32, ..before[t - 1] }),
        before[orig[t - 1].value as int].value + 1 <= u32::MAX,
    ensures
        partial_depths_ok(after, orig, t - 1, n),
{
    reveal(partial_depths_ok);
    reveal(links_ordered);
    let u = t - 1;
    let pt = orig[u].value as int;
    assert(u < pt < n - 1);
    assert(before[u] == orig[u]);
    if t < n - 2 {
        let pn = orig[t].value as int;
        assert(pt <= pn);
        assert(before[pt].value >= before[pn].value);
    }
    assert(before[pt].value <= before[t].value) by {
        if pt > t {
            assert(before[t].value >= before[pt].value);
        }
    }
    assert forall|j: int| u <= j < n - 2 implies #[trigger] after[j].value == after[orig[j].value as int].value + 1 by {
        if j > u {
            assert(orig[j].value > j);
        }
    }
    assert forall|i: int, j: int| u <= i < j <= n - 2 implies after[i].value >= after[j].value by {
        if i == u {
            assert(before[t].value >= before[j].value || j == t);
        }
    }
    assert(after[u].value <= n - 2 - u) by {
        assert(before[pt].value <= n - 2 - pt);
    }
}

/// Turn the parent links of the internal nodes into their depths, from the root down.
#[verifier::spinoff_prover]
fn internal_depths(leaves: &mut [Node])
    requires
        2 <= old(leaves)@.len() <= 65536,
        parent_links(old(leaves)@),
        links_ordered(old(leaves)@, old(leaves)@.len() - 2),
    ensures
        same_symbols(old(leaves)@, final(leaves)@),
        final(leaves)@[final(leaves)@.len() - 1] == old(leaves)@[old(leaves)@.len() - 1],
        internal_depths_ok(final(leaves)@, old(leaves)@, final(leaves)@.len() as int),
{
    let n = leaves.len();
    let ghost orig = leaves@;
    leaves[n - 2].value = 0;
    let mut t = n - 2;
    proof {
        reveal(partial_depths_ok);
    }
    while t > 0
        invariant
            n == leaves@.len(),
            n == orig.len(),
            2 <= n <= 65536,
            t <= n - 2,
            parent_links(orig),
            links_ordered(orig, n - 2),
            partial_depths_ok(leaves@, orig, t as int, n as int),
            leaves@[n - 1] == orig[n - 1],
            same_symbols(orig, leaves@),
        decreases t,
    {
        let ghost before = leaves@;
        proof {
            reveal(partial_depths_ok);
            assert(before[t - 1] == orig[t - 1]);
            assert(t - 1 < orig[t - 1].value < n - 1);
            let pt = orig[t - 1].value as int;
            assert(before[pt].value <= n - 2 - pt);
        }
        let parent = leaves[t - 1].value as usize;
        let d = leaves[parent].value + 1;
        leaves[t - 1].value = d;
        proof {
            assert(leaves@ == before.update(t - 1, Node { value: d, ..before[t - 1] }));
            lemma_depth_step(before, leaves@, orig, t as int, n as int);
        }
        t = t - 1;
    }
    proof {
        reveal(partial_depths_ok);
        reveal(internal_depths_ok);
    }
}

/// What scanning the internal nodes of one depth shows: the node it stopped at is one deeper,
/// and the nodes of the depth, children of those one level up, are at most twice as many.
proof fn lemma_after_scan(
    dep: Seq<Node>,
    parents: Seq<Node>,
    n: int,
    root: int,
    root0: int,
    depth: int,
    prev_used: int,
)
    requires
        2 <= n,
        dep.len() == n,
        parents.len() == n,
        parent_links(parents),
        links_ordered(parents, n - 2),
        internal_depths_ok(dep, parents, n),
        -1 <= root <= root0 <= n - 2,
        forall|i: int| root < i <= root0 ==> #[trigger] dep[i].value == depth,
        root >= 0 ==> dep[root].value != depth,
        root0 >= 0 ==> dep[root0].value == depth,
        forall|i: int| root0 < i <= n - 2 ==> #[trigger] dep[i].value < depth,
        depth == 0 ==> root0 == n - 2,
        depth >= 1 ==> 0 <= prev_used && root0 + prev_used <= n - 2,
        depth >= 1 ==> forall|i: int| root0 < i <= root0 + prev_used ==> #[trigger] dep[i].value == depth - 1,
        depth >= 1 ==> (root0 + prev_used == n - 2 || dep[root0 + prev_used + 1].value < depth - 1),
    ensures
        root >= 0 ==> dep[root].value == depth + 1,
        depth >= 1 ==> root0 - root <= 2 * prev_used,
        depth == 0 ==> root0 - root == 1,
        root0 - root > 0 ==> depth <= n - 2,
{
    reveal(internal_depths_ok);
    if root >= 0 {
        assert(dep[root].value >= dep[root + 1].value);
        assert(dep[root].value <= dep[root + 1].value + 1);
        if root == root0 {
            if root0 < n - 2 {
                assert(dep[root0 + 1].value < depth);
            }
        }
    }
    if depth == 0 {
        if root < n - 3 {
            let q = n - 3;
            assert(dep[q].value == dep[parents[q].value as int].value + 1);
            assert(dep[q].value >= 1);
        }
    }
    if depth >= 1 && root0 - root > 0 {
        lemma_scan_children(dep, parents, n, root, root0, depth, prev_used);
    }
    if root0 - root > 0 {
        assert(dep[root0].value <= n - 2 - root0);
    }
}

/// The nodes of one depth, children of those one level up, are at most twice as many.
proof fn lemma_scan_children(
    dep: Seq<Node>,
    parents: Seq<Node>,
    n: int,
    root: int,
    root0: int,
    depth: int,
    prev_used: int,
)
    requires
        2 <= n,
        dep.len() == n,
        parents.len() == n,
        parent_links(parents),
        links_ordered(parents, n - 2),
        internal_depths_ok(dep, parents, n),
        -1 <= root < root0 <= n - 2,
        forall|i: int| root < i <= root0 ==> #[trigger] dep[i].value == depth,
        depth >= 1,
        0 <= prev_used,
        root0 + prev_used <= n - 2,
        forall|i: int| root0 < i <= root0 + prev_used ==> #[trigger] dep[i].value == depth - 1,
        root0 + prev_used == n - 2 || dep[root0 + prev_used + 1].value < depth - 1,
    ensures
        root0 - root <= 2 * prev_used,
{
    reveal(internal_depths_ok);
    assert(root0 < n - 2) by {
        assert(dep[n - 2].value == 0);
    }
    assert forall|i: int| root + 1 <= i <= root0 implies root0 + 1 <= #[trigger] parents[i].value <= root0
        + prev_used by {
        let p = parents[i].value as int;
        assert(dep[i].value == dep[p].value + 1);
        assert(i < p <= n - 2);
        if p > root0 + prev_used {
            if root0 + prev_used < n - 2 {
                assert(dep[root0 + prev_used + 1].value >= dep[p].value);
            }
        }
    }
    lemma_children_fit(parents, n - 2, root + 1, root0, root0 + 1, root0 + prev_used);
}

/// Where no slot is left at a depth below the internal nodes scanned, no internal node is left.
proof fn lemma_scan_done(dep: Seq<Node>, parents: Seq<Node>, n: int, root: int, depth: int, prev_used: int)
    requires
        2 <= n,
        dep.len() == n,
        internal_depths_ok(dep, parents, n),
        -1 <= root <= n - 2,
        root >= 0 ==> dep[root].value == depth,
        depth >= 1,
        prev_used == 0,
        root + prev_used <= n - 2,
        root + prev_used == n - 2 || dep[root + prev_used + 1].value < depth - 1,
    ensures
        root == -1,
{
    reveal(internal_depths_ok);
    if root >= 0 {
        if root < n - 2 {
            assert(dep[root].value <= dep[root + 1].value + 1);
        }
    }
}

/// Give the leaves, heaviest first, the depths the tree of the internal depths has room for.
#[verifier::spinoff_prover]
fn leaf_depths(leaves: &mut [Node], Ghost(parents): Ghost<Seq<Node>>)
    requires
        2 <= old(leaves)@.len() <= 65536,
        parents.len() == old(leaves)@.len(),
        parent_links(parents),
        links_ordered(parents, parents.len() - 2),
        internal_depths_ok(old(leaves)@, parents, old(leaves)@.len() as int),
    ensures
        same_symbols(old(leaves)@, final(leaves)@),
        forall|i: int| 0 <= i < final(leaves)@.len() ==> 1 <= #[trigger] final(leaves)@[i].value < final(leaves)@.len(),
        kraft_sum(final(leaves)@, 0, final(leaves)@.len() as int, final(leaves)@.len() as int) == p2(
            final(leaves)@.len() as int,
        ),
        old(leaves)@.len() == 2 || (old(leaves)@.len() >= 3 && old(leaves)@[old(leaves)@.len() - 3].value == 1
            && (old(leaves)@.len() >= 4 ==> old(leaves)@[old(leaves)@.len() - 4].value >= 2))
            ==> final(leaves)@[old(leaves)@.len() - 1].value == 1,
{
    let n = leaves.len();
    let ghost dep = leaves@;
    let ghost k = n as int;
    let ghost c = n == 2 || (n >= 3 && dep[n - 3].value == 1 && (n >= 4 ==> dep[n - 4].value >= 2));
    let mut available: usize = 1;
    let mut used: usize = 0;
    let mut depth: WeightType = 0;
    let mut root: isize = n as isize - 2;
    let mut next: isize = n as isize - 1;
    let ghost mut prev_used: int = 0;
    proof {
        reveal(internal_depths_ok);
        vstd::arithmetic::power2::lemma_pow2_pos(k as nat);
    }
    while available > 0
        invariant
            n == leaves@.len(),
            n == dep.len(),
            n == parents.len(),
            k == n,
            2 <= n <= 65536,
            parent_links(parents),
            links_ordered(parents, n - 2),
            internal_depths_ok(dep, parents, n as int),
            -1 <= root <= n - 2,
            used == 0,
            next == available + root,
            next <= n - 1,
            forall|i: int| 0 <= i <= root ==> #[trigger] leaves@[i] == dep[i],
            root >= 0 ==> dep[root as int].value == depth,
            forall|i: int| root < i <= n - 2 ==> #[trigger] dep[i].value < depth,
            depth == 0 ==> available == 1 && root == n - 2,
            depth >= 1 ==> available == 2 * prev_used && prev_used >= 0 && root + prev_used <= n - 2,
            depth >= 1 ==> forall|i: int| root < i <= root + prev_used ==> #[trigger] dep[i].value == depth - 1,
            depth >= 1 ==> (root + prev_used == n - 2 || dep[root + prev_used + 1].value < depth - 1),
            depth <= n,
            available > 0 ==> depth <= n - 1,
            kraft_sum(leaves@, next + 1, n as int, k) + available * p2(k - depth) == p2(k),
            forall|j: int| next < j < n ==> 1 <= #[trigger] leaves@[j].value < depth,
            same_symbols(dep, leaves@),
            c == (n == 2 || (n >= 3 && dep[n - 3].value == 1 && (n >= 4 ==> dep[n - 4].value >= 2))),
            c && depth <= 1 ==> next == n - 1,
            c && depth == 1 ==> available == 2 && root == n - 3,
            c && depth >= 2 ==> leaves@[n - 1].value == 1 && next < n - 1,
        decreases root + 1, available,
    {
        let ghost root0 = root;
        while root >= 0 && leaves[root as usize].value == depth
            invariant
                n == leaves@.len(),
                n == dep.len(),
                -1 <= root <= root0,
                root0 <= n - 2,
                used + root == root0,
                forall|i: int| 0 <= i <= root0 ==> #[trigger] leaves@[i] == dep[i],
                forall|i: int| root < i <= root0 ==> #[trigger] dep[i].value == depth,
                c == (n == 2 || (n >= 3 && dep[n - 3].value == 1 && (n >= 4 ==> dep[n - 4].value >= 2))),
                c && depth == 0 ==> root0 == n - 2 && root >= n - 3,
                c && depth == 1 ==> root0 == n - 3 && root >= n - 4,
            decreases root + 1,
        {
            used = used + 1;
            root = root - 1;
        }
        proof {
            lemma_after_scan(dep, parents, n as int, root as int, root0 as int, depth as int, prev_used);
        }
        while available > used
            invariant
                n == leaves@.len(),
                -1 <= root,
                next == available + root + used,
                used <= available,
                next <= n - 1,
                forall|i: int| 0 <= i <= root ==> #[trigger] leaves@[i] == dep[i],
                kraft_sum(leaves@, next + 1, n as int, k) + available * p2(k - depth) == p2(k),
                forall|j: int| next < j < n ==> 1 <= #[trigger] leaves@[j].value <= depth,
                depth >= 1 || available == used,
                same_symbols(dep, leaves@),
                depth <= n - 1,
                k == n,
                c && depth == 0 ==> next == n - 1,
                c && depth == 1 ==> (next == n - 1 && available == 2) || (leaves@[n - 1].value == 1 && next < n - 1),
                c && depth == 1 ==> used <= 1,
                c && depth >= 2 ==> leaves@[n - 1].value == 1 && next < n - 1,
            decreases available,
        {
            let ghost before = leaves@;
            leaves[next as usize].value = depth;
            proof {
                lemma_kraft_frame(before, leaves@, next + 1, n as int, k);
                assert(kraft_sum(leaves@, next as int, n as int, k) == p2(k - depth) + kraft_sum(
                    leaves@,
                    next + 1,
                    n as int,
                    k,
                ));
                assert((available - 1) * p2(k - depth) == available * p2(k - depth) - p2(k - depth)) by (
                nonlinear_arith);
            }
            next = next - 1;
            available = available - 1;
        }
        let ghost kr = kraft_sum(leaves@, next + 1, n as int, k);
        proof {
            assert(available == used);
            assert(kr + used * p2(k - depth) == p2(k));
            if used > 0 {
                vstd::arithmetic::power2::lemma_pow2_unfold((k - depth) as nat);
                assert(used * p2(k - depth) == (2 * used) * p2(k - (depth + 1))) by (nonlinear_arith)
                    requires
                        p2(k - depth) == 2 * p2(k - (depth + 1)),
                ;
            } else {
                let a = p2(k - depth);
                let b = p2(k - (depth + 1));
                assert(used * a == 0 && (2 * used) * b == 0) by (nonlinear_arith)
                    requires
                        used == 0,
                ;
            }
            assert(kr + (2 * used) * p2(k - (depth + 1)) == p2(k));
            prev_used = used as int;
        }
        available = 2 * used;
        depth = depth + 1;
        used = 0;
        proof {
            assert(available as int == 2 * prev_used);
            assert(kraft_sum(leaves@, next + 1, n as int, k) + available * p2(k - depth) == p2(k));
        }
    }
    proof {
        lemma_scan_done(dep, parents, n as int, root as int, depth as int, prev_used);
    }
}

/// The second pass: turn the parent links into depths of the internal nodes, and then give
/// the leaves, heaviest first, the depths a tree of that shape has room for.
fn step_2(leaves: &mut [Node])
    requires
        2 <= old(leaves)@.len() <= 65536,
        parent_links(old(leaves)@),
        links_ordered(old(leaves)@, old(leaves)@.len() - 2),
    ensures
        same_symbols(old(leaves)@, final(leaves)@),
        forall|i: int| 0 <= i < final(leaves)@.len() ==> 1 <= #[trigger] final(leaves)@[i].value < final(leaves)@.len(),
        kraft_sum(final(leaves)@, 0, final(leaves)@.len() as int, final(leaves)@.len() as int) == p2(
            final(leaves)@.len() as int,
        ),
        old(leaves)@.len() == 2 || (old(leaves)@.len() >= 3 && forall|i: int|
            0 <= i < old(leaves)@.len() - 3 ==> #[trigger] old(leaves)@[i].value < old(leaves)@.len() - 2)
            ==> final(leaves)@[old(leaves)@.len() - 1].value == 1,
{
    let ghost parents = leaves@;
    let ghost n = parents.len() as int;
    internal_depths(leaves);
    proof {
        let dep = leaves@;
        if n >= 3 && forall|i: int| 0 <= i < n - 3 ==> #[trigger] parents[i].value < n - 2 {
            reveal(internal_depths_ok);
            assert(parents[n - 3].value == n - 2);
            assert(dep[n - 3].value == dep[n - 2].value + 1);
            if n >= 4 {
                assert(parents[n - 4].value < n - 2);
                assert(parents[n - 4].value == n - 3);
                assert(dep[n - 4].value == dep[n - 3].value + 1);
            }
        }
    }
    leaf_depths(leaves, Ghost(parents));
}


const MAX_NUMBER_OF_CODES: usize = 32;
const NUM_CODES_LENGTH: usize = 33;

/// `2^e` for the small exponents code lengths use.
pub open spec fn p2(e: int) -> int {
    vstd::arithmetic::power2::pow2(e as nat) as int
}

/// The Kraft sum of the code counts `nc[lo..hi]`, scaled by `2^max_len`: a code of length `i`
/// counts `2^(max_len - i)`.
pub open spec fn ksum(nc: Seq<u16>, max_len: int, lo: int, hi: int) -> int
    decreases hi - lo,
{
    if lo >= hi {
        0
    } else {
        nc[lo] * p2(max_len - lo) + ksum(nc, max_len, lo + 1, hi)
    }
}

/// The number of codes with a length in `lo..hi`.
pub open spec fn count_codes(nc: Seq<u16>, lo: int, hi: int) -> int
    decreases hi - lo,
{
    if lo >= hi {
        0
    } else {
        nc[lo] + count_codes(nc, lo + 1, hi)
    }
}

/// The code counts with every code longer than `max_len` made `max_len` long.
pub open spec fn merged(nc: Seq<u16>, max_len: int) -> Seq<u16> {
    nc.update(max_len, (nc[max_len] + count_codes(nc, max_len + 1, nc.len() as int)) as u16)
}

/// What limiting the code lengths needs: the longer codes fit in 16 bits once merged, the
/// merged counts over-fill the code space (by at most the number of longest codes), and
/// there are not too many codes.
pub open spec fn limit_ok(nc: Seq<u16>, max_len: int) -> bool {
    let m = merged(nc, max_len);
    &&& nc[max_len] + count_codes(nc, max_len + 1, nc.len() as int) <= u16::MAX
    &&& count_codes(m, 1, max_len + 1) <= 65533
    &&& ksum(m, max_len, 1, max_len + 1) >= p2(max_len)
    &&& m[max_len] >= ksum(m, max_len, 1, max_len + 1) - p2(max_len)
}

proof fn lemma_p2_bounds(e: int)
    requires
        0 <= e <= 15,
    ensures
        1 <= p2(e) <= 32768,
        e <= 14 ==> p2(e) <= 16384,
        e >= 1 ==> p2(e) == 2 * p2(e - 1),
        p2(0) == 1,
        p2(15) == 32768,
{
    vstd::arithmetic::power2::lemma2_to64();
    vstd::arithmetic::power2::lemma_pow2_pos(e as nat);
    if e < 15 {
        vstd::arithmetic::power2::lemma_pow2_strictly_increases(e as nat, 15);
    }
    if e < 14 {
        vstd::arithmetic::power2::lemma_pow2_strictly_increases(e as nat, 14);
    }
    if e >= 1 {
        vstd::arithmetic::power2::lemma_pow2_unfold(e as nat);
    }
}

proof fn lemma_ksum_update(nc: Seq<u16>, max_len: int, lo: int, hi: int, k: int, v: u16)
    requires
        0 <= lo,
        hi <= nc.len(),
        lo <= k < hi,
    ensures
        ksum(nc.update(k, v), max_len, lo, hi) == ksum(nc, max_len, lo, hi) + (v - nc[k]) * p2(max_len - k),
    decreases hi - lo,
{
    if lo < k {
        lemma_ksum_update(nc, max_len, lo + 1, hi, k, v);
    } else {
        lemma_ksum_same(nc, nc.update(k, v), max_len, lo + 1, hi);
        let p = p2(max_len - k);
        assert(v * p - nc[k] * p == (v - nc[k]) * p) by (nonlinear_arith);
    }
}

proof fn lemma_ksum_same(a: Seq<u16>, b: Seq<u16>, max_len: int, lo: int, hi: int)
    requires
        forall|i: int| lo <= i < hi ==> a[i] == b[i],
    ensures
        ksum(a, max_len, lo, hi) == ksum(b, max_len, lo, hi),
        count_codes(a, lo, hi) == count_codes(b, lo, hi),
    decreases hi - lo,
{
    if lo < hi {
        lemma_ksum_same(a, b, max_len, lo + 1, hi);
    }
}

proof fn lemma_count_update(nc: Seq<u16>, lo: int, hi: int, k: int, v: u16)
    requires
        0 <= lo,
        hi <= nc.len(),
        lo <= k < hi,
    ensures
        count_codes(nc.update(k, v), lo, hi) == count_codes(nc, lo, hi) + v - nc[k],
    decreases hi - lo,
{
    if lo < k {
        lemma_count_update(nc, lo + 1, hi, k, v);
    } else {
        lemma_ksum_same(nc, nc.update(k, v), 0, lo + 1, hi);
    }
}

/// Each count is at most the number of codes.
proof fn lemma_count_bound(nc: Seq<u16>, lo: int, hi: int, k: int)
    requires
        lo <= k < hi,
    ensures
        nc[k] <= count_codes(nc, lo, hi),
        count_codes(nc, lo, hi) >= 0,
    decreases hi - lo,
{
    if lo < k {
        lemma_count_bound(nc, lo + 1, hi, k);
    } else {
        lemma_count_nonneg(nc, lo + 1, hi);
    }
}

proof fn lemma_count_nonneg(nc: Seq<u16>, lo: int, hi: int)
    ensures
        count_codes(nc, lo, hi) >= 0,
    decreases hi - lo,
{
    if lo < hi {
        lemma_count_nonneg(nc, lo + 1, hi);
    }
}

/// The scaled Kraft sum of codes no shorter than 1 is at most their number times `2^(max-1)`.
proof fn lemma_ksum_bound(nc: Seq<u16>, max_len: int, lo: int, hi: int)
    requires
        1 <= lo,
        hi <= max_len + 1,
        max_len <= 15,
    ensures
        0 <= ksum(nc, max_len, lo, hi) <= count_codes(nc, lo, hi) * 16384,
    decreases hi - lo,
{
    if lo < hi {
        lemma_ksum_bound(nc, max_len, lo + 1, hi);
        lemma_p2_bounds(max_len - lo);
        lemma_p2_bounds(14);
        assert(nc[lo] * p2(max_len - lo) <= nc[lo] * 16384) by (nonlinear_arith)
            requires
                p2(max_len - lo) <= 16384,
                nc[lo] >= 0,
        ;
        assert(nc[lo] * p2(max_len - lo) >= 0) by (nonlinear_arith)
            requires
                p2(max_len - lo) >= 1,
                nc[lo] >= 0,
        ;
    }
}

/// When no code is shorter than the longest allowed one, the Kraft sum is the count.
proof fn lemma_ksum_only_max(nc: Seq<u16>, max_len: int, lo: int)
    requires
        1 <= lo <= max_len,
        forall|i: int| lo <= i < max_len ==> nc[i] == 0,
    ensures
        ksum(nc, max_len, lo, max_len + 1) == nc[max_len],
        count_codes(nc, lo, max_len + 1) == nc[max_len],
    decreases max_len - lo,
{
    reveal_with_fuel(ksum, 2);
    reveal_with_fuel(count_codes, 2);
    lemma_p2_bounds(0);
    if lo < max_len {
        lemma_ksum_only_max(nc, max_len, lo + 1);
        assert(nc[lo] * p2(max_len - lo) == 0);
    } else {
        let x = nc[max_len] as int;
        assert(x * p2(0) == x) by (nonlinear_arith)
            requires
                p2(0) == 1,
        ;
    }
}

/// Checks if any of the lengths exceed `max_len`, and if that is the case, alters the length
/// table so that no codes exceed `max_len`.
/// This follows miniz (which is released as public domain by Rich Geldreich
/// https://github.com/richgel999/miniz/blob/master/miniz.c)
///
/// This will not generate optimal (minimim-redundancy) codes, however in most cases
/// this won't make a large difference.
#[verifier::spinoff_prover]
pub fn enforce_max_code_lengths(num_codes: &mut [u16; 33], num_used: usize, max_len: usize)
    requires
        1 <= max_len <= 15,
        num_used > 1 ==> limit_ok(old(num_codes)@, max_len as int),
    ensures
        num_used <= 1 ==> final(num_codes)@ == old(num_codes)@,
        num_used > 1 ==> {
            let m = merged(old(num_codes)@, max_len as int);
            &&& ksum(final(num_codes)@, max_len as int, 1, max_len + 1) == p2(max_len as int)
            &&& count_codes(final(num_codes)@, 1, max_len + 1) <= count_codes(m, 1, max_len + 1)
            &&& count_codes(m, 1, max_len + 1) <= p2(max_len as int) ==> count_codes(
                final(num_codes)@,
                1,
                max_len + 1,
            ) == count_codes(m, 1, max_len + 1)
            &&& ksum(m, max_len as int, 1, max_len + 1) == p2(max_len as int) ==> final(num_codes)@ == m
            &&& final(num_codes)@[0] == old(num_codes)@[0]
            &&& forall|q: int| max_len < q < 33 ==> final(num_codes)@[q] == old(num_codes)@[q]
        },
{
    if num_used <= 1 {
        return;
    }
    let ghost orig = num_codes@;
    let mut num_above_max = 0u16;
    let mut j = max_len + 1;
    while j < NUM_CODES_LENGTH
        invariant
            1 <= max_len <= 15,
            max_len + 1 <= j <= 33,
            num_codes@ == orig,
            limit_ok(orig, max_len as int),
            num_above_max + count_codes(orig, j as int, 33) == count_codes(orig, max_len + 1, 33),
        decreases 33 - j,
    {
        proof {
            lemma_count_nonneg(orig, j + 1, 33);
            lemma_count_nonneg(orig, max_len + 1, 33);
        }
        num_above_max = num_above_max + num_codes[j];
        j = j + 1;
    }
    num_codes[max_len] = num_codes[max_len] + num_above_max;
    proof {
        assert(num_codes@ =~= merged(orig, max_len as int));
    }
    let ghost m = num_codes@;
    let mut total = 0u32;
    let mut i = max_len;
    proof {
        lemma_p2_bounds(max_len as int);
        lemma_ksum_bound(m, max_len as int, 1, max_len + 1);
    }
    while i >= 1
        invariant
            1 <= max_len <= 15,
            i <= max_len,
            num_codes@ == m,
            limit_ok(orig, max_len as int),
            m == merged(orig, max_len as int),
            total == ksum(m, max_len as int, i + 1, max_len + 1),
        decreases i,
    {
        proof {
            lemma_ksum_bound(m, max_len as int, i as int, max_len + 1);
            lemma_ksum_bound(m, max_len as int, 1, max_len + 1);
            lemma_count_nonneg(m, 1, i as int);
            assert(count_codes(m, 1, max_len + 1) == count_codes(m, 1, i as int) + count_codes(m, i as int, max_len
                + 1)) by {
                lemma_count_split(m, 1, i as int, max_len + 1);
            }
            lemma_p2_bounds(max_len - i);
            vstd::arithmetic::power2::lemma2_to64();
            vstd::bits::lemma_u32_shl_is_mul(num_codes[i as int] as u32, (max_len - i) as u32);
        }
        total = total + ((num_codes[i] as u32) << (max_len - i) as u32);
        i = i - 1;
    }
    let ghost c0 = count_codes(m, 1, max_len + 1);
    proof {
        lemma_p2_bounds(max_len as int);
        vstd::arithmetic::power2::lemma2_to64();
        vstd::bits::lemma_u32_shl_is_mul(1u32, max_len as u32);
    }
    // 32 bits are sufficient, as max_len won't be longer than 15 anyhow.
    while total != 1u32 << max_len as u32
        invariant
            1 <= max_len <= 15,
            total == ksum(num_codes@, max_len as int, 1, max_len + 1),
            total >= p2(max_len as int),
            p2(max_len as int) == (1u32 << max_len as u32),
            num_codes@[max_len as int] >= total - p2(max_len as int),
            count_codes(num_codes@, 1, max_len + 1) <= c0,
            c0 <= 65533,
            c0 <= p2(max_len as int) ==> count_codes(num_codes@, 1, max_len + 1) == c0,
            ksum(m, max_len as int, 1, max_len + 1) == p2(max_len as int) ==> num_codes@ == m,
            m == merged(orig, max_len as int),
            num_codes@[0] == orig[0],
            forall|q: int| max_len < q < 33 ==> num_codes@[q] == orig[q],
        decreases total,
    {
        let ghost s0 = num_codes@;
        num_codes[max_len] = num_codes[max_len] - 1;
        proof {
            lemma_ksum_update(s0, max_len as int, 1, max_len + 1, max_len as int, num_codes[max_len as int]);
            lemma_count_update(s0, 1, max_len + 1, max_len as int, num_codes[max_len as int]);
            lemma_p2_bounds(0);
            let d = num_codes@[max_len as int] - s0[max_len as int];
            assert(d * p2(0) == -1) by (nonlinear_arith)
                requires
                    d == -1,
                    p2(0) == 1,
            ;
            assert(num_codes@ =~= s0.update(max_len as int, num_codes@[max_len as int]));
        }
        let mut k = max_len - 1;
        let mut found = false;
        while k >= 1
            invariant_except_break
                !found,
                num_codes@ == s0.update(max_len as int, (s0[max_len as int] - 1) as u16),
                forall|q: int| k < q < max_len ==> num_codes@[q] == 0,
                count_codes(num_codes@, 1, max_len + 1) == count_codes(s0, 1, max_len + 1) - 1,
                ksum(num_codes@, max_len as int, 1, max_len + 1) == ksum(s0, max_len as int, 1, max_len + 1) - 1,
            invariant
                1 <= max_len <= 15,
                k < max_len,
                s0.len() == 33,
                s0[max_len as int] >= 1,
                count_codes(s0, 1, max_len + 1) <= 65533,
                num_codes@.len() == 33,
                forall|q: int| (q == 0 || max_len < q < 33) ==> num_codes@[q] == s0[q],
            ensures
                !found ==> forall|q: int| 1 <= q < max_len ==> num_codes@[q] == 0,
                !found ==> count_codes(num_codes@, 1, max_len + 1) == count_codes(s0, 1, max_len + 1) - 1,
                !found ==> ksum(num_codes@, max_len as int, 1, max_len + 1) == ksum(s0, max_len as int, 1, max_len + 1) - 1,
                !found ==> num_codes@[max_len as int] == s0[max_len as int] - 1,
                found ==> ksum(num_codes@, max_len as int, 1, max_len + 1) == ksum(s0, max_len as int, 1, max_len + 1) - 1,
                found ==> count_codes(num_codes@, 1, max_len + 1) == count_codes(s0, 1, max_len + 1),
                found ==> num_codes@[max_len as int] >= s0[max_len as int] - 1,
            decreases k, if found { 0int } else { 1int },
        {
            if num_codes[k] != 0 {
                let ghost s1 = num_codes@;
                proof {
                    lemma_count_bound(s1, 1, max_len + 1, k + 1);
                }
                num_codes[k] = num_codes[k] - 1;
                let ghost s2 = num_codes@;
                num_codes[k + 1] = num_codes[k + 1] + 2;
                proof {
                    lemma_ksum_update(s1, max_len as int, 1, max_len + 1, k as int, s2[k as int]);
                    lemma_count_update(s1, 1, max_len + 1, k as int, s2[k as int]);
                    lemma_ksum_update(s2, max_len as int, 1, max_len + 1, k + 1, num_codes@[k + 1]);
                    lemma_count_update(s2, 1, max_len + 1, k + 1, num_codes@[k + 1]);
                    lemma_p2_bounds(max_len - k);
                    let pk = p2(max_len - k);
                    let pk1 = p2(max_len - k - 1);
                    let d1 = s2[k as int] - s1[k as int];
                    let d2 = num_codes@[k + 1] - s2[k + 1];
                    assert(d1 * pk == -pk) by (nonlinear_arith)
                        requires
                            d1 == -1,
                    ;
                    assert(d2 * pk1 == 2 * pk1) by (nonlinear_arith)
                        requires
                            d2 == 2,
                    ;
                    assert(s2 =~= s1.update(k as int, s2[k as int]));
                    assert(num_codes@ =~= s2.update(k + 1, num_codes@[k + 1]));
                    assert(count_codes(s1, 1, max_len + 1) == count_codes(s0, 1, max_len + 1) - 1);
                    assert(count_codes(s2, 1, max_len + 1) == count_codes(s1, 1, max_len + 1) - 1);
                    assert(count_codes(num_codes@, 1, max_len + 1) == count_codes(s2, 1, max_len + 1) + 2);
                }
                found = true;
                break;
            }
            k = k - 1;
        }
        proof {
            if !found {
                lemma_ksum_only_max(num_codes@, max_len as int, 1);
            }
        }
        total = total - 1;
    }
}

proof fn lemma_count_split(nc: Seq<u16>, a: int, b: int, c: int)
    requires
        a <= b <= c,
    ensures
        count_codes(nc, a, c) == count_codes(nc, a, b) + count_codes(nc, b, c),
    decreases b - a,
{
    if a < b {
        lemma_count_split(nc, a + 1, b, c);
    }
}



/// The share of the code space, scaled by `2^max_len`, of a code of length `d` once no code
/// is longer than `max_len`.
pub open spec fn capped_share(d: int, max_len: int) -> int {
    if d <= max_len {
        p2(max_len - d)
    } else {
        1
    }
}

/// The shares of the depths held by the nodes `lo..hi`, each made at most `max_len`.
pub closed spec fn capped_sum(s: Seq<Node>, lo: int, hi: int, max_len: int) -> int
    decreases hi - lo,
{
    if hi <= lo {
        0
    } else {
        capped_share(s[lo].value as int, max_len) + capped_sum(s, lo + 1, hi, max_len)
    }
}

/// How many of the nodes `lo..hi` hold a depth above `max_len`.
pub closed spec fn count_over(s: Seq<Node>, lo: int, hi: int, max_len: int) -> int
    decreases hi - lo,
{
    if hi <= lo {
        0
    } else {
        (if s[lo].value > max_len { 1int } else { 0int }) + count_over(s, lo + 1, hi, max_len)
    }
}

proof fn lemma_count_over_bound(s: Seq<Node>, lo: int, hi: int, max_len: int)
    requires
        lo <= hi,
    ensures
        0 <= count_over(s, lo, hi, max_len) <= hi - lo,
    decreases hi - lo,
{
    if lo < hi {
        lemma_count_over_bound(s, lo + 1, hi, max_len);
    }
}

/// A complete code whose depths are capped at `max_len` over-fills the capped code space, and
/// by no more than the number of depths that were capped.
proof fn lemma_capped_kraft(s: Seq<Node>, lo: int, hi: int, n: int, max_len: int)
    requires
        0 <= lo <= hi <= s.len(),
        0 <= max_len,
        forall|j: int| lo <= j < hi ==> 1 <= #[trigger] s[j].value < n,
    ensures
        p2(n) * capped_sum(s, lo, hi, max_len) >= p2(max_len) * kraft_sum(s, lo, hi, n),
        p2(n) * capped_sum(s, lo, hi, max_len) - p2(max_len) * kraft_sum(s, lo, hi, n) <= p2(n)
            * count_over(s, lo, hi, max_len),
    decreases hi - lo,
{
    if lo < hi {
        lemma_capped_kraft(s, lo + 1, hi, n, max_len);
        let d = s[lo].value as int;
        let a = p2(n);
        let b = p2(max_len);
        let c1 = capped_sum(s, lo + 1, hi, max_len);
        let k1 = kraft_sum(s, lo + 1, hi, n);
        let o1 = count_over(s, lo + 1, hi, max_len);
        let sh = capped_share(d, max_len);
        let pk = p2(n - d);
        // The share of this depth, against its part of the complete code.
        assert(a * sh >= b * pk && a * sh - b * pk <= a * (if d > max_len { 1int } else { 0int })) by {
            if d <= max_len {
                vstd::arithmetic::power2::lemma_pow2_adds(n as nat, (max_len - d) as nat);
                vstd::arithmetic::power2::lemma_pow2_adds(max_len as nat, (n - d) as nat);
            } else {
                vstd::arithmetic::power2::lemma_pow2_adds(max_len as nat, (n - d) as nat);
                vstd::arithmetic::power2::lemma_pow2_strictly_increases((max_len + n - d) as nat, n as nat);
                vstd::arithmetic::power2::lemma_pow2_pos((max_len + n - d) as nat);
            }
        }
        assert(a * (sh + c1) == a * sh + a * c1) by (nonlinear_arith);
        assert(b * (pk + k1) == b * pk + b * k1) by (nonlinear_arith);
        let ov = if d > max_len { 1int } else { 0int };
        assert(a * (ov + o1) == a * ov + a * o1) by (nonlinear_arith);
    }
}

/// The counts of the code lengths of the leaves, with lengths above 32 counted as 32.
fn count_lengths(leaves: &Vec<Node>, Ghost(max_len): Ghost<int>) -> (r: [u16; 33])
    requires
        leaves@.len() <= 65535,
        1 <= max_len <= 15,
        forall|i: int| 0 <= i < leaves@.len() ==> 1 <= #[trigger] leaves@[i].value,
    ensures
        count_codes(r@, 0, 33) == leaves@.len(),
        r@[0] == 0,
        count_codes(r@, max_len + 1, 33) == count_over(leaves@, 0, leaves@.len() as int, max_len),
        ksum(r@, max_len, 1, max_len + 1) + count_codes(r@, max_len + 1, 33) == capped_sum(
            leaves@,
            0,
            leaves@.len() as int,
            max_len,
        ),
        forall|q: int| 0 <= q < leaves@.len() && #[trigger] leaves@[q].value == 1 ==> r@[1] >= 1,
{
    let ghost s = leaves@;
    let ghost n = leaves@.len() as int;
    let mut num_codes = [0u16; NUM_CODES_LENGTH];
    let mut j: usize = 0;
    proof {
        assert(num_codes@ =~= Seq::new(33, |i: int| 0u16));
        lemma_count_zero(num_codes@, 0, 33);
        lemma_count_zero(num_codes@, max_len + 1, 33);
        lemma_ksum_zero(num_codes@, max_len, 1, max_len + 1);
    }
    while j < leaves.len()
        invariant
            j <= leaves@.len() <= 65535,
            s == leaves@,
            n == s.len(),
            1 <= max_len <= 15,
            forall|i: int| 0 <= i < n ==> 1 <= #[trigger] s[i].value,
            num_codes@.len() == 33,
            num_codes@[0] == 0,
            count_codes(num_codes@, 0, 33) == j,
            count_codes(num_codes@, max_len + 1, 33) + count_over(s, j as int, n, max_len) == count_over(
                s,
                0,
                n,
                max_len,
            ),
            ksum(num_codes@, max_len, 1, max_len + 1) + count_codes(num_codes@, max_len + 1, 33)
                + capped_sum(s, j as int, n, max_len) == capped_sum(s, 0, n, max_len),
            forall|q: int| 0 <= q < j && #[trigger] s[q].value == 1 ==> num_codes@[1] >= 1,
        decreases leaves@.len() - j,
    {
        let v = leaves[j].value;
        // Lengths this long are made shorter later anyway.
        let d = if v < MAX_NUMBER_OF_CODES as u32 { v as usize } else { MAX_NUMBER_OF_CODES };
        let ghost s0 = num_codes@;
        proof {
            lemma_count_bound(s0, 0, 33, d as int);
        }
        num_codes[d] = num_codes[d] + 1;
        proof {
            let s1 = num_codes@;
            assert(s1 =~= s0.update(d as int, s1[d as int]));
            lemma_count_update(s0, 0, 33, d as int, s1[d as int]);
            if d <= max_len {
                lemma_ksum_update(s0, max_len, 1, max_len + 1, d as int, s1[d as int]);
                lemma_ksum_same(s0, s1, max_len, max_len + 1, 33);
                lemma_p2_bounds(max_len - d);
                assert(d == v);
                let p = p2(max_len - d);
                assert((s1[d as int] - s0[d as int]) * p == p) by (nonlinear_arith)
                    requires
                        s1[d as int] - s0[d as int] == 1,
                ;
                assert(capped_sum(s, j as int, n, max_len) == p + capped_sum(s, j + 1, n, max_len));
            } else {
                assert(capped_sum(s, j as int, n, max_len) == 1 + capped_sum(s, j + 1, n, max_len));
                lemma_count_update(s0, max_len + 1, 33, d as int, s1[d as int]);
                lemma_ksum_same(s0, s1, max_len, 1, max_len + 1);
            }
        }
        j = j + 1;
    }
    num_codes
}

/// The counts of a complete code over at most `2^max_len` symbols meet what limiting the
/// code lengths to `max_len` needs.
proof fn lemma_limit_ok(nc: Seq<u16>, s: Seq<Node>, max_len: int)
    requires
        nc.len() == 33,
        1 <= max_len <= 15,
        2 <= s.len() <= p2(max_len),
        forall|j: int| 0 <= j < s.len() ==> 1 <= #[trigger] s[j].value < s.len(),
        kraft_sum(s, 0, s.len() as int, s.len() as int) == p2(s.len() as int),
        count_codes(nc, 0, 33) == s.len(),
        nc[0] == 0,
        count_codes(nc, max_len + 1, 33) == count_over(s, 0, s.len() as int, max_len),
        ksum(nc, max_len, 1, max_len + 1) + count_codes(nc, max_len + 1, 33) == capped_sum(
            s,
            0,
            s.len() as int,
            max_len,
        ),
    ensures
        limit_ok(nc, max_len),
        count_codes(merged(nc, max_len), 1, max_len + 1) == s.len(),
{
    let n = s.len() as int;
    let m = merged(nc, max_len);
    lemma_p2_bounds(15);
    lemma_p2_bounds(max_len);
    if max_len < 15 {
        vstd::arithmetic::power2::lemma_pow2_strictly_increases(max_len as nat, 15);
    }
    // Every count is part of the total.
    lemma_count_split(nc, 0, max_len, 33);
    lemma_count_nonneg(nc, 0, max_len);
    lemma_count_nonneg(nc, max_len + 1, 33);
    assert(count_codes(nc, max_len, 33) == nc[max_len] + count_codes(nc, max_len + 1, 33));
    lemma_merged_count(nc, max_len);
    lemma_count_split(nc, 0, 1, 33);
    reveal_with_fuel(count_codes, 2);
    // The merged Kraft sum is the capped one.
    lemma_ksum_update(nc, max_len, 1, max_len + 1, max_len, m[max_len]);
    assert(m =~= nc.update(max_len, m[max_len]));
    lemma_p2_bounds(0);
    let c = capped_sum(s, 0, n, max_len);
    let o = count_over(s, 0, n, max_len);
    assert(ksum(m, max_len, 1, max_len + 1) == c) by {
        let diff = (m[max_len] - nc[max_len]) as int;
        assert(diff * p2(0) == diff) by (nonlinear_arith)
            requires
                p2(0) == 1,
        ;
    }
    lemma_capped_kraft(s, 0, n, n, max_len);
    vstd::arithmetic::power2::lemma_pow2_pos(n as nat);
    let a = p2(n);
    let b = p2(max_len);
    assert(c >= b && c - b <= o) by (nonlinear_arith)
        requires
            a > 0,
            a * c >= b * a,
            a * c - b * a <= a * o,
    ;
}

proof fn lemma_ksum_zero(nc: Seq<u16>, max_len: int, lo: int, hi: int)
    requires
        forall|i: int| lo <= i < hi ==> nc[i] == 0,
    ensures
        ksum(nc, max_len, lo, hi) == 0,
    decreases hi - lo,
{
    if lo < hi {
        lemma_ksum_zero(nc, max_len, lo + 1, hi);
    }
}

proof fn lemma_count_zero(nc: Seq<u16>, lo: int, hi: int)
    requires
        forall|i: int| lo <= i < hi ==> nc[i] == 0,
    ensures
        count_codes(nc, lo, hi) == 0,
    decreases hi - lo,
{
    if lo < hi {
        lemma_count_zero(nc, lo + 1, hi);
    }
}

/// Merging the long codes into the longest allowed length keeps their number.
proof fn lemma_merged_count(nc: Seq<u16>, max_len: int)
    requires
        1 <= max_len <= 15,
        nc.len() == 33,
        nc[max_len] + count_codes(nc, max_len + 1, 33) <= u16::MAX,
    ensures
        count_codes(merged(nc, max_len), 1, max_len + 1) == count_codes(nc, 1, 33),
        count_codes(nc, 1, 33) <= count_codes(nc, 0, 33),
{
    let m = merged(nc, max_len);
    lemma_count_nonneg(nc, max_len + 1, 33);
    lemma_count_update(nc, 1, max_len + 1, max_len, m[max_len]);
    lemma_count_split(nc, 1, max_len + 1, 33);
    lemma_count_split(nc, 0, 1, 33);
    reveal_with_fuel(count_codes, 2);
}

/// How many of the first `n` symbols have a nonzero frequency.
pub open spec fn used_count(f: Seq<u16>, n: int) -> int
    decreases n,
{
    if n <= 0 {
        0
    } else {
        used_count(f, n - 1) + (if f[n - 1] > 0 {
            1int
        } else {
            0int
        })
    }
}

/// No more symbols are used than there are.
pub proof fn lemma_used_count_bound(f: Seq<u16>, n: int)
    requires
        0 <= n,
    ensures
        0 <= used_count(f, n) <= n,
    decreases n,
{
    if n > 0 {
        lemma_used_count_bound(f, n - 1);
    }
}

/// The symbols with a nonzero frequency, in order, weighted by their frequency.
fn collect_leaves(frequencies: &[u16]) -> (leaves: Vec<Node>)
    requires
        frequencies@.len() <= 65535,
    ensures
        leaves@.len() <= frequencies@.len(),
        leaves@.len() == used_count(frequencies@, frequencies@.len() as int),
        forall|a: int, b: int| 0 <= a < b < leaves@.len() ==> leaves@[a].symbol < leaves@[b].symbol,
        forall|j: int| 0 <= j < leaves@.len() ==> (#[trigger] leaves@[j]).symbol < frequencies@.len()
            && frequencies@[leaves@[j].symbol as int] > 0 && leaves@[j].value == frequencies@[
            leaves@[j].symbol as int],
        forall|i: int| 0 <= i < frequencies@.len() && frequencies@[i] > 0 ==> exists|j: int| 0 <= j < leaves@.len()
            && (#[trigger] leaves@[j]).symbol == i,
        wsum(leaves@, 0, leaves@.len() as int) == freq_sum(frequencies@, frequencies@.len() as int),
{
    let len = frequencies.len();
    let mut leaves: Vec<Node> = Vec::new();
    let mut n: usize = 0;
    while n < len
        invariant
            n <= len == frequencies@.len() <= 65535,
            leaves@.len() <= n,
            leaves@.len() == used_count(frequencies@, n as int),
            forall|a: int, b: int| 0 <= a < b < leaves@.len() ==> leaves@[a].symbol < leaves@[b].symbol,
            forall|j: int| 0 <= j < leaves@.len() ==> (#[trigger] leaves@[j]).symbol < n && frequencies@[
                leaves@[j].symbol as int] > 0 && leaves@[j].value == frequencies@[leaves@[j].symbol as int],
            forall|i: int| 0 <= i < n && frequencies@[i] > 0 ==> exists|j: int| 0 <= j < leaves@.len() && (#[trigger] leaves@[j]).symbol == i,
            wsum(leaves@, 0, leaves@.len() as int) == freq_sum(frequencies@, n as int),
        decreases len - n,
    {
        let ghost l0 = leaves@;
        if frequencies[n] > 0 {
            leaves.push(Node { value: frequencies[n] as WeightType, symbol: n as u16 });
            proof {
                let k = leaves@.len() - 1;
                assert(leaves@[k].symbol == n);
                lemma_wsum_ext(l0, leaves@, 0, k);
                assert forall|i: int| 0 <= i < n + 1 && frequencies@[i] > 0 implies exists|j: int|
                    0 <= j < leaves@.len() && (#[trigger] leaves@[j]).symbol == i by {
                    if i < n {
                        let j = choose|j: int| 0 <= j < l0.len() && (#[trigger] l0[j]).symbol == i;
                        assert(leaves@[j] == l0[j]);
                    }
                }
            }
        }
        n = n + 1;
    }
    leaves
}

/// The Kraft sum of the code lengths `lens[lo..hi]`, scaled by `2^max_len`; a symbol of length
/// zero has no code and takes no space.
pub open spec fn lengths_kraft(lens: Seq<u8>, max_len: int, lo: int, hi: int) -> int
    decreases hi - lo,
{
    if hi <= lo {
        0
    } else {
        (if lens[lo] == 0 {
            0
        } else {
            p2(max_len - lens[lo])
        }) + lengths_kraft(lens, max_len, lo + 1, hi)
    }
}

proof fn lemma_lengths_kraft_update(lens: Seq<u8>, max_len: int, lo: int, hi: int, q: int, v: u8)
    requires
        0 <= lo <= q < hi <= lens.len(),
    ensures
        lengths_kraft(lens.update(q, v), max_len, lo, hi) == lengths_kraft(lens, max_len, lo, hi) - (if lens[q]
            == 0 {
            0
        } else {
            p2(max_len - lens[q])
        }) + (if v == 0 {
            0
        } else {
            p2(max_len - v)
        }),
    decreases hi - lo,
{
    if lo < q {
        lemma_lengths_kraft_update(lens, max_len, lo + 1, hi, q, v);
    } else {
        lemma_lengths_kraft_same(lens, lens.update(q, v), max_len, lo + 1, hi);
    }
}

proof fn lemma_lengths_kraft_same(a: Seq<u8>, b: Seq<u8>, max_len: int, lo: int, hi: int)
    requires
        forall|i: int| lo <= i < hi ==> a[i] == b[i],
    ensures
        lengths_kraft(a, max_len, lo, hi) == lengths_kraft(b, max_len, lo, hi),
    decreases hi - lo,
{
    if lo < hi {
        lemma_lengths_kraft_same(a, b, max_len, lo + 1, hi);
    }
}

proof fn lemma_lengths_kraft_zero(lens: Seq<u8>, max_len: int, lo: int, hi: int)
    requires
        forall|i: int| lo <= i < hi ==> lens[i] == 0,
    ensures
        lengths_kraft(lens, max_len, lo, hi) == 0,
    decreases hi - lo,
{
    if lo < hi {
        lemma_lengths_kraft_zero(lens, max_len, lo + 1, hi);
    }
}

/// No two of the nodes share a symbol.
pub closed spec fn distinct_symbols(s: Seq<Node>) -> bool {
    forall|a: int, b: int| 0 <= a < s.len() && 0 <= b < s.len() && a != b ==> s[a].symbol != s[b].symbol
}

/// Give the symbols code lengths by the counts: the longest codes to the lightest symbols.
#[verifier::spinoff_prover]
fn assign_lengths(leaves: &Vec<Node>, num_codes: &[u16; 33], max_len: usize, ret: &mut Vec<u8>, frequencies: &[u16])
    requires
        1 <= max_len <= 15,
        count_codes(num_codes@, 1, max_len + 1) == leaves@.len(),
        distinct_symbols(leaves@),
        old(ret)@.len() == frequencies@.len(),
        forall|j: int| 0 <= j < leaves@.len() ==> (#[trigger] leaves@[j]).symbol < frequencies@.len()
            && frequencies@[leaves@[j].symbol as int] > 0,
        forall|q: int| 0 <= q < old(ret)@.len() ==> old(ret)@[q] == 0,
    ensures
        final(ret)@.len() == frequencies@.len(),
        forall|q: int| 0 <= q < final(ret)@.len() ==> final(ret)@[q] <= max_len,
        forall|q: int| 0 <= q < final(ret)@.len() && frequencies@[q] == 0 ==> final(ret)@[q] == 0,
        forall|j: int| 0 <= j < leaves@.len() ==> final(ret)@[(#[trigger] leaves@[j]).symbol as int] >= 1,
        forall|a: int, b: int|
            0 <= a < b < leaves@.len() ==> final(ret)@[leaves@[a].symbol as int] >= final(ret)@[leaves@[b].symbol as int],
        lengths_kraft(final(ret)@, max_len as int, 0, frequencies@.len() as int) == ksum(
            num_codes@,
            max_len as int,
            1,
            max_len + 1,
        ),
        num_codes@[1] >= 1 && leaves@.len() >= 1 ==> final(ret)@[leaves@[leaves@.len() - 1].symbol as int] == 1,
{
    let len = frequencies.len();
    let ghost total = ksum(num_codes@, max_len as int, 1, max_len + 1);
    let mut k = leaves.len();
    let mut i: usize = 1;
    proof {
        lemma_lengths_kraft_zero(ret@, max_len as int, 0, len as int);
    }
    while i <= max_len
        invariant
            1 <= max_len <= 15,
            1 <= i <= max_len + 1,
            k <= leaves@.len(),
            ret@.len() == len,
            len == frequencies@.len(),
            k == count_codes(num_codes@, i as int, max_len + 1),
            total == ksum(num_codes@, max_len as int, 1, max_len + 1),
            lengths_kraft(ret@, max_len as int, 0, len as int) + ksum(num_codes@, max_len as int, i as int, max_len
                + 1) == total,
            num_codes@.len() == 33,
            distinct_symbols(leaves@),
            forall|j: int| 0 <= j < leaves@.len() ==> (#[trigger] leaves@[j]).symbol < len && frequencies@[
                leaves@[j].symbol as int] > 0,
            forall|j: int| 0 <= j < k ==> ret@[(#[trigger] leaves@[j]).symbol as int] == 0,
            forall|j: int| k <= j < leaves@.len() ==> ret@[(#[trigger] leaves@[j]).symbol as int] >= 1,
            forall|j: int| k <= j < leaves@.len() ==> ret@[(#[trigger] leaves@[j]).symbol as int] < i,
            forall|a: int, b: int|
                k <= a < b < leaves@.len() ==> ret@[leaves@[a].symbol as int] >= ret@[leaves@[b].symbol as int],
            forall|q: int| 0 <= q < len ==> ret@[q] <= max_len,
            forall|q: int| 0 <= q < len && frequencies@[q] == 0 ==> ret@[q] == 0,
            i >= 2 && num_codes@[1] >= 1 && leaves@.len() >= 1 ==> ret@[leaves@[leaves@.len() - 1].symbol as int] == 1,
            i == 1 ==> k == leaves@.len(),
        decreases max_len + 1 - i,
    {
        let n_codes = num_codes[i];
        let mut c: u16 = 0;
        proof {
            lemma_count_nonneg(num_codes@, i + 1, max_len + 1);
            lemma_p2_bounds(max_len - i);
            let p = p2(max_len - i);
            let x = n_codes as int;
            assert((x - 0) * p == x * p) by (nonlinear_arith);
        }
        while c < n_codes
            invariant
                1 <= i <= max_len <= 15,
                c <= n_codes,
                n_codes == num_codes@[i as int],
                k <= leaves@.len(),
                ret@.len() == len,
                len == frequencies@.len(),
                k == count_codes(num_codes@, i + 1, max_len + 1) + n_codes - c,
                count_codes(num_codes@, i + 1, max_len + 1) >= 0,
                lengths_kraft(ret@, max_len as int, 0, len as int) + ksum(num_codes@, max_len as int, i + 1, max_len
                    + 1) + (n_codes - c) * p2(max_len - i) == total,
                distinct_symbols(leaves@),
                forall|j: int| 0 <= j < leaves@.len() ==> (#[trigger] leaves@[j]).symbol < len && frequencies@[
                    leaves@[j].symbol as int] > 0,
                forall|j: int| 0 <= j < k ==> ret@[(#[trigger] leaves@[j]).symbol as int] == 0,
                forall|j: int| k <= j < leaves@.len() ==> ret@[(#[trigger] leaves@[j]).symbol as int] >= 1,
                forall|j: int| k <= j < leaves@.len() ==> ret@[(#[trigger] leaves@[j]).symbol as int] <= i,
                forall|a: int, b: int|
                    k <= a < b < leaves@.len() ==> ret@[leaves@[a].symbol as int] >= ret@[leaves@[b].symbol as int],
                forall|q: int| 0 <= q < len ==> ret@[q] <= max_len,
                forall|q: int| 0 <= q < len && frequencies@[q] == 0 ==> ret@[q] == 0,
                i >= 2 && num_codes@[1] >= 1 && leaves@.len() >= 1 ==> ret@[leaves@[leaves@.len() - 1].symbol as int]
                    == 1,
                i == 1 ==> k == leaves@.len() - c,
                i == 1 && c >= 1 ==> ret@[leaves@[leaves@.len() - 1].symbol as int] == 1,
            decreases n_codes - c,
        {
            k = k - 1;
            let sym = leaves[k].symbol as usize;
            let ghost r0 = ret@;
            ret.set(sym, i as u8);
            proof {
                assert(r0[sym as int] == 0);
                lemma_lengths_kraft_update(r0, max_len as int, 0, len as int, sym as int, i as u8);
                let p = p2(max_len - i);
                let x = (n_codes - c) as int;
                assert(x * p == (x - 1) * p + p) by (nonlinear_arith);
                assert forall|j: int| 0 <= j < k implies ret@[(#[trigger] leaves@[j]).symbol as int] == 0 by {
                    assert(leaves@[j].symbol != leaves@[k as int].symbol);
                }
                assert forall|j: int| k <= j < leaves@.len() implies ret@[(#[trigger] leaves@[j]).symbol as int]
                    >= 1 && ret@[leaves@[j].symbol as int] <= i by {
                    if j != k {
                        assert(leaves@[j].symbol != leaves@[k as int].symbol);
                    }
                }
                assert forall|a: int, b: int| k <= a < b < leaves@.len() implies ret@[leaves@[a].symbol as int]
                    >= ret@[leaves@[b].symbol as int] by {
                    assert(leaves@[b].symbol != leaves@[k as int].symbol);
                    if a != k {
                        assert(leaves@[a].symbol != leaves@[k as int].symbol);
                    } else {
                        assert(ret@[leaves@[b].symbol as int] == r0[leaves@[b].symbol as int]);
                        assert(r0[(leaves@[b]).symbol as int] <= i);
                    }
                }
            }
            c = c + 1;
        }
        proof {
            let p = p2(max_len - i);
            let x = (n_codes - c) as int;
            assert(x * p == 0) by (nonlinear_arith)
                requires
                    x == 0,
            ;
        }
        i = i + 1;
    }
}

/// The sum of the frequencies `f[0..n]`.
pub open spec fn freq_sum(f: Seq<u16>, n: int) -> int
    decreases n,
{
    if n <= 0 {
        0
    } else {
        freq_sum(f, n - 1) + f[n - 1]
    }
}

/// Symbol `z` outweighs the others: its frequency is more than all the others together, and
/// few enough symbols are in use that no length limit comes into play (at most `max_len + 1`).
/// A minimum-redundancy code gives such a symbol a code of one bit.
pub open spec fn dominant_symbol(f: Seq<u16>, z: int, max_len: int) -> bool {
    &&& 0 <= z < f.len()
    &&& f[z] > 0
    &&& used_count(f, f.len() as int) <= max_len + 1
    &&& 2 * f[z] > freq_sum(f, f.len() as int)
}

/// The weight of the nodes only depends on the weights in the range.
proof fn lemma_wsum_ext(s: Seq<Node>, t: Seq<Node>, a: int, b: int)
    requires
        forall|i: int| a <= i < b ==> s[i].value == t[i].value,
    ensures
        wsum(s, a, b) == wsum(t, a, b),
    decreases b - a,
{
    if b > a {
        lemma_wsum_ext(s, t, a, b - 1);
    }
}

/// Taking a node out takes its weight out of the total.
proof fn lemma_wsum_remove(t: Seq<Node>, i: int)
    requires
        0 <= i < t.len(),
    ensures
        wsum(t, 0, t.len() as int) == wsum(t.remove(i), 0, t.len() - 1) + t[i].value,
    decreases t.len(),
{
    let n = t.len() as int;
    let r = t.remove(i);
    if i == n - 1 {
        lemma_wsum_ext(t, r, 0, n - 1);
    } else {
        lemma_wsum_remove(t.drop_last(), i);
        let r2 = t.drop_last().remove(i);
        lemma_wsum_ext(r2, r, 0, n - 2);
        lemma_wsum_ext(t.drop_last(), t, 0, n - 1);
        assert(r[n - 2] == t[n - 1]);
    }
}

/// Reordering the nodes keeps their total weight.
proof fn lemma_wsum_perm(s: Seq<Node>, t: Seq<Node>)
    requires
        s.to_multiset() == t.to_multiset(),
    ensures
        s.len() == t.len(),
        wsum(s, 0, s.len() as int) == wsum(t, 0, t.len() as int),
    decreases s.len(),
{
    broadcast use vstd::seq_lib::group_to_multiset_ensures;
    if s.len() > 0 {
        let x = s.last();
        let s1 = s.drop_last();
        assert(s1.push(x) == s);
        assert(s.to_multiset() == s1.to_multiset().insert(x));
        assert(t.to_multiset().count(x) > 0);
        assert(t.contains(x));
        let i = choose|i: int| 0 <= i < t.len() && t[i] == x;
        let t1 = t.remove(i);
        assert(t1.to_multiset() == t.to_multiset().remove(x));
        assert(s1.to_multiset() =~= t1.to_multiset());
        lemma_wsum_perm(s1, t1);
        lemma_wsum_remove(t, i);
        lemma_wsum_ext(s1, s, 0, s.len() - 1);
        assert(t1.len() == t.len() - 1);
        assert(wsum(s, 0, s.len() as int) == wsum(s, 0, s.len() - 1) + x.value);
    } else {
        assert(s.to_multiset().len() == s.len());
        assert(t.to_multiset().len() == t.len());
    }
}

/// Two different nodes weigh no more than the total.
proof fn lemma_wsum_two(s: Seq<Node>, p: int, q: int)
    requires
        0 <= p < q < s.len(),
    ensures
        s[p].value + s[q].value <= wsum(s, 0, s.len() as int),
    decreases s.len(),
{
    let n = s.len() as int;
    if q < n - 1 {
        lemma_wsum_two(s.drop_last(), p, q);
        lemma_wsum_ext(s.drop_last(), s, 0, n - 1);
    } else {
        lemma_wsum_elem(s, 0, n - 1, p);
    }
}

/// No depth above `max_len`, nothing to count.
proof fn lemma_count_over_zero(s: Seq<Node>, lo: int, hi: int, max_len: int)
    requires
        forall|j: int| lo <= j < hi ==> #[trigger] s[j].value <= max_len,
    ensures
        count_over(s, lo, hi, max_len) == 0,
    decreases hi - lo,
{
    if lo < hi {
        lemma_count_over_zero(s, lo + 1, hi, max_len);
    }
}

/// The code lengths of at least two symbols with nonzero frequencies.
fn lengths_of_leaves(leaves: Vec<Node>, frequencies: &[u16], max_len: usize) -> (r: Vec<u8>)
    requires
        1 <= max_len <= 15,
        frequencies@.len() <= 65535,
        2 <= leaves@.len() <= frequencies@.len(),
        leaves@.len() <= p2(max_len as int),
        forall|a: int, b: int| 0 <= a < b < leaves@.len() ==> leaves@[a].symbol < leaves@[b].symbol,
        forall|j: int| 0 <= j < leaves@.len() ==> (#[trigger] leaves@[j]).symbol < frequencies@.len()
            && frequencies@[leaves@[j].symbol as int] > 0 && leaves@[j].value == frequencies@[
            leaves@[j].symbol as int],
        forall|i: int| 0 <= i < frequencies@.len() && frequencies@[i] > 0 ==> exists|j: int| 0 <= j < leaves@.len()
            && (#[trigger] leaves@[j]).symbol == i,
        wsum(leaves@, 0, leaves@.len() as int) == freq_sum(frequencies@, frequencies@.len() as int),
    ensures
        forall|z: int|
            0 <= z < frequencies@.len() && frequencies@[z] > 0 && leaves@.len() <= max_len + 1 && 2 * frequencies@[z]
                > freq_sum(frequencies@, frequencies@.len() as int) ==> #[trigger] r@[z] == 1,
        r@.len() == frequencies@.len(),
        forall|i: int| 0 <= i < r@.len() ==> r@[i] <= max_len,
        forall|i: int| 0 <= i < r@.len() && frequencies@[i] == 0 ==> r@[i] == 0,
        forall|j: int| 0 <= j < leaves@.len() ==> r@[(#[trigger] leaves@[j]).symbol as int] >= 1,
        forall|a: int, b: int|
            0 <= a < leaves@.len() && 0 <= b < leaves@.len() && leaves@[a].value < leaves@[b].value
                ==> r@[leaves@[a].symbol as int] >= r@[leaves@[b].symbol as int],
        lengths_kraft(r@, max_len as int, 0, r@.len() as int) == p2(max_len as int),
{
    let len = frequencies.len();
    let mut leaves = leaves;
    let mut ret = vec![0u8; len];
    let ghost filtered = leaves@;
    // Sort the leaves by value. As the sort is stable, we don't have to worry about the symbol
    // code here.
    sort_by_value(&mut leaves);
    proof {
        assert forall|j: int| 0 <= j < leaves@.len() implies (#[trigger] leaves@[j]).symbol < len
            && frequencies@[leaves@[j].symbol as int] > 0 && leaves@[j].value <= 65535 by {
            assert(filtered.contains(leaves@[j]));
            let q = choose|q: int| 0 <= q < filtered.len() && filtered[q] == leaves@[j];
            assert(filtered[q].symbol < len);
        }
        lemma_wsum_bound(leaves@, 0, leaves@.len() as int);
    }
    let ghost sorted = leaves@;
    proof {
        lemma_sorted_symbols(filtered, sorted);
    }
    let ghost n = sorted.len() as int;
    let ghost dom = wsum(sorted, 0, n - 1) < sorted[n - 1].value;
    step_1(leaves.as_mut_slice());
    let ghost l1 = leaves@;
    step_2(leaves.as_mut_slice());
    let ghost l2 = leaves@;
    proof {
        if dom {
            assert(n == 2 || (n >= 3 && forall|i: int| 0 <= i < n - 3 ==> #[trigger] l1[i].value < n - 2));
            assert(l2[n - 1].value == 1);
        }
    }
    proof {
        assert(same_symbols(sorted, leaves@));
        assert forall|j: int| 0 <= j < leaves@.len() implies (#[trigger] leaves@[j]).symbol < len
            && frequencies@[leaves@[j].symbol as int] > 0 by {
            assert(leaves@[j].symbol == sorted[j].symbol);
        }
        assert forall|a: int, b: int| 0 <= a < leaves@.len() && 0 <= b < leaves@.len() && a != b implies
            leaves@[a].symbol != leaves@[b].symbol by {
            assert(leaves@[a].symbol == sorted[a].symbol);
            assert(leaves@[b].symbol == sorted[b].symbol);
        }
    }
    // Count how many codes of each length used, for usage in the next section.
    let mut num_codes = count_lengths(&leaves, Ghost(max_len as int));
    // As the algorithm used here doesn't limit the maximum length that can be generated
    // we need to make sure none of the lengths exceed `max_len`.
    let ghost before = num_codes@;
    proof {
        lemma_limit_ok(before, leaves@, max_len as int);
    }
    proof {
        if dom && n <= max_len + 1 {
            assert(before[1] >= 1) by {
                assert(l2[n - 1].value == 1);
            }
            assert forall|j: int| 0 <= j < n implies #[trigger] l2[j].value <= max_len by {
            }
            lemma_count_over_zero(l2, 0, n, max_len as int);
            lemma_capped_kraft(l2, 0, n, n, max_len as int);
            let c = capped_sum(l2, 0, n, max_len as int);
            let a = p2(n);
            let b = p2(max_len as int);
            vstd::arithmetic::power2::lemma_pow2_pos(n as nat);
            assert(a * c == b * a);
            assert(c == b) by (nonlinear_arith)
                requires
                    a * c == b * a,
                    a > 0,
            ;
            assert(merged(before, max_len as int) =~= before);
        }
    }
    enforce_max_code_lengths(&mut num_codes, leaves.len(), max_len);
    // Output the actual lengths
    assign_lengths(&leaves, &num_codes, max_len, &mut ret, frequencies);
    proof {
        if dom && n <= max_len + 1 {
            assert(num_codes@ == before);
            assert(ret@[l2[n - 1].symbol as int] == 1);
            assert(l2[n - 1].symbol == sorted[n - 1].symbol);
        }
        lemma_wsum_perm(sorted, filtered);
        assert forall|z: int|
            0 <= z < frequencies@.len() && frequencies@[z] > 0 && filtered.len() <= max_len + 1 && 2 * frequencies@[z]
                > freq_sum(frequencies@, frequencies@.len() as int) implies #[trigger] ret@[z] == 1 by {
            let j0 = choose|j: int| 0 <= j < filtered.len() && (#[trigger] filtered[j]).symbol == z;
            assert(sorted.contains(filtered[j0]));
            let p = choose|p: int| 0 <= p < sorted.len() && sorted[p] == filtered[j0];
            assert(sorted[p].symbol == z);
            if p != n - 1 {
                assert(sorted[p].value <= sorted[n - 1].value);
                lemma_wsum_two(sorted, p, n - 1);
                assert(false);
            }
            assert(wsum(sorted, 0, n) == wsum(sorted, 0, n - 1) + sorted[n - 1].value);
            assert(dom);
        }
    }
    proof {
        assert forall|j: int| 0 <= j < filtered.len() implies ret@[(#[trigger] filtered[j]).symbol as int] >= 1 by {
            assert(sorted.contains(filtered[j]));
            let p = choose|p: int| 0 <= p < sorted.len() && sorted[p] == filtered[j];
            assert(leaves@[p].symbol == sorted[p].symbol);
        }
        assert forall|a: int, b: int|
            0 <= a < filtered.len() && 0 <= b < filtered.len() && filtered[a].value < filtered[b].value implies ret@[
            filtered[a].symbol as int] >= ret@[filtered[b].symbol as int] by {
            assert(sorted.contains(filtered[a]));
            assert(sorted.contains(filtered[b]));
            let pa = choose|p: int| 0 <= p < sorted.len() && sorted[p] == filtered[a];
            let pb = choose|p: int| 0 <= p < sorted.len() && sorted[p] == filtered[b];
            assert(pa < pb) by {
                if pb <= pa {
                    assert(sorted[pb].value <= sorted[pa].value);
                }
            }
            assert(leaves@[pa].symbol == sorted[pa].symbol);
            assert(leaves@[pb].symbol == sorted[pb].symbol);
        }
    }
    ret
}

/// Sorting nodes with distinct symbols keeps them distinct, and keeps every node.
proof fn lemma_sorted_symbols(orig: Seq<Node>, sorted: Seq<Node>)
    requires
        forall|a: int, b: int| 0 <= a < b < orig.len() ==> orig[a].symbol < orig[b].symbol,
        sorted.to_multiset() == orig.to_multiset(),
    ensures
        sorted.len() == orig.len(),
        distinct_symbols(sorted),
        forall|j: int| 0 <= j < orig.len() ==> sorted.contains(#[trigger] orig[j]),
{
    broadcast use vstd::seq_lib::to_multiset_contains;
    broadcast use vstd::seq_lib::to_multiset_len;

    vstd::seq_lib::to_multiset_len(sorted);
    vstd::seq_lib::to_multiset_len(orig);
    assert(sorted.len() == orig.len());
    assert(orig.no_duplicates()) by {
        assert forall|a: int, b: int| 0 <= a < orig.len() && 0 <= b < orig.len() && a != b implies orig[a]
            != orig[b] by {
            if a < b {
                assert(orig[a].symbol < orig[b].symbol);
            } else {
                assert(orig[b].symbol < orig[a].symbol);
            }
        }
    }
    orig.lemma_multiset_has_no_duplicates();
    sorted.lemma_multiset_has_no_duplicates_conv();
    assert forall|a: int, b: int| 0 <= a < sorted.len() && 0 <= b < sorted.len() && a != b implies sorted[a].symbol
        != sorted[b].symbol by {
        assert(sorted.contains(sorted[a]));
        assert(sorted.contains(sorted[b]));
        vstd::seq_lib::to_multiset_contains(sorted, sorted[a]);
        vstd::seq_lib::to_multiset_contains(sorted, sorted[b]);
        vstd::seq_lib::to_multiset_contains(orig, sorted[a]);
        vstd::seq_lib::to_multiset_contains(orig, sorted[b]);
        assert(orig.contains(sorted[a]));
        assert(orig.contains(sorted[b]));
        let qa = choose|q: int| 0 <= q < orig.len() && orig[q] == sorted[a];
        let qb = choose|q: int| 0 <= q < orig.len() && orig[q] == sorted[b];
        if sorted[a].symbol == sorted[b].symbol {
            if qa < qb {
                assert(orig[qa].symbol < orig[qb].symbol);
            } else if qb < qa {
                assert(orig[qb].symbol < orig[qa].symbol);
            }
        }
    }
    assert forall|j: int| 0 <= j < orig.len() implies sorted.contains(#[trigger] orig[j]) by {
        assert(orig.contains(orig[j]));
        vstd::seq_lib::to_multiset_contains(orig, orig[j]);
        vstd::seq_lib::to_multiset_contains(sorted, orig[j]);
    }
}

/// Generate huffman code lengths, using the algorithm described by
/// Moffat and Katajainen in In-Place Calculation of Minimum-Redundancy Codes
/// http://people.eng.unimelb.edu.au/ammoffat/abstracts/mk95wads.html
/// and it's implementation.
///
/// This is significantly faster, and seems to generally create lengths that result in length
/// tables that are better compressible than the algorithm used previously. The downside of this
/// algorithm is that it's not length-limited, so if too long code lengths are generated,
/// it might result in a sub-optimal tables as the length-restricting function isn't optimal.
pub fn in_place_lengths(frequencies: &[u16], max_len: usize) -> (r: Vec<u8>)
    requires
        1 <= max_len <= 15,
        frequencies@.len() <= 65535,
        used_count(frequencies@, frequencies@.len() as int) <= p2(max_len as int),
    ensures
        r@.len() == frequencies@.len(),
        forall|i: int| 0 <= i < r@.len() ==> r@[i] <= max_len,
        forall|i: int| 0 <= i < r@.len() && frequencies@[i] == 0 ==> r@[i] == 0,
        forall|i: int|
            0 <= i < r@.len() && frequencies@[i] > 0 && (forall|j: int| 0 <= j < r@.len() && j != i
                ==> frequencies@[j] == 0) ==> r@[i] == 1,
        forall|i: int| 0 <= i < r@.len() && frequencies@[i] > 0 ==> r@[i] >= 1,
        forall|a: int, b: int|
            0 <= a < r@.len() && 0 <= b < r@.len() && 0 < frequencies@[a] < frequencies@[b] ==> r@[a] >= r@[b],
        lengths_kraft(r@, max_len as int, 0, r@.len() as int) <= p2(max_len as int),
        used_count(frequencies@, frequencies@.len() as int) >= 2 ==> lengths_kraft(
            r@,
            max_len as int,
            0,
            r@.len() as int,
        ) == p2(max_len as int),
        forall|z: int| #[trigger] dominant_symbol(frequencies@, z, max_len as int) ==> r@[z] == 1,
{
    let len = frequencies.len();
    // Discard zero length nodes as they won't be given a code and thus don't need to
    // participate in code length generation and create a new vec of the remaining
    // symbols and weights.
    let leaves = collect_leaves(frequencies);
    // Special cases with zero or 1 value having a non-zero frequency
    if leaves.len() == 1 {
        let mut ret = vec![0u8; len];
        let ghost zeros = ret@;
        ret.set(leaves[0].symbol as usize, 1);
        proof {
            assert forall|i: int| 0 <= i < ret@.len() && frequencies@[i] > 0 implies i == leaves@[0].symbol by {
                let j = choose|j: int| 0 <= j < leaves@.len() && (#[trigger] leaves@[j]).symbol == i;
                assert(j == 0);
            }
            lemma_lengths_kraft_zero(zeros, max_len as int, 0, len as int);
            lemma_lengths_kraft_update(zeros, max_len as int, 0, len as int, leaves@[0].symbol as int, 1);
            lemma_p2_bounds(max_len as int);
            lemma_p2_bounds(max_len - 1);
        }
        return ret;
    } else if leaves.len() == 0 {
        let ret = vec![0u8; len];
        proof {
            lemma_lengths_kraft_zero(ret@, max_len as int, 0, len as int);
            lemma_p2_bounds(max_len as int);
            assert forall|i: int| 0 <= i < ret@.len() implies frequencies@[i] == 0 by {
                if frequencies@[i] > 0 {
                    let j = choose|j: int| 0 <= j < leaves@.len() && (#[trigger] leaves@[j]).symbol == i;
                }
            }
        }
        return ret;
    }
    proof {
        let a = leaves@[0].symbol as int;
        let b = leaves@[1].symbol as int;
        assert(a < b);
        assert(frequencies@[a] > 0 && frequencies@[b] > 0);
    }
    let ghost lv = leaves@;
    let ret = lengths_of_leaves(leaves, frequencies, max_len);
    proof {
        assert forall|i: int| 0 <= i < ret@.len() && frequencies@[i] > 0 implies ret@[i] >= 1 by {
            let j = choose|j: int| 0 <= j < lv.len() && (#[trigger] lv[j]).symbol == i;
            assert(ret@[lv[j].symbol as int] >= 1);
        }
        assert forall|a: int, b: int|
            0 <= a < ret@.len() && 0 <= b < ret@.len() && 0 < frequencies@[a] < frequencies@[b] implies ret@[a]
            >= ret@[b] by {
            let ja = choose|j: int| 0 <= j < lv.len() && (#[trigger] lv[j]).symbol == a;
            let jb = choose|j: int| 0 <= j < lv.len() && (#[trigger] lv[j]).symbol == b;
            assert(lv[ja].value < lv[jb].value);
        }
        lemma_p2_bounds(max_len as int);
    }
    ret
}

proof fn lemma_wsum_bound(s: Seq<Node>, a: int, b: int)
    requires
        0 <= a <= b <= s.len(),
        forall|j: int| 0 <= j < s.len() ==> (#[trigger] s[j]).value <= 65535,
    ensures
        wsum(s, a, b) <= 65535 * (b - a),
    decreases b - a,
{
    if b > a {
        lemma_wsum_bound(s, a, b - 1);
    }
}

/// Generate the huffman code lengths of the symbols with the given frequencies, no longer
/// than `max_len`. Every symbol with a nonzero frequency gets a code, so at most `2^max_len`
/// of the frequencies can be nonzero; the lengths are those of a prefix code, which fills the
/// code space where two or more symbols are used, and a more frequent symbol never gets a longer
/// code than a less frequent one.
pub fn huffman_lengths_from_frequency(frequencies: &[u16], max_len: usize) -> (r: Vec<u8>)
    requires
        1 <= max_len <= 15,
        frequencies@.len() <= 65535,
        used_count(frequencies@, frequencies@.len() as int) <= p2(max_len as int),
    ensures
        r@.len() == frequencies@.len(),
        forall|i: int| 0 <= i < r@.len() ==> r@[i] <= max_len,
        forall|i: int| 0 <= i < r@.len() && frequencies@[i] == 0 ==> r@[i] == 0,
        forall|i: int|
            0 <= i < r@.len() && frequencies@[i] > 0 && (forall|j: int| 0 <= j < r@.len() && j != i
                ==> frequencies@[j] == 0) ==> r@[i] == 1,
        forall|i: int| 0 <= i < r@.len() && frequencies@[i] > 0 ==> r@[i] >= 1,
        forall|a: int, b: int|
            0 <= a < r@.len() && 0 <= b < r@.len() && 0 < frequencies@[a] < frequencies@[b] ==> r@[a] >= r@[b],
        lengths_kraft(r@, max_len as int, 0, r@.len() as int) <= p2(max_len as int),
        used_count(frequencies@, frequencies@.len() as int) >= 2 ==> lengths_kraft(
            r@,
            max_len as int,
            0,
            r@.len() as int,
        ) == p2(max_len as int),
        forall|z: int| #[trigger] dominant_symbol(frequencies@, z, max_len as int) ==> r@[z] == 1,
{
    in_place_lengths(frequencies, max_len)
}

} // verus!
