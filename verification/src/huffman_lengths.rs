//! Choosing the code lengths of a dynamic block, and writing them in the block header.
use vstd::prelude::*;
use vstd::arithmetic::power2::{pow2, lemma2_to64, lemma_pow2_strictly_increases};
use crate::length_encode::{
    EncodedLength, encode_lengths, huffman_lengths_from_frequency, lemma_used_count_bound, lengths_kraft, p2, rle_encode, used_count, rle_decode, rle_ok, rle_item_ok, enc_count,
    enc_symbol, lengths_encodable, COPY_PREVIOUS, REPEAT_ZERO_3_BITS, REPEAT_ZERO_7_BITS,
};
use crate::huffman_table::{HuffmanCode, NUM_LITERALS_AND_LENGTHS, NUM_DISTANCE_CODES, MAX_CODE_LENGTH, code_ok,
    codes_ok, empty_codes, lemma_empty_codes_ok, lemma_assign_codes_ok};
use crate::huffman_codes::{create_codes, assign_codes, length_table_error, code_of};
use crate::bitstream::{LsbWriter, int_bits};
use crate::output_writer::FrequencyType;

verus! {

// The minimum number of literal/length values
pub const MIN_NUM_LITERALS_AND_LENGTHS: usize = 257;
// The minimum number of distances
pub const MIN_NUM_DISTANCES: usize = 1;

// The output ordering of the lengths for the huffman codes used to encode the lengths
// used to build the full huffman tree for length/literal codes.
// http://www.gzip.org/zlib/rfc-deflate.html#dyn
pub const HUFFMAN_LENGTH_ORDER: [u8; 19] = [16, 17, 18, 0, 8, 7, 9, 6, 10, 5, 11, 4, 12, 3, 13, 2, 14, 1, 15];

// Number of bits used for the values specifying the number of codes
pub const HLIT_BITS: u8 = 5;
pub const HDIST_BITS: u8 = 5;
pub const HCLEN_BITS: u8 = 4;

// The longest a huffman code describing another huffman length can be
pub const MAX_HUFFMAN_CODE_LENGTH: usize = 7;

// How many bytes (not including padding and the 3-bit block type) the stored block header takes
// up.
pub const STORED_BLOCK_HEADER_LENGTH: u64 = 4;

/// The length of `s` without its trailing zeroes.
pub open spec fn trimmed_len(s: Seq<u16>) -> int
    decreases s.len(),
{
    if s.len() == 0 {
        0
    } else if s.last() != 0 {
        s.len() as int
    } else {
        trimmed_len(s.drop_last())
    }
}

proof fn lemma_trimmed_len(s: Seq<u16>)
    ensures
        0 <= trimmed_len(s) <= s.len(),
        forall|i: int| trimmed_len(s) <= i < s.len() ==> s[i] == 0,
    decreases s.len(),
{
    if s.len() > 0 && s.last() == 0 {
        lemma_trimmed_len(s.drop_last());
        assert forall|i: int| trimmed_len(s) <= i < s.len() implies s[i] == 0 by {
            if i < s.len() - 1 {
                assert(s.drop_last()[i] == s[i]);
            }
        }
    }
}

/// Creates a new slice from the input slice that stops at the final non-zero value
pub fn remove_trailing_zeroes(input: &[u16], min_length: usize) -> (r: &[u16])
    requires
        min_length <= input@.len(),
    ensures
        r@ == input@.take(if trimmed_len(input@) > min_length { trimmed_len(input@) } else { min_length as int }),
{
    let mut end = input.len();
    proof {
        assert(input@.take(input@.len() as int) =~= input@);
    }
    while end > 0 && input[end - 1] == 0
        invariant
            end <= input@.len(),
            trimmed_len(input@.take(end as int)) == trimmed_len(input@),
        decreases end,
    {
        proof {
            assert(input@.take(end as int).drop_last() =~= input@.take(end - 1));
        }
        end = end - 1;
    }
    proof {
        assert(input@.take(input@.len() as int) =~= input@);
        if end > 0 {
            assert(input@.take(end as int).last() == input@[end - 1]);
        }
    }
    let keep = if end > min_length { end } else { min_length };
    vstd::slice::slice_subrange(input, 0, keep)
}

/// The number of bits the symbols take: frequency times code length, over the symbols that
/// have both.
pub open spec fn block_bits(frequencies: Seq<u16>, code_lengths: Seq<u8>, n: int) -> int
    decreases n,
{
    if n <= 0 {
        0
    } else {
        block_bits(frequencies, code_lengths, n - 1) + frequencies[n - 1] * code_lengths[n - 1]
    }
}

/// Calculate the number of bits that will be used to represent a block with the given
/// frequencies and code lengths (not including headers).
///
/// Frequencies that are missing code lengths or vice versa will not be counted. This should
/// be okay, as the places this function is used any frequencies that are missing lengths
/// should be zero anyhow.
pub fn calculate_block_length(frequencies: &[FrequencyType], code_lengths: &[u8]) -> (r: u64)
    requires
        frequencies@.len() >= code_lengths@.len(),
        code_lengths@.len() <= 65536,
    ensures
        r == block_bits(frequencies@, code_lengths@, code_lengths@.len() as int),
        r <= 16777216 * code_lengths@.len(),
{
    let mut acc: u64 = 0;
    let mut i: usize = 0;
    while i < code_lengths.len()
        invariant
            i <= code_lengths@.len() <= 65536,
            frequencies@.len() >= code_lengths@.len(),
            acc == block_bits(frequencies@, code_lengths@, i as int),
            acc <= 16777216 * i,
        decreases code_lengths@.len() - i,
    {
        let f = frequencies[i] as u64;
        let l = code_lengths[i] as u64;
        assert(f * l <= 16777216) by (nonlinear_arith)
            requires
                f <= 65535,
                l <= 255,
        ;
        acc = acc + f * l;
        i = i + 1;
    }
    acc
}

/// A struct containing the different data needed to write the header for a dynamic block.
pub struct DynamicBlockHeader {
    /// Literal/length huffman lengths.
    pub l_lengths: Vec<u8>,
    /// Distance huffman lengths.
    pub d_lengths: Vec<u8>,
    /// Run-length encoded huffman length values.
    pub encoded_lengths: Vec<EncodedLength>,
    /// Length of the run-length encoding symbols.
    pub huffman_table_lengths: Vec<u8>,
}

/// Code lengths for `freqs`: one per frequency, `min` at least, at most `max_len` long, zero
/// where the frequency is zero and nonzero where it is not.
pub open spec fn lengths_for(lengths: Seq<u8>, freqs: Seq<u16>, min: int, max_len: int) -> bool {
    &&& lengths.len() == (if trimmed_len(freqs) > min { trimmed_len(freqs) } else { min })
    &&& forall|i: int| 0 <= i < lengths.len() ==> lengths[i] <= max_len
    &&& forall|i: int| 0 <= i < lengths.len() && freqs[i] == 0 ==> lengths[i] == 0
    &&& forall|i: int| 0 <= i < freqs.len() && freqs[i] > 0 ==> i < lengths.len() && lengths[i] >= 1
    &&& complete_and_ordered(lengths, freqs, max_len)
}

/// The code lengths fill the code space where two or more symbols are used, and a more
/// frequent symbol never has a longer code.
pub open spec fn complete_and_ordered(lengths: Seq<u8>, freqs: Seq<u16>, max_len: int) -> bool {
    &&& used_count(freqs, freqs.len() as int) >= 2 ==> lengths_kraft(lengths, max_len, 0, lengths.len() as int)
        == p2(max_len)
    &&& forall|a: int, b: int|
        0 <= a < lengths.len() && 0 <= b < lengths.len() && 0 < freqs[a] < freqs[b] ==> lengths[a] >= lengths[b]
}

/// Only the first `n` frequencies count, and zeros after them add nothing.
proof fn lemma_used_count_prefix(f: Seq<u16>, g: Seq<u16>, n: int, m: int)
    requires
        0 <= n <= m,
        n <= f.len(),
        m <= g.len(),
        forall|i: int| 0 <= i < n ==> f[i] == g[i],
        forall|i: int| n <= i < m ==> g[i] == 0,
    ensures
        used_count(f, n) == used_count(g, m),
    decreases m,
{
    if m > n {
        lemma_used_count_prefix(f, g, n, m - 1);
    } else if n > 0 {
        lemma_used_count_prefix(f, g, n - 1, m - 1);
    }
}

/// A header that can be written: table sizes within the format's limits, code lengths in
/// range, and run-length codes that the format can express.
pub open spec fn header_writable(h: DynamicBlockHeader) -> bool {
    &&& MIN_NUM_LITERALS_AND_LENGTHS <= h.l_lengths@.len() <= NUM_LITERALS_AND_LENGTHS
    &&& MIN_NUM_DISTANCES <= h.d_lengths@.len() <= NUM_DISTANCE_CODES
    &&& forall|i: int| 0 <= i < h.l_lengths@.len() ==> h.l_lengths@[i] <= MAX_CODE_LENGTH
    &&& forall|i: int| 0 <= i < h.d_lengths@.len() ==> h.d_lengths@[i] <= MAX_CODE_LENGTH
    &&& rle_ok(h.encoded_lengths@)
    &&& h.huffman_table_lengths@.len() == 19
    &&& forall|i: int| 0 <= i < 19 ==> h.huffman_table_lengths@[i] <= MAX_HUFFMAN_CODE_LENGTH
}

/// A header of a block this library writes: one that can be written, whose run-length codes
/// encode the two length tables, whose code length code gives a code to just the symbols of
/// the run-length codes, and whose three tables of code lengths are those of prefix codes
/// (each Kraft sum is at most one).
pub open spec fn header_ok(h: DynamicBlockHeader) -> bool {
    &&& header_writable(h)
    &&& rle_decode(h.encoded_lengths@) == h.l_lengths@ + h.d_lengths@
    &&& forall|k: int| 0 <= k < 19 && enc_count(h.encoded_lengths@, k) == 0 ==> h.huffman_table_lengths@[k] == 0
    &&& forall|k: int| 0 <= k < 19 && enc_count(h.encoded_lengths@, k) > 0 ==> h.huffman_table_lengths@[k] >= 1
    &&& lengths_kraft(h.l_lengths@, MAX_CODE_LENGTH as int, 0, h.l_lengths@.len() as int) <= p2(MAX_CODE_LENGTH as int)
    &&& lengths_kraft(h.d_lengths@, MAX_CODE_LENGTH as int, 0, h.d_lengths@.len() as int) <= p2(MAX_CODE_LENGTH as int)
    &&& lengths_kraft(h.huffman_table_lengths@, MAX_HUFFMAN_CODE_LENGTH as int, 0, 19) <= p2(
        MAX_HUFFMAN_CODE_LENGTH as int,
    )
}

/// The bits a block with these code lengths takes, beyond its header and end of block code.
pub open spec fn header_cost(h: DynamicBlockHeader, l_freqs: Seq<u16>, d_freqs: Seq<u16>) -> int {
    block_bits(l_freqs, h.l_lengths@, h.l_lengths@.len() as int) + block_bits(d_freqs, h.d_lengths@, h.d_lengths@.len() as int)
        + block_bits(Seq::new(19, |k: int| enc_count(h.encoded_lengths@, k) as u16), h.huffman_table_lengths@, 19)
}

/// Generate the lengths of the huffman codes we will be using, using the
/// frequency of the different symbols/lengths/distances, checking if the block does not expand
/// in size.
#[verifier::spinoff_prover]
#[verifier::rlimit(100)]
pub fn gen_huffman_lengths(l_freqs: &[FrequencyType], d_freqs: &[FrequencyType], num_input_bytes: u64) -> (r:
    Option<DynamicBlockHeader>)
    requires
        MIN_NUM_LITERALS_AND_LENGTHS <= l_freqs@.len() <= NUM_LITERALS_AND_LENGTHS,
        MIN_NUM_DISTANCES <= d_freqs@.len() <= NUM_DISTANCE_CODES,
        num_input_bytes <= u64::MAX - STORED_BLOCK_HEADER_LENGTH,
    ensures
        r matches Some(h) ==> {
            &&& header_ok(h)
            &&& h.encoded_lengths@ == rle_encode(h.l_lengths@ + h.d_lengths@)
            &&& complete_and_ordered(
                h.huffman_table_lengths@,
                Seq::new(19, |k: int| enc_count(h.encoded_lengths@, k) as u16),
                MAX_HUFFMAN_CODE_LENGTH as int,
            )
            &&& lengths_for(h.l_lengths@, l_freqs@, MIN_NUM_LITERALS_AND_LENGTHS as int, MAX_CODE_LENGTH as int)
            &&& lengths_for(h.d_lengths@, d_freqs@, MIN_NUM_DISTANCES as int, MAX_CODE_LENGTH as int)
            &&& header_cost(h, l_freqs@, d_freqs@) / 8 <= num_input_bytes + STORED_BLOCK_HEADER_LENGTH
        },
        r is None ==> exists|h: DynamicBlockHeader|
            {
                &&& header_ok(h)
                &&& h.encoded_lengths@ == rle_encode(h.l_lengths@ + h.d_lengths@)
                &&& complete_and_ordered(
                    h.huffman_table_lengths@,
                    Seq::new(19, |k: int| enc_count(h.encoded_lengths@, k) as u16),
                    MAX_HUFFMAN_CODE_LENGTH as int,
                )
                &&& lengths_for(h.l_lengths@, l_freqs@, MIN_NUM_LITERALS_AND_LENGTHS as int, MAX_CODE_LENGTH as int)
                &&& lengths_for(h.d_lengths@, d_freqs@, MIN_NUM_DISTANCES as int, MAX_CODE_LENGTH as int)
                &&& #[trigger] header_cost(h, l_freqs@, d_freqs@) / 8 > num_input_bytes + STORED_BLOCK_HEADER_LENGTH
            },
{
    // The huffman spec allows us to exclude zeroes at the end of the
    // table of huffman lengths.
    // Since a frequency of 0 will give an huffman
    // length of 0. We strip off the trailing zeroes before even
    // generating the lengths to save some work.
    // There is however a minimum number of values we have to keep
    // according to the deflate spec.
    proof {
        lemma_trimmed_len(l_freqs@);
        lemma_trimmed_len(d_freqs@);
    }
    let l_trimmed = remove_trailing_zeroes(l_freqs, MIN_NUM_LITERALS_AND_LENGTHS);
    let d_trimmed = remove_trailing_zeroes(d_freqs, MIN_NUM_DISTANCES);
    proof {
        lemma_used_count_bound(l_trimmed@, l_trimmed@.len() as int);
        lemma_used_count_bound(d_trimmed@, d_trimmed@.len() as int);
        vstd::arithmetic::power2::lemma2_to64();
    }
    let l_lengths = huffman_lengths_from_frequency(l_trimmed, MAX_CODE_LENGTH);
    let d_lengths = huffman_lengths_from_frequency(d_trimmed, MAX_CODE_LENGTH);
    // Encode length values
    let mut all_lengths: Vec<u8> = Vec::new();
    let mut i: usize = 0;
    while i < l_lengths.len()
        invariant
            i <= l_lengths@.len(),
            all_lengths@ == l_lengths@.take(i as int),
        decreases l_lengths@.len() - i,
    {
        all_lengths.push(l_lengths[i]);
        i = i + 1;
        proof {
            assert(all_lengths@ =~= l_lengths@.take(i as int));
        }
    }
    let mut j: usize = 0;
    while j < d_lengths.len()
        invariant
            j <= d_lengths@.len(),
            l_lengths@.len() == l_trimmed@.len(),
            all_lengths@ == l_lengths@ + d_lengths@.take(j as int),
        decreases d_lengths@.len() - j,
    {
        proof {
            if j == 0 {
                assert(l_lengths@.take(l_lengths@.len() as int) =~= l_lengths@);
            }
        }
        all_lengths.push(d_lengths[j]);
        j = j + 1;
        proof {
            assert(all_lengths@ =~= l_lengths@ + d_lengths@.take(j as int));
        }
    }
    proof {
        assert(d_lengths@.take(d_lengths@.len() as int) =~= d_lengths@);
        if d_lengths@.len() == 0 {
            assert(l_lengths@.take(l_lengths@.len() as int) =~= l_lengths@);
        }
        assert(all_lengths@ =~= l_lengths@ + d_lengths@);
        assert forall|k: int| 0 <= k < all_lengths@.len() implies #[trigger] all_lengths@[k] <= 15 by {
            if k < l_lengths@.len() {
            } else {
                assert(all_lengths@[k] == d_lengths@[k - l_lengths@.len()]);
            }
        }
    }
    let (encoded, freqs) = match encode_lengths(all_lengths.as_slice()) {
        Some(e) => e,
        None => {
            proof {
                assert(all_lengths@.len() > 0);
            }
            return None;
        },
    };
    // Create huffman lengths for the length/distance code lengths
    proof {
        lemma_used_count_bound(freqs@, 19);
        vstd::arithmetic::power2::lemma2_to64();
    }
    let huffman_table_lengths = huffman_lengths_from_frequency(&freqs, MAX_HUFFMAN_CODE_LENGTH);
    // Calculate how many bytes of space this block will take up.
    let l_bits = calculate_block_length(l_freqs, l_lengths.as_slice());
    let d_bits = calculate_block_length(d_freqs, d_lengths.as_slice());
    let h_bits = calculate_block_length(&freqs, huffman_table_lengths.as_slice());
    let total_compressed_length = (l_bits + d_bits + h_bits) / 8;
    // Check if the block is actually compressed. If using a dynamic block
    // increases the length of the block (for instance if the input data is mostly random or
    // already compressed), we want to output a stored(uncompressed) block instead to avoid
    // wasting space.
    let h = DynamicBlockHeader {
        l_lengths: l_lengths,
        d_lengths: d_lengths,
        encoded_lengths: encoded,
        huffman_table_lengths: huffman_table_lengths,
    };
    proof {
        assert(Seq::new(19, |k: int| enc_count(h.encoded_lengths@, k) as u16) =~= freqs@);
        assert forall|k: int| 0 <= k < 19 && enc_count(h.encoded_lengths@, k) == 0 implies h.huffman_table_lengths@[k]
            == 0 by {
            assert(freqs@[k] == 0);
        }
        assert forall|k: int| 0 <= k < 19 && enc_count(h.encoded_lengths@, k) > 0 implies h.huffman_table_lengths@[k]
            >= 1 by {
            assert(freqs@[k] > 0);
        }
        lemma_trimmed_len(l_freqs@);
        lemma_trimmed_len(d_freqs@);
        assert forall|i: int| 0 <= i < l_freqs@.len() && l_freqs@[i] > 0 implies i < h.l_lengths@.len()
            && h.l_lengths@[i] >= 1 by {
            assert(l_trimmed@[i] == l_freqs@[i]);
        }
        lemma_used_count_prefix(l_trimmed@, l_freqs@, l_trimmed@.len() as int, l_freqs@.len() as int);
        lemma_used_count_prefix(d_trimmed@, d_freqs@, d_trimmed@.len() as int, d_freqs@.len() as int);
        assert forall|a: int, b: int|
            0 <= a < h.l_lengths@.len() && 0 <= b < h.l_lengths@.len() && 0 < l_freqs@[a] < l_freqs@[b] implies
            h.l_lengths@[a] >= h.l_lengths@[b] by {
            assert(l_trimmed@[a] == l_freqs@[a] && l_trimmed@[b] == l_freqs@[b]);
        }
        assert forall|a: int, b: int|
            0 <= a < h.d_lengths@.len() && 0 <= b < h.d_lengths@.len() && 0 < d_freqs@[a] < d_freqs@[b] implies
            h.d_lengths@[a] >= h.d_lengths@[b] by {
            assert(d_trimmed@[a] == d_freqs@[a] && d_trimmed@[b] == d_freqs@[b]);
        }
        assert forall|i: int| 0 <= i < d_freqs@.len() && d_freqs@[i] > 0 implies i < h.d_lengths@.len()
            && h.d_lengths@[i] >= 1 by {
            assert(d_trimmed@[i] == d_freqs@[i]);
        }
    }
    if total_compressed_length > num_input_bytes + STORED_BLOCK_HEADER_LENGTH {
        proof {
            assert(header_cost(h, l_freqs@, d_freqs@) / 8 > num_input_bytes + STORED_BLOCK_HEADER_LENGTH);
        }
        None
    } else {
        Some(h)
    }
}


/// How many entries of the code length code lengths are written: all up to the last nonzero one
/// in the order the format lists them.
pub open spec fn used_hclen_count(htl: Seq<u8>, k: int) -> int
    decreases k,
{
    if k <= 0 {
        0
    } else if htl[HUFFMAN_LENGTH_ORDER@[k - 1] as int] != 0 {
        k
    } else {
        used_hclen_count(htl, k - 1)
    }
}

/// The first `k` code length code lengths, three bits each, in the order of the format.
pub open spec fn hclen_bits(htl: Seq<u8>, k: int) -> Seq<bool>
    decreases k,
{
    if k <= 0 {
        Seq::empty()
    } else {
        hclen_bits(htl, k - 1) + int_bits(htl[HUFFMAN_LENGTH_ORDER@[k - 1] as int] as int, 3)
    }
}

/// The code the code length alphabet gives symbol `k`.
pub open spec fn length_code(htl: Seq<u8>, k: int) -> HuffmanCode {
    assign_codes(empty_codes(19), htl)[k]
}

/// The bits of one run-length encoded length: its code and its repeat count.
pub open spec fn enc_item_bits(htl: Seq<u8>, e: EncodedLength) -> Seq<bool> {
    let c = length_code(htl, enc_symbol(e));
    int_bits(c.code as int, c.length as nat) + match e {
        EncodedLength::Length(_) => Seq::empty(),
        EncodedLength::CopyPrevious(n) => int_bits(n - 3, 2),
        EncodedLength::RepeatZero3Bits(n) => int_bits(n - 3, 3),
        EncodedLength::RepeatZero7Bits(n) => int_bits(n - 11, 7),
    }
}

/// The bits of the run-length encoded lengths.
pub open spec fn enc_bits(htl: Seq<u8>, enc: Seq<EncodedLength>) -> Seq<bool>
    decreases enc.len(),
{
    if enc.len() == 0 {
        Seq::empty()
    } else {
        enc_bits(htl, enc.drop_last()) + enc_item_bits(htl, enc.last())
    }
}

/// The bits of the header of a dynamic block after its first three bits: the table sizes, the
/// code lengths of the code length alphabet, and the run-length encoded code lengths.
pub open spec fn dynamic_header_bits(h: DynamicBlockHeader) -> Seq<bool> {
    let htl = h.huffman_table_lengths@;
    let used = used_hclen_count(htl, 19);
    int_bits(h.l_lengths@.len() - MIN_NUM_LITERALS_AND_LENGTHS, 5) + int_bits(h.d_lengths@.len() - MIN_NUM_DISTANCES, 5)
        + int_bits(if used > 4 { used - 4 } else { 0 }, 4) + hclen_bits(htl, used) + enc_bits(htl, h.encoded_lengths@)
}

proof fn lemma_used_hclen_count(htl: Seq<u8>, k: int)
    requires
        0 <= k <= 19,
    ensures
        0 <= used_hclen_count(htl, k) <= k,
        forall|i: int| used_hclen_count(htl, k) <= i < k ==> htl[HUFFMAN_LENGTH_ORDER@[i] as int] == 0,
    decreases k,
{
    if k > 0 && htl[HUFFMAN_LENGTH_ORDER@[k - 1] as int] == 0 {
        lemma_used_hclen_count(htl, k - 1);
    }
}

/// Write the specified huffman lengths to the bit writer
#[verifier::spinoff_prover]
#[verifier::rlimit(40)]
pub fn write_huffman_lengths(header: &DynamicBlockHeader, writer: &mut LsbWriter)
    requires
        old(writer).wf(),
        header_writable(*header),
    ensures
        final(writer).wf(),
        final(writer).stream() == old(writer).stream() + dynamic_header_bits(*header),
        final(writer).w@.len() >= old(writer).w@.len(),
        final(writer).w@.subrange(0, old(writer).w@.len() as int) == old(writer).w@,
{
    let literal_len_lengths = &header.l_lengths;
    let distance_lengths = &header.d_lengths;
    let huffman_table_lengths = &header.huffman_table_lengths;
    let encoded_lengths = &header.encoded_lengths;
    let ghost htl = huffman_table_lengths@;
    let ghost s0 = writer.stream();
    let ghost w0 = writer.w@;
    proof {
        lemma2_to64();
    }
    // Number of length codes - 257
    let hlit = (literal_len_lengths.len() - MIN_NUM_LITERALS_AND_LENGTHS) as u16;
    writer.write_bits(hlit, HLIT_BITS);
    // Number of distance codes - 1
    let hdist = (distance_lengths.len() - MIN_NUM_DISTANCES) as u16;
    writer.write_bits(hdist, HDIST_BITS);
    let mut used_hclens: usize = 19;
    while used_hclens > 0 && huffman_table_lengths[HUFFMAN_LENGTH_ORDER[used_hclens - 1] as usize] == 0
        invariant
            used_hclens <= 19,
            htl.len() == 19,
            htl == huffman_table_lengths@,
            used_hclen_count(htl, used_hclens as int) == used_hclen_count(htl, 19),
        decreases used_hclens,
    {
        used_hclens = used_hclens - 1;
    }
    // Number of huffman table lengths - 4
    let hclen = used_hclens.saturating_sub(4);
    writer.write_bits(hclen as u16, HCLEN_BITS);
    proof {
        assert(used_hclens == used_hclen_count(htl, 19));
    }
    let ghost s1 = writer.stream();
    // Write the lengths for the huffman table describing the huffman table
    // Each length is 3 bits
    let mut i: usize = 0;
    while i < used_hclens
        invariant
            i <= used_hclens <= 19,
            htl.len() == 19,
            htl == huffman_table_lengths@,
            forall|q: int| 0 <= q < 19 ==> htl[q] <= MAX_HUFFMAN_CODE_LENGTH,
            pow2(3) == 8,
            writer.wf(),
            writer.stream() == s1 + hclen_bits(htl, i as int),
            writer.w@.len() >= w0.len(),
            writer.w@.subrange(0, w0.len() as int) == w0,
        decreases used_hclens - i,
    {
        let n = HUFFMAN_LENGTH_ORDER[i];
        let ghost w1 = writer.w@;
        writer.write_bits(huffman_table_lengths[n as usize] as u16, 3);
        i = i + 1;
        proof {
            assert(writer.stream() =~= s1 + hclen_bits(htl, i as int));
            assert(writer.w@.subrange(0, w0.len() as int) =~= w1.subrange(0, w0.len() as int));
        }
    }
    // Generate codes for the main huffman table using the lengths we just wrote
    proof {
        assert(!(exists|q: int| 0 <= q < htl.len() && htl[q] > MAX_CODE_LENGTH));
        assert(length_table_error(htl) is None);
        lemma_empty_codes_ok(19);
        assert(Seq::new(19, |q: int| HuffmanCode { code: 0, length: 0 }) =~= empty_codes(19));
        lemma_assign_codes_ok(empty_codes(19), htl);
    }
    let codes = match create_codes(huffman_table_lengths.as_slice()) {
        Ok(c) => c,
        Err(_) => {
            return;
        },
    };
    let ghost s2 = writer.stream();
    // Write the actual huffman lengths
    let mut k: usize = 0;
    while k < encoded_lengths.len()
        invariant
            k <= encoded_lengths@.len(),
            codes@ == assign_codes(empty_codes(19), htl),
            codes_ok(codes@),
            codes@.len() == 19,
            rle_ok(encoded_lengths@),
            writer.wf(),
            writer.stream() == s2 + enc_bits(htl, encoded_lengths@.take(k as int)),
            writer.w@.len() >= w0.len(),
            writer.w@.subrange(0, w0.len() as int) == w0,
        decreases encoded_lengths@.len() - k,
    {
        let ghost w1 = writer.w@;
        let ghost s3 = writer.stream();
        let v = encoded_lengths[k];
        proof {
            lemma2_to64();
            lemma_rle_ok_item(encoded_lengths@, k as int);
            assert(encoded_lengths@.take(k + 1).drop_last() =~= encoded_lengths@.take(k as int));
            assert(encoded_lengths@.take(k + 1).last() == v);
        }
        match v {
            EncodedLength::Length(n) => {
                let code = codes[n as usize];
                writer.write_bits(code.code, code.length);
                proof {
                    assert(int_bits(code.code as int, code.length as nat) + Seq::<bool>::empty() =~= int_bits(code.code as int, code.length as nat));
                }
            },
            EncodedLength::CopyPrevious(n) => {
                let code = codes[COPY_PREVIOUS];
                writer.write_bits(code.code, code.length);
                writer.write_bits((n - 3) as u16, 2);
            },
            EncodedLength::RepeatZero3Bits(n) => {
                let code = codes[REPEAT_ZERO_3_BITS];
                writer.write_bits(code.code, code.length);
                writer.write_bits((n - 3) as u16, 3);
            },
            EncodedLength::RepeatZero7Bits(n) => {
                let code = codes[REPEAT_ZERO_7_BITS];
                writer.write_bits(code.code, code.length);
                writer.write_bits((n - 11) as u16, 7);
            },
        }
        k = k + 1;
        proof {
            assert(writer.stream() =~= s2 + enc_bits(htl, encoded_lengths@.take(k as int)));
            assert(writer.w@.subrange(0, w0.len() as int) =~= w1.subrange(0, w0.len() as int));
        }
    }
    proof {
        assert(encoded_lengths@.take(encoded_lengths@.len() as int) =~= encoded_lengths@);
        assert(writer.stream() =~= s0 + dynamic_header_bits(*header));
    }
}

/// Each item of a writable run-length encoding is writable.
proof fn lemma_rle_ok_item(enc: Seq<EncodedLength>, k: int)
    requires
        rle_ok(enc),
        0 <= k < enc.len(),
    ensures
        rle_item_ok(rle_decode(enc.take(k)), enc[k]),
        enc_symbol(enc[k]) < 19,
    decreases enc.len(),
{
    if k < enc.len() - 1 {
        lemma_rle_ok_item(enc.drop_last(), k);
        assert(enc.drop_last().take(k) =~= enc.take(k));
    } else {
        assert(enc.drop_last() =~= enc.take(k));
    }
}

} // verus!
