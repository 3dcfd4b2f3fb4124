//! Block-level compression: turning lz77 output into DEFLATE blocks.
use vstd::prelude::*;
use crate::deflate_state::{DeflateState, back_ok};
use crate::encoder_state::{EncoderState, EncodeError, symbol_bits, symbol_ok, code_bits, block_start};
use crate::lzvalue::{LZValue, decode_lzvalue};
use crate::lz77::{lz77_compress_block, lz77_compress, LZ77Status, decompress_lz77_with_backbuffer, first_pass_parse, MatchingType};
use crate::chained_hash_table::WINDOW_SIZE;
use crate::compression_options::{HIGH_MAX_HASH_CHECKS, HIGH_LAZY_IF_LESS_THAN};
use crate::lz_decode::{lz_decode, lz_decode_from, decodes_to, symbol_in_range, lemma_decode_growth,
    lemma_decode_shorter_history};
use crate::huffman_lengths::{gen_huffman_lengths, write_huffman_lengths, dynamic_header_bits, DynamicBlockHeader,
    lengths_for, MIN_NUM_LITERALS_AND_LENGTHS, MIN_NUM_DISTANCES, header_ok, header_cost, complete_and_ordered,
    MAX_HUFFMAN_CODE_LENGTH, STORED_BLOCK_HEADER_LENGTH};
use crate::length_encode::{rle_encode, enc_count};
use crate::lz77::saturate;
use crate::output_writer::{OutputWriter, ready, ll_frequencies, d_frequencies, ll_count, d_count, ll_symbol, d_symbol,
    lemma_count_present, lemma_symbol_range, lemma_no_end_of_block};
use crate::stored_block::{compress_block_stored, write_stored_header, stored_header, MAX_STORED_BLOCK_LENGTH,
    STORED_FIRST_BYTE, STORED_FIRST_BYTE_FINAL};
use crate::huffman_table::{HuffmanTable, END_OF_BLOCK_POSITION, empty_codes, MAX_CODE_LENGTH};
use crate::huffman_codes::assign_codes;
use crate::bitstream::{LsbWriter, int_bits, bytes_bits};
use crate::input_buffer::MAX_DISTANCE;
use crate::deflate_format::{deflate_block, block_of_items, dynamic_block_bits, table_from_header, header_covers, header_for, dynamic_cost, lemma_blocks_push_at, concat_bits,
    concat_bytes, blocks_ok, none_final, deflate_stream};
use crate::huffman_codes::length_table_error;

verus! {

/// Flush mode to use when compressing input received in multiple steps.
///
/// (The more obscure ZLIB flush modes are not implemented.)
#[derive(Eq, PartialEq, Structural, Debug, Copy, Clone)]
pub enum Flush {
    // Simply wait for more input when we are out of input data to process.
    NoFlush,
    // Send a "sync block", corresponding to Z_SYNC_FLUSH in zlib. This finishes compressing and
    // outputting all pending data, and then outputs an empty stored block.
    // (That is, the block header indicating a stored block followed by `0000FFFF`).
    Sync,
    _Partial,
    _Block,
    _Full,
    // Finish compressing and output all remaining input.
    Finish,
}


/// The bits of the symbols `items`, written with the table `t`.
pub open spec fn symbols_bits(t: HuffmanTable, items: Seq<LZValue>) -> Seq<bool>
    decreases items.len(),
{
    if items.len() == 0 {
        Seq::empty()
    } else {
        symbols_bits(t, items.drop_last()) + symbol_bits(t, decode_lzvalue(items.last().data))
    }
}

/// Every symbol has a code.
pub open spec fn symbols_ok(items: Seq<LZValue>) -> bool {
    forall|i: int| 0 <= i < items.len() ==> symbol_ok(#[trigger] decode_lzvalue(items[i].data))
}

/// Write all the lz77 encoded data in the buffer using the specified `EncoderState`, and finish
/// with the end of block code.
///
/// Returns `Err` if a symbol has no code.
pub fn flush_to_bitstream(buffer: &[LZValue], state: &mut EncoderState) -> (r: Result<(), EncodeError>)
    requires
        old(state).valid(),
    ensures
        final(state).valid(),
        final(state).table() == old(state).table(),
        r is Ok <==> symbols_ok(buffer@),
        r is Ok ==> final(state).writer.stream() == old(state).writer.stream() + symbols_bits(old(state).table(), buffer@)
            + code_bits(old(state).table().codes()[END_OF_BLOCK_POSITION as int]),
        final(state).writer.w@.len() >= old(state).writer.w@.len(),
        final(state).writer.w@.subrange(0, old(state).writer.w@.len() as int) == old(state).writer.w@,
{
    let ghost s0 = state.writer.stream();
    let ghost w0 = state.writer.w@;
    let mut i: usize = 0;
    proof {
        assert(buffer@.take(0) =~= Seq::<LZValue>::empty());
        assert(s0 + symbols_bits(state.table(), Seq::<LZValue>::empty()) =~= s0);
        assert(state.writer.w@.subrange(0, w0.len() as int) =~= w0);
    }
    while i < buffer.len()
        invariant
            i <= buffer@.len(),
            state.valid(),
            state.table() == old(state).table(),
            forall|k: int| 0 <= k < i ==> symbol_ok(#[trigger] decode_lzvalue(buffer@[k].data)),
            state.writer.stream() == s0 + symbols_bits(old(state).table(), buffer@.take(i as int)),
            state.writer.w@.len() >= w0.len(),
            state.writer.w@.subrange(0, w0.len() as int) == w0,
            w0 == old(state).writer.w@,
        decreases buffer@.len() - i,
    {
        let ghost w1 = state.writer.w@;
        let b = buffer[i];
        let res = state.write_lzvalue(b.value());
        proof {
            assert(state.writer.w@.subrange(0, w0.len() as int) =~= w1.subrange(0, w0.len() as int));
        }
        match res {
            Ok(()) => {},
            Err(e) => {
                return Err(e);
            },
        }
        i = i + 1;
        proof {
            assert(buffer@.take(i as int).drop_last() =~= buffer@.take(i - 1));
            assert(state.writer.stream() =~= s0 + symbols_bits(old(state).table(), buffer@.take(i as int)));
            assert(state.writer.w@.subrange(0, w0.len() as int) =~= w1.subrange(0, w0.len() as int));
        }
    }
    let ghost w2 = state.writer.w@;
    state.write_end_of_block();
    proof {
        assert(buffer@.take(buffer@.len() as int) =~= buffer@);
        assert(state.writer.w@.subrange(0, w0.len() as int) =~= w2.subrange(0, w0.len() as int));
    }
    Ok(())
}

/// Symbols that decode well have codes.
proof fn lemma_symbols_ok(h: Seq<u8>, items: Seq<LZValue>)
    requires
        lz_decode(h, items).2,
    ensures
        symbols_ok(items),
{
    lemma_decode_growth((h, None, true), items);
    assert forall|i: int| 0 <= i < items.len() implies symbol_ok(#[trigger] decode_lzvalue(items[i].data)) by {
        assert(symbol_in_range(decode_lzvalue(items[i].data)));
    }
}

/// The number of zero bits that pad `n` bits to a whole byte.
pub open spec fn pad_bits(n: int) -> nat {
    ((8 - n % 8) % 8) as nat
}

/// Compress the input data using only fixed huffman codes: one final fixed block, of the
/// symbols of `lz77_compress` (for input that fits in one window, its `first_pass_parse`).
pub fn compress_data_fixed(input: &[u8]) -> (r: Vec<u8>)
    ensures
        exists|symbols: Seq<LZValue>, t: HuffmanTable|
            {
                &&& decodes_to(Seq::empty(), symbols, input@)
                &&& input@.len() <= WINDOW_SIZE ==> symbols == first_pass_parse(
                    input@,
                    (HIGH_MAX_HASH_CHECKS, HIGH_LAZY_IF_LESS_THAN, MatchingType::Lazy),
                )
                &&& t.codes() == assign_codes(empty_codes(288), crate::tables::FIXED_CODE_LENGTHS@)
                &&& t.distance_codes() == assign_codes(empty_codes(32), crate::tables::FIXED_CODE_LENGTHS_DISTANCE@)
                &&& #[trigger] bytes_bits(r@) == {
                    let bits = int_bits(block_start(true, true) as int, 3) + symbols_bits(t, symbols) + code_bits(
                        t.codes()[END_OF_BLOCK_POSITION as int],
                    );
                    bits + int_bits(0, pad_bits(bits.len() as int))
                }
            },
{
    let writer: Vec<u8> = Vec::new();
    let mut state = EncoderState::fixed(writer);
    let compressed = match lz77_compress(input) {
        Some(c) => c,
        None => Vec::new(),
    };
    let ghost t = state.table();
    proof {
        crate::lz_decode::lemma_decode_empty((Seq::<u8>::empty(), None, true));
        lemma_symbols_ok(Seq::empty(), compressed@);
        assert(bytes_bits(Seq::<u8>::empty()) =~= Seq::<bool>::empty());
        crate::bitstream::lemma_int_bits_zero_len(0);
        assert(state.writer.stream() =~= Seq::<bool>::empty());
    }
    // We currently don't split blocks here
    state.write_start_of_block(true, true);
    let _ = flush_to_bitstream(compressed.as_slice(), &mut state);
    let ghost bits = state.writer.stream();
    proof {
        crate::bitstream::lemma_bytes_bits_len(state.writer.w@);
        assert(bits.len() % 8 == state.writer.pending().len());
    }
    state.flush();
    proof {
        crate::bitstream::lemma_int_bits_zero_len(state.writer.acc as int);
        assert(bytes_bits(state.writer.w@) =~= state.writer.stream());
    }
    state.writer.w
}


/// The bits of one stored block of `chunk` after `p` pending bits: the block type, padding to
/// a byte boundary, the length and its complement, and the data.
pub open spec fn stored_chunk_bits(p: int, chunk: Seq<u8>, final_block: bool) -> Seq<bool> {
    int_bits(if final_block { STORED_FIRST_BYTE_FINAL as int } else { STORED_FIRST_BYTE as int }, 3) + int_bits(
        0,
        pad_bits(p + 3),
    ) + bytes_bits(stored_header(chunk.len() as u16) + chunk)
}

/// The bits of the stored blocks `write_stored_block` makes of `data`: blocks of at most
/// 65535 bytes, only the last one marked final (when `final_block` is set).
pub open spec fn stored_bits(p: int, data: Seq<u8>, final_block: bool) -> Seq<bool>
    decreases data.len(),
{
    if data.len() <= MAX_STORED_BLOCK_LENGTH {
        stored_chunk_bits(p, data, final_block)
    } else {
        stored_chunk_bits(p, data.take(MAX_STORED_BLOCK_LENGTH as int), false) + stored_bits(
            0,
            data.skip(MAX_STORED_BLOCK_LENGTH as int),
            final_block,
        )
    }
}

/// Write one stored block of `chunk`.
fn write_stored_chunk(chunk: &[u8], writer: &mut LsbWriter, final_block: bool) -> (r: usize)
    requires
        old(writer).wf(),
    ensures
        r == chunk@.len(),
        final(writer).wf(),
        final(writer).pending() == Seq::<bool>::empty(),
        final(writer).stream() == old(writer).stream() + stored_chunk_bits(
            old(writer).pending().len() as int,
            chunk@,
            final_block,
        ),
        final(writer).w@.len() >= old(writer).w@.len(),
        final(writer).w@.subrange(0, old(writer).w@.len() as int) == old(writer).w@,
{
    let ghost w0 = writer.w@;
    // Write the block header
    write_stored_header(writer, final_block);
    let ghost w1 = writer.w@;
    proof {
        vstd::arithmetic::power2::lemma2_to64();
        crate::bitstream::lemma_int_bits_zero_len(0);
    }
    // Write the actual data.
    let n = compress_block_stored(chunk, &mut writer.w);
    proof {
        crate::bitstream::lemma_bytes_bits_append(w1, stored_header(chunk@.len() as u16) + chunk@);
        crate::bitstream::lemma_int_bits_zero_len(writer.acc as int);
        assert(writer.w@ =~= w1 + (stored_header(chunk@.len() as u16) + chunk@));
        assert(writer.stream() =~= old(writer).stream() + stored_chunk_bits(
            old(writer).pending().len() as int,
            chunk@,
            final_block,
        ));
        assert(writer.w@.subrange(0, w0.len() as int) =~= w1.subrange(0, w0.len() as int));
    }
    n
}

/// Write `input` as stored blocks, or an empty stored block where it is empty.
#[verifier::spinoff_prover]
fn write_stored_block(input: &[u8], deflate_state: &mut DeflateState, final_block: bool) -> (r: usize)
    requires
        old(deflate_state).encoder_state.valid(),
    ensures
        r == input@.len(),
        final(deflate_state).encoder_state.valid(),
        final(deflate_state).encoder_state.writer.pending() == Seq::<bool>::empty(),
        final(deflate_state).output_bits() == old(deflate_state).output_bits() + stored_bits(
            old(deflate_state).encoder_state.writer.pending().len() as int,
            input@,
            final_block,
        ),
        final(deflate_state).encoder_state.table() == old(deflate_state).encoder_state.table(),
        final(deflate_state).lz77_state == old(deflate_state).lz77_state,
        final(deflate_state).input_buffer == old(deflate_state).input_buffer,
        final(deflate_state).lz77_writer == old(deflate_state).lz77_writer,
        final(deflate_state).back_buffer == old(deflate_state).back_buffer,
        final(deflate_state).flush_mode == old(deflate_state).flush_mode,
        final(deflate_state).bytes_written == old(deflate_state).bytes_written,
        final(deflate_state).compression_options == old(deflate_state).compression_options,
        final(deflate_state).lz77_state.options() == old(deflate_state).lz77_state.options(),
        final(deflate_state).out_start == old(deflate_state).out_start,
        final(deflate_state).blocks == old(deflate_state).blocks,
        final(deflate_state).block_data == old(deflate_state).block_data,
        final(deflate_state).block_last == old(deflate_state).block_last,
{
    let ghost s0 = deflate_state.output_bits();
    let ghost p0 = deflate_state.encoder_state.writer.pending().len() as int;
    if input.len() == 0 {
        // If the input length is zero, we output an empty block. This is used for syncing.
        return write_stored_chunk(input, &mut deflate_state.encoder_state.writer, final_block);
    }
    let mut written: usize = 0;
    let mut pos: usize = 0;
    proof {
        assert(input@.skip(0) =~= input@);
        assert(s0 + Seq::<bool>::empty() =~= s0);
    }
    let ghost mut acc_bits = Seq::<bool>::empty();
    while pos < input.len()
        invariant
            pos < input@.len() || pos == input@.len(),
            written == pos,
            deflate_state.encoder_state.valid(),
            deflate_state.encoder_state.table() == old(deflate_state).encoder_state.table(),
            deflate_state.lz77_state == old(deflate_state).lz77_state,
            deflate_state.input_buffer == old(deflate_state).input_buffer,
            deflate_state.lz77_writer == old(deflate_state).lz77_writer,
            deflate_state.back_buffer == old(deflate_state).back_buffer,
            deflate_state.flush_mode == old(deflate_state).flush_mode,
            deflate_state.compression_options == old(deflate_state).compression_options,
            deflate_state.bytes_written == old(deflate_state).bytes_written,
            deflate_state.lz77_state.options() == old(deflate_state).lz77_state.options(),
            deflate_state.out_start == old(deflate_state).out_start,
            deflate_state.blocks == old(deflate_state).blocks,
            deflate_state.block_data == old(deflate_state).block_data,
            deflate_state.block_last == old(deflate_state).block_last,
            pos > 0 ==> deflate_state.encoder_state.writer.pending() == Seq::<bool>::empty(),
            pos == 0 ==> deflate_state.encoder_state.writer.pending().len() == p0,
            pos < input@.len() ==> acc_bits + stored_bits(
                if pos == 0 { p0 } else { 0 },
                input@.skip(pos as int),
                final_block,
            ) == stored_bits(p0, input@, final_block),
            pos == input@.len() ==> acc_bits == stored_bits(p0, input@, final_block),
            deflate_state.output_bits() == s0 + acc_bits,
            input@.len() > 0,
        decreases input@.len() - pos,
    {
        let rest = input.len() - pos;
        let end = if rest > MAX_STORED_BLOCK_LENGTH { pos + MAX_STORED_BLOCK_LENGTH } else { input.len() };
        let last_chunk = end == input.len();
        let chunk = vstd::slice::slice_subrange(input, pos, end);
        let ghost r0 = input@.skip(pos as int);
        let ghost p = deflate_state.encoder_state.writer.pending().len() as int;
        // Write the block header and the actual data.
        let n = write_stored_chunk(chunk, &mut deflate_state.encoder_state.writer, final_block && last_chunk);
        written = written + n;
        proof {
            let pp = if pos == 0 { p0 } else { 0 };
            assert(p == pp);
            let c = stored_chunk_bits(p, chunk@, final_block && last_chunk);
            let old_acc = acc_bits;
            if last_chunk {
                assert(chunk@ =~= r0);
                assert(stored_bits(pp, r0, final_block) == c);
            } else {
                assert(chunk@ =~= r0.take(MAX_STORED_BLOCK_LENGTH as int));
                assert(input@.skip(end as int) =~= r0.skip(MAX_STORED_BLOCK_LENGTH as int));
                assert(stored_bits(pp, r0, final_block) == c + stored_bits(0, input@.skip(end as int), final_block));
                assert(old_acc + c + stored_bits(0, input@.skip(end as int), final_block) =~= old_acc + (c + stored_bits(
                    0,
                    input@.skip(end as int),
                    final_block,
                )));
            }
            acc_bits = acc_bits + c;
            assert(deflate_state.output_bits() =~= s0 + acc_bits);
            if last_chunk {
                assert(old_acc + c =~= old_acc + stored_bits(pp, r0, final_block));
            }
        }
        pos = end;
    }
    written
}


/// The output only grows: what was written before stays at the front.
pub open spec fn output_extends(before: Seq<bool>, after: Seq<bool>) -> bool {
    after.len() >= before.len() && after.take(before.len() as int) == before
}

pub(crate) proof fn lemma_extends_append(a: Seq<bool>, b: Seq<bool>)
    ensures
        output_extends(a, a + b),
{
    assert((a + b).take(a.len() as int) =~= a);
}

pub(crate) proof fn lemma_extends_trans(a: Seq<bool>, b: Seq<bool>, c: Seq<bool>)
    requires
        output_extends(a, b),
        output_extends(b, c),
    ensures
        output_extends(a, c),
{
    assert(c.take(a.len() as int) =~= b.take(a.len() as int));
}

/// A header `gen_huffman_lengths` gives for the frequencies of the items is the one made for
/// the items.
proof fn lemma_header_for(h: DynamicBlockHeader, items: Seq<LZValue>, l_f: Seq<u16>, d_f: Seq<u16>)
    requires
        l_f == ll_frequencies(items),
        d_f == d_frequencies(items),
        header_ok(h),
        h.encoded_lengths@ == rle_encode(h.l_lengths@ + h.d_lengths@),
        complete_and_ordered(
            h.huffman_table_lengths@,
            Seq::new(19, |k: int| enc_count(h.encoded_lengths@, k) as u16),
            MAX_HUFFMAN_CODE_LENGTH as int,
        ),
        lengths_for(h.l_lengths@, l_f, MIN_NUM_LITERALS_AND_LENGTHS as int, MAX_CODE_LENGTH as int),
        lengths_for(h.d_lengths@, d_f, MIN_NUM_DISTANCES as int, MAX_CODE_LENGTH as int),
    ensures
        header_for(h, items),
        dynamic_cost(h, items) == header_cost(h, l_f, d_f) / 8,
{
    reveal(header_for);
    reveal(dynamic_cost);
}

/// Code lengths chosen for the frequencies of the items give each symbol of the items a code.
proof fn lemma_header_covers(h: DynamicBlockHeader, items: Seq<LZValue>, l_f: Seq<u16>, d_f: Seq<u16>)
    requires
        l_f == ll_frequencies(items),
        d_f == d_frequencies(items),
        forall|sym: int| sym >= 0 ==> #[trigger] ll_count(items, sym) <= 65535,
        forall|sym: int| sym >= 0 ==> #[trigger] d_count(items, sym) <= 65535,
        lengths_for(h.l_lengths@, l_f, MIN_NUM_LITERALS_AND_LENGTHS as int, MAX_CODE_LENGTH as int),
        lengths_for(h.d_lengths@, d_f, MIN_NUM_DISTANCES as int, MAX_CODE_LENGTH as int),
    ensures
        header_covers(h, items),
{
    lemma_no_end_of_block(items);
    assert(l_f[END_OF_BLOCK_POSITION as int] > 0);
    assert forall|j: int| 0 <= j < items.len() && ll_symbol(#[trigger] items[j]) >= 0 implies ll_symbol(items[j])
        < h.l_lengths@.len() && h.l_lengths@[ll_symbol(items[j])] >= 1 by {
        let s = ll_symbol(items[j]);
        lemma_count_present(items, j);
        lemma_symbol_range(items[j]);
        assert(l_f[s] > 0);
    }
    assert forall|j: int| 0 <= j < items.len() && d_symbol(#[trigger] items[j]) >= 0 implies d_symbol(items[j])
        < h.d_lengths@.len() && h.d_lengths@[d_symbol(items[j])] >= 1 by {
        let s = d_symbol(items[j]);
        lemma_count_present(items, j);
        lemma_symbol_range(items[j]);
        assert(d_f[s] > 0);
    }
}

/// Write the symbols of the current block as a dynamic block, or as stored blocks where that is
/// not larger.
#[verifier::spinoff_prover]
#[verifier::rlimit(60)]
fn write_block(deflate_state: &mut DeflateState, last_block: bool, final_stored: bool)
    requires
        old(deflate_state).lz77_state.inv(&old(deflate_state).input_buffer),
        old(deflate_state).lz77_writer.inv(),
        old(deflate_state).lz77_state.block_ok(old(deflate_state).lz77_writer.buffer_view()),
        old(deflate_state).encoder_state.valid(),
        back_ok(
            old(deflate_state).back_buffer.data(),
            old(deflate_state).lz77_state.consumed().take(old(deflate_state).lz77_state.block_start()),
        ),
        final_stored == last_block,
    ensures
        final(deflate_state).encoder_state.valid(),
        output_extends(old(deflate_state).output_bits(), final(deflate_state).output_bits()),
        deflate_block(
            old(deflate_state).output_bits().len() as int,
            final(deflate_state).output_bits().skip(old(deflate_state).output_bits().len() as int),
            old(deflate_state).lz77_state.consumed().take(old(deflate_state).lz77_state.block_start()),
            old(deflate_state).lz77_state.consumed().subrange(
                old(deflate_state).lz77_state.block_start(),
                old(deflate_state).lz77_state.done(),
            ),
            last_block,
        ),
        block_of_items(
            old(deflate_state).output_bits().len() as int,
            final(deflate_state).output_bits().skip(old(deflate_state).output_bits().len() as int),
            old(deflate_state).lz77_state.consumed().take(old(deflate_state).lz77_state.block_start()),
            old(deflate_state).lz77_state.consumed().subrange(
                old(deflate_state).lz77_state.block_start(),
                old(deflate_state).lz77_state.done(),
            ),
            old(deflate_state).lz77_writer.buffer_view(),
            last_block,
        ),
        final(deflate_state).lz77_state == old(deflate_state).lz77_state,
        final(deflate_state).input_buffer == old(deflate_state).input_buffer,
        final(deflate_state).lz77_writer == old(deflate_state).lz77_writer,
        final(deflate_state).back_buffer == old(deflate_state).back_buffer,
        final(deflate_state).flush_mode == old(deflate_state).flush_mode,
        final(deflate_state).bytes_written == old(deflate_state).bytes_written,
        final(deflate_state).compression_options == old(deflate_state).compression_options,
        final(deflate_state).lz77_state.options() == old(deflate_state).lz77_state.options(),
        final(deflate_state).out_start == old(deflate_state).out_start,
        final(deflate_state).blocks == old(deflate_state).blocks,
        final(deflate_state).block_data == old(deflate_state).block_data,
        final(deflate_state).block_last == old(deflate_state).block_last,
{
    let ghost s0 = deflate_state.output_bits();
    let ghost items = deflate_state.lz77_writer.buffer_view();
    let ghost h = deflate_state.lz77_state.consumed();
    let ghost bs = deflate_state.lz77_state.block_start();
    let ghost done = deflate_state.lz77_state.done();
    proof {
        deflate_state.lz77_state.lemma_inv(&deflate_state.input_buffer);
        deflate_state.lz77_state.lemma_block_ok(items);
        lemma_decode_growth((h.take(bs), None, true), items);
        assert(h.take(done).len() == done);
        assert(h.take(bs).len() == bs);
    }
    let current_block_input_bytes = deflate_state.lz77_state.current_block_input_bytes();
    let ghost l_f = deflate_state.lz77_writer.frequencies@;
    let ghost d_f = deflate_state.lz77_writer.distance_frequencies@;
    let res = {
        let (l_freqs, d_freqs) = deflate_state.lz77_writer.get_frequencies();
        gen_huffman_lengths(l_freqs, d_freqs, current_block_input_bytes)
    };
    match res {
        Some(header) => {
            // Write the block header.
            deflate_state.encoder_state.write_start_of_block(false, last_block);
            let ghost s1 = deflate_state.output_bits();
            // Output the lengths of the huffman codes used in this block.
            write_huffman_lengths(&header, &mut deflate_state.encoder_state.writer);
            let ghost s2 = deflate_state.output_bits();
            let ghost c0 = deflate_state.encoder_state.table().codes();
            let ghost d0 = deflate_state.encoder_state.table().distance_codes();
            // Output update the huffman table that will be used to encode the
            // lz77-compressed data.
            let _ = deflate_state.encoder_state.update_huffman_table(
                header.l_lengths.as_slice(),
                header.d_lengths.as_slice(),
            );
            proof {
                deflate_state.lz77_state.lemma_block_ok(items);
                lemma_symbols_ok(h.take(bs), items);
            }
            // Write the huffman compressed data and the end of block marker.
            let _ = flush_to_bitstream(deflate_state.lz77_writer.get_buffer(), &mut deflate_state.encoder_state);
            proof {
                lemma_extends_append(s0, int_bits(block_start(false, last_block) as int, 3));
                lemma_extends_append(s1, dynamic_header_bits(header));
                lemma_extends_trans(s0, s1, s2);
                let s3 = deflate_state.output_bits();
                lemma_extends_append(s2, s3.skip(s2.len() as int));
                assert(s3 =~= s2 + s3.skip(s2.len() as int));
                lemma_extends_trans(s0, s2, s3);
                let t = deflate_state.encoder_state.table();
                lemma_header_covers(header, items, l_f, d_f);
                assert(length_table_error(header.l_lengths@) is None);
                assert(length_table_error(header.d_lengths@) is None);
                assert(table_from_header(t, header)) by {
                    assert(t.codes() == assign_codes(c0, header.l_lengths@));
                    assert(t.distance_codes() == assign_codes(d0, header.d_lengths@));
                }
                let data = h.subrange(bs, done);
                assert(h.take(bs) + data =~= h.take(done));
                lemma_header_for(header, items, l_f, d_f);
                assert(current_block_input_bytes == saturate(data.len() as int));
                assert(s3.skip(s0.len() as int) =~= dynamic_block_bits(last_block, header, t, items));
            }
        },
        None => {
            // Decompress the current lz77 encoded data to get back the uncompressd bytes.
            let ghost back = deflate_state.back_buffer.data();
            let ghost pre = h.take(bs).take(h.take(bs).len() - back.len());
            proof {
                deflate_state.lz77_state.lemma_block_ok(items);
                assert(pre + back =~= h.take(bs));
                lemma_decode_shorter_history(pre, (back, None, true), items);
            }
            let data = decompress_lz77_with_backbuffer(
                deflate_state.lz77_writer.get_buffer(),
                deflate_state.back_buffer.get_buffer(),
            );
            let ghost p0 = deflate_state.encoder_state.writer.pending().len() as int;
            proof {
                let full = lz_decode(h.take(bs), items).0;
                assert(full == h.take(done));
                assert(data@ =~= h.subrange(bs, done)) by {
                    assert(full == pre + lz_decode(back, items).0);
                    assert(data@ =~= lz_decode(back, items).0.skip(back.len() as int));
                    assert(full.skip(bs) =~= h.subrange(bs, done));
                    assert(lz_decode(back, items).0.skip(back.len() as int) =~= full.skip(bs));
                }
                crate::bitstream::lemma_bytes_bits_len(deflate_state.encoder_state.writer.w@);
                assert(s0.len() % 8 == p0 % 8);
            }
            write_stored_block(data.as_slice(), deflate_state, final_stored);
            proof {
                lemma_extends_append(s0, deflate_state.output_bits().skip(s0.len() as int));
                assert(deflate_state.output_bits() =~= s0 + deflate_state.output_bits().skip(s0.len() as int));
                crate::deflate_format::lemma_stored_bits_mod(p0, s0.len() as int, data@, last_block);
                assert(deflate_state.output_bits().skip(s0.len() as int) =~= stored_bits(p0, data@, last_block));
                let hw = choose|hw: DynamicBlockHeader|
                    {
                        &&& header_ok(hw)
                        &&& hw.encoded_lengths@ == rle_encode(hw.l_lengths@ + hw.d_lengths@)
                        &&& complete_and_ordered(
                            hw.huffman_table_lengths@,
                            Seq::new(19, |k: int| enc_count(hw.encoded_lengths@, k) as u16),
                            MAX_HUFFMAN_CODE_LENGTH as int,
                        )
                        &&& lengths_for(hw.l_lengths@, l_f, MIN_NUM_LITERALS_AND_LENGTHS as int, MAX_CODE_LENGTH as int)
                        &&& lengths_for(hw.d_lengths@, d_f, MIN_NUM_DISTANCES as int, MAX_CODE_LENGTH as int)
                        &&& #[trigger] header_cost(hw, l_f, d_f) / 8 > current_block_input_bytes + STORED_BLOCK_HEADER_LENGTH
                    };
                lemma_header_for(hw, items, l_f, d_f);
                assert(h.take(bs) + data@ =~= h.take(done));
                assert(decodes_to(h.take(bs), items, h.take(bs) + data@));
                assert(current_block_input_bytes == saturate(data@.len() as int));
                assert(header_for(hw, items));
            }
        },
    }
    proof {
        let data = h.subrange(bs, done);
        deflate_state.lz77_state.lemma_block_ok(items);
        assert(h.take(bs) + data =~= h.take(done));
        assert(block_of_items(
            s0.len() as int,
            deflate_state.output_bits().skip(s0.len() as int),
            h.take(bs),
            data,
            items,
            last_block,
        )) by {
            reveal(block_of_items);
        }
        crate::deflate_format::lemma_block_of_items(
            s0.len() as int,
            deflate_state.output_bits().skip(s0.len() as int),
            h.take(bs),
            data,
            items,
            last_block,
        );
    }
}

/// The output is what came before the stream, then the blocks written, of which only the last
/// is marked final, which hold all the input.
pub open spec fn final_blocks_ok(s: &DeflateState) -> bool {
    &&& s.out_start@.len() % 8 == 0
    &&& blocks_ok(s.blocks@, s.block_data@, s.block_last@)
    &&& s.block_last@.len() > 0
    &&& s.block_last@.last()
    &&& none_final(s.block_last@.drop_last())
    &&& concat_bytes(s.block_data@) == s.lz77_state.consumed()
    &&& s.output_bits() == s.out_start@ + concat_bits(s.blocks@)
}

/// Padding the blocks of a finished stream to a whole byte completes the stream.
#[verifier::spinoff_prover]
#[verifier::rlimit(60)]
proof fn lemma_close_stream(
    start: Seq<bool>,
    bs: Seq<Seq<bool>>,
    ds: Seq<Seq<u8>>,
    lasts: Seq<bool>,
    data: Seq<u8>,
    p: int,
    out: Seq<bool>,
)
    requires
        start.len() % 8 == 0,
        blocks_ok(bs, ds, lasts),
        lasts.len() > 0,
        lasts.last(),
        none_final(lasts.drop_last()),
        concat_bytes(ds) == data,
        0 <= p < 8,
        (start.len() + concat_bits(bs).len()) % 8 == p,
        out == start + concat_bits(bs) + int_bits(0, ((8 - p) % 8) as nat),
    ensures
        out.len() >= start.len(),
        out.take(start.len() as int) == start,
        deflate_stream(out.skip(start.len() as int), data),
{
    let body = concat_bits(bs);
    assert(pad_bits(body.len() as int) == ((8 - p) % 8) as nat);
    assert(out.take(start.len() as int) =~= start);
    assert(out.skip(start.len() as int) =~= body + int_bits(0, pad_bits(body.len() as int)));
    lemma_stream_of(bs, ds, lasts, data, out.skip(start.len() as int));
}

/// Blocks of the data, only the last one final, padded to a byte, are a stream of the data.
proof fn lemma_stream_of(bs: Seq<Seq<bool>>, ds: Seq<Seq<u8>>, lasts: Seq<bool>, data: Seq<u8>, bits: Seq<bool>)
    requires
        blocks_ok(bs, ds, lasts),
        lasts.len() > 0,
        lasts.last(),
        none_final(lasts.drop_last()),
        concat_bytes(ds) == data,
        bits == concat_bits(bs) + int_bits(0, pad_bits(concat_bits(bs).len() as int)),
    ensures
        deflate_stream(bits, data),
{
}

/// The output bytes end with the marker of a sync flush: the length and complemented length
/// of an empty stored block.
pub open spec fn ends_with_sync_marker(w: Seq<u8>) -> bool {
    w.len() >= 4 && w.skip(w.len() - 4) == seq![0u8, 0u8, 0xffu8, 0xffu8]
}

/// Bytes whose bits end with the bits of an empty stored block end with its marker.
proof fn lemma_sync_marker(w: Seq<u8>, front: Seq<bool>, p: int)
    requires
        bytes_bits(w) == front + stored_bits(p, Seq::<u8>::empty(), false),
    ensures
        ends_with_sync_marker(w),
{
    let m = stored_header(0);
    assert(m + Seq::<u8>::empty() =~= m);
    let tail = stored_bits(p, Seq::<u8>::empty(), false);
    crate::bitstream::lemma_bytes_bits_len(w);
    crate::bitstream::lemma_bytes_bits_len(m);
    assert(tail.len() >= 32);
    let n = w.len();
    assert(n >= 4);
    crate::bitstream::lemma_bytes_bits_append(w.take(n - 4), w.skip(n - 4));
    assert(w =~= w.take(n - 4) + w.skip(n - 4));
    crate::bitstream::lemma_bytes_bits_len(w.skip(n - 4));
    assert(bytes_bits(w.skip(n - 4)) =~= bytes_bits(w).skip(bytes_bits(w).len() - 32));
    assert(bytes_bits(m) =~= tail.skip(tail.len() - 32));
    assert(bytes_bits(w).skip(bytes_bits(w).len() - 32) =~= tail.skip(tail.len() - 32));
    crate::bitstream::lemma_bytes_bits_inj(w.skip(n - 4), m);
    assert(m =~= seq![0u8, 0u8, 0xffu8, 0xffu8]);
}

/// The empty stored block of a sync flush, which ends byte aligned.
#[verifier::rlimit(100)]
fn write_sync_block(deflate_state: &mut DeflateState, Ghost(track): Ghost<bool>)
    requires
        old(deflate_state).wf(),
        track ==> old(deflate_state).stream_ok(),
    ensures
        final(deflate_state).wf(),
        final(deflate_state).lz77_state == old(deflate_state).lz77_state,
        final(deflate_state).input_buffer == old(deflate_state).input_buffer,
        final(deflate_state).lz77_writer == old(deflate_state).lz77_writer,
        final(deflate_state).back_buffer == old(deflate_state).back_buffer,
        final(deflate_state).flush_mode == old(deflate_state).flush_mode,
        final(deflate_state).bytes_written == old(deflate_state).bytes_written,
        final(deflate_state).compression_options == old(deflate_state).compression_options,
        final(deflate_state).lz77_state.options() == old(deflate_state).lz77_state.options(),
        final(deflate_state).out_start == old(deflate_state).out_start,
        output_extends(old(deflate_state).output_bits(), final(deflate_state).output_bits()),
        final(deflate_state).encoder_state.writer.pending() == Seq::<bool>::empty(),
        track ==> final(deflate_state).stream_ok(),
        ends_with_sync_marker(final(deflate_state).encoder_state.writer.w@),
{
    let empty: [u8; 0] = [];
    let ghost s1 = deflate_state.output_bits();
    let ghost p1 = deflate_state.encoder_state.writer.pending().len() as int;
    proof {
        crate::bitstream::lemma_bytes_bits_len(deflate_state.encoder_state.writer.w@);
    }
    write_stored_block(empty.as_slice(), deflate_state, false);
    let ghost b = deflate_state.output_bits().skip(s1.len() as int);
    proof {
        lemma_extends_append(s1, deflate_state.output_bits().skip(s1.len() as int));
        assert(deflate_state.output_bits() =~= s1 + deflate_state.output_bits().skip(s1.len() as int));
        if track {
            crate::deflate_format::lemma_stored_bits_mod(p1, s1.len() as int, empty@, false);
            assert(b =~= stored_bits(s1.len() as int, Seq::<u8>::empty(), false));
            assert(deflate_block(
                (deflate_state.out_start@.len() + concat_bits(deflate_state.blocks@).len()) as int,
                b,
                concat_bytes(deflate_state.block_data@),
                Seq::<u8>::empty(),
                false,
            )) by {
                reveal(deflate_block);
            }
            lemma_blocks_push_at(
                deflate_state.out_start@,
                deflate_state.blocks@,
                deflate_state.block_data@,
                deflate_state.block_last@,
                b,
                Seq::<u8>::empty(),
                false,
            );
            assert(concat_bytes(deflate_state.block_data@) + Seq::<u8>::empty() =~= concat_bytes(
                deflate_state.block_data@,
            ));
            assert(deflate_state.output_bits() =~= deflate_state.out_start@ + concat_bits(
                deflate_state.blocks@.push(b),
            ));
        }
    }
    deflate_state.blocks = Ghost(deflate_state.blocks@.push(b));
    deflate_state.block_data = Ghost(deflate_state.block_data@.push(Seq::<u8>::empty()));
    deflate_state.block_last = Ghost(deflate_state.block_last@.push(false));
    proof {
        assert(empty@ =~= Seq::<u8>::empty());
        crate::bitstream::lemma_int_bits_zero_len(deflate_state.encoder_state.writer.acc as int);
        assert(bytes_bits(deflate_state.encoder_state.writer.w@) =~= s1 + stored_bits(p1, Seq::<u8>::empty(), false));
        lemma_sync_marker(deflate_state.encoder_state.writer.w@, s1, p1);
    }
}

/// Pad the output to a whole byte: after the final block this completes the stream.
fn pad_output(deflate_state: &mut DeflateState, finish: bool, Ghost(track): Ghost<bool>)
    requires
        old(deflate_state).wf(),
        track && !finish ==> old(deflate_state).stream_ok() && old(deflate_state).encoder_state.writer.pending()
            == Seq::<bool>::empty(),
        track && finish ==> final_blocks_ok(old(deflate_state)),
    ensures
        final(deflate_state).wf(),
        final(deflate_state).lz77_state == old(deflate_state).lz77_state,
        final(deflate_state).input_buffer == old(deflate_state).input_buffer,
        final(deflate_state).lz77_writer == old(deflate_state).lz77_writer,
        final(deflate_state).back_buffer == old(deflate_state).back_buffer,
        final(deflate_state).flush_mode == old(deflate_state).flush_mode,
        final(deflate_state).bytes_written == old(deflate_state).bytes_written,
        final(deflate_state).compression_options == old(deflate_state).compression_options,
        final(deflate_state).lz77_state.options() == old(deflate_state).lz77_state.options(),
        final(deflate_state).out_start == old(deflate_state).out_start,
        final(deflate_state).blocks == old(deflate_state).blocks,
        output_extends(old(deflate_state).output_bits(), final(deflate_state).output_bits()),
        final(deflate_state).encoder_state.writer.pending() == Seq::<bool>::empty(),
        track && !finish ==> final(deflate_state).stream_ok(),
        track && finish ==> final(deflate_state).stream_done(),
        old(deflate_state).encoder_state.writer.pending() == Seq::<bool>::empty()
            ==> final(deflate_state).encoder_state.writer.w@ == old(deflate_state).encoder_state.writer.w@,
{
    let ghost s2 = deflate_state.output_bits();
    let ghost p2 = deflate_state.encoder_state.writer.pending().len() as int;
    proof {
        crate::bitstream::lemma_bytes_bits_len(deflate_state.encoder_state.writer.w@);
    }
    deflate_state.encoder_state.flush();
    proof {
        lemma_extends_append(s2, deflate_state.output_bits().skip(s2.len() as int));
        assert(deflate_state.output_bits() =~= s2 + deflate_state.output_bits().skip(s2.len() as int));
        if track && finish {
            lemma_close_stream(
                deflate_state.out_start@,
                deflate_state.blocks@,
                deflate_state.block_data@,
                deflate_state.block_last@,
                deflate_state.lz77_state.consumed(),
                p2,
                deflate_state.output_bits(),
            );
        } else if track {
            crate::bitstream::lemma_int_bits_zero_len(0);
            assert(deflate_state.output_bits() =~= s2);
        }
        if p2 == 0 {
            crate::bitstream::lemma_int_bits_zero_len(0);
            crate::bitstream::lemma_int_bits_zero_len(old(deflate_state).encoder_state.writer.acc as int);
            crate::bitstream::lemma_int_bits_zero_len(deflate_state.encoder_state.writer.acc as int);
            assert(bytes_bits(deflate_state.encoder_state.writer.w@) =~= bytes_bits(
                old(deflate_state).encoder_state.writer.w@,
            ));
            crate::bitstream::lemma_bytes_bits_inj(
                deflate_state.encoder_state.writer.w@,
                old(deflate_state).encoder_state.writer.w@,
            );
        }
    }
}

/// The end of a call: the empty stored block of a sync flush, and the padding to a whole byte
/// where the input is done.
fn close_call(deflate_state: &mut DeflateState, flush: Flush, status: LZ77Status, Ghost(track): Ghost<bool>)
    requires
        old(deflate_state).wf(),
        status == LZ77Status::NeedInput || status == LZ77Status::Finished,
        status == LZ77Status::Finished ==> flush == Flush::Finish || flush == Flush::Sync,
        status != LZ77Status::Finished ==> flush != Flush::Finish && flush != Flush::Sync,
        track && !(status == LZ77Status::Finished && flush == Flush::Finish) ==> old(deflate_state).stream_ok(),
        track && status == LZ77Status::Finished && flush == Flush::Finish ==> final_blocks_ok(old(deflate_state)),
    ensures
        final(deflate_state).wf(),
        final(deflate_state).lz77_state == old(deflate_state).lz77_state,
        final(deflate_state).input_buffer == old(deflate_state).input_buffer,
        final(deflate_state).lz77_writer == old(deflate_state).lz77_writer,
        final(deflate_state).back_buffer == old(deflate_state).back_buffer,
        final(deflate_state).flush_mode == old(deflate_state).flush_mode,
        final(deflate_state).bytes_written == old(deflate_state).bytes_written,
        final(deflate_state).compression_options == old(deflate_state).compression_options,
        final(deflate_state).lz77_state.options() == old(deflate_state).lz77_state.options(),
        final(deflate_state).out_start == old(deflate_state).out_start,
        output_extends(old(deflate_state).output_bits(), final(deflate_state).output_bits()),
        flush == Flush::Finish || flush == Flush::Sync ==> final(deflate_state).encoder_state.writer.pending()
            == Seq::<bool>::empty(),
        track && flush != Flush::Finish ==> final(deflate_state).stream_ok(),
        track && flush == Flush::Finish ==> final(deflate_state).stream_done(),
        flush == Flush::Sync ==> ends_with_sync_marker(final(deflate_state).encoder_state.writer.w@),
        status == LZ77Status::NeedInput && flush != Flush::Sync ==> *final(deflate_state) == *old(deflate_state),
{
    let ghost s0 = deflate_state.output_bits();
    proof {
        assert(s0.take(s0.len() as int) =~= s0);
    }
    // This flush mode means that there should be an empty stored block at the end.
    if flush == Flush::Sync {
        write_sync_block(deflate_state, Ghost(track));
    }
    let ghost s1 = deflate_state.output_bits();
    if status != LZ77Status::NeedInput {
        // Make sure we've output everything.
        pad_output(deflate_state, flush == Flush::Finish, Ghost(track));
        proof {
            lemma_extends_trans(s0, s1, deflate_state.output_bits());
        }
    }
}

/// Adding to a count that wraps at 2^64.
proof fn lemma_count_wraps(a: int, b: int, w: int)
    requires
        0 <= w < 0x1_0000_0000_0000_0000,
    ensures
        ((a + b) % 0x1_0000_0000_0000_0000 + w) % 0x1_0000_0000_0000_0000 == (a + b + w) % 0x1_0000_0000_0000_0000,
{
    let m = 0x1_0000_0000_0000_0000int;
    vstd::arithmetic::div_mod::lemma_add_mod_noop(a + b, w, m);
    vstd::arithmetic::div_mod::lemma_mod_twice(w, m);
    vstd::arithmetic::div_mod::lemma_small_mod(w as nat, m as nat);
    vstd::arithmetic::div_mod::lemma_mod_twice(a + b, m);
}

/// Inner compression function used by both the writers and the simple compression functions.
///
/// Returns the number of bytes of `input` taken: all of them.
#[verifier::spinoff_prover]
#[verifier::rlimit(100)]
pub fn compress_data_dynamic_n(input: &[u8], deflate_state: &mut DeflateState, flush: Flush) -> (r: usize)
    requires
        old(deflate_state).wf(),
        old(deflate_state).lz77_state.is_last() ==> flush == Flush::Finish && input@.len() == 0,
    ensures
        r == input@.len(),
        final(deflate_state).wf(),
        final(deflate_state).lz77_state.consumed() == old(deflate_state).lz77_state.consumed() + input@,
        output_extends(old(deflate_state).output_bits(), final(deflate_state).output_bits()),
        flush == Flush::Finish ==> final(deflate_state).lz77_state.is_last(),
        flush == Flush::Finish || flush == Flush::Sync ==> final(deflate_state).lz77_state.done()
            == final(deflate_state).lz77_state.consumed().len() && final(deflate_state).encoder_state.writer.pending()
            == Seq::<bool>::empty(),
        flush != Flush::Finish ==> final(deflate_state).lz77_state.is_last() == old(deflate_state).lz77_state.is_last(),
        final(deflate_state).flush_mode == old(deflate_state).flush_mode,
        final(deflate_state).bytes_written == (old(deflate_state).bytes_written + input@.len()) % 0x1_0000_0000_0000_0000,
        final(deflate_state).compression_options == old(deflate_state).compression_options,
        final(deflate_state).lz77_state.options() == old(deflate_state).lz77_state.options(),
        final(deflate_state).out_start == old(deflate_state).out_start,
        old(deflate_state).stream_ok() && !old(deflate_state).lz77_state.is_last() && flush != Flush::Finish
            ==> final(deflate_state).stream_ok(),
        old(deflate_state).stream_ok() && !old(deflate_state).lz77_state.is_last() && flush == Flush::Finish
            ==> final(deflate_state).stream_done(),
        flush == Flush::Sync ==> ends_with_sync_marker(final(deflate_state).encoder_state.writer.w@),
        flush == Flush::Sync ==> final(deflate_state).lz77_state.block_start()
            == final(deflate_state).lz77_state.consumed().len(),
        old(deflate_state).lz77_state.waiting() && old(deflate_state).lz77_writer.buffer_view().len() == 0 && flush
            == Flush::NoFlush && old(deflate_state).lz77_state.consumed().len() + input@.len() <= WINDOW_SIZE
            ==> final(deflate_state).lz77_state.waiting() && final(deflate_state).lz77_writer.buffer_view().len() == 0
            && final(deflate_state).output_bits() == old(deflate_state).output_bits(),
        old(deflate_state).lz77_state.waiting() && old(deflate_state).lz77_writer.buffer_view().len() == 0 && flush
            == Flush::Finish && old(deflate_state).lz77_state.consumed().len() + input@.len() <= WINDOW_SIZE
            ==> exists|b: Seq<bool>|
            #[trigger] block_of_items(
                old(deflate_state).output_bits().len() as int,
                b,
                Seq::empty(),
                old(deflate_state).lz77_state.consumed() + input@,
                first_pass_parse(old(deflate_state).lz77_state.consumed() + input@, old(deflate_state).lz77_state.options()),
                true,
            ) && output_extends(old(deflate_state).output_bits() + b, final(deflate_state).output_bits()),
{
    let ghost track = old(deflate_state).stream_ok() && !old(deflate_state).lz77_state.is_last();
    let ghost small = old(deflate_state).lz77_state.waiting() && old(deflate_state).lz77_writer.buffer_view().len()
        == 0 && flush == Flush::Finish && old(deflate_state).lz77_state.consumed().len() + input@.len() <= WINDOW_SIZE;
    let ghost waits = old(deflate_state).lz77_state.waiting() && old(deflate_state).lz77_writer.buffer_view().len()
        == 0 && flush == Flush::NoFlush && old(deflate_state).lz77_state.consumed().len() + input@.len() <= WINDOW_SIZE;
    let ghost all_in = old(deflate_state).lz77_state.consumed() + input@;
    let ghost parse = first_pass_parse(all_in, old(deflate_state).lz77_state.options());
    let ghost s_start = old(deflate_state).output_bits();
    let ghost mut blk: Seq<bool> = Seq::empty();
    let mut bytes_written: usize = 0;
    let ghost c0 = deflate_state.lz77_state.consumed();
    let ghost total = c0.len() + input@.len();
    proof {
        deflate_state.lz77_state.lemma_inv(&deflate_state.input_buffer);
        deflate_state.input_buffer.lemma_wf();
        assert(input@.take(0) =~= Seq::<u8>::empty());
        assert(c0 + input@.take(0) =~= c0);
        assert(deflate_state.output_bits().take(deflate_state.output_bits().len() as int) =~= deflate_state.output_bits());
    }
    let mut status = LZ77Status::NeedInput;
    loop
        invariant_except_break
            deflate_state.wf_core(),
            deflate_state.lz77_state.is_last() ==> flush == Flush::Finish && bytes_written == input@.len(),
            deflate_state.lz77_state.resumes_in_lookahead() ==> (flush == Flush::Finish || flush == Flush::Sync)
                && bytes_written == input@.len(),
            track ==> deflate_state.stream_ok() && !deflate_state.lz77_state.is_last(),
            small ==> bytes_written == 0 && deflate_state.lz77_state == old(deflate_state).lz77_state
                && deflate_state.lz77_writer.buffer_view().len() == 0 && deflate_state.output_bits() == s_start,
            waits ==> bytes_written == 0 && deflate_state.lz77_state == old(deflate_state).lz77_state
                && deflate_state.lz77_writer.buffer_view().len() == 0 && deflate_state.output_bits() == s_start,
        invariant
            small == (old(deflate_state).lz77_state.waiting() && old(deflate_state).lz77_writer.buffer_view().len()
                == 0 && flush == Flush::Finish && old(deflate_state).lz77_state.consumed().len() + input@.len()
                <= WINDOW_SIZE),
            waits == (old(deflate_state).lz77_state.waiting() && old(deflate_state).lz77_writer.buffer_view().len()
                == 0 && flush == Flush::NoFlush && old(deflate_state).lz77_state.consumed().len() + input@.len()
                <= WINDOW_SIZE),
            all_in == old(deflate_state).lz77_state.consumed() + input@,
            parse == first_pass_parse(all_in, old(deflate_state).lz77_state.options()),
            s_start == old(deflate_state).output_bits(),
            bytes_written <= input@.len(),
            deflate_state.lz77_state.consumed() == c0 + input@.take(bytes_written as int),
            total == c0.len() + input@.len(),
            deflate_state.lz77_state.done() <= deflate_state.lz77_state.consumed().len(),
            output_extends(old(deflate_state).output_bits(), deflate_state.output_bits()),
            deflate_state.encoder_state.valid(),
            deflate_state.flush_mode == old(deflate_state).flush_mode,
            deflate_state.bytes_written == (old(deflate_state).bytes_written + bytes_written) % 0x1_0000_0000_0000_0000,
            deflate_state.compression_options == old(deflate_state).compression_options,
            deflate_state.lz77_state.options() == old(deflate_state).lz77_state.options(),
            flush != Flush::Finish ==> deflate_state.lz77_state.is_last() == old(deflate_state).lz77_state.is_last(),
            deflate_state.out_start == old(deflate_state).out_start,
            track == (old(deflate_state).stream_ok() && !old(deflate_state).lz77_state.is_last()),
        ensures
            deflate_state.wf(),
            status == LZ77Status::NeedInput || status == LZ77Status::Finished,
            track && !(status == LZ77Status::Finished && flush == Flush::Finish) ==> deflate_state.stream_ok(),
            track && status == LZ77Status::Finished && flush == Flush::Finish ==> final_blocks_ok(deflate_state),
            bytes_written == input@.len(),
            status == LZ77Status::Finished ==> flush == Flush::Finish || flush == Flush::Sync,
            status == LZ77Status::Finished ==> deflate_state.lz77_state.done() == deflate_state.lz77_state.consumed().len(),
            status == LZ77Status::Finished && flush == Flush::Finish ==> deflate_state.lz77_state.is_last(),
            status != LZ77Status::Finished ==> flush != Flush::Finish && flush != Flush::Sync,
            status == LZ77Status::Finished && flush == Flush::Sync ==> deflate_state.lz77_state.block_start()
                == deflate_state.lz77_state.done(),
            small ==> block_of_items(s_start.len() as int, blk, Seq::empty(), all_in, parse, true)
                && output_extends(s_start + blk, deflate_state.output_bits()),
            waits ==> deflate_state.lz77_state.waiting() && deflate_state.lz77_writer.buffer_view().len() == 0
                && deflate_state.output_bits() == s_start && status == LZ77Status::NeedInput,
        decreases total - deflate_state.lz77_state.done(),
    {
        let slice = vstd::slice::slice_subrange(input, bytes_written, input.len());
        let ghost d0 = deflate_state.lz77_state.done();
        let ghost cons_before = deflate_state.lz77_state.consumed();
        proof {
            deflate_state.lz77_state.lemma_inv(&deflate_state.input_buffer);
            deflate_state.input_buffer.lemma_wf();
            assert(slice@ =~= input@.skip(bytes_written as int));
            if small || waits {
                deflate_state.lz77_state.lemma_waiting(&deflate_state.input_buffer);
                assert(slice@ =~= input@);
            }
        }
        let (written, st, position) = lz77_compress_block(
            slice,
            &mut deflate_state.lz77_state,
            &mut deflate_state.input_buffer,
            &mut deflate_state.lz77_writer,
            flush,
        );
        proof {
            assert(input@.take(bytes_written as int) + slice@.take(written as int) =~= input@.take(bytes_written + written));
            deflate_state.lz77_state.lemma_inv(&deflate_state.input_buffer);
        }
        // Bytes written in this call
        let ghost bw0 = deflate_state.bytes_written;
        proof {
            assert(bytes_written + written <= input@.len());
        }
        bytes_written = bytes_written + written;
        // Total bytes written since the compression process started
        deflate_state.bytes_written = deflate_state.bytes_written.wrapping_add(written as u64);
        proof {
            lemma_count_wraps(old(deflate_state).bytes_written as int, (bytes_written - written) as int, written as int);
        }
        if st == LZ77Status::NeedInput {
            // If we've consumed all the data input so far, and we're not
            // finishing or syncing or ending the block here, simply return
            // the number of bytes consumed so far.
            status = st;
            proof {
                assert(deflate_state.lz77_state.consumed().take(deflate_state.lz77_state.block_start())
                    =~= cons_before.take(deflate_state.lz77_state.block_start()));
            }
            break;
        }
        // We need to check if this is the last block as the header will then be
        // slightly different to indicate this.
        let last_block = deflate_state.lz77_state.is_last_block();
        proof {
            assert(deflate_state.lz77_state.consumed().take(deflate_state.lz77_state.block_start())
                =~= cons_before.take(deflate_state.lz77_state.block_start()));
        }
        let ghost s_before = deflate_state.output_bits();
        let ghost bs0 = deflate_state.lz77_state.block_start();
        let ghost done0 = deflate_state.lz77_state.done();
        let ghost cons0 = deflate_state.lz77_state.consumed();
        let ghost items0 = deflate_state.lz77_writer.buffer_view();
        proof {
            if small {
                assert(items0 =~= parse);
                assert(cons0 =~= all_in);
                assert(cons0.take(bs0) =~= Seq::<u8>::empty());
                assert(cons0.subrange(bs0, done0) =~= all_in);
            }
        }
        write_block(deflate_state, last_block, flush == Flush::Finish && last_block);
        proof {
            lemma_extends_trans(old(deflate_state).output_bits(), s_before, deflate_state.output_bits());
        }
        let ghost b = deflate_state.output_bits().skip(s_before.len() as int);
        proof {
            if small {
                blk = b;
                assert(deflate_state.output_bits() =~= s_start + b);
                lemma_extends_append(s_start + b, Seq::<bool>::empty());
                assert(s_start + b + Seq::<bool>::empty() =~= s_start + b);
            }
        }
        let ghost d = cons0.subrange(bs0, done0);
        proof {
            if track {
                assert(cons0.take(bs0) + d =~= cons0.take(done0));
                lemma_blocks_push_at(
                    deflate_state.out_start@,
                    deflate_state.blocks@,
                    deflate_state.block_data@,
                    deflate_state.block_last@,
                    b,
                    d,
                    last_block,
                );
                assert(deflate_state.output_bits() =~= s_before + b);
                assert(deflate_state.output_bits() =~= deflate_state.out_start@ + concat_bits(
                    deflate_state.blocks@.push(b),
                ));
            }
        }
        deflate_state.blocks = Ghost(deflate_state.blocks@.push(b));
        deflate_state.block_data = Ghost(deflate_state.block_data@.push(d));
        deflate_state.block_last = Ghost(deflate_state.block_last@.push(last_block));
        // If we are not done (or we are done but syncing), prepare for the next
        // block.
        if !(flush == Flush::Finish && st == LZ77Status::Finished) {
            // Clear the current lz77 data in the writer for the next call.
            deflate_state.lz77_writer.clear();
            // We are done with the block, so we reset the number of bytes taken
            // for the next one.
            deflate_state.lz77_state.reset_input_bytes();
            proof {
                assert(deflate_state.lz77_state.inv(&deflate_state.input_buffer));
            }
            // Fill the back buffer.
            let buf = deflate_state.input_buffer.get_buffer();
            deflate_state.back_buffer.fill_buffer(vstd::slice::slice_subrange(buf, 0, position));
            proof {
                deflate_state.lz77_state.lemma_inv(&deflate_state.input_buffer);
                let h = deflate_state.lz77_state.consumed();
                let done = deflate_state.lz77_state.done();
                let base = deflate_state.lz77_state.base(&deflate_state.input_buffer);
                assert(position == done - base);
                let data = buf@.subrange(0, position as int);
                assert(data =~= h.subrange(base, done));
                assert(h.take(done).len() == done);
                assert(deflate_state.lz77_state.block_start() == done);
                assert(base == 0 || done - base >= 32768);
                if done > MAX_DISTANCE {
                    if data.len() > MAX_DISTANCE {
                        assert(data.skip(data.len() - MAX_DISTANCE) =~= h.take(done).skip(done - MAX_DISTANCE));
                    } else {
                        assert(data =~= h.take(done).skip(done - MAX_DISTANCE));
                    }
                } else {
                    assert(base == 0);
                    assert(data =~= h.take(done).skip(0));
                }
                assert(back_ok(deflate_state.back_buffer.data(), h.take(deflate_state.lz77_state.block_start())));
                assert(ready(&deflate_state.lz77_writer));
                assert(deflate_state.lz77_state.block_ok(deflate_state.lz77_writer.buffer_view()));
                assert(deflate_state.encoder_state.valid());
                if track {
                    assert(!last_block);
                    assert(deflate_state.stream_ok());
                }
            }
        } else {
            proof {
                if track {
                    assert(cons0.take(done0) =~= cons0);
                    assert(final_blocks_ok(deflate_state));
                }
            }
        }
        // We are done for now.
        if st == LZ77Status::Finished {
            status = st;
            break;
        }
    }
    let ghost s_loop = deflate_state.output_bits();
    let ghost st_loop = *deflate_state;
    close_call(deflate_state, flush, status, Ghost(track));
    proof {
        lemma_extends_trans(old(deflate_state).output_bits(), s_loop, deflate_state.output_bits());
        if small {
            lemma_extends_trans(s_start + blk, s_loop, deflate_state.output_bits());
        }
    }
    proof {
        assert(input@.take(input@.len() as int) =~= input@);
    }
    bytes_written
}

} // verus!
