//! All the state of an encoder.
use vstd::prelude::*;
use crate::lz77::{LZ77State, MatchingType};
use crate::output_writer::{DynamicWriter, OutputWriter, ready};
use crate::encoder_state::EncoderState;
use crate::input_buffer::{InputBuffer, BackBuffer, MAX_DISTANCE};
use crate::compression_options::{CompressionOptions, MAX_HASH_CHECKS};
use crate::huffman_table::{HuffmanTable, empty_codes, lemma_empty_codes_ok};
use crate::compress::Flush;
use crate::lzvalue::LZValue;
use crate::bitstream::bytes_bits;
use crate::deflate_format::{blocks_ok, none_final, concat_bits, concat_bytes, deflate_stream, lemma_blocks_empty};

verus! {

/// The back buffer holds the end of the input before the current block: its last 32768 bytes,
/// or all of it where there are fewer.
pub open spec fn back_ok(back: Seq<u8>, before_block: Seq<u8>) -> bool {
    back == before_block.skip(
        if before_block.len() > MAX_DISTANCE { before_block.len() - MAX_DISTANCE } else { 0int },
    )
}

/// A struct containing all the stored state used for the encoder.
pub struct DeflateState {
    /// State of lz77 compression.
    pub lz77_state: LZ77State,
    pub input_buffer: InputBuffer,
    pub compression_options: CompressionOptions,
    /// State the huffman part of the compression and the output buffer.
    pub encoder_state: EncoderState,
    /// The buffer containing the raw output of the lz77-encoding.
    pub lz77_writer: DynamicWriter,
    /// The end of the data before the current block, for matches that reach into it.
    pub back_buffer: BackBuffer,
    /// Total number of bytes consumed/written to the input buffer.
    pub bytes_written: u64,
    /// The position in the output buffer where data should be flushed from.
    pub output_buf_pos: usize,
    pub flush_mode: Flush,
    /// Number of bytes written as calculated by sum of block input lengths.
    pub bytes_written_control: u64,
    /// The output that came before the stream.
    pub out_start: Ghost<Seq<bool>>,
    /// The blocks written so far, the input each holds, and whether each is marked final.
    pub blocks: Ghost<Seq<Seq<bool>>>,
    pub block_data: Ghost<Seq<Seq<u8>>>,
    pub block_last: Ghost<Seq<bool>>,
}

impl DeflateState {
    /// The parts agree: the lz77 pass and its buffer, the symbols of the current block and the
    /// input they cover, the back buffer and the input before the block, and the output writer.
    pub open spec fn wf(&self) -> bool {
        &&& self.wf_core()
        &&& self.lz77_state.resumes_in_lookahead() ==> self.lz77_state.is_last()
    }

    /// The parts agree, though the lz77 pass may stand in the lookahead of a block it has not
    /// finished.
    pub open spec fn wf_core(&self) -> bool {
        &&& self.lz77_state.inv(&self.input_buffer)
        &&& ready(&self.lz77_writer)
        &&& self.lz77_state.block_ok(self.lz77_writer.buffer_view())
        &&& self.encoder_state.valid()
        &&& back_ok(self.back_buffer.data(), self.lz77_state.consumed().take(self.lz77_state.block_start()))
    }

    /// The state of an encoder that has taken no input: the lz77 pass at its start, every
    /// buffer empty, the counters at zero, no flush mode and no blocks written.
    pub open spec fn initial_state(&self) -> bool {
        &&& self.lz77_state.initial()
        &&& self.input_buffer.data() == Seq::<u8>::empty()
        &&& self.back_buffer.data() == Seq::<u8>::empty()
        &&& self.lz77_writer.buffer_view() == Seq::<LZValue>::empty()
        &&& self.bytes_written == 0
        &&& self.output_buf_pos == 0
        &&& self.bytes_written_control == 0
        &&& self.flush_mode == Flush::NoFlush
        &&& self.blocks@ == Seq::<Seq<bool>>::empty()
    }

    /// The matching settings the options give: the lazy matching threshold is at most
    /// `MAX_HASH_CHECKS`.
    pub open spec fn lz77_options(options: CompressionOptions) -> (u16, u16, MatchingType) {
        (
            options.max_hash_checks,
            if options.lazy_if_less_than < MAX_HASH_CHECKS { options.lazy_if_less_than } else { MAX_HASH_CHECKS },
            options.matching_type,
        )
    }

    /// All the bytes output so far, including the bits not yet making up a byte.
    pub open spec fn output_bits(&self) -> Seq<bool> {
        self.encoder_state.writer.stream()
    }

    /// The output is what came before the stream, then the blocks written so far, none of
    /// them marked final, which hold the input up to the start of the current block.
    pub open spec fn stream_ok(&self) -> bool {
        &&& self.out_start@.len() % 8 == 0
        &&& blocks_ok(self.blocks@, self.block_data@, self.block_last@)
        &&& none_final(self.block_last@)
        &&& concat_bytes(self.block_data@) == self.lz77_state.consumed().take(self.lz77_state.block_start())
        &&& self.output_bits() == self.out_start@ + concat_bits(self.blocks@)
    }

    /// The output is what came before the stream, then a complete stream of all the input.
    pub open spec fn stream_done(&self) -> bool {
        &&& self.output_bits().len() >= self.out_start@.len()
        &&& self.output_bits().take(self.out_start@.len() as int) == self.out_start@
        &&& deflate_stream(self.output_bits().skip(self.out_start@.len() as int), self.lz77_state.consumed())
    }

    pub fn new(compression_options: CompressionOptions, writer: Vec<u8>) -> (r: DeflateState)
        ensures
            r.wf(),
            r.lz77_state.consumed() == Seq::<u8>::empty(),
            !r.lz77_state.is_last(),
            r.encoder_state.writer.w@ == writer@,
            r.encoder_state.writer.pending() == Seq::<bool>::empty(),
            r.output_bits() == bytes_bits(writer@),
            r.flush_mode == Flush::NoFlush,
            r.stream_ok(),
            r.out_start@ == bytes_bits(writer@),
            r.blocks@ == Seq::<Seq<bool>>::empty(),
            r.initial_state(),
            r.compression_options == compression_options,
            r.lz77_state.options() == DeflateState::lz77_options(compression_options),
    {
        let lazy = if compression_options.lazy_if_less_than < MAX_HASH_CHECKS {
            compression_options.lazy_if_less_than
        } else {
            MAX_HASH_CHECKS
        };
        let input_buffer = InputBuffer::empty();
        let lz77_state = LZ77State::new(compression_options.max_hash_checks, lazy, compression_options.matching_type);
        proof {
            lemma_empty_codes_ok(288);
            lemma_empty_codes_ok(32);
        }
        let encoder_state = EncoderState::new(HuffmanTable::empty(), writer);
        let r = DeflateState {
            input_buffer,
            lz77_state,
            encoder_state,
            lz77_writer: DynamicWriter::new(),
            back_buffer: BackBuffer::new(),
            compression_options: compression_options,
            bytes_written: 0,
            output_buf_pos: 0,
            flush_mode: Flush::NoFlush,
            bytes_written_control: 0,
            out_start: Ghost(bytes_bits(writer@)),
            blocks: Ghost(Seq::empty()),
            block_data: Ghost(Seq::empty()),
            block_last: Ghost(Seq::empty()),
        };
        proof {
            lemma_blocks_empty();
            crate::bitstream::lemma_bytes_bits_len(writer@);
            assert(Seq::<u8>::empty().take(0).skip(0) =~= Seq::<u8>::empty());
            crate::bitstream::lemma_int_bits_zero_len(0);
            assert(r.output_bits() =~= bytes_bits(writer@));
            assert(r.lz77_state.consumed().take(r.lz77_state.block_start()) =~= Seq::<u8>::empty());
            assert(r.out_start@ + concat_bits(r.blocks@) =~= r.output_bits());
            assert(r.lz77_state.inv(&r.input_buffer));
        }
        r
    }

    /// The output buffer.
    pub fn output_buf(&mut self) -> (r: &mut Vec<u8>)
        ensures
            *r == old(self).encoder_state.writer.w,
            final(self).encoder_state.writer.w == *final(r),
            final(self).encoder_state.writer.bits == old(self).encoder_state.writer.bits,
            final(self).encoder_state.writer.acc == old(self).encoder_state.writer.acc,
            final(self).encoder_state.huffman_table == old(self).encoder_state.huffman_table,
            final(self).lz77_state == old(self).lz77_state,
            final(self).compression_options == old(self).compression_options,
            final(self).input_buffer == old(self).input_buffer,
            final(self).lz77_writer == old(self).lz77_writer,
            final(self).back_buffer == old(self).back_buffer,
            final(self).flush_mode == old(self).flush_mode,
            final(self).out_start == old(self).out_start,
            final(self).blocks == old(self).blocks,
            final(self).block_data == old(self).block_data,
            final(self).block_last == old(self).block_last,
    {
        self.encoder_state.inner_vec()
    }

    /// Resets the status of the encoder, leaving the compression options intact.
    ///
    /// The output so far is flushed to a whole byte and returned, and `writer` takes its place.
    pub fn reset(&mut self, writer: Vec<u8>) -> (r: Vec<u8>)
        requires
            old(self).wf(),
        ensures
            final(self).wf(),
            final(self).lz77_state.consumed() == Seq::<u8>::empty(),
            !final(self).lz77_state.is_last(),
            final(self).encoder_state.writer.w@ == writer@,
            final(self).encoder_state.writer.pending() == Seq::<bool>::empty(),
            final(self).output_bits() == bytes_bits(writer@),
            bytes_bits(r@) == old(self).output_bits() + crate::bitstream::int_bits(
                0,
                ((8 - old(self).encoder_state.writer.pending().len()) % 8) as nat,
            ),
            final(self).flush_mode == Flush::NoFlush,
            final(self).stream_ok(),
            final(self).out_start@ == bytes_bits(writer@),
            final(self).blocks@ == Seq::<Seq<bool>>::empty(),
            final(self).initial_state(),
            final(self).compression_options == old(self).compression_options,
            final(self).lz77_state.options() == old(self).lz77_state.options(),
    {
        proof {
            self.lz77_state.lemma_inv(&self.input_buffer);
        }
        self.encoder_state.flush();
        let mut old_output = writer;
        std::mem::swap(&mut old_output, &mut self.encoder_state.writer.w);
        self.input_buffer = InputBuffer::empty();
        self.lz77_writer.clear();
        self.lz77_state.reset();
        self.back_buffer.clear();
        self.bytes_written = 0;
        self.output_buf_pos = 0;
        self.flush_mode = Flush::NoFlush;
        self.bytes_written_control = 0;
        self.out_start = Ghost(bytes_bits(writer@));
        self.blocks = Ghost(Seq::empty());
        self.block_data = Ghost(Seq::empty());
        self.block_last = Ghost(Seq::empty());
        proof {
            lemma_blocks_empty();
            crate::bitstream::lemma_bytes_bits_len(writer@);
            crate::bitstream::lemma_int_bits_zero_len(self.encoder_state.writer.acc as int);
            assert(bytes_bits(old_output@) =~= bytes_bits(old_output@) + Seq::<bool>::empty());
            assert(Seq::<u8>::empty().take(0).skip(0) =~= Seq::<u8>::empty());
            assert(self.output_bits() =~= bytes_bits(writer@));
            assert(self.lz77_state.consumed().take(self.lz77_state.block_start()) =~= Seq::<u8>::empty());
            assert(self.out_start@ + concat_bits(self.blocks@) =~= self.output_bits());
            assert(self.lz77_state.inv(&self.input_buffer));
        }
        old_output
    }
}

} // verus!
