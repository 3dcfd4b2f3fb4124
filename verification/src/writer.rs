//! Encoders that take their input in pieces and write the compressed stream to a `Vec<u8>`.
use vstd::prelude::*;
use crate::checksum::{Adler32Checksum, RollingChecksum, adler_update};
use crate::compress::{compress_data_dynamic_n, Flush, output_extends, lemma_extends_append, lemma_extends_trans,
    ends_with_sync_marker};
use crate::deflate_state::DeflateState;
use crate::lz77::{MatchingType, first_pass_parse};
use crate::chained_hash_table::WINDOW_SIZE;
use crate::output_writer::OutputWriter;
use crate::deflate_format::block_of_items;
use crate::compression_options::CompressionOptions;
use crate::zlib::{write_zlib_header, write_u32_be, CompressionLevel, be_bytes, default_header, lemma_default_header};
use crate::bitstream::{bytes_bits, lemma_bytes_bits_append};
use crate::deflate_format::{deflate_stream, blocks_ok, none_final, concat_bytes, concat_bits};

verus! {

/// The state can take more input: well formed, not finished, and in the mode the writers use.
pub open spec fn accepts_input(state: &DeflateState) -> bool {
    &&& state.wf()
    &&& !state.lz77_state.is_last()
    &&& state.flush_mode == Flush::NoFlush
    &&& state.stream_ok()
}

/// `bits` are `start`, then a complete DEFLATE stream of `data`.
pub open spec fn stream_after(bits: Seq<bool>, start: Seq<bool>, data: Seq<u8>) -> bool {
    &&& bits.len() >= start.len()
    &&& bits.take(start.len() as int) == start
    &&& deflate_stream(bits.skip(start.len() as int), data)
}

/// `bits` are `start`, then DEFLATE blocks, none of them final, that hold all of `data`: all of
/// the data can be decoded from them, and the stream goes on after them.
pub open spec fn stream_synced(bits: Seq<bool>, start: Seq<bool>, data: Seq<u8>) -> bool {
    exists|bs: Seq<Seq<bool>>, ds: Seq<Seq<u8>>, lasts: Seq<bool>|
        #![trigger blocks_ok(bs, ds, lasts)]
        {
            &&& blocks_ok(bs, ds, lasts)
            &&& none_final(lasts)
            &&& concat_bytes(ds) == data
            &&& bits == start + concat_bits(bs)
        }
}

/// The state holds the input in blocks, all of it.
proof fn lemma_synced(state: &DeflateState)
    requires
        state.stream_ok(),
        state.lz77_state.block_start() == state.lz77_state.consumed().len(),
    ensures
        stream_synced(state.output_bits(), state.out_start@, state.lz77_state.consumed()),
{
    let c = state.lz77_state.consumed();
    assert(c.take(c.len() as int) =~= c);
    assert(blocks_ok(state.blocks@, state.block_data@, state.block_last@));
}

/// Keep compressing until all the input has been compressed and output.
///
/// All output goes straight to the output vector of the state, so nothing stays pending
/// once the input has been taken: one pass of `compress_data_dynamic_n` does it.
pub fn compress_until_done(input: &[u8], deflate_state: &mut DeflateState, flush_mode: Flush)
    requires
        flush_mode != Flush::NoFlush,
        old(deflate_state).wf(),
        old(deflate_state).lz77_state.is_last() ==> flush_mode == Flush::Finish && input@.len() == 0,
    ensures
        final(deflate_state).wf(),
        final(deflate_state).lz77_state.consumed() == old(deflate_state).lz77_state.consumed() + input@,
        output_extends(old(deflate_state).output_bits(), final(deflate_state).output_bits()),
        flush_mode == Flush::Finish ==> final(deflate_state).lz77_state.is_last(),
        flush_mode != Flush::Finish ==> final(deflate_state).lz77_state.is_last()
            == old(deflate_state).lz77_state.is_last(),
        flush_mode == Flush::Finish || flush_mode == Flush::Sync ==> final(deflate_state).lz77_state.done()
            == final(deflate_state).lz77_state.consumed().len() && final(deflate_state).encoder_state.writer.pending()
            == Seq::<bool>::empty(),
        final(deflate_state).flush_mode == old(deflate_state).flush_mode,
        final(deflate_state).bytes_written == (old(deflate_state).bytes_written + input@.len()) % 0x1_0000_0000_0000_0000,
        final(deflate_state).compression_options == old(deflate_state).compression_options,
        final(deflate_state).lz77_state.options() == old(deflate_state).lz77_state.options(),
        final(deflate_state).out_start == old(deflate_state).out_start,
        old(deflate_state).stream_ok() && !old(deflate_state).lz77_state.is_last() && flush_mode != Flush::Finish
            ==> final(deflate_state).stream_ok(),
        old(deflate_state).stream_ok() && !old(deflate_state).lz77_state.is_last() && flush_mode == Flush::Finish
            ==> final(deflate_state).stream_done(),
        flush_mode == Flush::Sync ==> ends_with_sync_marker(final(deflate_state).encoder_state.writer.w@),
        flush_mode == Flush::Sync ==> final(deflate_state).lz77_state.block_start()
            == final(deflate_state).lz77_state.consumed().len(),
        old(deflate_state).lz77_state.waiting() && old(deflate_state).lz77_writer.buffer_view().len() == 0
            && flush_mode == Flush::Finish && old(deflate_state).lz77_state.consumed().len() + input@.len()
            <= WINDOW_SIZE ==> exists|b: Seq<bool>|
            #[trigger] block_of_items(
                old(deflate_state).output_bits().len() as int,
                b,
                Seq::empty(),
                old(deflate_state).lz77_state.consumed() + input@,
                first_pass_parse(old(deflate_state).lz77_state.consumed() + input@, old(deflate_state).lz77_state.options()),
                true,
            ) && output_extends(old(deflate_state).output_bits() + b, final(deflate_state).output_bits()),
{
    let ghost track = old(deflate_state).stream_ok() && !old(deflate_state).lz77_state.is_last();
    let ghost small = old(deflate_state).lz77_state.waiting() && old(deflate_state).lz77_writer.buffer_view().len()
        == 0 && flush_mode == Flush::Finish && old(deflate_state).lz77_state.consumed().len() + input@.len()
        <= WINDOW_SIZE;
    let ghost all_in = old(deflate_state).lz77_state.consumed() + input@;
    let mut remaining = input;
    let ghost c0 = deflate_state.lz77_state.consumed();
    let ghost s0 = deflate_state.output_bits();
    let mut first = true;
    proof {
        assert(input@.take(0) =~= Seq::<u8>::empty());
        assert(c0 + input@.take(0) =~= c0);
        assert(s0.take(s0.len() as int) =~= s0);
    }
    while first || remaining.len() > 0
        invariant
            flush_mode != Flush::NoFlush,
            deflate_state.wf(),
            remaining@.len() <= input@.len(),
            remaining@ == input@.skip(input@.len() - remaining@.len()),
            deflate_state.lz77_state.consumed() == c0 + input@.take(input@.len() - remaining@.len()),
            output_extends(s0, deflate_state.output_bits()),
            first ==> remaining@ == input@ && deflate_state.output_bits() == s0,
            first ==> deflate_state.lz77_state.is_last() == old(deflate_state).lz77_state.is_last(),
            first && deflate_state.lz77_state.is_last() ==> flush_mode == Flush::Finish && input@.len() == 0,
            !first ==> remaining@.len() == 0,
            !first && flush_mode == Flush::Finish ==> deflate_state.lz77_state.is_last(),
            !first && flush_mode != Flush::Finish ==> deflate_state.lz77_state.is_last()
                == old(deflate_state).lz77_state.is_last(),
            !first && (flush_mode == Flush::Finish || flush_mode == Flush::Sync) ==> deflate_state.lz77_state.done()
                == deflate_state.lz77_state.consumed().len() && deflate_state.encoder_state.writer.pending()
                == Seq::<bool>::empty(),
            deflate_state.flush_mode == old(deflate_state).flush_mode,
            !first ==> deflate_state.bytes_written == (old(deflate_state).bytes_written + input@.len()) % 0x1_0000_0000_0000_0000,
            deflate_state.compression_options == old(deflate_state).compression_options,
            deflate_state.lz77_state.options() == old(deflate_state).lz77_state.options(),
            deflate_state.out_start == old(deflate_state).out_start,
            first ==> *deflate_state == *old(deflate_state),
            !first && track && flush_mode != Flush::Finish ==> deflate_state.stream_ok(),
            !first && track && flush_mode == Flush::Finish ==> deflate_state.stream_done(),
            !first && flush_mode == Flush::Sync ==> ends_with_sync_marker(deflate_state.encoder_state.writer.w@),
            !first && flush_mode == Flush::Sync ==> deflate_state.lz77_state.block_start()
                == deflate_state.lz77_state.consumed().len(),
            track == (old(deflate_state).stream_ok() && !old(deflate_state).lz77_state.is_last()),
            small == (old(deflate_state).lz77_state.waiting() && old(deflate_state).lz77_writer.buffer_view().len()
                == 0 && flush_mode == Flush::Finish && old(deflate_state).lz77_state.consumed().len() + input@.len()
                <= WINDOW_SIZE),
            all_in == old(deflate_state).lz77_state.consumed() + input@,
            !first && small ==> exists|b: Seq<bool>|
                #[trigger] block_of_items(
                    old(deflate_state).output_bits().len() as int,
                    b,
                    Seq::empty(),
                    all_in,
                    first_pass_parse(all_in, old(deflate_state).lz77_state.options()),
                    true,
                ) && output_extends(old(deflate_state).output_bits() + b, deflate_state.output_bits()),
        decreases (if first { 1int } else { 0int }),
    {
        let ghost s1 = deflate_state.output_bits();
        let n = compress_data_dynamic_n(remaining, deflate_state, flush_mode);
        proof {
            lemma_extends_trans(s0, s1, deflate_state.output_bits());
            assert(input@.take(input@.len() as int) =~= input@);
            assert(remaining@.take(remaining@.len() as int) =~= remaining@);
        }
        remaining = vstd::slice::slice_subrange(remaining, n, remaining.len());
        first = false;
        proof {
            assert(input@.skip(input@.len() as int) =~= remaining@);
        }
    }
    proof {
        assert(input@.take(input@.len() as int) =~= input@);
    }
}

/// A DEFLATE encoder/compressor.
///
/// Takes unencoded data in pieces and compresses it into the output vector it was given.
pub struct DeflateEncoder {
    deflate_state: DeflateState,
}

impl DeflateEncoder {
    /// The encoder can take more input.
    pub closed spec fn wf(&self) -> bool {
        accepts_input(&self.deflate_state)
    }

    /// All the input written since the encoder was created or reset.
    pub closed spec fn consumed(&self) -> Seq<u8> {
        self.deflate_state.lz77_state.consumed()
    }

    /// The output so far, as bits, including those that do not yet make up a whole byte.
    pub closed spec fn output_bits(&self) -> Seq<bool> {
        self.deflate_state.output_bits()
    }

    /// The whole bytes of output so far.
    pub closed spec fn output_bytes(&self) -> Seq<u8> {
        self.deflate_state.encoder_state.writer.w@
    }

    /// The output that came before the compressed stream.
    pub closed spec fn stream_start(&self) -> Seq<bool> {
        self.deflate_state.out_start@
    }

    /// Nothing has been compressed since the encoder was created or reset, and the output is
    /// whole bytes.
    pub closed spec fn fresh(&self) -> bool {
        &&& self.deflate_state.blocks@ == Seq::<Seq<bool>>::empty()
        &&& self.deflate_state.lz77_state.consumed() == Seq::<u8>::empty()
        &&& self.output_bits() == bytes_bits(self.output_bytes())
    }

    /// Add `data` to the output before the compressed stream begins.
    pub(crate) fn write_before_stream(&mut self, data: &[u8])
        requires
            old(self).wf(),
            old(self).fresh(),
        ensures
            final(self).wf(),
            final(self).fresh(),
            final(self).consumed() == old(self).consumed(),
            final(self).output_bytes() == old(self).output_bytes() + data@,
            final(self).output_bits() == old(self).output_bits() + bytes_bits(data@),
            final(self).stream_start() == old(self).stream_start() + bytes_bits(data@),
            final(self).settings() == old(self).settings(),
            old(self).waiting() ==> final(self).waiting(),
    {
        let ghost w0 = self.deflate_state.encoder_state.writer.w@;
        let out = self.deflate_state.output_buf();
        let mut i: usize = 0;
        while i < data.len()
            invariant
                i <= data@.len(),
                out@ == w0 + data@.take(i as int),
            decreases data@.len() - i,
        {
            out.push(data[i]);
            i = i + 1;
            proof {
                assert(out@ =~= w0 + data@.take(i as int));
            }
        }
        proof {
            let w1 = self.deflate_state.encoder_state.writer.w@;
            assert(data@.take(data@.len() as int) =~= data@);
            lemma_bytes_bits_append(w0, data@);
            crate::bitstream::lemma_bytes_bits_len(data@);
            assert(self.deflate_state.output_bits() =~= bytes_bits(w1));
        }
        self.deflate_state.out_start = Ghost(self.deflate_state.out_start@ + bytes_bits(data@));
        proof {
            assert(self.deflate_state.output_bits() =~= self.deflate_state.out_start@
                + crate::deflate_format::concat_bits(self.deflate_state.blocks@));
        }
    }

    /// The output bits are the output bytes followed by the bits not yet making up a byte.
    pub proof fn lemma_output(&self)
        ensures
            self.output_bits().len() >= bytes_bits(self.output_bytes()).len(),
            self.output_bits().take(bytes_bits(self.output_bytes()).len() as int) == bytes_bits(self.output_bytes()),
    {
        let b = bytes_bits(self.output_bytes());
        assert(self.output_bits().take(b.len() as int) =~= b);
    }

    /// The state of an encoder that has taken no input (see `DeflateState::initial_state`).
    pub closed spec fn initial(&self) -> bool {
        self.deflate_state.initial_state()
    }

    /// The input taken so far is held back, nothing of the stream is written yet: the lz77
    /// pass is waiting for a full window.
    pub closed spec fn waiting(&self) -> bool {
        &&& self.deflate_state.lz77_state.waiting()
        &&& self.deflate_state.lz77_writer.buffer_view().len() == 0
        &&& self.output_bits() == self.stream_start()
    }

    /// The compression options, and the matching settings the lz77 pass uses.
    pub closed spec fn settings(&self) -> (CompressionOptions, (u16, u16, MatchingType)) {
        (self.deflate_state.compression_options, self.deflate_state.lz77_state.options())
    }

    /// Creates a new encoder using the provided compression options.
    pub fn new(writer: Vec<u8>, options: CompressionOptions) -> (r: DeflateEncoder)
        ensures
            r.initial(),
            r.waiting(),
            r.settings() == (options, DeflateState::lz77_options(options)),
            r.wf(),
            r.consumed() == Seq::<u8>::empty(),
            r.output_bytes() == writer@,
            r.output_bits() == bytes_bits(writer@),
            r.stream_start() == bytes_bits(writer@),
            r.fresh(),
    {
        let r = DeflateEncoder { deflate_state: DeflateState::new(options, writer) };
        proof {
            r.deflate_state.lz77_state.lemma_initial();
            crate::bitstream::lemma_int_bits_zero_len(r.deflate_state.encoder_state.writer.acc as int);
            assert(r.output_bits() =~= bytes_bits(r.output_bytes()));
        }
        r
    }

    /// Encode all pending data to the contained writer, consume this `DeflateEncoder`,
    /// and return the contained writer.
    ///
    /// The result is the output that came before, then a complete DEFLATE stream of all the
    /// input.
    pub fn finish(self) -> (r: Vec<u8>)
        requires
            self.wf(),
        ensures
            output_extends(self.output_bits(), bytes_bits(r@)),
            stream_after(bytes_bits(r@), self.stream_start(), self.consumed()),
            self.waiting() && self.consumed().len() <= WINDOW_SIZE ==> exists|b: Seq<bool>|
                #[trigger] block_of_items(
                    self.stream_start().len() as int,
                    b,
                    Seq::empty(),
                    self.consumed(),
                    first_pass_parse(self.consumed(), self.settings().1),
                    true,
                ) && output_extends(self.stream_start() + b, bytes_bits(r@)),
    {
        let mut state = self.deflate_state;
        let ghost c = state.lz77_state.consumed();
        let empty: &[u8] = &[];
        proof {
            assert(c + empty@ =~= c);
        }
        compress_until_done(empty, &mut state, Flush::Finish);
        let ghost s_end = state.output_bits();
        let mut out: Vec<u8> = Vec::new();
        std::mem::swap(&mut out, &mut state.encoder_state.writer.w);
        proof {
            assert(bytes_bits(out@) =~= bytes_bits(out@) + Seq::<bool>::empty());
            assert(s_end == bytes_bits(out@));
            if self.waiting() && self.consumed().len() <= WINDOW_SIZE {
                let s0 = self.deflate_state.output_bits();
                let opts = self.deflate_state.lz77_state.options();
                let b = choose|b: Seq<bool>|
                    #[trigger] block_of_items(s0.len() as int, b, Seq::empty(), c + empty@, first_pass_parse(
                        c + empty@,
                        opts,
                    ), true) && output_extends(s0 + b, s_end);
                assert(block_of_items(s0.len() as int, b, Seq::empty(), c, first_pass_parse(c, opts), true));
                assert(s0 == self.stream_start());
                assert(output_extends(self.stream_start() + b, bytes_bits(out@)));
                assert(self.settings().1 == opts);
                assert(self.consumed() == c);
            }
        }
        out
    }

    /// Resets the encoder (except the compression options), replacing the current writer
    /// with a new one, returning the old one.
    pub fn reset(&mut self, w: Vec<u8>) -> (r: Vec<u8>)
        requires
            old(self).wf(),
        ensures
            final(self).wf(),
            final(self).consumed() == Seq::<u8>::empty(),
            final(self).output_bytes() == w@,
            final(self).output_bits() == bytes_bits(w@),
            final(self).stream_start() == bytes_bits(w@),
            final(self).fresh(),
            final(self).initial(),
            final(self).waiting(),
            final(self).settings() == old(self).settings(),
            output_extends(old(self).output_bits(), bytes_bits(r@)),
            stream_after(bytes_bits(r@), old(self).stream_start(), old(self).consumed()),
    {
        self.output_all();
        let ghost s1 = self.deflate_state.output_bits();
        assert(s1.take(s1.len() as int) =~= s1);
        let r = self.deflate_state.reset(w);
        proof {
            self.deflate_state.lz77_state.lemma_initial();
            assert(bytes_bits(r@) =~= s1 + Seq::<bool>::empty());
        }
        r
    }

    /// Output all pending data as if encoding is done, but without resetting anything.
    fn output_all(&mut self)
        requires
            accepts_input(&old(self).deflate_state),
        ensures
            final(self).deflate_state.wf(),
            final(self).deflate_state.lz77_state.is_last(),
            final(self).deflate_state.encoder_state.writer.pending() == Seq::<bool>::empty(),
            final(self).consumed() == old(self).consumed(),
            output_extends(old(self).output_bits(), final(self).output_bits()),
            final(self).deflate_state.stream_done(),
            final(self).stream_start() == old(self).stream_start(),
            final(self).settings() == old(self).settings(),
    {
        compress_until_done(&[], &mut self.deflate_state, Flush::Finish);
        proof {
            assert(old(self).consumed() + Seq::<u8>::empty() =~= old(self).consumed());
        }
    }

    /// Compress `buf`; all of it is taken, and its length returned.
    pub fn write(&mut self, buf: &[u8]) -> (r: usize)
        requires
            old(self).wf(),
        ensures
            r == buf@.len(),
            final(self).wf(),
            final(self).consumed() == old(self).consumed() + buf@,
            output_extends(old(self).output_bits(), final(self).output_bits()),
            final(self).stream_start() == old(self).stream_start(),
            final(self).settings() == old(self).settings(),
            old(self).waiting() && old(self).consumed().len() + buf@.len() <= WINDOW_SIZE ==> final(self).waiting(),
    {
        let flush_mode = self.deflate_state.flush_mode;
        compress_data_dynamic_n(buf, &mut self.deflate_state, flush_mode)
    }

    /// Compress all of `buf`.
    pub fn write_all(&mut self, buf: &[u8])
        requires
            old(self).wf(),
        ensures
            final(self).wf(),
            final(self).consumed() == old(self).consumed() + buf@,
            output_extends(old(self).output_bits(), final(self).output_bits()),
            final(self).stream_start() == old(self).stream_start(),
            final(self).settings() == old(self).settings(),
            old(self).waiting() && old(self).consumed().len() + buf@.len() <= WINDOW_SIZE ==> final(self).waiting(),
    {
        let n = self.write(buf);
    }

    /// Flush the encoder.
    ///
    /// This will flush the encoder, emulating the Sync flush method from Zlib.
    /// This essentially finishes the current block, and sends an additional empty stored block to
    /// the writer.
    pub fn flush(&mut self)
        requires
            old(self).wf(),
        ensures
            final(self).wf(),
            final(self).consumed() == old(self).consumed(),
            output_extends(old(self).output_bits(), final(self).output_bits()),
            final(self).output_bits() == bytes_bits(final(self).output_bytes()),
            ends_with_sync_marker(final(self).output_bytes()),
            final(self).stream_start() == old(self).stream_start(),
            stream_synced(final(self).output_bits(), final(self).stream_start(), final(self).consumed()),
    {
        compress_until_done(&[], &mut self.deflate_state, Flush::Sync);
        proof {
            assert(old(self).consumed() + Seq::<u8>::empty() =~= old(self).consumed());
            assert(self.output_bits() =~= bytes_bits(self.output_bytes()));
            lemma_synced(&self.deflate_state);
        }
    }

    /// The output written so far.
    pub fn get_ref(&self) -> (r: &Vec<u8>)
        ensures
            r@ == self.output_bytes(),
    {
        &self.deflate_state.encoder_state.writer.w
    }
}

/// A Zlib encoder/compressor.
///
/// Takes unencoded data in pieces and compresses it into the output vector it was given,
/// with a zlib header and trailer.
pub struct ZlibEncoder {
    deflate_state: DeflateState,
    checksum: Adler32Checksum,
    header_written: bool,
}

impl ZlibEncoder {
    /// The encoder can take more input; the checksum is that of the input so far, and until the
    /// header is written nothing has been compressed.
    pub closed spec fn wf(&self) -> bool {
        &&& accepts_input(&self.deflate_state)
        &&& self.checksum.value() == adler_update(1, self.consumed())
        &&& !self.header_written ==> self.consumed() == Seq::<u8>::empty() && self.deflate_state.blocks@
            == Seq::<Seq<bool>>::empty() && self.deflate_state.output_bits() == bytes_bits(
            self.deflate_state.encoder_state.writer.w@,
        )
    }

    /// All the input written since the encoder was created or reset.
    pub closed spec fn consumed(&self) -> Seq<u8> {
        self.deflate_state.lz77_state.consumed()
    }

    /// The output so far, as bits, including those that do not yet make up a whole byte.
    pub closed spec fn output_bits(&self) -> Seq<bool> {
        self.deflate_state.output_bits()
    }

    /// The whole bytes of output so far.
    pub closed spec fn output_bytes(&self) -> Seq<u8> {
        self.deflate_state.encoder_state.writer.w@
    }

    /// The output that came before the compressed stream, including the header once written.
    pub closed spec fn stream_start(&self) -> Seq<bool> {
        self.deflate_state.out_start@
    }

    /// Whether the zlib header has been written.
    pub closed spec fn header_written(&self) -> bool {
        self.header_written
    }

    /// The output that the compressed data continues: with the header if it is still to come.
    pub open spec fn output_with_header(&self) -> Seq<bool> {
        if self.header_written() {
            self.output_bits()
        } else {
            self.output_bits() + bytes_bits(default_header())
        }
    }

    /// The output that the compressed stream follows: with the header if it is still to come.
    pub open spec fn start_with_header(&self) -> Seq<bool> {
        if self.header_written() {
            self.stream_start()
        } else {
            self.stream_start() + bytes_bits(default_header())
        }
    }

    /// The output written so far.
    pub fn get_ref(&self) -> (r: &Vec<u8>)
        ensures
            r@ == self.output_bytes(),
    {
        &self.deflate_state.encoder_state.writer.w
    }

    /// The state of an encoder that has taken no input: no header written, the checksum of
    /// nothing, and the compression state of `DeflateState::initial_state`.
    pub closed spec fn initial(&self) -> bool {
        &&& self.deflate_state.initial_state()
        &&& !self.header_written
        &&& self.checksum.value() == 1
    }

    /// The compression options, and the matching settings the lz77 pass uses.
    pub closed spec fn settings(&self) -> (CompressionOptions, (u16, u16, MatchingType)) {
        (self.deflate_state.compression_options, self.deflate_state.lz77_state.options())
    }

    /// The input taken so far is held back, nothing of the stream is written yet (see
    /// `DeflateEncoder::waiting`).
    pub closed spec fn waiting(&self) -> bool {
        &&& self.deflate_state.lz77_state.waiting()
        &&& self.deflate_state.lz77_writer.buffer_view().len() == 0
        &&& self.output_bits() == self.stream_start()
    }

    /// Create a new `ZlibEncoder` using the provided compression options.
    pub fn new(writer: Vec<u8>, options: CompressionOptions) -> (r: ZlibEncoder)
        ensures
            r.initial(),
            r.waiting(),
            r.settings() == (options, DeflateState::lz77_options(options)),
            r.wf(),
            r.consumed() == Seq::<u8>::empty(),
            !r.header_written(),
            r.output_bits() == bytes_bits(writer@),
            r.stream_start() == bytes_bits(writer@),
    {
        let r = ZlibEncoder {
            deflate_state: DeflateState::new(options, writer),
            checksum: Adler32Checksum::new(),
            header_written: false,
        };
        proof {
            r.deflate_state.lz77_state.lemma_initial();
        }
        r
    }

    /// Output all pending data, including the trailer (checksum) as if encoding is done,
    /// but without resetting anything.
    #[verifier::spinoff_prover]
    #[verifier::rlimit(40)]
    fn output_all(&mut self)
        requires
            old(self).wf(),
        ensures
            final(self).deflate_state.wf(),
            final(self).settings() == old(self).settings(),
            final(self).deflate_state.encoder_state.writer.pending() == Seq::<bool>::empty(),
            final(self).deflate_state.encoder_state.writer.w@.len() >= 4,
            zlib_done(
                final(self).deflate_state.encoder_state.writer.w@,
                old(self).output_with_header(),
                old(self).start_with_header(),
                old(self).consumed(),
            ),
            old(self).waiting() && old(self).consumed().len() <= WINDOW_SIZE ==> exists|b: Seq<bool>|
                #[trigger] block_of_items(
                    old(self).start_with_header().len() as int,
                    b,
                    Seq::empty(),
                    old(self).consumed(),
                    first_pass_parse(old(self).consumed(), old(self).settings().1),
                    true,
                ) && output_extends(
                    old(self).start_with_header() + b,
                    bytes_bits(
                        final(self).deflate_state.encoder_state.writer.w@.take(
                            final(self).deflate_state.encoder_state.writer.w@.len() - 4,
                        ),
                    ),
                ),
    {
        self.check_write_header();
        let ghost s1 = self.deflate_state.output_bits();
        let ghost c = self.deflate_state.lz77_state.consumed();
        let ghost opts = self.deflate_state.lz77_state.options();
        let empty: &[u8] = &[];
        proof {
            assert(c + empty@ =~= c);
        }
        compress_until_done(empty, &mut self.deflate_state, Flush::Finish);
        let ghost w2 = self.deflate_state.encoder_state.writer.w@;
        proof {
            assert(self.deflate_state.output_bits() =~= bytes_bits(w2));
            assert(old(self).consumed() + Seq::<u8>::empty() =~= old(self).consumed());
        }
        self.write_trailer();
        proof {
            let w3 = self.deflate_state.encoder_state.writer.w@;
            assert(w3.take(w3.len() - 4) =~= w2);
            assert(w3.skip(w3.len() - 4) =~= be_bytes(adler_update(1, old(self).consumed())));
            if old(self).waiting() && old(self).consumed().len() <= WINDOW_SIZE {
                assert(exists|b: Seq<bool>|
                    #[trigger] block_of_items(s1.len() as int, b, Seq::empty(), c + empty@, first_pass_parse(
                        c + empty@,
                        opts,
                    ), true) && output_extends(s1 + b, bytes_bits(w2)));
                let b = choose|b: Seq<bool>|
                    #[trigger] block_of_items(s1.len() as int, b, Seq::empty(), c + empty@, first_pass_parse(
                        c + empty@,
                        opts,
                    ), true) && output_extends(s1 + b, bytes_bits(w2));
                assert(block_of_items(s1.len() as int, b, Seq::empty(), c, first_pass_parse(c, opts), true));
                assert(s1 == old(self).start_with_header());
                assert(old(self).settings().1 == opts);
                assert(c == old(self).consumed());
                assert(output_extends(old(self).start_with_header() + b, bytes_bits(w3.take(w3.len() - 4))));
            }
        }
    }

    /// Encode all pending data to the contained writer, consume this `ZlibEncoder`,
    /// and return the contained writer.
    ///
    /// The result is the output that came before, the header if it was not yet written, a
    /// complete DEFLATE stream of all the input, and the Adler-32 checksum of the input, most
    /// significant byte first.
    pub fn finish(self) -> (r: Vec<u8>)
        requires
            self.wf(),
        ensures
            r@.len() >= 4,
            zlib_done(r@, self.output_with_header(), self.start_with_header(), self.consumed()),
            self.waiting() && self.consumed().len() <= WINDOW_SIZE ==> exists|b: Seq<bool>|
                #[trigger] block_of_items(
                    self.start_with_header().len() as int,
                    b,
                    Seq::empty(),
                    self.consumed(),
                    first_pass_parse(self.consumed(), self.settings().1),
                    true,
                ) && output_extends(self.start_with_header() + b, bytes_bits(r@.take(r@.len() - 4))),
    {
        let mut this = self;
        this.output_all();
        let mut out: Vec<u8> = Vec::new();
        std::mem::swap(&mut out, &mut this.deflate_state.encoder_state.writer.w);
        out
    }

    /// Resets the encoder (except the compression options), replacing the current writer
    /// with a new one, returning the old one, finished as `finish` would.
    pub fn reset(&mut self, writer: Vec<u8>) -> (r: Vec<u8>)
        requires
            old(self).wf(),
        ensures
            final(self).wf(),
            final(self).consumed() == Seq::<u8>::empty(),
            !final(self).header_written(),
            final(self).output_bits() == bytes_bits(writer@),
            final(self).stream_start() == bytes_bits(writer@),
            final(self).initial(),
            final(self).settings() == old(self).settings(),
            r@.len() >= 4,
            zlib_done(r@, old(self).output_with_header(), old(self).start_with_header(), old(self).consumed()),
    {
        self.output_all();
        let ghost w = self.deflate_state.encoder_state.writer.w@;
        self.header_written = false;
        self.checksum = Adler32Checksum::new();
        let r = self.deflate_state.reset(writer);
        proof {
            assert(bytes_bits(r@) =~= bytes_bits(w) + Seq::<bool>::empty());
            crate::bitstream::lemma_bytes_bits_inj(r@, w);
            assert(adler_update(1, Seq::<u8>::empty()) == 1) by {
                reveal_with_fuel(crate::checksum::adler_sums, 1);
            }
        }
        r
    }

    /// Check if a zlib header should be written.
    fn check_write_header(&mut self)
        requires
            old(self).wf(),
        ensures
            final(self).settings() == old(self).settings(),
            final(self).wf(),
            final(self).header_written(),
            final(self).consumed() == old(self).consumed(),
            final(self).output_bits() == old(self).output_with_header(),
            final(self).stream_start() == old(self).start_with_header(),
            old(self).waiting() ==> final(self).waiting(),
    {
        if !self.header_written {
            let ghost w0 = self.deflate_state.encoder_state.writer.w@;
            write_zlib_header(self.deflate_state.output_buf(), CompressionLevel::Default);
            self.header_written = true;
            proof {
                let w1 = self.deflate_state.encoder_state.writer.w@;
                lemma_default_header(w0, w1);
                lemma_bytes_bits_append(w0, default_header());
                crate::bitstream::lemma_bytes_bits_len(default_header());
                assert(self.deflate_state.output_bits() =~= bytes_bits(w1));
            }
            self.deflate_state.out_start = Ghost(self.deflate_state.out_start@ + bytes_bits(default_header()));
            proof {
                assert(self.deflate_state.output_bits() =~= self.deflate_state.out_start@
                    + crate::deflate_format::concat_bits(self.deflate_state.blocks@));
            }
        }
    }

    /// Write the trailer, which for zlib is the Adler32 checksum.
    fn write_trailer(&mut self)
        ensures
            final(self).settings() == old(self).settings(),
            final(self).deflate_state.encoder_state.writer.w@ == old(self).deflate_state.encoder_state.writer.w@
                + be_bytes(old(self).checksum.value()),
            final(self).deflate_state.encoder_state.writer.bits == old(self).deflate_state.encoder_state.writer.bits,
            final(self).deflate_state.encoder_state.writer.acc == old(self).deflate_state.encoder_state.writer.acc,
            final(self).deflate_state.encoder_state.huffman_table == old(self).deflate_state.encoder_state.huffman_table,
            final(self).deflate_state.lz77_state == old(self).deflate_state.lz77_state,
            final(self).deflate_state.input_buffer == old(self).deflate_state.input_buffer,
            final(self).deflate_state.lz77_writer == old(self).deflate_state.lz77_writer,
            final(self).deflate_state.back_buffer == old(self).deflate_state.back_buffer,
            final(self).checksum == old(self).checksum,
            final(self).header_written == old(self).header_written,
    {
        let hash = self.checksum.current_hash();
        write_u32_be(self.deflate_state.output_buf(), hash);
    }

    /// Return the adler32 checksum of the currently consumed data.
    pub fn checksum(&self) -> (r: u32)
        requires
            self.wf(),
        ensures
            r == adler_update(1, self.consumed()),
    {
        self.checksum.current_hash()
    }

    /// Compress `buf`; all of it is taken, and its length returned.
    pub fn write(&mut self, buf: &[u8]) -> (r: usize)
        requires
            old(self).wf(),
        ensures
            r == buf@.len(),
            final(self).wf(),
            final(self).header_written(),
            final(self).consumed() == old(self).consumed() + buf@,
            final(self).stream_start() == old(self).start_with_header(),
            output_extends(old(self).output_with_header(), final(self).output_bits()),
            final(self).settings() == old(self).settings(),
            old(self).waiting() && old(self).consumed().len() + buf@.len() <= WINDOW_SIZE ==> final(self).waiting(),
    {
        self.check_write_header();
        let flush_mode = self.deflate_state.flush_mode;
        let ghost s1 = self.deflate_state.output_bits();
        assert(s1.take(s1.len() as int) =~= s1);
        let res = compress_data_dynamic_n(buf, &mut self.deflate_state, flush_mode);
        proof {
            lemma_extends_trans(old(self).output_with_header(), s1, self.deflate_state.output_bits());
            crate::checksum::lemma_adler_append(1, old(self).consumed(), buf@);
        }
        self.checksum.update_from_slice(buf);
        res
    }

    /// Compress all of `buf`.
    pub fn write_all(&mut self, buf: &[u8])
        requires
            old(self).wf(),
        ensures
            final(self).wf(),
            final(self).header_written(),
            final(self).consumed() == old(self).consumed() + buf@,
            final(self).stream_start() == old(self).start_with_header(),
            output_extends(old(self).output_with_header(), final(self).output_bits()),
            final(self).settings() == old(self).settings(),
            old(self).waiting() && old(self).consumed().len() + buf@.len() <= WINDOW_SIZE ==> final(self).waiting(),
    {
        let n = self.write(buf);
    }

    /// Flush the encoder.
    ///
    /// This will flush the encoder, emulating the Sync flush method from Zlib: the current block
    /// is finished, and an empty stored block follows. The header comes first if it has not
    /// been written yet.
    pub fn flush(&mut self)
        requires
            old(self).wf(),
        ensures
            final(self).wf(),
            final(self).header_written(),
            final(self).consumed() == old(self).consumed(),
            final(self).stream_start() == old(self).start_with_header(),
            output_extends(old(self).output_with_header(), final(self).output_bits()),
            ends_with_sync_marker(final(self).output_bytes()),
            stream_synced(final(self).output_bits(), final(self).stream_start(), final(self).consumed()),
    {
        self.check_write_header();
        let ghost s1 = self.deflate_state.output_bits();
        assert(s1.take(s1.len() as int) =~= s1);
        compress_until_done(&[], &mut self.deflate_state, Flush::Sync);
        proof {
            lemma_extends_trans(old(self).output_with_header(), s1, self.deflate_state.output_bits());
            assert(old(self).consumed() + Seq::<u8>::empty() =~= old(self).consumed());
            lemma_synced(&self.deflate_state);
        }
    }
}

/// A finished zlib output: the bytes before the trailer extend `before` and are `start` then a
/// complete DEFLATE stream of `data`, and the trailer is the Adler-32 checksum of `data`, most
/// significant byte first.
pub open spec fn zlib_done(out: Seq<u8>, before: Seq<bool>, start: Seq<bool>, data: Seq<u8>) -> bool {
    &&& out.len() >= 4
    &&& output_extends(before, bytes_bits(out.take(out.len() - 4)))
    &&& stream_after(bytes_bits(out.take(out.len() - 4)), start, data)
    &&& out.skip(out.len() - 4) == be_bytes(adler_update(1, data))
}


} // verus!
