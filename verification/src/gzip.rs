//! The gzip framing: a header, a DEFLATE stream, and a trailer with the CRC-32 and the length.
use vstd::prelude::*;
use crate::compression_options::CompressionOptions;
use crate::compress::{output_extends, lemma_extends_trans, ends_with_sync_marker};
use crate::writer::{DeflateEncoder, stream_after, stream_synced};
use crate::zlib::{write_u32_le, le_bytes};
use crate::bitstream::bytes_bits;
use crate::deflate_format::{concat_bytes, block_of_items};
use crate::lz77::{MatchingType, first_pass_parse};
use crate::chained_hash_table::WINDOW_SIZE;
use crate::deflate_state::DeflateState;

verus! {

/// One bit step of the CRC-32 of the gzip format (RFC 1952): shift right, and where a one
/// bit falls off, add the reflected polynomial `0xEDB88320`.
pub open spec fn crc_shift(c: u32) -> u32 {
    if c & 1 == 1 {
        (c >> 1) ^ 0xEDB88320u32
    } else {
        c >> 1
    }
}

/// `n` bit steps of the CRC register.
pub open spec fn crc_shifts(c: u32, n: nat) -> u32
    decreases n,
{
    if n == 0 {
        c
    } else {
        crc_shifts(crc_shift(c), (n - 1) as nat)
    }
}

/// The CRC register after the bytes of `data`, starting from `c`: each byte is added into the
/// low bits, then eight bit steps are taken.
pub open spec fn crc_register(c: u32, data: Seq<u8>) -> u32
    decreases data.len(),
{
    if data.len() == 0 {
        c
    } else {
        crc_shifts(crc_register(c, data.drop_last()) ^ (data.last() as u32), 8)
    }
}

/// The CRC-32 of the gzip format of `data`, continued from the checksum `crc` of earlier data:
/// the register starts from the inverted checksum and is inverted at the end (so the checksum of
/// all the data, continued from 0, is the standard CRC-32).
pub open spec fn crc32_update(crc: u32, data: Seq<u8>) -> u32 {
    !crc_register(!crc, data)
}

/// The CRC-32 after the pieces of data, fed in turn, starting from the checksum `crc`.
pub open spec fn crc_chain(crc: u32, pieces: Seq<Seq<u8>>) -> u32
    decreases pieces.len(),
{
    if pieces.len() == 0 {
        crc
    } else {
        crc32_update(crc_chain(crc, pieces.drop_last()), pieces.last())
    }
}

/// Adds `data` to a running gzip checksum, with `gzip_header::Crc`: a `Crc` made with
/// `with_initial` from the checksum and the byte count takes the data with `update` (which
/// continues a `crc32fast::Hasher` from the checksum), and `sum` and `amt_as_u32` give the new
/// values. The checksum is the CRC-32 continued over the data; the count grows by the length
/// of the data, wrapping at 2^32.
#[verifier::external_body]
fn gzip_crc_update(checksum: u32, amount: u32, data: &[u8]) -> (r: (u32, u32))
    ensures
        r.0 == crc32_update(checksum, data@),
        r.1 == (amount + data@.len()) % 0x1_0000_0000,
{
    let mut crc = gzip_header::Crc::with_initial(checksum, amount);
    crc.update(data);
    (crc.sum(), crc.amt_as_u32())
}

/// The builder of gzip headers of the `gzip_header` crate.
#[verifier::external_type_specification]
#[verifier::external_body]
pub struct ExGzBuilder(gzip_header::GzBuilder);

/// A builder with all the header fields left blank, from `gzip_header::GzBuilder::new`.
#[verifier::external_body]
fn new_gz_builder() -> (r: gzip_header::GzBuilder) {
    gzip_header::GzBuilder::new()
}

/// The bytes of the gzip header the builder describes, from
/// `gzip_header::GzBuilder::into_header`: at least ten, of which the first three are the magic
/// number `1f 8b` and the compression method 8 (DEFLATE). The rest (flags, time, extra flags,
/// the operating system the program was built for, and the optional fields) is not stated.
#[verifier::external_body]
fn gz_header_bytes(builder: gzip_header::GzBuilder) -> (r: Vec<u8>)
    ensures
        r@.len() >= 10,
        r@[0] == 0x1f,
        r@[1] == 0x8b,
        r@[2] == 8,
{
    builder.into_header()
}

/// A finished gzip output: the bytes before the trailer extend `before` and are `start` then a
/// complete DEFLATE stream of `data`, and the trailer is the checksum `crc` and the length of
/// `data` modulo 2^32, least significant bytes first.
pub open spec fn gzip_done(out: Seq<u8>, before: Seq<bool>, start: Seq<bool>, data: Seq<u8>, crc: u32) -> bool {
    &&& out.len() >= 8
    &&& output_extends(before, bytes_bits(out.take(out.len() - 8)))
    &&& stream_after(bytes_bits(out.take(out.len() - 8)), start, data)
    &&& out.skip(out.len() - 8) == le_bytes(crc) + le_bytes((data.len() % 0x1_0000_0000) as u32)
}

/// A gzip encoder/compressor.
///
/// Takes unencoded data in pieces and compresses it into the output vector it was given, with
/// a gzip header and trailer.
pub struct GzEncoder {
    inner: DeflateEncoder,
    checksum: u32,
    amount: u32,
    header: Vec<u8>,
    /// The pieces of input, in the order they were written.
    pieces: Ghost<Seq<Seq<u8>>>,
}

impl GzEncoder {
    /// The encoder can take more input; the checksum and count are those of the input so far,
    /// and until the header is written nothing has been compressed.
    pub closed spec fn wf(&self) -> bool {
        &&& self.inner.wf()
        &&& concat_bytes(self.pieces@) == self.inner.consumed()
        &&& self.checksum == crc_chain(0, self.pieces@)
        &&& self.amount == self.inner.consumed().len() % 0x1_0000_0000
        &&& self.header@.len() > 0 ==> self.inner.fresh()
    }

    /// All the input written since the encoder was created or reset.
    pub closed spec fn consumed(&self) -> Seq<u8> {
        self.inner.consumed()
    }

    /// The pieces the input was written in.
    pub closed spec fn pieces(&self) -> Seq<Seq<u8>> {
        self.pieces@
    }

    /// The header still to be written, empty once written.
    pub closed spec fn header_pending(&self) -> Seq<u8> {
        self.header@
    }

    /// The input taken so far is held back, nothing of the stream is written yet (see
    /// `DeflateEncoder::waiting`).
    pub closed spec fn waiting(&self) -> bool {
        self.inner.waiting()
    }

    /// The compression options, and the matching settings the lz77 pass uses.
    pub closed spec fn settings(&self) -> (CompressionOptions, (u16, u16, MatchingType)) {
        self.inner.settings()
    }

    /// The output so far, as bits, including those that do not yet make up a whole byte.
    pub closed spec fn output_bits(&self) -> Seq<bool> {
        self.inner.output_bits()
    }

    /// The whole bytes of output so far.
    pub closed spec fn output_bytes(&self) -> Seq<u8> {
        self.inner.output_bytes()
    }

    /// The output that came before the compressed stream, including the header once written.
    pub closed spec fn stream_start(&self) -> Seq<bool> {
        self.inner.stream_start()
    }

    /// The output that the compressed data continues: with the header if it is still to come.
    pub open spec fn output_with_header(&self) -> Seq<bool> {
        self.output_bits() + bytes_bits(self.header_pending())
    }

    /// The output that the compressed stream follows: with the header if it is still to come.
    pub open spec fn start_with_header(&self) -> Seq<bool> {
        self.stream_start() + bytes_bits(self.header_pending())
    }

    /// The pieces hold the input.
    pub proof fn lemma_pieces(&self)
        requires
            self.wf(),
        ensures
            concat_bytes(self.pieces()) == self.consumed(),
    {
    }

    /// Create a new `GzEncoder` writing deflate-compressed data to the underlying writer when
    /// written to, wrapped in a gzip header and trailer. The header details will be blank.
    pub fn new(writer: Vec<u8>, options: CompressionOptions) -> (r: GzEncoder)
        ensures
            r.waiting(),
            r.settings() == (options, DeflateState::lz77_options(options)),
            r.wf(),
            r.consumed() == Seq::<u8>::empty(),
            r.pieces() == Seq::<Seq<u8>>::empty(),
            r.output_bits() == bytes_bits(writer@),
            r.stream_start() == bytes_bits(writer@),
            r.header_pending().len() >= 10,
            r.header_pending().take(3) == seq![0x1fu8, 0x8bu8, 8u8],
    {
        GzEncoder::from_builder(new_gz_builder(), writer, options)
    }

    /// Create a new GzEncoder from the provided `GzBuilder`. This allows customising
    /// the details of the header, such as the filename and comment fields.
    pub fn from_builder(builder: gzip_header::GzBuilder, writer: Vec<u8>, options: CompressionOptions) -> (r:
        GzEncoder)
        ensures
            r.waiting(),
            r.settings() == (options, DeflateState::lz77_options(options)),
            r.wf(),
            r.consumed() == Seq::<u8>::empty(),
            r.pieces() == Seq::<Seq<u8>>::empty(),
            r.output_bits() == bytes_bits(writer@),
            r.stream_start() == bytes_bits(writer@),
            r.header_pending().len() >= 10,
            r.header_pending().take(3) == seq![0x1fu8, 0x8bu8, 8u8],
    {
        let header = gz_header_bytes(builder);
        let r = GzEncoder {
            inner: DeflateEncoder::new(writer, options),
            checksum: 0,
            amount: 0,
            header,
            pieces: Ghost(Seq::empty()),
        };
        proof {
            assert(r.header@.take(3) =~= seq![0x1fu8, 0x8bu8, 8u8]);
        }
        r
    }

    /// Write header to the output buffer if it hasn't been done yet.
    fn check_write_header(&mut self)
        requires
            old(self).wf(),
        ensures
            final(self).wf(),
            final(self).header_pending() == Seq::<u8>::empty(),
            final(self).consumed() == old(self).consumed(),
            final(self).pieces() == old(self).pieces(),
            final(self).output_bits() == old(self).output_with_header(),
            final(self).stream_start() == old(self).start_with_header(),
            final(self).settings() == old(self).settings(),
            old(self).waiting() ==> final(self).waiting(),
    {
        proof {
            assert(bytes_bits(Seq::<u8>::empty()) =~= Seq::<bool>::empty());
            assert(self.output_bits() + Seq::<bool>::empty() =~= self.output_bits());
            assert(self.stream_start() + Seq::<bool>::empty() =~= self.stream_start());
        }
        if self.header.len() > 0 {
            self.inner.write_before_stream(self.header.as_slice());
            self.header.clear();
        }
    }

    /// The trailer: the checksum and the count of the input, least significant bytes first.
    fn write_trailer(&self, out: &mut Vec<u8>)
        ensures
            final(out)@ == old(out)@ + le_bytes(self.checksum) + le_bytes(self.amount),
    {
        write_u32_le(out, self.checksum);
        write_u32_le(out, self.amount);
    }

    /// Encode all pending data to the contained writer, consume this `GzEncoder`,
    /// and return the contained writer.
    ///
    /// The result is the output that came before, the header if it was not yet written, a
    /// complete DEFLATE stream of all the input, and the gzip trailer: the CRC-32 of the input,
    /// taken piece by piece, and its length modulo 2^32.
    pub fn finish(self) -> (r: Vec<u8>)
        requires
            self.wf(),
        ensures
            gzip_done(
                r@,
                self.output_with_header(),
                self.start_with_header(),
                self.consumed(),
                crc_chain(0, self.pieces()),
            ),
            self.waiting() && self.consumed().len() <= WINDOW_SIZE ==> exists|b: Seq<bool>|
                #[trigger] block_of_items(
                    self.start_with_header().len() as int,
                    b,
                    Seq::empty(),
                    self.consumed(),
                    first_pass_parse(self.consumed(), self.settings().1),
                    true,
                ) && output_extends(self.start_with_header() + b, bytes_bits(r@.take(r@.len() - 8))),
    {
        let mut this = self;
        this.check_write_header();
        let checksum = this.checksum;
        let amount = this.amount;
        let GzEncoder { inner, .. } = this;
        let mut out = inner.finish();
        let ghost w2 = out@;
        write_u32_le(&mut out, checksum);
        write_u32_le(&mut out, amount);
        proof {
            assert(out@.take(out@.len() - 8) =~= w2);
            assert(out@.skip(out@.len() - 8) =~= le_bytes(checksum) + le_bytes(amount));
        }
        out
    }

    /// Resets the encoder (except the compression options), replacing the current writer
    /// with a new one, returning the old one, finished as `finish` would.
    pub fn reset(&mut self, writer: Vec<u8>) -> (r: Vec<u8>)
        requires
            old(self).wf(),
        ensures
            final(self).wf(),
            final(self).consumed() == Seq::<u8>::empty(),
            final(self).pieces() == Seq::<Seq<u8>>::empty(),
            final(self).output_bits() == bytes_bits(writer@),
            final(self).stream_start() == bytes_bits(writer@),
            final(self).header_pending().len() >= 10,
            gzip_done(
                r@,
                old(self).output_with_header(),
                old(self).start_with_header(),
                old(self).consumed(),
                crc_chain(0, old(self).pieces()),
            ),
    {
        self.check_write_header();
        let mut out = self.inner.reset(writer);
        let ghost w2 = out@;
        write_u32_le(&mut out, self.checksum);
        write_u32_le(&mut out, self.amount);
        proof {
            assert(out@.take(out@.len() - 8) =~= w2);
            assert(out@.skip(out@.len() - 8) =~= le_bytes(old(self).checksum) + le_bytes(old(self).amount));
        }
        self.header = gz_header_bytes(new_gz_builder());
        self.checksum = 0;
        self.amount = 0;
        self.pieces = Ghost(Seq::empty());
        out
    }

    /// Get the crc32 checksum of the data consumed so far.
    pub fn checksum(&self) -> (r: u32)
        requires
            self.wf(),
        ensures
            r == crc_chain(0, self.pieces()),
    {
        self.checksum
    }

    /// The output written so far.
    pub fn get_ref(&self) -> (r: &Vec<u8>)
        ensures
            r@ == self.output_bytes(),
    {
        self.inner.get_ref()
    }

    /// Compress `buf`; all of it is taken, and its length returned.
    pub fn write(&mut self, buf: &[u8]) -> (r: usize)
        requires
            old(self).wf(),
        ensures
            r == buf@.len(),
            final(self).wf(),
            final(self).header_pending() == Seq::<u8>::empty(),
            final(self).consumed() == old(self).consumed() + buf@,
            final(self).pieces() == old(self).pieces().push(buf@),
            final(self).stream_start() == old(self).start_with_header(),
            output_extends(old(self).output_with_header(), final(self).output_bits()),
            final(self).settings() == old(self).settings(),
            old(self).waiting() && old(self).consumed().len() + buf@.len() <= WINDOW_SIZE ==> final(self).waiting(),
    {
        self.check_write_header();
        let ghost s1 = self.inner.output_bits();
        let res = self.inner.write(buf);
        proof {
            assert(s1.take(s1.len() as int) =~= s1);
            lemma_extends_trans(old(self).output_with_header(), s1, self.inner.output_bits());
        }
        let (c, a) = gzip_crc_update(self.checksum, self.amount, buf);
        let ghost old_pieces = self.pieces@;
        proof {
            let a0 = self.amount as int;
            let n0 = old(self).consumed().len() as int;
            let k = buf@.len() as int;
            assert(a as int == (n0 + k) % 0x1_0000_0000) by {
                vstd::arithmetic::div_mod::lemma_add_mod_noop(n0, k, 0x1_0000_0000);
                vstd::arithmetic::div_mod::lemma_mod_twice(k, 0x1_0000_0000);
                vstd::arithmetic::div_mod::lemma_add_mod_noop(a0, k, 0x1_0000_0000);
                vstd::arithmetic::div_mod::lemma_small_mod(a0 as nat, 0x1_0000_0000);
            }
            assert(old_pieces.push(buf@).drop_last() =~= old_pieces);
        }
        self.checksum = c;
        self.amount = a;
        self.pieces = Ghost(self.pieces@.push(buf@));
        res
    }

    /// Compress all of `buf`.
    pub fn write_all(&mut self, buf: &[u8])
        requires
            old(self).wf(),
        ensures
            final(self).wf(),
            final(self).header_pending() == Seq::<u8>::empty(),
            final(self).consumed() == old(self).consumed() + buf@,
            final(self).pieces() == old(self).pieces().push(buf@),
            final(self).stream_start() == old(self).start_with_header(),
            output_extends(old(self).output_with_header(), final(self).output_bits()),
            final(self).settings() == old(self).settings(),
            old(self).waiting() && old(self).consumed().len() + buf@.len() <= WINDOW_SIZE ==> final(self).waiting(),
    {
        let n = self.write(buf);
    }

    /// Flush the encoder.
    ///
    /// This will flush the encoder, emulating the Sync flush method from Zlib: the current block
    /// is finished, and an empty stored block follows. The header comes first if it has not
    /// been written yet.
    pub fn flush(&mut self)
        requires
            old(self).wf(),
        ensures
            final(self).wf(),
            final(self).header_pending() == Seq::<u8>::empty(),
            final(self).consumed() == old(self).consumed(),
            final(self).pieces() == old(self).pieces(),
            final(self).stream_start() == old(self).start_with_header(),
            output_extends(old(self).output_with_header(), final(self).output_bits()),
            ends_with_sync_marker(final(self).output_bytes()),
            stream_synced(final(self).output_bits(), final(self).stream_start(), final(self).consumed()),
    {
        self.check_write_header();
        let ghost s1 = self.inner.output_bits();
        self.inner.flush();
        proof {
            assert(s1.take(s1.len() as int) =~= s1);
            lemma_extends_trans(old(self).output_with_header(), s1, self.inner.output_bits());
        }
    }
}

} // verus!
