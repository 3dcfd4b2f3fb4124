//! A DEFLATE encoder, with optional zlib framing, whose parts are verified with Verus.
//!
//! This library provides functions to compress data in memory using DEFLATE, both with and
//! without a zlib header and trailer, and encoders that take their input in pieces.
use vstd::prelude::*;

pub mod huffman_table;
pub mod lzvalue;
pub mod tables;
pub mod huffman_codes;
pub mod bitstream;
pub mod output_writer;
pub mod chained_hash_table;
pub mod input_buffer;
pub mod lz_decode;
pub mod matching;
pub mod lz77;
pub mod compress;
pub mod compression_options;
pub mod length_encode;
pub mod huffman_lengths;
pub mod stored_block;
pub mod encoder_state;
pub mod bit_writer;
pub mod checksum;
pub mod zlib;
pub mod deflate_state;
pub mod rle;
pub mod writer;
pub mod deflate_format;
pub mod gzip;

use crate::checksum::{RollingChecksum, NoChecksum, Adler32Checksum, adler_update};
use crate::deflate_state::DeflateState;
use crate::compress::{compress_data_dynamic_n, Flush, output_extends};
use crate::bitstream::bytes_bits;
use crate::deflate_format::{deflate_stream, block_of_items};
use crate::lz77::first_pass_parse;
use crate::chained_hash_table::WINDOW_SIZE;
use crate::compression_options::default_options;
use crate::writer::stream_after;
use crate::zlib::{write_zlib_header, write_u32_be, CompressionLevel, be_bytes, default_header, lemma_default_header};

pub use crate::lz77::lz77_compress;
pub use crate::compression_options::{CompressionOptions, SpecialOptions, Compression};
pub use crate::writer::{DeflateEncoder, ZlibEncoder};
pub use crate::gzip::GzEncoder;

verus! {

/// Compress all of `input` into `writer`, finishing the stream, and add `input` to `checksum`.
fn compress_data_dynamic<RC: RollingChecksum>(
    input: &[u8],
    writer: &mut Vec<u8>,
    checksum: &mut RC,
    compression_options: CompressionOptions,
) -> (r: usize)
    ensures
        r == input@.len(),
        final(checksum).hash_view() == RC::hash_after(old(checksum).hash_view(), input@),
        output_extends(bytes_bits(old(writer)@), bytes_bits(final(writer)@)),
        stream_after(bytes_bits(final(writer)@), bytes_bits(old(writer)@), input@),
        input@.len() <= WINDOW_SIZE ==> exists|b: Seq<bool>|
            #[trigger] block_of_items(
                bytes_bits(old(writer)@).len() as int,
                b,
                Seq::empty(),
                input@,
                first_pass_parse(input@, DeflateState::lz77_options(compression_options)),
                true,
            ) && output_extends(bytes_bits(old(writer)@) + b, bytes_bits(final(writer)@)),
{
    checksum.update_from_slice(input);
    let mut w: Vec<u8> = Vec::new();
    std::mem::swap(&mut w, writer);
    let mut deflate_state = DeflateState::new(compression_options, w);
    proof {
        deflate_state.lz77_state.lemma_initial();
        assert(Seq::<u8>::empty() + input@ =~= input@);
    }
    let n = compress_data_dynamic_n(input, &mut deflate_state, Flush::Finish);
    std::mem::swap(writer, &mut deflate_state.encoder_state.writer.w);
    proof {
        assert(bytes_bits(writer@) =~= bytes_bits(writer@) + Seq::<bool>::empty());
        assert(Seq::<u8>::empty() + input@ =~= input@);
    }
    n
}

/// Compress the given slice of bytes with DEFLATE compression.
///
/// Returns a Vec<u8> of the compressed data. Input that fits in one window becomes one final
/// block of the symbols of its `first_pass_parse` under the matching settings of `options`.
pub fn deflate_bytes_conf(input: &[u8], options: CompressionOptions) -> (r: Vec<u8>)
    ensures
        deflate_stream(bytes_bits(r@), input@),
        input@.len() <= WINDOW_SIZE ==> exists|b: Seq<bool>|
            #[trigger] block_of_items(
                0,
                b,
                Seq::empty(),
                input@,
                first_pass_parse(input@, DeflateState::lz77_options(options)),
                true,
            ) && output_extends(b, bytes_bits(r@)),
{
    let mut writer: Vec<u8> = Vec::new();
    let mut checksum = NoChecksum::new();
    compress_data_dynamic(input, &mut writer, &mut checksum, options);
    proof {
        assert(bytes_bits(Seq::<u8>::empty()) =~= Seq::<bool>::empty());
        assert(bytes_bits(writer@).skip(0) =~= bytes_bits(writer@));
        if input@.len() <= WINDOW_SIZE {
            let b = choose|b: Seq<bool>|
                #[trigger] block_of_items(
                    0,
                    b,
                    Seq::empty(),
                    input@,
                    first_pass_parse(input@, DeflateState::lz77_options(options)),
                    true,
                ) && output_extends(Seq::<bool>::empty() + b, bytes_bits(writer@));
            assert(Seq::<bool>::empty() + b =~= b);
        }
    }
    writer
}

/// Compress the given slice of bytes with DEFLATE compression using the default compression
/// level.
///
/// Returns a Vec<u8> of the compressed data.
pub fn deflate_bytes(input: &[u8]) -> (r: Vec<u8>)
    ensures
        deflate_stream(bytes_bits(r@), input@),
        input@.len() <= WINDOW_SIZE ==> exists|b: Seq<bool>|
            #[trigger] block_of_items(
                0,
                b,
                Seq::empty(),
                input@,
                first_pass_parse(input@, DeflateState::lz77_options(default_options())),
                true,
            ) && output_extends(b, bytes_bits(r@)),
{
    deflate_bytes_conf(input, CompressionOptions::default())
}

/// Compress the given slice of bytes with DEFLATE compression, including a zlib header and trailer.
///
/// Returns a Vec<u8> of the compressed data: the header of the default level, the compressed
/// data, and the Adler-32 checksum of `input`, most significant byte first.
///
/// Zlib dictionaries are not yet supported.
pub fn deflate_bytes_zlib_conf(input: &[u8], options: CompressionOptions) -> (r: Vec<u8>)
    ensures
        r@.len() >= 6,
        r@.take(2) == default_header(),
        deflate_stream(bytes_bits(r@.subrange(2, r@.len() - 4)), input@),
        r@.skip(r@.len() - 4) == be_bytes(adler_update(1, input@)),
        input@.len() <= WINDOW_SIZE ==> exists|b: Seq<bool>|
            #[trigger] block_of_items(
                0,
                b,
                Seq::empty(),
                input@,
                first_pass_parse(input@, DeflateState::lz77_options(options)),
                true,
            ) && output_extends(b, bytes_bits(r@.subrange(2, r@.len() - 4))),
{
    let mut writer: Vec<u8> = Vec::new();
    // Write header
    write_zlib_header(&mut writer, CompressionLevel::Default);
    proof {
        lemma_default_header(Seq::<u8>::empty(), writer@);
    }
    let ghost w1 = writer@;
    let mut checksum = Adler32Checksum::new();
    compress_data_dynamic(input, &mut writer, &mut checksum, options);
    proof {
        let w2 = writer@;
        crate::bitstream::lemma_bytes_bits_len(w1);
        crate::bitstream::lemma_bytes_bits_len(w2);
        let k = bytes_bits(w1).len() as int;
        crate::bitstream::lemma_bytes_bits_append(w2.take(2), w2.skip(2));
        assert(w2 =~= w2.take(2) + w2.skip(2));
        crate::bitstream::lemma_bytes_bits_len(w2.take(2));
        assert(bytes_bits(w2).take(k) =~= bytes_bits(w2.take(2)));
        crate::bitstream::lemma_bytes_bits_inj(w2.take(2), w1);
        assert(bytes_bits(w2).skip(k) =~= bytes_bits(w2.skip(2)));
        if input@.len() <= WINDOW_SIZE {
            let parse = first_pass_parse(input@, DeflateState::lz77_options(options));
            let b = choose|b: Seq<bool>|
                #[trigger] block_of_items(k, b, Seq::empty(), input@, parse, true) && output_extends(
                    bytes_bits(w1) + b,
                    bytes_bits(w2),
                );
            assert(k == 16);
            crate::deflate_format::lemma_block_of_items_mod(k, 0, b, Seq::empty(), input@, parse, true);
            assert(bytes_bits(w2.skip(2)).take(b.len() as int) =~= b) by {
                let bw = bytes_bits(w2);
                assert(bw.take(k + b.len()) == bytes_bits(w1) + b);
                assert(bw.skip(k).take(b.len() as int) =~= bw.take(k + b.len()).skip(k));
                assert((bytes_bits(w1) + b).skip(k) =~= b);
            }
        }
    }
    let hash = checksum.current_hash();
    let ghost w2 = writer@;
    write_u32_be(&mut writer, hash);
    proof {
        assert(writer@.take(2) =~= w2.take(2));
        assert(writer@.skip(writer@.len() - 4) =~= be_bytes(hash));
        assert(writer@.subrange(2, writer@.len() - 4) =~= w2.skip(2));
        if input@.len() <= WINDOW_SIZE {
            let parse = first_pass_parse(input@, DeflateState::lz77_options(options));
            assert(exists|b: Seq<bool>|
                #[trigger] block_of_items(0, b, Seq::empty(), input@, parse, true) && output_extends(
                    b,
                    bytes_bits(w2.skip(2)),
                ));
        }
    }
    writer
}

/// Compress the given slice of bytes with DEFLATE compression, including a zlib header and trailer,
/// using the default compression level.
///
/// Returns a Vec<u8> of the compressed data.
///
/// Zlib dictionaries are not yet supported.
pub fn deflate_bytes_zlib(input: &[u8]) -> (r: Vec<u8>)
    ensures
        r@.len() >= 6,
        r@.take(2) == default_header(),
        deflate_stream(bytes_bits(r@.subrange(2, r@.len() - 4)), input@),
        r@.skip(r@.len() - 4) == be_bytes(adler_update(1, input@)),
        input@.len() <= WINDOW_SIZE ==> exists|b: Seq<bool>|
            #[trigger] block_of_items(
                0,
                b,
                Seq::empty(),
                input@,
                first_pass_parse(input@, DeflateState::lz77_options(default_options())),
                true,
            ) && output_extends(b, bytes_bits(r@.subrange(2, r@.len() - 4))),
{
    deflate_bytes_zlib_conf(input, CompressionOptions::default())
}

} // verus!
