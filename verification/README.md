# deflate

A DEFLATE encoder (RFC 1951), with zlib (RFC 1950) and gzip (RFC 1952) framing, written in
Verus: the compressor's parts carry `requires`/`ensures` contracts that Verus proves.

```rust
let compressed = deflate::deflate_bytes(b"Some data");
```

What is proved about the result of `deflate_bytes` is `deflate_stream(bytes_bits(r), input)`:
the output bits are a sequence of DEFLATE blocks holding the pieces of the input in order,
only the last marked final, padded to a whole byte. Each block is either stored blocks of its
bytes, or a block with dynamic Huffman codes whose header encodes the code lengths and whose
lz77 symbols decode to its bytes after the input before it. The code lengths of such a header
form complete prefix codes (where two or more symbols are used) in which a more frequent
symbol never has a longer code, and every symbol the block uses, and its end of block marker,
has a code. In general a block is stored only where some symbols decoding to its bytes, with
a header of that kind made for them, would make a dynamic block larger than the stored one;
which of those code lengths the encoder picks is not stated (neither their optimality nor
their exact values).

For input of at most one window (32768 bytes) more is proved: the output starts with one
final block made of exactly the symbols of `first_pass_parse` (`src/lz77.rs`), the greedy or
lazy parse, under the compression settings, with the hash chain search of `longest_match`
(`block_of_items` in `src/deflate_format.rs`); it is stored only where a header made for
those symbols would make the dynamic block larger. The same holds of a `DeflateEncoder`,
`ZlibEncoder` or `GzEncoder` that was given that input in any number of pieces before
`finish`: the symbols depend on the input, not on how it was cut.
For longer input, the symbols of each chunk that `process_chunk` handles are those of
`greedy_parse` or `lazy_parse`, but how the input is cut into chunks and windows across calls
is not stated in the public contracts. The zlib and gzip variants add the header and the
checksum trailer (Adler-32, or the CRC-32 stated bit by bit in `src/gzip.rs`) around such a
stream. After a sync `flush` of an encoder, the output is non-final blocks holding all the
input so far, and it ends with the bytes `00 00 FF FF` of an empty stored block.

## Layout

- `src/lib.rs`: the one-shot functions (`deflate_bytes`, `deflate_bytes_zlib`, ...).
- `src/writer.rs`, `src/gzip.rs`: encoders that take input in pieces (`DeflateEncoder`,
  `ZlibEncoder`, `GzEncoder`), writing into a `Vec<u8>`.
- `src/deflate_format.rs`: the shape of the streams as bit sequences, the statement above.
- `src/compress.rs`, `src/deflate_state.rs`: blocks and the state of a compression.
- `src/lz77.rs`, `src/matching.rs`, `src/chained_hash_table.rs`, `src/input_buffer.rs`,
  `src/rle.rs`, `src/lz_decode.rs`: the lz77 pass and what its symbols decode to.
- `src/huffman_table.rs`, `src/huffman_codes.rs`, `src/length_encode.rs`,
  `src/huffman_lengths.rs`, `src/encoder_state.rs`: Huffman code lengths, canonical codes,
  the run-length encoding of the code lengths, and the symbol writer.
- `src/bitstream.rs`, `src/bit_writer.rs`, `src/stored_block.rs`, `src/zlib.rs`,
  `src/checksum.rs`: bit output, stored blocks, zlib header and Adler-32.
- `app/lib.rs`: `std::io::Write` front ends that pass the encoders' output on to any writer.
- `tests/`: tests run against the compiled library, decompressing with `miniz_oxide`.

The Adler-32 and CRC-32 sums and the gzip header come from the `adler32` and `gzip-header`
crates, through small trusted wrappers whose contracts are stated in `src/checksum.rs` and
`src/gzip.rs`.
