//! Writing lz77 symbols as huffman codes to the output bit stream.
use vstd::prelude::*;
use vstd::arithmetic::power2::{pow2, lemma2_to64};
use crate::huffman_table::{HuffmanTable, HuffmanError, HuffmanCode, codes_ok, empty_codes, lemma_empty_codes_ok,
    lemma_assign_codes_ok, MIN_MATCH, MAX_MATCH, MIN_DISTANCE, MAX_DISTANCE, END_OF_BLOCK_POSITION, lengths_fit,
    lemma_fixed_tables_valid};
use crate::huffman_codes::{assign_codes, length_table_error};
use crate::bitstream::{LsbWriter, int_bits};
use crate::lzvalue::LDPair;

verus! {

// The first bits of each block, which describe the type of the block
// `-TTF` - TT = type, 00 = stored, 01 = fixed, 10 = dynamic, 11 = reserved, F - 1 if final block
// `0000`;
pub const FIXED_FIRST_BYTE: u16 = 0b010;
pub const FIXED_FIRST_BYTE_FINAL: u16 = 0b011;
pub const DYNAMIC_FIRST_BYTE: u16 = 0b100;
pub const DYNAMIC_FIRST_BYTE_FINAL: u16 = 0b101;

/// The kinds of DEFLATE blocks.
pub enum BType {
    NoCompression,
    FixedHuffman,
    DynamicHuffman,
}

/// A symbol that could not be given a code.
#[derive(Debug, Clone, Copy, PartialEq, Eq)]
pub enum EncodeError {
    InvalidLength,
    InvalidDistance,
}

/// The bits of a code.
pub open spec fn code_bits(c: HuffmanCode) -> Seq<bool> {
    int_bits(c.code as int, c.length as nat)
}

/// A symbol the code tables have a code for.
pub open spec fn symbol_ok(v: LDPair) -> bool {
    match v {
        LDPair::Literal(_) => true,
        LDPair::Length(l) => MIN_MATCH <= l <= MAX_MATCH,
        LDPair::Distance(d) => MIN_DISTANCE <= d <= MAX_DISTANCE,
    }
}

/// The bits a symbol is written as with the table `t`: its code, and the extra bits of a length
/// or distance.
pub open spec fn symbol_bits(t: HuffmanTable, v: LDPair) -> Seq<bool> {
    match v {
        LDPair::Literal(l) => code_bits(t.codes()[l as int]),
        LDPair::Length(l) => {
            let p = t.get_length_huffman_spec(l).unwrap();
            code_bits(p.0) + code_bits(p.1)
        },
        LDPair::Distance(d) => {
            let p = t.get_distance_huffman_spec(d).unwrap();
            code_bits(p.0) + code_bits(p.1)
        },
    }
}

/// A struct wrapping a writer that writes data compressed using the provided huffman table
pub struct EncoderState {
    pub huffman_table: HuffmanTable,
    pub writer: LsbWriter,
}

impl EncoderState {
    /// The huffman codes in use.
    pub open spec fn table(&self) -> HuffmanTable {
        self.huffman_table
    }

    /// The table's codes can be written and the bit writer is well formed.
    pub open spec fn valid(&self) -> bool {
        self.table().valid() && self.writer.wf()
    }

    /// The output buffer.
    pub fn inner_vec(&mut self) -> (r: &mut Vec<u8>)
        ensures
            *r == old(self).writer.w,
            final(self).writer.w == *final(r),
            final(self).writer.bits == old(self).writer.bits,
            final(self).writer.acc == old(self).writer.acc,
            final(self).table() == old(self).table(),
    {
        &mut self.writer.w
    }

    /// Creates a new encoder state using the provided huffman table and writer
    pub fn new(huffman_table: HuffmanTable, writer: Vec<u8>) -> (r: EncoderState)
        ensures
            r.table() == huffman_table,
            r.writer.wf(),
            r.writer.w@ == writer@,
            r.writer.pending() == Seq::<bool>::empty(),
            r.writer.acc == 0,
    {
        EncoderState { huffman_table: huffman_table, writer: LsbWriter::new(writer) }
    }

    /// Creates a new encoder state using the fixed huffman table
    pub fn fixed(writer: Vec<u8>) -> (r: EncoderState)
        ensures
            r.valid(),
            r.table().codes() == assign_codes(empty_codes(288), crate::tables::FIXED_CODE_LENGTHS@),
            r.table().distance_codes() == assign_codes(empty_codes(32), crate::tables::FIXED_CODE_LENGTHS_DISTANCE@),
            r.writer.w@ == writer@,
            r.writer.pending() == Seq::<bool>::empty(),
            r.writer.acc == 0,
    {
        let t = HuffmanTable::fixed_table();
        proof {
            lemma_fixed_tables_valid();
            lemma_empty_codes_ok(288);
            lemma_empty_codes_ok(32);
            lemma_assign_codes_ok(empty_codes(288), crate::tables::FIXED_CODE_LENGTHS@);
            lemma_assign_codes_ok(empty_codes(32), crate::tables::FIXED_CODE_LENGTHS_DISTANCE@);
        }
        EncoderState::new(t, writer)
    }

    /// Encodes a literal value to the writer
    fn write_literal(&mut self, value: u8)
        requires
            old(self).valid(),
        ensures
            final(self).valid(),
            final(self).table() == old(self).table(),
            final(self).writer.stream() == old(self).writer.stream() + symbol_bits(old(self).table(), LDPair::Literal(value)),
            final(self).writer.w@.len() >= old(self).writer.w@.len(),
            final(self).writer.w@.subrange(0, old(self).writer.w@.len() as int) == old(self).writer.w@,
    {
        let code = self.huffman_table.get_literal(value);
        self.writer.write_bits(code.code, code.length);
    }

    /// Write a LZvalue to the contained writer, returning Err if the value has no code.
    pub fn write_lzvalue(&mut self, value: LDPair) -> (r: Result<(), EncodeError>)
        requires
            old(self).valid(),
        ensures
            final(self).valid(),
            final(self).table() == old(self).table(),
            r is Ok <==> symbol_ok(value),
            r is Ok ==> final(self).writer.stream() == old(self).writer.stream() + symbol_bits(old(self).table(), value),
            r is Err ==> *final(self) == *old(self),
            r is Err ==> r == Err::<(), EncodeError>(
                if value is Length { EncodeError::InvalidLength } else { EncodeError::InvalidDistance },
            ),
            final(self).writer.w@.len() >= old(self).writer.w@.len(),
            final(self).writer.w@.subrange(0, old(self).writer.w@.len() as int) == old(self).writer.w@,
    {
        match value {
            LDPair::Literal(l) => {
                self.write_literal(l);
                Ok(())
            },
            LDPair::Length(l) => {
                let (code, extra_bits_code) = match self.huffman_table.get_length_huffman(l) {
                    Some(p) => p,
                    None => {
                        proof {
                            assert(self.writer.w@.subrange(0, self.writer.w@.len() as int) =~= self.writer.w@);
                        }
                        return Err(EncodeError::InvalidLength);
                    },
                };
                let ghost w0 = self.writer.w@;
                self.writer.write_bits(code.code, code.length);
                let ghost w1 = self.writer.w@;
                self.writer.write_bits(extra_bits_code.code, extra_bits_code.length);
                proof {
                    assert(self.writer.w@.subrange(0, w0.len() as int) =~= w1.subrange(0, w0.len() as int));
                    assert(self.writer.stream() =~= old(self).writer.stream() + symbol_bits(old(self).table(), value));
                }
                Ok(())
            },
            LDPair::Distance(d) => {
                let (code, extra_bits_code) = match self.huffman_table.get_distance_huffman(d) {
                    Some(p) => p,
                    None => {
                        proof {
                            assert(self.writer.w@.subrange(0, self.writer.w@.len() as int) =~= self.writer.w@);
                        }
                        return Err(EncodeError::InvalidDistance);
                    },
                };
                let ghost w0 = self.writer.w@;
                self.writer.write_bits(code.code, code.length);
                let ghost w1 = self.writer.w@;
                self.writer.write_bits(extra_bits_code.code, extra_bits_code.length);
                proof {
                    assert(self.writer.w@.subrange(0, w0.len() as int) =~= w1.subrange(0, w0.len() as int));
                    assert(self.writer.stream() =~= old(self).writer.stream() + symbol_bits(old(self).table(), value));
                }
                Ok(())
            },
        }
    }

    /// Write the start of a block.
    pub fn write_start_of_block(&mut self, fixed: bool, final_block: bool)
        requires
            old(self).valid(),
        ensures
            final(self).valid(),
            final(self).table() == old(self).table(),
            final(self).writer.stream() == old(self).writer.stream() + int_bits(
                block_start(fixed, final_block) as int,
                3,
            ),
            final(self).writer.w@.len() >= old(self).writer.w@.len(),
            final(self).writer.w@.subrange(0, old(self).writer.w@.len() as int) == old(self).writer.w@,
    {
        proof {
            lemma2_to64();
        }
        if final_block {
            // The final block has one bit flipped to indicate it's
            // the final one
            if fixed {
                self.writer.write_bits(FIXED_FIRST_BYTE_FINAL, 3)
            } else {
                self.writer.write_bits(DYNAMIC_FIRST_BYTE_FINAL, 3)
            }
        } else if fixed {
            self.writer.write_bits(FIXED_FIRST_BYTE, 3)
        } else {
            self.writer.write_bits(DYNAMIC_FIRST_BYTE, 3)
        }
    }

    /// Write the end of block code
    pub fn write_end_of_block(&mut self)
        requires
            old(self).valid(),
        ensures
            final(self).valid(),
            final(self).table() == old(self).table(),
            final(self).writer.stream() == old(self).writer.stream() + code_bits(
                old(self).table().codes()[END_OF_BLOCK_POSITION as int],
            ),
            final(self).writer.w@.len() >= old(self).writer.w@.len(),
            final(self).writer.w@.subrange(0, old(self).writer.w@.len() as int) == old(self).writer.w@,
    {
        let code = self.huffman_table.get_end_of_block();
        self.writer.write_bits(code.code, code.length)
    }

    /// Flush the contained writer and it's bitstream wrapper.
    pub fn flush(&mut self)
        requires
            old(self).valid(),
        ensures
            final(self).valid(),
            final(self).table() == old(self).table(),
            final(self).writer.pending() == Seq::<bool>::empty(),
            final(self).writer.stream() == old(self).writer.stream() + int_bits(
                0,
                ((8 - old(self).writer.pending().len()) % 8) as nat,
            ),
            final(self).writer.w@.subrange(0, old(self).writer.w@.len() as int) == old(self).writer.w@,
    {
        self.writer.flush()
    }

    /// Update the huffman table by generating new huffman codes
    /// from length the length values from the provided tables.
    pub fn update_huffman_table(&mut self, literals_and_lengths: &[u8], distances: &[u8]) -> (r: Result<
        (),
        HuffmanError,
    >)
        requires
            old(self).valid(),
            lengths_fit(literals_and_lengths@, 288),
            lengths_fit(distances@, 32),
        ensures
            final(self).valid(),
            final(self).writer == old(self).writer,
            length_table_error(literals_and_lengths@) is None && length_table_error(distances@) is None ==> r is Ok
                && final(self).table().codes() == assign_codes(old(self).table().codes(), literals_and_lengths@)
                && final(self).table().distance_codes() == assign_codes(old(self).table().distance_codes(), distances@),
            length_table_error(literals_and_lengths@) is Some || length_table_error(distances@) is Some ==> r is Err,
    {
        proof {
            if length_table_error(literals_and_lengths@) is None {
                lemma_assign_codes_ok(self.huffman_table.codes(), literals_and_lengths@);
            }
            if length_table_error(distances@) is None {
                lemma_assign_codes_ok(self.huffman_table.distance_codes(), distances@);
            }
        }
        self.huffman_table.update_from_length_tables(literals_and_lengths, distances)
    }

    /// Switch to the fixed huffman codes.
    pub fn set_huffman_to_fixed(&mut self) -> (r: Result<(), HuffmanError>)
        requires
            old(self).valid(),
        ensures
            r is Ok,
            final(self).valid(),
            final(self).writer == old(self).writer,
            final(self).table().codes() == assign_codes(old(self).table().codes(), crate::tables::FIXED_CODE_LENGTHS@),
            final(self).table().distance_codes() == assign_codes(
                old(self).table().distance_codes(),
                crate::tables::FIXED_CODE_LENGTHS_DISTANCE@,
            ),
    {
        proof {
            lemma_fixed_tables_valid();
            lemma_assign_codes_ok(self.huffman_table.codes(), crate::tables::FIXED_CODE_LENGTHS@);
            lemma_assign_codes_ok(self.huffman_table.distance_codes(), crate::tables::FIXED_CODE_LENGTHS_DISTANCE@);
        }
        self.huffman_table.set_to_fixed()
    }

    /// Reset the encoder state with a new writer, returning the old one after flushing it.
    pub fn _reset(&mut self, writer: Vec<u8>) -> (r: Vec<u8>)
        requires
            old(self).valid(),
        ensures
            final(self).valid(),
            final(self).table().codes() == empty_codes(288),
            final(self).table().distance_codes() == empty_codes(32),
            final(self).writer.w@ == writer@,
            final(self).writer.pending() == Seq::<bool>::empty(),
            bytes_of(r@) == old(self).writer.stream() + int_bits(0, ((8 - old(self).writer.pending().len()) % 8) as nat),
    {
        // Make sure the writer is flushed
        self.flush();
        // Reset the huffman table
        // This probably isn't needed, but again, we do it just in case to avoid leaking any data
        self.huffman_table = HuffmanTable::empty();
        proof {
            lemma_empty_codes_ok(288);
            lemma_empty_codes_ok(32);
            crate::bitstream::lemma_int_bits_zero_len(self.writer.acc as int);
        }
        let mut w = writer;
        std::mem::swap(&mut w, &mut self.writer.w);
        proof {
            assert(bytes_of(w@) =~= crate::bitstream::bytes_bits(w@) + Seq::<bool>::empty());
        }
        w
    }
}

/// The bits of a byte sequence.
pub open spec fn bytes_of(s: Seq<u8>) -> Seq<bool> {
    crate::bitstream::bytes_bits(s)
}

/// The three bits that start a block: final flag and block type.
pub open spec fn block_start(fixed: bool, final_block: bool) -> u16 {
    if final_block {
        if fixed { FIXED_FIRST_BYTE_FINAL } else { DYNAMIC_FIRST_BYTE_FINAL }
    } else if fixed {
        FIXED_FIRST_BYTE
    } else {
        DYNAMIC_FIRST_BYTE
    }
}

} // verus!
