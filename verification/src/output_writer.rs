//! Buffers for the symbols produced by the lz77 pass.
use vstd::prelude::*;
use crate::lzvalue::{LZValue, LDPair, decode_lzvalue};
use crate::huffman_table::{
    NUM_LITERALS_AND_LENGTHS, NUM_DISTANCE_CODES, END_OF_BLOCK_POSITION, MIN_MATCH, MAX_MATCH,
    MIN_DISTANCE, MAX_DISTANCE, get_distance_code, get_length_code, spec_length_code, spec_distance_code,
    LENGTH_BITS_START,
};

verus! {

/// The type used for representing how many times a literal, length or distance code has been
/// output to the current buffer.
pub type FrequencyType = u16;

/// The maximum number of symbols in the buffer before a new block is started.
pub const MAX_BUFFER_LENGTH: usize = 65535;

/// Whether the buffer can take more symbols.
#[derive(Debug, PartialEq, Eq, Structural)]
pub enum BufferStatus {
    NotFull,
    Full,
}

/// The writer can take another symbol.
pub open spec fn ready<W: OutputWriter + ?Sized>(w: &W) -> bool {
    w.inv() && w.buffer_view().len() < MAX_BUFFER_LENGTH
}

/// The writer cannot take another symbol: its buffer is full.
#[verifier::opaque]
pub open spec fn writer_full<W: OutputWriter + ?Sized>(w: &W) -> bool {
    !ready(w)
}

/// A trait used by the lz77 compression function to write output.
/// Used to use the same function for compression with both fixed and dynamic huffman codes
/// (When fixed codes are used, there is no need to store frequency information)
pub trait OutputWriter {
    /// The symbols written so far.
    spec fn buffer_view(&self) -> Seq<LZValue>;

    /// The writer is consistent.
    spec fn inv(&self) -> bool;

    fn write_literal(&mut self, literal: u8) -> (r: BufferStatus)
        requires
            old(self).inv(),
            old(self).buffer_view().len() < MAX_BUFFER_LENGTH,
        ensures
            final(self).inv(),
            final(self).buffer_view() == old(self).buffer_view().push(LZValue { data: (literal + 0xC000) as u16 }),
            r == BufferStatus::NotFull <==> final(self).buffer_view().len() < MAX_BUFFER_LENGTH,
    ;

    fn write_length_distance(&mut self, length: u16, distance: u16) -> (r: BufferStatus)
        requires
            old(self).inv(),
            old(self).buffer_view().len() < MAX_BUFFER_LENGTH,
            MIN_MATCH <= length <= MAX_MATCH,
            MIN_DISTANCE <= distance <= MAX_DISTANCE,
        ensures
            final(self).inv(),
            final(self).buffer_view() == old(self).buffer_view().push(LZValue { data: length ^ 0x8000u16 }).push(
                LZValue { data: if distance == MAX_DISTANCE { 0 } else { distance } },
            ),
            r == BufferStatus::NotFull <==> final(self).buffer_view().len() < MAX_BUFFER_LENGTH,
    ;

    fn buffer_length(&self) -> (r: usize)
        ensures
            r == self.buffer_view().len(),
    ;

    fn clear_buffer(&mut self)
        ensures
            final(self).inv(),
            final(self).buffer_view() == Seq::<LZValue>::empty(),
    ;

    fn get_buffer(&self) -> (r: &[LZValue])
        ensures
            r@ == self.buffer_view(),
    ;
}

/// Full if the buffer has reached the maximum length.
pub fn check_buffer_length(buffer: &[LZValue]) -> (r: BufferStatus)
    ensures
        r == BufferStatus::NotFull <==> buffer@.len() < MAX_BUFFER_LENGTH,
{
    if buffer.len() >= MAX_BUFFER_LENGTH {
        BufferStatus::Full
    } else {
        BufferStatus::NotFull
    }
}

/// `OutputWriter` that doesn't store frequency information.
#[derive(Debug)]
pub struct FixedWriter {
    pub buffer: Vec<LZValue>,
}

impl FixedWriter {
    pub fn new() -> (r: FixedWriter)
        ensures
            r.buffer@ == Seq::<LZValue>::empty(),
    {
        FixedWriter { buffer: Vec::with_capacity(MAX_BUFFER_LENGTH) }
    }
}

impl OutputWriter for FixedWriter {
    open spec fn buffer_view(&self) -> Seq<LZValue> {
        self.buffer@
    }

    open spec fn inv(&self) -> bool {
        self.buffer@.len() <= MAX_BUFFER_LENGTH + 1
    }

    fn write_literal(&mut self, literal: u8) -> (r: BufferStatus) {
        self.buffer.push(LZValue::literal(literal));
        check_buffer_length(self.buffer.as_slice())
    }

    fn write_length_distance(&mut self, length: u16, distance: u16) -> (r: BufferStatus) {
        self.buffer.push(LZValue::length(length));
        self.buffer.push(LZValue::distance(distance));
        check_buffer_length(self.buffer.as_slice())
    }

    fn buffer_length(&self) -> (r: usize) {
        self.buffer.len()
    }

    fn clear_buffer(&mut self) {
        self.buffer.clear();
    }

    fn get_buffer(&self) -> (r: &[LZValue]) {
        self.buffer.as_slice()
    }
}

/// The literal/length symbol a packed value is counted under, if any.
pub open spec fn ll_symbol(v: LZValue) -> int {
    match decode_lzvalue(v.data) {
        LDPair::Literal(l) => l as int,
        LDPair::Length(len) => if MIN_MATCH <= len <= MAX_MATCH {
            LENGTH_BITS_START + spec_length_code(len - MIN_MATCH)
        } else {
            -1
        },
        LDPair::Distance(_) => -1,
    }
}

/// The distance symbol a packed value is counted under, if any.
pub open spec fn d_symbol(v: LZValue) -> int {
    match decode_lzvalue(v.data) {
        LDPair::Distance(d) => if MIN_DISTANCE <= d <= MAX_DISTANCE {
            spec_distance_code(d - 1)
        } else {
            -1
        },
        _ => -1,
    }
}

/// How many symbols of the buffer count under literal/length symbol `sym`.
pub open spec fn ll_count(buf: Seq<LZValue>, sym: int) -> nat
    decreases buf.len(),
{
    if buf.len() == 0 {
        0
    } else {
        ll_count(buf.drop_last(), sym) + if ll_symbol(buf.last()) == sym { 1nat } else { 0nat }
    }
}

/// How many symbols of the buffer count under distance symbol `sym`.
pub open spec fn d_count(buf: Seq<LZValue>, sym: int) -> nat
    decreases buf.len(),
{
    if buf.len() == 0 {
        0
    } else {
        d_count(buf.drop_last(), sym) + if d_symbol(buf.last()) == sym { 1nat } else { 0nat }
    }
}

pub proof fn lemma_counts_bounded(buf: Seq<LZValue>, sym: int)
    ensures
        ll_count(buf, sym) <= buf.len(),
        d_count(buf, sym) <= buf.len(),
    decreases buf.len(),
{
    if buf.len() > 0 {
        lemma_counts_bounded(buf.drop_last(), sym);
    }
}

/// The symbols a packed value counts under are symbols of the tables, and no value counts as
/// an end of block.
pub proof fn lemma_symbol_range(v: LZValue)
    ensures
        ll_symbol(v) >= 0 ==> ll_symbol(v) < NUM_LITERALS_AND_LENGTHS && ll_symbol(v) != END_OF_BLOCK_POSITION,
        d_symbol(v) >= 0 ==> d_symbol(v) < NUM_DISTANCE_CODES,
{
}

/// A value of the buffer counts under its own symbols.
pub proof fn lemma_count_present(buf: Seq<LZValue>, j: int)
    requires
        0 <= j < buf.len(),
    ensures
        ll_count(buf, ll_symbol(buf[j])) >= 1,
        d_count(buf, d_symbol(buf[j])) >= 1,
    decreases buf.len(),
{
    if j < buf.len() - 1 {
        lemma_count_present(buf.drop_last(), j);
        assert(buf.drop_last()[j] == buf[j]);
    }
}

/// No buffer counts anything as an end of block.
pub proof fn lemma_no_end_of_block(buf: Seq<LZValue>)
    ensures
        ll_count(buf, END_OF_BLOCK_POSITION as int) == 0,
    decreases buf.len(),
{
    if buf.len() > 0 {
        lemma_no_end_of_block(buf.drop_last());
        lemma_symbol_range(buf.last());
    }
}

/// The literal/length frequencies of a buffer: the counts, and one end of block symbol.
pub open spec fn ll_frequencies(buf: Seq<LZValue>) -> Seq<u16> {
    Seq::new(
        NUM_LITERALS_AND_LENGTHS as nat,
        |i: int| (ll_count(buf, i) + if i == END_OF_BLOCK_POSITION { 1nat } else { 0nat }) as u16,
    )
}

/// The distance frequencies of a buffer.
pub open spec fn d_frequencies(buf: Seq<LZValue>) -> Seq<u16> {
    Seq::new(NUM_DISTANCE_CODES as nat, |i: int| d_count(buf, i) as u16)
}

/// `OutputWriter` that keeps track of the usage of different codes.
pub struct DynamicWriter {
    pub fixed_writer: FixedWriter,
    // The two last length codes are not actually used, but only participates in code construction
    // Therefore, we ignore them to get the correct number of lengths
    pub frequencies: Vec<FrequencyType>,
    pub distance_frequencies: Vec<FrequencyType>,
}

proof fn lemma_push_counts(buf: Seq<LZValue>, v: LZValue)
    ensures
        forall|s: int| #[trigger] ll_count(buf.push(v), s) == ll_count(buf, s) + if ll_symbol(v) == s { 1nat } else { 0nat },
        forall|s: int| #[trigger] d_count(buf.push(v), s) == d_count(buf, s) + if d_symbol(v) == s { 1nat } else { 0nat },
{
    assert(buf.push(v).drop_last() =~= buf);
}

impl OutputWriter for DynamicWriter {
    open spec fn buffer_view(&self) -> Seq<LZValue> {
        self.fixed_writer.buffer@
    }

    open spec fn inv(&self) -> bool {
        &&& self.fixed_writer.buffer@.len() <= MAX_BUFFER_LENGTH + 1
        &&& self.frequencies@ == ll_frequencies(self.fixed_writer.buffer@)
        &&& self.distance_frequencies@ == d_frequencies(self.fixed_writer.buffer@)
        &&& forall|sym: int| sym >= 0 ==> #[trigger] ll_count(self.fixed_writer.buffer@, sym) <= 65535
        &&& forall|sym: int| sym >= 0 ==> #[trigger] d_count(self.fixed_writer.buffer@, sym) <= 65535
    }

    fn write_literal(&mut self, literal: u8) -> (r: BufferStatus) {
        let ghost b0 = self.fixed_writer.buffer@;
        let ret = self.fixed_writer.write_literal(literal);
        proof {
            let v = LZValue { data: (literal + 0xC000) as u16 };
            lemma_push_counts(b0, v);
            crate::lzvalue::lemma_lzvalue_roundtrip(literal, 3, 1);
            lemma_counts_bounded(b0, literal as int);
            assert(ll_symbol(v) == literal as int);
            assert(d_symbol(v) == -1);
        }
        let i = literal as usize;
        self.frequencies[i] = self.frequencies[i] + 1;
        proof {
            let b1 = self.fixed_writer.buffer@;
            assert forall|sym: int| sym >= 0 implies #[trigger] ll_count(b1, sym) <= 65535 && d_count(b1, sym)
                <= 65535 by {
                lemma_counts_bounded(b1, sym);
            }
            assert(self.frequencies@ =~= ll_frequencies(self.fixed_writer.buffer@));
            assert(self.distance_frequencies@ =~= d_frequencies(self.fixed_writer.buffer@));
        }
        ret
    }

    fn write_length_distance(&mut self, length: u16, distance: u16) -> (r: BufferStatus) {
        let ghost b0 = self.fixed_writer.buffer@;
        let ret = self.fixed_writer.write_length_distance(length, distance);
        let l_code_num = match get_length_code(length) {
            Some(c) => c,
            None => 0,
        };
        let d_code_num = match get_distance_code(distance) {
            Some(c) => c as usize,
            None => 0,
        };
        proof {
            let lv = LZValue { data: length ^ 0x8000u16 };
            let dv = LZValue { data: if distance == MAX_DISTANCE { 0 } else { distance } };
            crate::lzvalue::lemma_lzvalue_roundtrip(0, length, distance);
            lemma_push_counts(b0, lv);
            lemma_push_counts(b0.push(lv), dv);
            lemma_counts_bounded(b0, l_code_num as int);
            lemma_counts_bounded(b0, d_code_num as int);
            assert(ll_symbol(lv) == l_code_num);
            assert(d_symbol(lv) == -1);
            assert(ll_symbol(dv) == -1);
            assert(d_symbol(dv) == d_code_num);
        }
        self.frequencies[l_code_num] = self.frequencies[l_code_num] + 1;
        self.distance_frequencies[d_code_num] = self.distance_frequencies[d_code_num] + 1;
        proof {
            let lv = LZValue { data: length ^ 0x8000u16 };
            let dv = LZValue { data: if distance == MAX_DISTANCE { 0 } else { distance } };
            let b1 = self.fixed_writer.buffer@;
            assert(b1 == b0.push(lv).push(dv));
            assert forall|sym: int| sym >= 0 implies #[trigger] ll_count(b1, sym) <= 65535 && d_count(b1, sym)
                <= 65535 by {
                lemma_counts_bounded(b0, sym);
                lemma_push_counts(b0, lv);
                lemma_push_counts(b0.push(lv), dv);
            }
            assert(self.frequencies@ =~= ll_frequencies(self.fixed_writer.buffer@));
            assert(self.distance_frequencies@ =~= d_frequencies(self.fixed_writer.buffer@));
        }
        ret
    }

    fn buffer_length(&self) -> (r: usize) {
        self.fixed_writer.buffer_length()
    }

    fn clear_buffer(&mut self) {
        self.clear_data();
        self.clear();
    }

    fn get_buffer(&self) -> (r: &[LZValue]) {
        self.fixed_writer.get_buffer()
    }
}

fn zeroed(n: usize) -> (r: Vec<u16>)
    ensures
        r@ == Seq::new(n as nat, |i: int| 0u16),
{
    let mut v: Vec<u16> = Vec::new();
    let mut i: usize = 0;
    while i < n
        invariant
            i <= n,
            v@ =~= Seq::new(i as nat, |j: int| 0u16),
        decreases n - i,
    {
        v.push(0);
        i = i + 1;
    }
    v
}

impl DynamicWriter {
    pub fn new() -> (r: DynamicWriter)
        ensures
            r.inv(),
            r.buffer_view() == Seq::<LZValue>::empty(),
    {
        let mut w = DynamicWriter {
            fixed_writer: FixedWriter::new(),
            frequencies: zeroed(NUM_LITERALS_AND_LENGTHS),
            distance_frequencies: zeroed(NUM_DISTANCE_CODES),
        };
        // This will always be 1,
        // since there will always only be one end of block marker in each block
        w.frequencies[END_OF_BLOCK_POSITION] = 1;
        proof {
            assert(w.frequencies@ =~= ll_frequencies(Seq::<LZValue>::empty()));
            assert(w.distance_frequencies@ =~= d_frequencies(Seq::<LZValue>::empty()));
        }
        w
    }

    /// The literal/length and distance frequencies.
    pub fn get_frequencies(&self) -> (r: (&[u16], &[u16]))
        ensures
            r.0@ == self.frequencies@,
            r.1@ == self.distance_frequencies@,
    {
        (self.frequencies.as_slice(), self.distance_frequencies.as_slice())
    }

    /// Reset the frequencies to those of an empty buffer.
    pub fn clear_frequencies(&mut self)
        ensures
            final(self).frequencies@ == ll_frequencies(Seq::<LZValue>::empty()),
            final(self).distance_frequencies@ == d_frequencies(Seq::<LZValue>::empty()),
            final(self).fixed_writer.buffer@ == old(self).fixed_writer.buffer@,
    {
        self.frequencies = zeroed(NUM_LITERALS_AND_LENGTHS);
        self.distance_frequencies = zeroed(NUM_DISTANCE_CODES);
        self.frequencies[END_OF_BLOCK_POSITION] = 1;
        proof {
            assert(self.frequencies@ =~= ll_frequencies(Seq::<LZValue>::empty()));
            assert(self.distance_frequencies@ =~= d_frequencies(Seq::<LZValue>::empty()));
        }
    }

    /// Empty the symbol buffer, leaving the frequencies as they are.
    pub fn clear_data(&mut self)
        ensures
            final(self).fixed_writer.buffer@ == Seq::<LZValue>::empty(),
            final(self).frequencies@ == old(self).frequencies@,
            final(self).distance_frequencies@ == old(self).distance_frequencies@,
    {
        self.fixed_writer.clear_buffer();
    }

    /// Empty the buffer and the frequencies.
    pub fn clear(&mut self)
        ensures
            final(self).inv(),
            final(self).buffer_view() == Seq::<LZValue>::empty(),
    {
        self.clear_frequencies();
        self.clear_data();
    }
}

} // verus!
