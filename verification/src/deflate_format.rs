//! The shape of the DEFLATE streams this library writes, as sequences of bits.
use vstd::prelude::*;
use crate::lzvalue::LZValue;
use crate::output_writer::{ll_symbol, d_symbol, ll_frequencies, d_frequencies};
use crate::lz_decode::decodes_to;
use crate::huffman_lengths::{DynamicBlockHeader, header_ok, dynamic_header_bits, header_cost, lengths_for,
    complete_and_ordered, MIN_NUM_LITERALS_AND_LENGTHS, MIN_NUM_DISTANCES, STORED_BLOCK_HEADER_LENGTH,
    MAX_HUFFMAN_CODE_LENGTH};
use crate::length_encode::{rle_encode, enc_count};
use crate::lz77::saturate;
use crate::huffman_table::MAX_CODE_LENGTH;
use crate::huffman_table::{HuffmanTable, HuffmanCode, END_OF_BLOCK_POSITION};
use crate::huffman_codes::assign_codes;
use crate::encoder_state::{block_start, code_bits};
use crate::compress::{symbols_bits, stored_bits, stored_chunk_bits, pad_bits};
use crate::bitstream::int_bits;
use crate::stored_block::MAX_STORED_BLOCK_LENGTH;

verus! {

/// The table gives the symbols the codes that the code lengths of the header assign (a
/// symbol whose length is zero gets no code of its own, and keeps whatever it had).
pub open spec fn table_from_header(t: HuffmanTable, h: DynamicBlockHeader) -> bool {
    exists|c: Seq<HuffmanCode>, d: Seq<HuffmanCode>|
        #![trigger assign_codes(c, h.l_lengths@), assign_codes(d, h.d_lengths@)]
        t.codes() == assign_codes(c, h.l_lengths@) && t.distance_codes() == assign_codes(d, h.d_lengths@)
}

/// A block with dynamic codes: the block type (marked final where `last` is set), the header
/// with the code lengths, the symbols written with the codes of the table, and the end of block
/// code.
pub open spec fn dynamic_block_bits(last: bool, h: DynamicBlockHeader, t: HuffmanTable, items: Seq<LZValue>) -> Seq<
    bool,
> {
    int_bits(block_start(false, last) as int, 3) + dynamic_header_bits(h) + symbols_bits(t, items) + code_bits(
        t.codes()[END_OF_BLOCK_POSITION as int],
    )
}

/// Every symbol that the items use, and the end of block symbol, has a code in the header.
pub open spec fn header_covers(h: DynamicBlockHeader, items: Seq<LZValue>) -> bool {
    &&& END_OF_BLOCK_POSITION < h.l_lengths@.len()
    &&& h.l_lengths@[END_OF_BLOCK_POSITION as int] >= 1
    &&& forall|j: int|
        0 <= j < items.len() && ll_symbol(#[trigger] items[j]) >= 0 ==> ll_symbol(items[j]) < h.l_lengths@.len()
            && h.l_lengths@[ll_symbol(items[j])] >= 1
    &&& forall|j: int|
        0 <= j < items.len() && d_symbol(#[trigger] items[j]) >= 0 ==> d_symbol(items[j]) < h.d_lengths@.len()
            && h.d_lengths@[d_symbol(items[j])] >= 1
}

/// The header is the one this library makes for the items: code lengths chosen for their
/// frequencies (each used symbol with a code, complete prefix codes, a more frequent symbol
/// never with a longer code), and the run-length encoding of those lengths.
#[verifier::opaque]
pub open spec fn header_for(h: DynamicBlockHeader, items: Seq<LZValue>) -> bool {
    &&& header_ok(h)
    &&& h.encoded_lengths@ == rle_encode(h.l_lengths@ + h.d_lengths@)
    &&& complete_and_ordered(
        h.huffman_table_lengths@,
        Seq::new(19, |k: int| enc_count(h.encoded_lengths@, k) as u16),
        MAX_HUFFMAN_CODE_LENGTH as int,
    )
    &&& lengths_for(h.l_lengths@, ll_frequencies(items), MIN_NUM_LITERALS_AND_LENGTHS as int, MAX_CODE_LENGTH as int)
    &&& lengths_for(h.d_lengths@, d_frequencies(items), MIN_NUM_DISTANCES as int, MAX_CODE_LENGTH as int)
}

/// What a dynamic block of the items with this header would take, in whole bytes, beyond its
/// header and end of block code.
#[verifier::opaque]
pub open spec fn dynamic_cost(h: DynamicBlockHeader, items: Seq<LZValue>) -> int {
    header_cost(h, ll_frequencies(items), d_frequencies(items)) / 8
}

/// Symbols that decode to `data` after `history`, with the header made for them, would make a
/// dynamic block larger than the data and a stored block header.
#[verifier::opaque]
pub open spec fn dynamic_too_big(history: Seq<u8>, data: Seq<u8>) -> bool {
    exists|h: DynamicBlockHeader, items: Seq<LZValue>|
        #![trigger header_for(h, items), decodes_to(history, items, history + data)]
        {
            &&& decodes_to(history, items, history + data)
            &&& header_for(h, items)
            &&& dynamic_cost(h, items) > saturate(data.len() as int) + STORED_BLOCK_HEADER_LENGTH
        }
}

/// `bits`, written from bit `p` of the stream on, hold `data`, the input that follows `history`:
/// as stored blocks of the bytes, or as one block with dynamic codes, which give each symbol
/// used a code, whose symbols decode to the data after the history. The block is dynamic when
/// the dynamic block of those symbols, with the header made for them, takes no more bytes than
/// the data and a stored block header; else it is stored (an empty stored block, as a sync
/// flush writes, is always allowed). Only the last block is marked final, and only where `last` is set.
#[verifier::opaque]
pub open spec fn deflate_block(p: int, bits: Seq<bool>, history: Seq<u8>, data: Seq<u8>, last: bool) -> bool {
    ||| data.len() == 0 && bits == stored_bits(p, data, last)
    ||| bits == stored_bits(p, data, last) && dynamic_too_big(history, data)
    ||| exists|h: DynamicBlockHeader, t: HuffmanTable, items: Seq<LZValue>|
        #![trigger dynamic_block_bits(last, h, t, items)]
        {
            &&& header_ok(h)
            &&& header_for(h, items)
            &&& dynamic_cost(h, items) <= saturate(data.len() as int) + STORED_BLOCK_HEADER_LENGTH
            &&& header_covers(h, items)
            &&& table_from_header(t, h)
            &&& decodes_to(history, items, history + data)
            &&& bits == dynamic_block_bits(last, h, t, items)
        }
}

/// `bits`, written from bit `p` of the stream on, are a block made of the symbols `items`,
/// which decode to `data` after `history`: a block with dynamic codes, with the header made
/// for the items, where that takes no more bytes than the data and a stored block header; else
/// the data stored, where a header made for the items makes the dynamic block larger.
#[verifier::opaque]
pub open spec fn block_of_items(
    p: int,
    bits: Seq<bool>,
    history: Seq<u8>,
    data: Seq<u8>,
    items: Seq<LZValue>,
    last: bool,
) -> bool {
    &&& decodes_to(history, items, history + data)
    &&& {
        ||| bits == stored_bits(p, data, last) && exists|h: DynamicBlockHeader|
            #[trigger] header_for(h, items) && dynamic_cost(h, items) > saturate(data.len() as int)
                + STORED_BLOCK_HEADER_LENGTH
        ||| exists|h: DynamicBlockHeader, t: HuffmanTable|
            #![trigger dynamic_block_bits(last, h, t, items)]
            {
                &&& header_ok(h)
                &&& header_for(h, items)
                &&& dynamic_cost(h, items) <= saturate(data.len() as int) + STORED_BLOCK_HEADER_LENGTH
                &&& header_covers(h, items)
                &&& table_from_header(t, h)
                &&& bits == dynamic_block_bits(last, h, t, items)
            }
    }
}

/// A block made of symbols only depends on the position of the stream modulo a byte.
pub proof fn lemma_block_of_items_mod(
    p: int,
    q: int,
    bits: Seq<bool>,
    history: Seq<u8>,
    data: Seq<u8>,
    items: Seq<LZValue>,
    last: bool,
)
    requires
        p % 8 == q % 8,
        block_of_items(p, bits, history, data, items, last),
    ensures
        block_of_items(q, bits, history, data, items, last),
{
    reveal(block_of_items);
    lemma_stored_bits_mod(p, q, data, last);
}

/// A block made of symbols is a block of the data they decode to.
pub proof fn lemma_block_of_items(
    p: int,
    bits: Seq<bool>,
    history: Seq<u8>,
    data: Seq<u8>,
    items: Seq<LZValue>,
    last: bool,
)
    requires
        block_of_items(p, bits, history, data, items, last),
    ensures
        deflate_block(p, bits, history, data, last),
{
    reveal(block_of_items);
    reveal(deflate_block);
    reveal(dynamic_too_big);
    if bits == stored_bits(p, data, last) && exists|h: DynamicBlockHeader|
        #[trigger] header_for(h, items) && dynamic_cost(h, items) > saturate(data.len() as int)
            + STORED_BLOCK_HEADER_LENGTH {
        let h = choose|h: DynamicBlockHeader|
            #[trigger] header_for(h, items) && dynamic_cost(h, items) > saturate(data.len() as int)
                + STORED_BLOCK_HEADER_LENGTH;
        assert(decodes_to(history, items, history + data) && header_for(h, items));
    } else {
        let (h, t) = choose|h: DynamicBlockHeader, t: HuffmanTable|
            #![trigger dynamic_block_bits(last, h, t, items)]
            {
                &&& header_ok(h)
                &&& header_for(h, items)
                &&& dynamic_cost(h, items) <= saturate(data.len() as int) + STORED_BLOCK_HEADER_LENGTH
                &&& header_covers(h, items)
                &&& table_from_header(t, h)
                &&& bits == dynamic_block_bits(last, h, t, items)
            };
        assert(bits == dynamic_block_bits(last, h, t, items));
    }
}

/// The bit sequences one after the other.
pub open spec fn concat_bits(bs: Seq<Seq<bool>>) -> Seq<bool>
    decreases bs.len(),
{
    if bs.len() == 0 {
        Seq::empty()
    } else {
        concat_bits(bs.drop_last()) + bs.last()
    }
}

/// The byte sequences one after the other.
pub open spec fn concat_bytes(ds: Seq<Seq<u8>>) -> Seq<u8>
    decreases ds.len(),
{
    if ds.len() == 0 {
        Seq::empty()
    } else {
        concat_bytes(ds.drop_last()) + ds.last()
    }
}

/// The blocks `bs`, written one after the other from the start of a stream, hold the pieces of
/// input `ds`; `lasts` says which blocks are marked final.
pub open spec fn blocks_ok(bs: Seq<Seq<bool>>, ds: Seq<Seq<u8>>, lasts: Seq<bool>) -> bool {
    &&& bs.len() == ds.len()
    &&& bs.len() == lasts.len()
    &&& forall|i: int|
        0 <= i < bs.len() ==> deflate_block(
            concat_bits(bs.take(i)).len() as int,
            #[trigger] bs[i],
            concat_bytes(ds.take(i)),
            ds[i],
            lasts[i],
        )
}

/// None of the blocks is marked final.
pub open spec fn none_final(lasts: Seq<bool>) -> bool {
    forall|i: int| 0 <= i < lasts.len() ==> !#[trigger] lasts[i]
}

/// `bits` is a complete DEFLATE stream of `data`: blocks holding the pieces of the data in
/// order, of which only the last is marked final, then zero bits up to a whole byte.
pub open spec fn deflate_stream(bits: Seq<bool>, data: Seq<u8>) -> bool {
    exists|bs: Seq<Seq<bool>>, ds: Seq<Seq<u8>>, lasts: Seq<bool>|
        #![trigger blocks_ok(bs, ds, lasts)]
        {
            &&& blocks_ok(bs, ds, lasts)
            &&& lasts.len() > 0
            &&& none_final(lasts.drop_last())
            &&& lasts.last()
            &&& concat_bytes(ds) == data
            &&& bits == concat_bits(bs) + int_bits(0, pad_bits(concat_bits(bs).len() as int))
        }
}

/// Stored blocks only depend on the position of the stream modulo a byte.
pub proof fn lemma_stored_bits_mod(p: int, q: int, data: Seq<u8>, last: bool)
    requires
        p % 8 == q % 8,
    ensures
        stored_bits(p, data, last) == stored_bits(q, data, last),
{
    assert(pad_bits(p + 3) == pad_bits(q + 3));
    if data.len() > MAX_STORED_BLOCK_LENGTH {
        assert(stored_chunk_bits(p, data.take(MAX_STORED_BLOCK_LENGTH as int), false) == stored_chunk_bits(
            q,
            data.take(MAX_STORED_BLOCK_LENGTH as int),
            false,
        ));
    }
}

/// A block only depends on the position of the stream modulo a byte.
pub proof fn lemma_block_mod(p: int, q: int, bits: Seq<bool>, history: Seq<u8>, data: Seq<u8>, last: bool)
    requires
        p % 8 == q % 8,
        deflate_block(p, bits, history, data, last),
    ensures
        deflate_block(q, bits, history, data, last),
{
    reveal(deflate_block);
    lemma_stored_bits_mod(p, q, data, last);
}

/// One more block after the others.
pub proof fn lemma_blocks_push(
    bs: Seq<Seq<bool>>,
    ds: Seq<Seq<u8>>,
    lasts: Seq<bool>,
    b: Seq<bool>,
    d: Seq<u8>,
    last: bool,
)
    requires
        blocks_ok(bs, ds, lasts),
        deflate_block(concat_bits(bs).len() as int, b, concat_bytes(ds), d, last),
    ensures
        blocks_ok(bs.push(b), ds.push(d), lasts.push(last)),
        concat_bits(bs.push(b)) == concat_bits(bs) + b,
        concat_bytes(ds.push(d)) == concat_bytes(ds) + d,
{
    let bs2 = bs.push(b);
    let ds2 = ds.push(d);
    let ls2 = lasts.push(last);
    assert(bs2.drop_last() =~= bs);
    assert(ds2.drop_last() =~= ds);
    assert forall|i: int| 0 <= i < bs2.len() implies deflate_block(
        concat_bits(bs2.take(i)).len() as int,
        #[trigger] bs2[i],
        concat_bytes(ds2.take(i)),
        ds2[i],
        ls2[i],
    ) by {
        if i < bs.len() {
            assert(bs2.take(i) =~= bs.take(i));
            assert(ds2.take(i) =~= ds.take(i));
            assert(bs2[i] == bs[i]);
        } else {
            assert(bs2.take(i) =~= bs);
            assert(ds2.take(i) =~= ds);
        }
    }
}

/// One more block after the others, in a stream that starts after `start`, which is whole
/// bytes.
#[verifier::spinoff_prover]
#[verifier::rlimit(60)]
pub proof fn lemma_blocks_push_at(
    start: Seq<bool>,
    bs: Seq<Seq<bool>>,
    ds: Seq<Seq<u8>>,
    lasts: Seq<bool>,
    b: Seq<bool>,
    d: Seq<u8>,
    last: bool,
)
    requires
        start.len() % 8 == 0,
        blocks_ok(bs, ds, lasts),
        deflate_block((start.len() + concat_bits(bs).len()) as int, b, concat_bytes(ds), d, last),
    ensures
        blocks_ok(bs.push(b), ds.push(d), lasts.push(last)),
        concat_bits(bs.push(b)) == concat_bits(bs) + b,
        concat_bytes(ds.push(d)) == concat_bytes(ds) + d,
        lasts.push(last).drop_last() == lasts,
        lasts.push(last).last() == last,
{
    lemma_block_mod((start.len() + concat_bits(bs).len()) as int, concat_bits(bs).len() as int, b, concat_bytes(ds), d, last);
    lemma_blocks_push(bs, ds, lasts, b, d, last);
    assert(lasts.push(last).drop_last() =~= lasts);
}

/// No blocks at all.
pub proof fn lemma_blocks_empty()
    ensures
        blocks_ok(Seq::empty(), Seq::empty(), Seq::empty()),
        concat_bits(Seq::<Seq<bool>>::empty()) == Seq::<bool>::empty(),
        concat_bytes(Seq::<Seq<u8>>::empty()) == Seq::<u8>::empty(),
        none_final(Seq::<bool>::empty()),
{
}

} // verus!
