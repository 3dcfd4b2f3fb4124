//! Run-length encoding expressed as lz77 symbols: only matches at distance one are used.
use vstd::prelude::*;
use std::ops::Range;
use crate::lz77::{ProcessStatus, MIN_MATCH, MAX_MATCH, chunk_done, chunk_end, lemma_step_literal, lemma_step_match, lemma_skip_all, lit_item, match_items};
use crate::matching::match_len;
use crate::lzvalue::LZValue;
use crate::matching::get_match_length;
use crate::output_writer::{ready, OutputWriter, BufferStatus};
use crate::lz_decode::decodes_to;

verus! {

/// Where the symbols written for `iterated_data` end: at the end of the chunk, except that the
/// first byte of the data is always written when the chunk starts at zero.
pub open spec fn rle_end(data: Seq<u8>, iterated_data: Range<usize>) -> int {
    let end = chunk_end(data, iterated_data);
    if iterated_data.start == 0 && data.len() > 0 && end == 0 { 1 } else { end }
}

/// Run-length parsing of `data` from `pos` up to `end`: where the bytes from `pos` on repeat
/// the byte before for at least three bytes, a match at distance one as long as the repetition
/// goes (at most `MAX_MATCH`), continuing after it; else the byte as a literal.
pub open spec fn rle_parse(data: Seq<u8>, end: int, pos: int) -> Seq<LZValue>
    decreases (if pos < end { end - pos } else { 0 }),
{
    if pos < 1 || pos >= end {
        Seq::empty()
    } else {
        let m = match_len(data, pos, pos - 1, 0);
        if m >= MIN_MATCH {
            match_items(m, 1) + rle_parse(data, end, pos + m)
        } else {
            seq![lit_item(data[pos])] + rle_parse(data, end, pos + 1)
        }
    }
}

/// The symbols of the run-length encoding of the chunk `iterated_data`: the first byte of the
/// data as a literal where the chunk starts at zero, then the run-length parse from the chunk's
/// start (or from the second byte) to its end.
pub open spec fn rle_chunk(data: Seq<u8>, iterated_data: Range<usize>) -> Seq<LZValue> {
    let first = if iterated_data.start == 0 && data.len() > 0 {
        seq![lit_item(data[0])]
    } else {
        Seq::empty()
    };
    let start = if iterated_data.start < 1 { 1 } else { iterated_data.start as int };
    first + rle_parse(data, chunk_end(data, iterated_data), start)
}

/// Encode the chunk `iterated_data` of `data` with literals and runs of the preceding byte.
///
/// Returns how far the last run extends past the end of the chunk, and whether the writer's
/// buffer filled up (and at which position of the data encoding stopped). The symbols
/// appended are those of `rle_chunk`: all of them where the chunk is completed, else as many as
/// were written before the buffer filled.
#[verifier::spinoff_prover]
pub fn process_chunk_greedy_rle<W: OutputWriter>(
    data: &[u8],
    iterated_data: &Range<usize>,
    writer: &mut W,
) -> (r: (usize, ProcessStatus))
    requires
        ready(old(writer)),
    ensures
        iterated_data.start <= rle_end(data@, *iterated_data) ==> chunk_done(
            data@,
            iterated_data.start as int,
            rle_end(data@, *iterated_data),
            *old(writer),
            *final(writer),
            r,
        ),
        iterated_data.start > rle_end(data@, *iterated_data) ==> *final(writer) == *old(writer) && r.0 == 0
            && r.1 is Complete,
        ({
            let new_items = final(writer).buffer_view().skip(old(writer).buffer_view().len() as int);
            &&& rle_chunk(data@, *iterated_data).take(new_items.len() as int) == new_items
            &&& r.1 is Complete ==> new_items == rle_chunk(data@, *iterated_data)
        }),
{
    let end = if data.len() < iterated_data.end { data.len() } else { iterated_data.end };
    // Start on at least byte 1.
    let start = if iterated_data.start < 1 { 1 } else { iterated_data.start };
    if iterated_data.start > end {
        proof {
            assert(rle_chunk(data@, *iterated_data) =~= Seq::<LZValue>::empty());
            assert(writer.buffer_view().skip(writer.buffer_view().len() as int) =~= Seq::<LZValue>::empty());
        }
        return (0, ProcessStatus::Complete);
    }
    let ghost len0 = writer.buffer_view().len() as int;
    let ghost old_buf = writer.buffer_view();
    proof {
        lemma_skip_all(writer.buffer_view());
    }
    // Make sure to output the first byte
    if iterated_data.start == 0 && data.len() > 0 {
        proof {
            lemma_step_literal(data@, 0, old_buf, old_buf, 0);
        }
        let b_status = writer.write_literal(data[0]);
        proof {
            assert(writer.buffer_view().take(len0) =~= old_buf);
            assert(writer.buffer_view() =~= old_buf + writer.buffer_view().skip(len0));
        }
        if b_status == BufferStatus::Full {
            proof {
                let ni = writer.buffer_view().skip(len0);
                assert(ni =~= seq![lit_item(data@[0])]);
                assert(rle_chunk(data@, *iterated_data).take(1) =~= ni);
            }
            return (0, ProcessStatus::BufferFull(1));
        }
    }
    proof {
        assert(rle_chunk(data@, *iterated_data) =~= writer.buffer_view().skip(len0) + rle_parse(
            data@,
            chunk_end(data@, *iterated_data),
            start as int,
        ));
    }
    let ghost eff_end = rle_end(data@, *iterated_data);
    let mut overlap: usize = 0;
    let mut pos = start;
    // Positions at or past `end` are not visited; when the data is empty nothing is written.
    if data.len() == 0 {
        proof {
            assert(writer.buffer_view().skip(len0) =~= rle_chunk(data@, *iterated_data));
        }
        return (0, ProcessStatus::Complete);
    }
    while pos < end
        invariant
            1 <= start,
            start <= pos,
            pos <= data@.len(),
            end <= data@.len(),
            end == chunk_end(data@, *iterated_data),
            eff_end == rle_end(data@, *iterated_data),
            data@.len() > 0,
            start == if iterated_data.start < 1 { 1 } else { iterated_data.start },
            iterated_data.start <= end,
            ready(writer),
            writer.buffer_view().len() >= len0,
            old_buf == writer.buffer_view().take(len0),
            len0 == old_buf.len(),
            old_buf == old(writer).buffer_view(),
            decodes_to(data@.take(iterated_data.start as int), writer.buffer_view().skip(len0), data@.take(pos as int)),
            end > 0 ==> eff_end == end,
            end == 0 ==> pos == eff_end,
            pos > eff_end ==> overlap == pos - eff_end,
            pos <= eff_end ==> overlap == 0,
            overlap <= MAX_MATCH,
            rle_chunk(data@, *iterated_data) == writer.buffer_view().skip(len0) + rle_parse(data@, end as int, pos as int),
        decreases data@.len() - pos,
    {
        let b = data[pos];
        let ghost buf = writer.buffer_view();
        let match_len = get_match_length(data, pos, pos - 1);
        if match_len >= MIN_MATCH {
            proof {
                assert(crate::matching::is_match(data@, pos as int, 1, match_len as int));
                lemma_step_match(data@, iterated_data.start as int, old_buf, buf, pos as int, match_len as int, 1);
            }
            if pos + match_len > end {
                overlap = pos + match_len - end;
            }
            let b_status = writer.write_length_distance(match_len as u16, 1);
            proof {
                assert(writer.buffer_view().take(len0) =~= old_buf);
            }
            proof {
                assert(writer.buffer_view().skip(len0) =~= buf.skip(len0) + match_items(match_len as int, 1));
                assert(rle_chunk(data@, *iterated_data) =~= writer.buffer_view().skip(len0) + rle_parse(
                    data@,
                    end as int,
                    pos + match_len,
                ));
            }
            if b_status == BufferStatus::Full {
                assert(writer.buffer_view() =~= old_buf + writer.buffer_view().skip(len0));
                assert(rle_chunk(data@, *iterated_data).take(writer.buffer_view().skip(len0).len() as int)
                    =~= writer.buffer_view().skip(len0));
                return (overlap, ProcessStatus::BufferFull(pos + match_len));
            }
            pos = pos + match_len;
        } else {
            proof {
                lemma_step_literal(data@, iterated_data.start as int, old_buf, buf, pos as int);
            }
            let b_status = writer.write_literal(b);
            proof {
                assert(writer.buffer_view().take(len0) =~= old_buf);
            }
            proof {
                assert(writer.buffer_view().skip(len0) =~= buf.skip(len0) + seq![lit_item(b)]);
                assert(rle_chunk(data@, *iterated_data) =~= writer.buffer_view().skip(len0) + rle_parse(
                    data@,
                    end as int,
                    pos + 1,
                ));
            }
            if b_status == BufferStatus::Full {
                assert(writer.buffer_view() =~= old_buf + writer.buffer_view().skip(len0));
                assert(rle_chunk(data@, *iterated_data).take(writer.buffer_view().skip(len0).len() as int)
                    =~= writer.buffer_view().skip(len0));
                return (0, ProcessStatus::BufferFull(pos + 1));
            }
            pos = pos + 1;
        }
    }
    assert(writer.buffer_view() =~= old_buf + writer.buffer_view().skip(len0));
    assert(rle_chunk(data@, *iterated_data) =~= writer.buffer_view().skip(len0));
    (overlap, ProcessStatus::Complete)
}

} // verus!
