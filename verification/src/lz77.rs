//! This module contains functionality for doing lz77 compression of data.
use vstd::prelude::*;
use std::ops::Range;
use crate::input_buffer::{InputBuffer, BUFFER_SIZE};
use vstd::slice::slice_subrange;
use crate::matching::{longest_match, is_match, spec_longest_match};
use crate::lzvalue::{LZValue, LDPair, decode_lzvalue, lemma_lzvalue_roundtrip};
use crate::chained_hash_table::{ChainedHashTable, WINDOW_SIZE, identity_table, spec_update_hash};
use crate::output_writer::{ready, writer_full, OutputWriter, FixedWriter, BufferStatus, MAX_BUFFER_LENGTH};
use crate::compress::Flush;
use crate::compression_options::{HIGH_MAX_HASH_CHECKS, HIGH_LAZY_IF_LESS_THAN};
use crate::lz_decode::{lemma_decode_append, lemma_decode_longer_history, 
    decodes_to, lz_decode, lz_decode_from, dec_step, lemma_decode_push, lemma_decode_literal, lemma_decode_match,
    DecodeState, copy_match,
};

verus! {

pub const MAX_MATCH: usize = 258;
pub const MIN_MATCH: usize = 3;
pub const NO_LENGTH: usize = 2;
const TOO_FAR: usize = 8192;

/// An enum describing whether we use lazy or greedy matching.
#[derive(Clone, Copy, Debug)]
pub enum MatchingType {
    /// Use lazy matching: after finding a match, the next input byte is checked, to see
    /// if there is a better match starting at that byte.
    Lazy,
    /// Use greedy matching: the matching algorithm simply uses a match right away
    /// if found.
    Greedy,
}

/// How a chunk of input was processed: completely, or up to the given position because the
/// output buffer filled up.
#[derive(Debug, Clone, Copy)]
pub enum ProcessStatus {
    Complete,
    BufferFull(usize),
}

/// A match of minimal length that is far back is probably not worth outputting.
pub fn match_too_far(match_len: usize, match_dist: usize) -> (r: bool)
    ensures
        r == (match_len == MIN_MATCH && match_dist > 8192),
{
    match_len == MIN_MATCH && match_dist > TOO_FAR
}

/// A hash table as its running hash, its chain heads and its links.
pub open spec fn table_view(t: ChainedHashTable) -> (u16, Seq<u16>, Seq<u16>) {
    (t.hash(), t.heads(), t.prevs())
}

/// The table after inserting `value` at `position` (see `ChainedHashTable::add_hash_value`).
pub open spec fn table_add(v: (u16, Seq<u16>, Seq<u16>), position: int, value: u8) -> (u16, Seq<u16>, Seq<u16>) {
    let h = spec_update_hash(v.0, value);
    (
        h,
        v.1.update(h as int, (position % 65536) as u16),
        v.2.update(position % (WINDOW_SIZE as int), v.1[h as int]),
    )
}

/// The table after inserting, in order, the positions `from..to` that lie before `end` and
/// have a byte two positions later.
pub open spec fn table_add_range(
    v: (u16, Seq<u16>, Seq<u16>),
    data: Seq<u8>,
    from: int,
    to: int,
    end: int,
) -> (u16, Seq<u16>, Seq<u16>)
    decreases to - from,
{
    if from >= to || from >= end {
        v
    } else {
        table_add_range(
            if data.len() > 2 && from < data.len() - 2 {
                table_add(v, from, data[from + 2])
            } else {
                v
            },
            data,
            from + 1,
            to,
            end,
        )
    }
}

/// Add the positions `from..to` that lie before `end` (and have a byte to hash two positions
/// later) to the hash table.
fn add_to_hash_table(data: &[u8], from: usize, to: usize, end: usize, hash_table: &mut ChainedHashTable)
    requires
        old(hash_table).wf(),
        end <= data@.len(),
    ensures
        final(hash_table).wf(),
        table_view(*final(hash_table)) == table_add_range(
            table_view(*old(hash_table)),
            data@,
            from as int,
            to as int,
            end as int,
        ),
{
    let mut q = from;
    let ghost target = table_add_range(table_view(*hash_table), data@, from as int, to as int, end as int);
    while q < to && q < end
        invariant
            hash_table.wf(),
            end <= data@.len(),
            target == table_add_range(table_view(*hash_table), data@, q as int, to as int, end as int),
        decreases to - q,
    {
        if data.len() > 2 && q < data.len() - 2 {
            hash_table.add_hash_value(q, data[q + 2]);
        }
        q = q + 1;
    }
}

/// What a chunk processor owes: the symbols it appended decode, after the data before `start`,
/// to the data up to where it stopped.
pub open spec fn chunk_done<W: OutputWriter>(
    data: Seq<u8>,
    start: int,
    end: int,
    old_writer: W,
    new_writer: W,
    r: (usize, ProcessStatus),
) -> bool {
    let new_items = new_writer.buffer_view().skip(old_writer.buffer_view().len() as int);
    &&& new_writer.inv()
    &&& new_writer.buffer_view() == old_writer.buffer_view() + new_items
    &&& r.0 <= MAX_MATCH
    &&& match r.1 {
        ProcessStatus::Complete => {
            &&& ready(&new_writer)
            &&& end + r.0 <= data.len()
            &&& decodes_to(data.take(start), new_items, data.take(end + r.0))
        },
        ProcessStatus::BufferFull(p) => {
            &&& !ready(&new_writer)
            &&& start < p <= data.len()
            &&& (r.0 > 0 ==> p == end + r.0)
            &&& (r.0 == 0 ==> p <= end)
            &&& decodes_to(data.take(start), new_items, data.take(p as int))
        },
    }
}

/// The chunk `start..end` of `data` can be processed: the end of the range is either the end of
/// the data or at least three bytes before it.
pub open spec fn chunk_ok(data: Seq<u8>, iterated_data: Range<usize>) -> bool {
    &&& iterated_data.start <= iterated_data.end
    &&& iterated_data.start <= data.len()
    &&& (iterated_data.end >= data.len() || iterated_data.end + 2 < data.len())
}

pub open spec fn chunk_end(data: Seq<u8>, iterated_data: Range<usize>) -> int {
    if data.len() < iterated_data.end { data.len() as int } else { iterated_data.end as int }
}

proof fn lemma_skip_push<T>(s: Seq<T>, k: int, v: T)
    requires
        0 <= k <= s.len(),
    ensures
        s.push(v).skip(k) == s.skip(k).push(v),
        s.push(v) == s.take(k) + s.push(v).skip(k),
{
    assert(s.push(v).skip(k) =~= s.skip(k).push(v));
    assert(s.push(v) =~= s.take(k) + s.push(v).skip(k));
}

/// Appending a literal for `data[p]` extends what the new symbols decode to by one byte.
pub(crate) proof fn lemma_step_literal(data: Seq<u8>, start: int, old_buf: Seq<LZValue>, buf: Seq<LZValue>, p: int)
    requires
        0 <= start <= p < data.len(),
        old_buf.len() <= buf.len(),
        decodes_to(data.take(start), buf.skip(old_buf.len() as int), data.take(p)),
    ensures
        decodes_to(
            data.take(start),
            buf.push(LZValue { data: (data[p] + 0xC000) as u16 }).skip(old_buf.len() as int),
            data.take(p + 1),
        ),
{
    let v = LZValue { data: (data[p] + 0xC000) as u16 };
    lemma_lzvalue_roundtrip(data[p], 3, 1);
    lemma_skip_push(buf, old_buf.len() as int, v);
    lemma_decode_push((data.take(start), None, true), buf.skip(old_buf.len() as int), v);
    lemma_decode_literal(data, p, v);
}

/// Appending a length/distance pair for a genuine match at `p` extends what the new symbols
/// decode to by the match.
pub(crate) proof fn lemma_step_match(
    data: Seq<u8>,
    start: int,
    old_buf: Seq<LZValue>,
    buf: Seq<LZValue>,
    p: int,
    l: int,
    d: int,
)
    requires
        0 <= start <= p,
        old_buf.len() <= buf.len(),
        3 <= l <= 258,
        1 <= d <= 32768,
        is_match(data, p, d, l),
        decodes_to(data.take(start), buf.skip(old_buf.len() as int), data.take(p)),
    ensures
        decodes_to(
            data.take(start),
            buf.push(LZValue { data: (l as u16) ^ 0x8000u16 }).push(
                LZValue { data: if d == 32768 { 0 } else { d as u16 } },
            ).skip(old_buf.len() as int),
            data.take(p + l),
        ),
{
    let lv = LZValue { data: (l as u16) ^ 0x8000u16 };
    let dv = LZValue { data: if d == 32768 { 0 } else { d as u16 } };
    lemma_lzvalue_roundtrip(0, l as u16, d as u16);
    lemma_skip_push(buf, old_buf.len() as int, lv);
    lemma_skip_push(buf.push(lv), old_buf.len() as int, dv);
    let s = (data.take(start), None::<u16>, true);
    lemma_decode_push(s, buf.skip(old_buf.len() as int), lv);
    lemma_decode_push(s, buf.skip(old_buf.len() as int).push(lv), dv);
    lemma_decode_match(data, p, d, l, lv, dv);
}

pub(crate) proof fn lemma_skip_all<T>(s: Seq<T>)
    ensures
        s.skip(s.len() as int) == Seq::<T>::empty(),
        s == s + s.skip(s.len() as int),
{
    assert(s.skip(s.len() as int) =~= Seq::<T>::empty());
    assert(s =~= s + s.skip(s.len() as int));
}

/// Symbols written so far, then those of one step, then the rest of the parse, make up the
/// whole parse; what is written after the step is a prefix of it.
proof fn lemma_parse_step(sofar: Seq<LZValue>, step: Seq<LZValue>, rest: Seq<LZValue>, whole: Seq<LZValue>)
    requires
        sofar + (step + rest) == whole,
    ensures
        (sofar + step) + rest == whole,
        whole.take((sofar + step).len() as int) == sofar + step,
{
    assert((sofar + step) + rest =~= sofar + (step + rest));
    assert(whole.take((sofar + step).len() as int) =~= sofar + step);
}

/// The symbol of a literal byte.
pub open spec fn lit_item(b: u8) -> LZValue {
    LZValue { data: (b + 0xC000) as u16 }
}

/// The two symbols of a match of length `l` at distance `d`.
pub open spec fn match_items(l: int, d: int) -> Seq<LZValue> {
    seq![LZValue { data: (l as u16) ^ 0x8000u16 }, LZValue { data: if d == 32768 { 0 } else { d as u16 } }]
}

/// Greedy parsing of `data` from `pos` up to `end`, with the table `v`: where there are bytes to
/// hash, the position is inserted into the table and the longest match the search finds there
/// is used at once (unless it is shorter than three, or three bytes from more than 8192 back),
/// the positions it covers then being inserted too; else the byte is a literal. Gives the
/// symbols and the table afterwards.
pub open spec fn greedy_parse(
    data: Seq<u8>,
    end: int,
    hash_ok: bool,
    pos: int,
    v: (u16, Seq<u16>, Seq<u16>),
    max_hash_checks: int,
) -> (Seq<LZValue>, (u16, Seq<u16>, Seq<u16>))
    decreases data.len() - pos,
{
    if pos >= end || pos >= data.len() {
        (Seq::empty(), v)
    } else if hash_ok && data.len() > 2 && pos < data.len() - 2 {
        let v1 = table_add(v, pos, data[pos + 2]);
        let (ml, md) = spec_longest_match(data, v1.2, pos, NO_LENGTH as int, max_hash_checks);
        if ml >= MIN_MATCH && md > 0 && !(ml == MIN_MATCH && md > 8192) && pos + ml <= data.len() {
            let rest = greedy_parse(
                data,
                end,
                hash_ok,
                pos + ml,
                table_add_range(v1, data, pos + 1, pos + ml, end),
                max_hash_checks,
            );
            (match_items(ml, md) + rest.0, rest.1)
        } else {
            let rest = greedy_parse(data, end, hash_ok, pos + 1, v1, max_hash_checks);
            (seq![lit_item(data[pos])] + rest.0, rest.1)
        }
    } else {
        let rest = greedy_parse(data, end, hash_ok, pos + 1, v, max_hash_checks);
        (seq![lit_item(data[pos])] + rest.0, rest.1)
    }
}

/// Inserting `a..c` is inserting `a..b`, then `b..c`.
pub proof fn lemma_table_add_range_split(
    w: (u16, Seq<u16>, Seq<u16>),
    data: Seq<u8>,
    a: int,
    b: int,
    c: int,
    e: int,
)
    requires
        a <= b <= c,
    ensures
        table_add_range(w, data, a, c, e) == table_add_range(table_add_range(w, data, a, b, e), data, b, c, e),
    decreases b - a,
{
    if a < b && a < e {
        let w1 = if data.len() > 2 && a < data.len() - 2 { table_add(w, a, data[a + 2]) } else { w };
        lemma_table_add_range_split(w1, data, a + 1, b, c, e);
    }
}

/// Positions from the end on are not inserted.
pub proof fn lemma_table_add_range_end(w: (u16, Seq<u16>, Seq<u16>), data: Seq<u8>, a: int, c: int, e: int)
    requires
        c >= e,
    ensures
        table_add_range(w, data, a, c, e) == table_add_range(w, data, a, e, e),
    decreases c - a,
{
    if a < e {
        let w1 = if data.len() > 2 && a < data.len() - 2 { table_add(w, a, data[a + 2]) } else { w };
        lemma_table_add_range_end(w1, data, a + 1, c, e);
    }
}

/// Positions without two bytes after them are not inserted.
pub proof fn lemma_table_add_range_tail(w: (u16, Seq<u16>, Seq<u16>), data: Seq<u8>, a: int, c: int, e: int)
    requires
        !(data.len() > 2 && a < data.len() - 2),
    ensures
        table_add_range(w, data, a, c, e) == w,
    decreases c - a,
{
    if a < c && a < e {
        lemma_table_add_range_tail(w, data, a + 1, c, e);
    }
}

/// Greedy parsing leaves every position of the chunk in the hash table: the table afterwards is
/// the one the positions `pos..end` (with two bytes after them) give when inserted in order,
/// whatever matches the parse takes; without hashing it is left as it was.
pub proof fn lemma_greedy_inserts_all(
    data: Seq<u8>,
    end: int,
    hash_ok: bool,
    pos: int,
    v: (u16, Seq<u16>, Seq<u16>),
    max_hash_checks: int,
)
    requires
        0 <= pos,
        end <= data.len(),
    ensures
        greedy_parse(data, end, hash_ok, pos, v, max_hash_checks).1 == (if hash_ok {
            table_add_range(v, data, pos, end, end)
        } else {
            v
        }),
    decreases data.len() - pos,
{
    if pos >= end || pos >= data.len() {
    } else if hash_ok && data.len() > 2 && pos < data.len() - 2 {
        let v1 = table_add(v, pos, data[pos + 2]);
        let (ml, md) = spec_longest_match(data, v1.2, pos, NO_LENGTH as int, max_hash_checks);
        if ml >= MIN_MATCH && md > 0 && !(ml == MIN_MATCH && md > 8192) && pos + ml <= data.len() {
            let v2 = table_add_range(v1, data, pos + 1, pos + ml, end);
            lemma_greedy_inserts_all(data, end, hash_ok, pos + ml, v2, max_hash_checks);
            if pos + ml <= end {
                lemma_table_add_range_split(v1, data, pos + 1, pos + ml, end, end);
            } else {
                lemma_table_add_range_end(v1, data, pos + 1, pos + ml, end);
            }
        } else {
            lemma_greedy_inserts_all(data, end, hash_ok, pos + 1, v1, max_hash_checks);
        }
    } else {
        lemma_greedy_inserts_all(data, end, hash_ok, pos + 1, v, max_hash_checks);
        if hash_ok {
            lemma_table_add_range_tail(v, data, pos, end, end);
            lemma_table_add_range_tail(v, data, pos + 1, end, end);
        }
    }
}

/// Process a chunk with greedy matching: a match found at a position is used right away.
///
/// The symbols appended are those of `greedy_parse` over the chunk, all of them where the chunk
/// is completed, else as many as were written before the buffer filled; a completed chunk
/// leaves the table that parse gives.
#[verifier::spinoff_prover]
#[verifier::rlimit(40)]
fn process_chunk_greedy<W: OutputWriter>(
    data: &[u8],
    iterated_data: &Range<usize>,
    hash_table: &mut ChainedHashTable,
    writer: &mut W,
    max_hash_checks: u16,
) -> (r: (usize, ProcessStatus))
    requires
        old(hash_table).wf(),
        ready(old(writer)),
        chunk_ok(data@, *iterated_data),
    ensures
        final(hash_table).wf(),
        chunk_done(data@, iterated_data.start as int, chunk_end(data@, *iterated_data), *old(writer), *final(writer), r),
        ({
            let end = chunk_end(data@, *iterated_data);
            let start = iterated_data.start as int;
            let parse = greedy_parse(
                data@,
                end,
                end - start > 2,
                start,
                table_view(*old(hash_table)),
                max_hash_checks as int,
            );
            let new_items = final(writer).buffer_view().skip(old(writer).buffer_view().len() as int);
            &&& parse.0.take(new_items.len() as int) == new_items
            &&& r.1 == ProcessStatus::Complete ==> new_items == parse.0 && table_view(*final(hash_table)) == parse.1
        }),
{
    let end = if data.len() < iterated_data.end { data.len() } else { iterated_data.end };
    let start = iterated_data.start;
    let hash_ok = end - start > 2;
    let ghost len0 = writer.buffer_view().len() as int;
    let ghost old_buf = writer.buffer_view();
    let ghost parse = greedy_parse(data@, end as int, hash_ok, start as int, table_view(*hash_table), max_hash_checks as int);
    // The number of bytes past end that was added due to finding a match that extends into
    // the lookahead window.
    let mut overlap: usize = 0;
    let mut pos = start;
    proof {
        lemma_skip_all(writer.buffer_view());
        assert(data@.take(start as int) =~= data@.take(start as int));
    }
    while pos < end
        invariant
            start <= pos <= data@.len(),
            end <= data@.len(),
            end == chunk_end(data@, *iterated_data),
            start == iterated_data.start,
            hash_table.wf(),
            ready(writer),
            writer.buffer_view().len() >= len0,
            old_buf == writer.buffer_view().take(len0),
            len0 == old_buf.len(),
            old_buf == old(writer).buffer_view(),
            decodes_to(data@.take(start as int), writer.buffer_view().skip(len0), data@.take(pos as int)),
            pos > end ==> overlap == pos - end,
            pos <= end ==> overlap == 0,
            overlap <= MAX_MATCH,
            hash_ok == (end - start > 2),
            parse == greedy_parse(data@, end as int, hash_ok, start as int, table_view(*old(hash_table)), max_hash_checks as int),
            ({
                let rest = greedy_parse(data@, end as int, hash_ok, pos as int, table_view(*hash_table), max_hash_checks as int);
                &&& writer.buffer_view().skip(len0) + rest.0 == parse.0
                &&& rest.1 == parse.1
            }),
        decreases data@.len() - pos,
    {
        let b = data[pos];
        let ghost buf = writer.buffer_view();
        let ghost v0 = table_view(*hash_table);
        let ghost rest0 = greedy_parse(data@, end as int, hash_ok, pos as int, v0, max_hash_checks as int);
        if hash_ok && data.len() > 2 && pos < data.len() - 2 {
            hash_table.add_hash_value(pos, data[pos + 2]);
            let (match_len, match_dist) = longest_match(data, hash_table, pos, NO_LENGTH, max_hash_checks);
            if match_len >= MIN_MATCH && match_dist > 0 && !match_too_far(match_len, match_dist) {
                proof {
                    lemma_step_match(data@, start as int, old_buf, buf, pos as int, match_len as int, match_dist as int);
                }
                let b_status = writer.write_length_distance(match_len as u16, match_dist as u16);
                // Add the bytes the match covers to the hash table.
                add_to_hash_table(data, pos + 1, pos + match_len, end, hash_table);
                if pos + match_len > end {
                    overlap = pos + match_len - end;
                }
                proof {
                    assert(writer.buffer_view().take(len0) =~= old_buf);
                    assert(table_view(*hash_table) == table_add_range(
                        table_add(v0, pos as int, data@[pos + 2]),
                        data@,
                        pos + 1,
                        pos + match_len,
                        end as int,
                    ));
                    let step = match_items(match_len as int, match_dist as int);
                    assert(writer.buffer_view() =~= buf + step);
                    lemma_parse_step(buf.skip(len0), step, greedy_parse(data@, end as int, hash_ok, pos + match_len,
                        table_view(*hash_table), max_hash_checks as int).0, parse.0);
                    assert(writer.buffer_view().skip(len0) =~= buf.skip(len0) + step);
                }
                match b_status {
                    BufferStatus::Full => {
                        assert(writer.buffer_view() =~= old_buf + writer.buffer_view().skip(len0));
                        return (overlap, ProcessStatus::BufferFull(pos + match_len));
                    },
                    BufferStatus::NotFull => {},
                }
                pos = pos + match_len;
            } else {
                proof {
                    lemma_step_literal(data@, start as int, old_buf, buf, pos as int);
                }
                let b_status = writer.write_literal(b);
                proof {
                    assert(writer.buffer_view().take(len0) =~= old_buf);
                    let step = seq![lit_item(b)];
                    assert(writer.buffer_view() =~= buf + step);
                    lemma_parse_step(buf.skip(len0), step, greedy_parse(data@, end as int, hash_ok, pos + 1,
                        table_view(*hash_table), max_hash_checks as int).0, parse.0);
                    assert(writer.buffer_view().skip(len0) =~= buf.skip(len0) + step);
                }
                match b_status {
                    BufferStatus::Full => {
                        assert(writer.buffer_view() =~= old_buf + writer.buffer_view().skip(len0));
                        return (0, ProcessStatus::BufferFull(pos + 1));
                    },
                    BufferStatus::NotFull => {},
                }
                pos = pos + 1;
            }
        } else {
            // We are at the last two bytes we want to add, so there is no point
            // searching for matches here.
            proof {
                lemma_step_literal(data@, start as int, old_buf, buf, pos as int);
            }
            let b_status = writer.write_literal(b);
            proof {
                assert(writer.buffer_view().take(len0) =~= old_buf);
                let step = seq![lit_item(b)];
                assert(writer.buffer_view() =~= buf + step);
                lemma_parse_step(buf.skip(len0), step, greedy_parse(data@, end as int, hash_ok, pos + 1,
                    table_view(*hash_table), max_hash_checks as int).0, parse.0);
                assert(writer.buffer_view().skip(len0) =~= buf.skip(len0) + step);
            }
            match b_status {
                BufferStatus::Full => {
                    assert(writer.buffer_view() =~= old_buf + writer.buffer_view().skip(len0));
                    return (0, ProcessStatus::BufferFull(pos + 1));
                },
                BufferStatus::NotFull => {},
            }
            pos = pos + 1;
        }
    }
    assert(writer.buffer_view() =~= old_buf + writer.buffer_view().skip(len0));
    proof {
        assert(writer.buffer_view().skip(len0) + Seq::<LZValue>::empty() =~= writer.buffer_view().skip(len0));
        assert(parse.0.take(parse.0.len() as int) =~= parse.0);
    }
    (overlap, ProcessStatus::Complete)
}


/// The match the lazy search takes at `pos`, with the table `prevs` and the previous match of
/// length `prev_len`: none where the previous match was good enough (`ignore`); else the
/// search for a longer one, with a quarter of the checks after a match of 32 or more, a
/// three byte match from more than 8192 back counting as none.
pub open spec fn lazy_match(
    data: Seq<u8>,
    prevs: Seq<u16>,
    pos: int,
    prev_len: int,
    max_hash_checks: u16,
    ignore: bool,
) -> (int, int) {
    if ignore {
        (NO_LENGTH as int, 0)
    } else {
        let checks = if prev_len >= 32 { max_hash_checks >> 2 } else { max_hash_checks };
        let (m, d) = spec_longest_match(data, prevs, pos, prev_len, checks as int);
        if m == MIN_MATCH && d > 8192 {
            (NO_LENGTH as int, 0)
        } else {
            (m, d)
        }
    }
}

/// Lazy parsing of `data` from `pos` up to `end` with the table `v`. A match found at a position
/// is held back (with the byte there) and written only if the next position gives no longer
/// one; then the positions it covers are inserted into the table. A match longer than `lazy`
/// is not compared with the next position. At the last two bytes a held match is written and
/// the parse ends, else the held byte and the byte itself are literals. Gives the symbols and
/// the table afterwards.
pub open spec fn lazy_parse(
    data: Seq<u8>,
    end: int,
    hash_ok: bool,
    lazy: int,
    max_hash_checks: u16,
    pos: int,
    v: (u16, Seq<u16>, Seq<u16>),
    prev_byte: u8,
    prev_len: int,
    prev_dist: int,
    add: bool,
    ignore: bool,
) -> (Seq<LZValue>, (u16, Seq<u16>, Seq<u16>))
    decreases data.len() - pos,
{
    let held = if add { seq![lit_item(prev_byte)] } else { Seq::empty() };
    if pos >= end || pos >= data.len() {
        (held, v)
    } else if hash_ok && data.len() > 2 && pos < data.len() - 2 {
        let v1 = table_add(v, pos, data[pos + 2]);
        let (ml, md) = lazy_match(data, v1.2, pos, prev_len, max_hash_checks, ignore);
        let ignore1 = ignore || ml > lazy;
        if prev_len >= ml && prev_len > NO_LENGTH && prev_dist > 0 && pos - 1 + prev_len <= data.len()
            && prev_len >= 2 {
            let rest = lazy_parse(
                data,
                end,
                hash_ok,
                lazy,
                max_hash_checks,
                pos - 1 + prev_len,
                table_add_range(v1, data, pos + 1, pos - 1 + prev_len, end),
                prev_byte,
                NO_LENGTH as int,
                0,
                false,
                false,
            );
            (match_items(prev_len, prev_dist) + rest.0, rest.1)
        } else {
            let rest = lazy_parse(data, end, hash_ok, lazy, max_hash_checks, pos + 1, v1, data[pos], ml, md, true, ignore1);
            (held + rest.0, rest.1)
        }
    } else if prev_len > NO_LENGTH && prev_dist != 0 {
        (match_items(prev_len, prev_dist), v)
    } else {
        let rest = lazy_parse(
            data,
            end,
            hash_ok,
            lazy,
            max_hash_checks,
            pos + 1,
            v,
            prev_byte,
            prev_len,
            prev_dist,
            false,
            ignore,
        );
        (held + seq![lit_item(data[pos])] + rest.0, rest.1)
    }
}

/// A match longer than the lazy threshold, found at a position where nothing is held, is
/// written at once (the next position is inserted but not searched), and the parse then starts
/// afresh right after it: the symbols are the match, then those of parsing from the end of the
/// match with nothing held and searching on, with the positions the match covers inserted.
pub proof fn lemma_lazy_long_match_restarts(
    data: Seq<u8>,
    end: int,
    lazy: int,
    max_hash_checks: u16,
    pos: int,
    v: (u16, Seq<u16>, Seq<u16>),
    prev_byte: u8,
)
    requires
        3 <= lazy,
        0 <= pos,
        end <= data.len(),
        pos + 1 < end,
        pos + 3 < data.len(),
        lazy_match(data, table_add(v, pos, data[pos + 2]).2, pos, NO_LENGTH as int, max_hash_checks, false).0 > lazy,
    ensures
        ({
            let (m, d) = lazy_match(data, table_add(v, pos, data[pos + 2]).2, pos, NO_LENGTH as int, max_hash_checks, false);
            let rest = lazy_parse(
                data,
                end,
                true,
                lazy,
                max_hash_checks,
                pos + m,
                table_add_range(v, data, pos, pos + m, end),
                data[pos],
                NO_LENGTH as int,
                0,
                false,
                false,
            );
            &&& 0 < d
            &&& is_match(data, pos, d, m)
            &&& lazy_parse(data, end, true, lazy, max_hash_checks, pos, v, prev_byte, NO_LENGTH as int, 0, false, false)
                == (match_items(m, d) + rest.0, rest.1)
        }),
{
    let v1 = table_add(v, pos, data[pos + 2]);
    let (m, d) = lazy_match(data, v1.2, pos, NO_LENGTH as int, max_hash_checks, false);
    crate::matching::lemma_longest_match_is_longest(data, v1.2, pos, NO_LENGTH as int, max_hash_checks as int);
    let k0 = choose|k: nat|
        1 <= k <= max_hash_checks as int && #[trigger] crate::matching::chain_walk(
            v1.2,
            pos,
            crate::matching::window_limit(pos),
            k,
        ) == Some(pos - d) && crate::matching::match_len(data, pos, pos - d, 0) == m;
    crate::matching::lemma_chain_walk_back(v1.2, pos, crate::matching::window_limit(pos), k0);
    crate::matching::lemma_match_len(data, pos, pos - d, 0);
    assert(0 < d);
    let v2 = table_add(v1, pos + 1, data[pos + 3]);
    assert(lazy_match(data, v2.2, pos + 1, m, max_hash_checks, true) == (NO_LENGTH as int, 0int));
    assert(table_add_range(v, data, pos, pos + m, end) == table_add_range(v1, data, pos + 1, pos + m, end));
    assert(table_add_range(v1, data, pos + 1, pos + m, end) == table_add_range(v2, data, pos + 2, pos + m, end));
    let rest = lazy_parse(
        data,
        end,
        true,
        lazy,
        max_hash_checks,
        pos + m,
        table_add_range(v, data, pos, pos + m, end),
        data[pos],
        NO_LENGTH as int,
        0,
        false,
        false,
    );
    let r1 = lazy_parse(data, end, true, lazy, max_hash_checks, pos + 1, v1, data[pos], m, d, true, true);
    assert(r1 == (match_items(m, d) + rest.0, rest.1));
    let r0 = lazy_parse(data, end, true, lazy, max_hash_checks, pos, v, prev_byte, NO_LENGTH as int, 0, false, false);
    assert(r0 == (Seq::<LZValue>::empty() + r1.0, r1.1));
    assert(Seq::<LZValue>::empty() + r1.0 =~= r1.0);
}

/// Lazy parsing also leaves every position of the chunk in the hash table: the table afterwards
/// is the one the positions `pos..end` (with two bytes after them) give when inserted in order,
/// whatever matches the parse takes or holds back; without hashing it is left as it was.
pub proof fn lemma_lazy_inserts_all(
    data: Seq<u8>,
    end: int,
    hash_ok: bool,
    lazy: int,
    max_hash_checks: u16,
    pos: int,
    v: (u16, Seq<u16>, Seq<u16>),
    prev_byte: u8,
    prev_len: int,
    prev_dist: int,
    add: bool,
    ignore: bool,
)
    requires
        0 <= pos,
        end <= data.len(),
    ensures
        lazy_parse(data, end, hash_ok, lazy, max_hash_checks, pos, v, prev_byte, prev_len, prev_dist, add, ignore).1
            == (if hash_ok {
            table_add_range(v, data, pos, end, end)
        } else {
            v
        }),
    decreases data.len() - pos,
{
    if pos >= end || pos >= data.len() {
    } else if hash_ok && data.len() > 2 && pos < data.len() - 2 {
        let v1 = table_add(v, pos, data[pos + 2]);
        let (ml, md) = lazy_match(data, v1.2, pos, prev_len, max_hash_checks, ignore);
        let ignore1 = ignore || ml > lazy;
        if prev_len >= ml && prev_len > NO_LENGTH && prev_dist > 0 && pos - 1 + prev_len <= data.len() && prev_len
            >= 2 {
            let q = pos - 1 + prev_len;
            let v2 = table_add_range(v1, data, pos + 1, q, end);
            lemma_lazy_inserts_all(
                data,
                end,
                hash_ok,
                lazy,
                max_hash_checks,
                q,
                v2,
                prev_byte,
                NO_LENGTH as int,
                0,
                false,
                false,
            );
            if q <= end {
                lemma_table_add_range_split(v1, data, pos + 1, q, end, end);
            } else {
                lemma_table_add_range_end(v1, data, pos + 1, q, end);
            }
        } else {
            lemma_lazy_inserts_all(data, end, hash_ok, lazy, max_hash_checks, pos + 1, v1, data[pos], ml, md, true, ignore1);
        }
    } else if prev_len > NO_LENGTH && prev_dist != 0 {
        if hash_ok {
            lemma_table_add_range_tail(v, data, pos, end, end);
        }
    } else {
        lemma_lazy_inserts_all(
            data,
            end,
            hash_ok,
            lazy,
            max_hash_checks,
            pos + 1,
            v,
            prev_byte,
            prev_len,
            prev_dist,
            false,
            ignore,
        );
        if hash_ok {
            lemma_table_add_range_tail(v, data, pos, end, end);
            lemma_table_add_range_tail(v, data, pos + 1, end, end);
        }
    }
}

/// Process a chunk with lazy matching: a match found at a position is only used if the next
/// position does not give a longer one.
///
/// The symbols appended are those of `lazy_parse` over the chunk, all of them where the chunk
/// is completed, else as many as were written before the buffer filled; a completed chunk
/// leaves the table that parse gives.
#[verifier::spinoff_prover]
#[verifier::rlimit(100)]
fn process_chunk_lazy<W: OutputWriter>(
    data: &[u8],
    iterated_data: &Range<usize>,
    hash_table: &mut ChainedHashTable,
    writer: &mut W,
    max_hash_checks: u16,
    lazy_if_less_than: usize,
) -> (r: (usize, ProcessStatus))
    requires
        old(hash_table).wf(),
        ready(old(writer)),
        chunk_ok(data@, *iterated_data),
    ensures
        final(hash_table).wf(),
        chunk_done(data@, iterated_data.start as int, chunk_end(data@, *iterated_data), *old(writer), *final(writer), r),
        ({
            let end = chunk_end(data@, *iterated_data);
            let start = iterated_data.start as int;
            let parse = lazy_parse(
                data@,
                end,
                end - start > 2,
                if lazy_if_less_than < 3 { 3 } else { lazy_if_less_than as int },
                max_hash_checks,
                start,
                table_view(*old(hash_table)),
                0,
                NO_LENGTH as int,
                0,
                false,
                false,
            );
            let new_items = final(writer).buffer_view().skip(old(writer).buffer_view().len() as int);
            &&& parse.0.take(new_items.len() as int) == new_items
            &&& r.1 == ProcessStatus::Complete ==> new_items == parse.0 && table_view(*final(hash_table)) == parse.1
        }),
{
    // If this is less than 3 it prevents a check from working properly
    let lazy_limit = if lazy_if_less_than < 3 { 3 } else { lazy_if_less_than };
    let end = if data.len() < iterated_data.end { data.len() } else { iterated_data.end };
    let start = iterated_data.start;
    let hash_ok = end - start > 2;
    let ghost len0 = writer.buffer_view().len() as int;
    let ghost old_buf = writer.buffer_view();
    // The byte before the currently read one in the stream.
    let mut prev_byte = 0u8;
    // The previous match length, if any.
    let mut prev_length = NO_LENGTH;
    // The distance of the previous match if any.
    let mut prev_distance: usize = 0;
    // Whether prev_byte should be output if we move one byte forward to find a better match
    // (or at the end of the stream).
    let mut add = false;
    // The number of bytes past end that was added due to finding a match that extends into
    // the lookahead window.
    let mut overlap: usize = 0;
    // Set to true if we found a match that is equal to or longer than `lazy_if_less_than`,
    // indicating that we won't lazy match (check for a better match at the next byte).
    let mut ignore_next = false;
    let mut pos = start;
    let ghost parse = lazy_parse(data@, end as int, hash_ok, lazy_limit as int, max_hash_checks, start as int,
        table_view(*hash_table), 0, NO_LENGTH as int, 0, false, false);
    proof {
        lemma_skip_all(writer.buffer_view());
    }
    while pos < end
        invariant
            start <= pos <= data@.len(),
            end <= data@.len(),
            end == chunk_end(data@, *iterated_data),
            start == iterated_data.start,
            chunk_ok(data@, *iterated_data),
            hash_ok == (end - start > 2),
            hash_table.wf(),
            ready(writer),
            writer.buffer_view().len() >= len0,
            old_buf == writer.buffer_view().take(len0),
            len0 == old_buf.len(),
            old_buf == old(writer).buffer_view(),
            add ==> start < pos <= end && prev_byte == data@[pos - 1],
            add ==> decodes_to(data@.take(start as int), writer.buffer_view().skip(len0), data@.take(pos - 1)),
            !add ==> decodes_to(data@.take(start as int), writer.buffer_view().skip(len0), data@.take(pos as int)),
            prev_length > NO_LENGTH && prev_distance > 0 ==> add && hash_ok && prev_length <= MAX_MATCH
                && prev_distance <= WINDOW_SIZE && is_match(data@, pos - 1, prev_distance as int, prev_length as int),
            pos > end ==> overlap == pos - end && !add,
            pos <= end ==> overlap == 0,
            overlap <= MAX_MATCH,
            lazy_limit == (if lazy_if_less_than < 3 { 3 } else { lazy_if_less_than }),
            parse == lazy_parse(data@, end as int, hash_ok, lazy_limit as int, max_hash_checks, start as int,
                table_view(*old(hash_table)), 0, NO_LENGTH as int, 0, false, false),
            ({
                let rest = lazy_parse(data@, end as int, hash_ok, lazy_limit as int, max_hash_checks, pos as int,
                    table_view(*hash_table), prev_byte, prev_length as int, prev_distance as int, add, ignore_next);
                &&& writer.buffer_view().skip(len0) + rest.0 == parse.0
                &&& rest.1 == parse.1
            }),
        decreases data@.len() - pos,
    {
        let b = data[pos];
        let ghost buf = writer.buffer_view();
        let ghost v0 = table_view(*hash_table);
        let ghost pb0 = prev_byte;
        let ghost pl0 = prev_length as int;
        let ghost pd0 = prev_distance as int;
        let ghost add0 = add;
        let ghost ig0 = ignore_next;
        let ghost held = if add { seq![lit_item(prev_byte)] } else { Seq::<LZValue>::empty() };
        let ghost rest0 = lazy_parse(data@, end as int, hash_ok, lazy_limit as int, max_hash_checks, pos as int, v0, pb0, pl0, pd0, add0, ig0);
        if hash_ok && data.len() > 2 && pos < data.len() - 2 {
            let position = pos;
            hash_table.add_hash_value(position, data[pos + 2]);
            // Only lazy match if we have a match shorter than a set value
            let (match_len, match_dist) = if !ignore_next {
                // If there already was a decent match at the previous byte
                // and we are lazy matching, do less match checks in this step.
                let checks = if prev_length >= 32 { max_hash_checks >> 2 } else { max_hash_checks };
                // Check if we can find a better match here than the one we had at
                // the previous byte.
                let (mut ml, mut md) = longest_match(data, hash_table, position, prev_length, checks);
                // If the match is only 3 bytes long and very far back, it's probably not worth
                // outputting.
                if match_too_far(ml, md) {
                    ml = NO_LENGTH;
                    md = 0;
                }
                if ml > lazy_limit {
                    // We found a decent match, so we won't check for a better one at the next byte.
                    ignore_next = true;
                }
                (ml, md)
            } else {
                // We already had a decent match, so we don't bother checking for another one.
                (NO_LENGTH, 0)
            };
            if prev_length >= match_len && prev_length > NO_LENGTH && prev_distance > 0 {
                // The previous match was better so we add it.
                proof {
                    lemma_step_match(data@, start as int, old_buf, buf, pos - 1, prev_length as int, prev_distance as int);
                }
                let b_status = writer.write_length_distance(prev_length as u16, prev_distance as u16);
                // We add the bytes to the hash table.
                // Since we've already added two of them, we need to add two less than
                // the length.
                add_to_hash_table(data, position + 1, (position - 1) + prev_length, end, hash_table);
                // If the match is longer than the current window, we have note how many
                // bytes we overlap, since we don't need to do any matching on these bytes
                // in the next call of this function.
                if (position - 1) + prev_length > end {
                    // We need to subtract 1 since the byte at pos is also included.
                    overlap = (position - 1) + prev_length - end;
                }
                proof {
                    assert(writer.buffer_view().take(len0) =~= old_buf);
                    let step = match_items(pl0, pd0);
                    let next = lazy_parse(data@, end as int, hash_ok, lazy_limit as int, max_hash_checks, position - 1 + pl0,
                        table_view(*hash_table), pb0, NO_LENGTH as int, 0, false, false);
                    assert(rest0.0 == step + next.0);
                    assert(writer.buffer_view() =~= buf + step);
                    lemma_parse_step(buf.skip(len0), step, next.0, parse.0);
                    assert(writer.buffer_view().skip(len0) =~= buf.skip(len0) + step);
                }
                match b_status {
                    BufferStatus::Full => {
                        assert(writer.buffer_view() =~= old_buf + writer.buffer_view().skip(len0));
                        return (overlap, ProcessStatus::BufferFull((position - 1) + prev_length));
                    },
                    BufferStatus::NotFull => {},
                }
                // There is no pending match or byte after the one just output.
                pos = (position - 1) + prev_length;
                add = false;
                ignore_next = false;
                prev_length = NO_LENGTH;
                prev_distance = 0;
            } else {
                if add {
                    // We found a better match (or there was no previous match)
                    // so output the previous byte.
                    proof {
                        lemma_step_literal(data@, start as int, old_buf, buf, pos - 1);
                    }
                    let b_status = writer.write_literal(prev_byte);
                    proof {
                        assert(writer.buffer_view().take(len0) =~= old_buf);
                        let next = lazy_parse(data@, end as int, hash_ok, lazy_limit as int, max_hash_checks, pos + 1,
                            table_view(*hash_table), b, match_len as int, match_dist as int, true, ignore_next);
                        assert(rest0.0 == held + next.0);
                        assert(writer.buffer_view() =~= buf + held);
                        lemma_parse_step(buf.skip(len0), held, next.0, parse.0);
                        assert(writer.buffer_view().skip(len0) =~= buf.skip(len0) + held);
                    }
                    match b_status {
                        BufferStatus::Full => {
                            assert(writer.buffer_view() =~= old_buf + writer.buffer_view().skip(len0));
                            return (0, ProcessStatus::BufferFull(position));
                        },
                        BufferStatus::NotFull => {},
                    }
                } else {
                    add = true;
                    proof {
                        let next = lazy_parse(data@, end as int, hash_ok, lazy_limit as int, max_hash_checks, pos + 1,
                            table_view(*hash_table), b, match_len as int, match_dist as int, true, ignore_next);
                        assert(rest0.0 == held + next.0);
                        assert(held =~= Seq::<LZValue>::empty());
                        assert(buf.skip(len0) + (held + next.0) =~= buf.skip(len0) + next.0);
                    }
                }
                prev_length = match_len;
                prev_distance = match_dist;
                prev_byte = b;
                pos = pos + 1;
            }
        } else {
            let position = pos;
            // If there is a match at this point, it will not have been added, so we need to add it.
            if prev_length > NO_LENGTH && prev_distance != 0 {
                proof {
                    lemma_step_match(data@, start as int, old_buf, buf, pos - 1, prev_length as int, prev_distance as int);
                }
                let b_status = writer.write_length_distance(prev_length as u16, prev_distance as u16);
                proof {
                    assert(writer.buffer_view().take(len0) =~= old_buf);
                    assert(writer.buffer_view() =~= old_buf + writer.buffer_view().skip(len0));
                    assert(end == data@.len());
                    let step = match_items(pl0, pd0);
                    assert(rest0 == (step, v0));
                    assert(writer.buffer_view() =~= buf + step);
                    lemma_parse_step(buf.skip(len0), step, Seq::<LZValue>::empty(), parse.0);
                    assert(writer.buffer_view().skip(len0) =~= buf.skip(len0) + step);
                    assert(step + Seq::<LZValue>::empty() =~= step);
                    assert(parse.0.take(parse.0.len() as int) =~= parse.0);
                }
                // As this will be a 3-length match at the end of the input data, there can't be any
                // overlap.
                match b_status {
                    BufferStatus::Full => {
                        return (0, ProcessStatus::BufferFull(end));
                    },
                    BufferStatus::NotFull => {
                        return (0, ProcessStatus::Complete);
                    },
                }
            }
            if add {
                // We may still have a leftover byte at this point, so we add it here if needed.
                add = false;
                proof {
                    lemma_step_literal(data@, start as int, old_buf, buf, pos - 1);
                }
                let b_status = writer.write_literal(prev_byte);
                proof {
                    assert(writer.buffer_view().take(len0) =~= old_buf);
                    let next = lazy_parse(data@, end as int, hash_ok, lazy_limit as int, max_hash_checks, pos + 1, v0, pb0, pl0, pd0, false, ig0);
                    let lb = seq![lit_item(b)];
                    assert(rest0.0 == held + lb + next.0);
                    assert(buf.skip(len0) + (held + (lb + next.0)) =~= parse.0);
                    lemma_parse_step(buf.skip(len0), held, lb + next.0, parse.0);
                    assert(writer.buffer_view() =~= buf + held);
                    assert(writer.buffer_view().skip(len0) =~= buf.skip(len0) + held);
                }
                match b_status {
                    BufferStatus::Full => {
                        assert(writer.buffer_view() =~= old_buf + writer.buffer_view().skip(len0));
                        return (0, ProcessStatus::BufferFull(position));
                    },
                    BufferStatus::NotFull => {},
                }
            }
            let ghost buf2 = writer.buffer_view();
            proof {
                let next = lazy_parse(data@, end as int, hash_ok, lazy_limit as int, max_hash_checks, pos + 1, v0, pb0, pl0, pd0, false, ig0);
                let lb = seq![lit_item(b)];
                assert(rest0.0 == held + lb + next.0);
                assert(buf2.skip(len0) =~= buf.skip(len0) + held);
                assert(buf2.skip(len0) + (lb + next.0) =~= parse.0);
            }
            // We are at the last two bytes we want to add, so there is no point
            // searching for matches here.
            proof {
                lemma_step_literal(data@, start as int, old_buf, buf2, pos as int);
            }
            let b_status = writer.write_literal(b);
            proof {
                assert(writer.buffer_view().take(len0) =~= old_buf);
                let next = lazy_parse(data@, end as int, hash_ok, lazy_limit as int, max_hash_checks, pos + 1, v0, pb0, pl0, pd0, false, ig0);
                let lb = seq![lit_item(b)];
                assert(writer.buffer_view() =~= buf2 + lb);
                lemma_parse_step(buf2.skip(len0), lb, next.0, parse.0);
                assert(writer.buffer_view().skip(len0) =~= buf2.skip(len0) + lb);
            }
            match b_status {
                BufferStatus::Full => {
                    assert(writer.buffer_view() =~= old_buf + writer.buffer_view().skip(len0));
                    return (0, ProcessStatus::BufferFull(position + 1));
                },
                BufferStatus::NotFull => {},
            }
            pos = pos + 1;
        }
    }
    let ghost rest_end = lazy_parse(data@, end as int, hash_ok, lazy_limit as int, max_hash_checks, pos as int, table_view(*hash_table),
        prev_byte, prev_length as int, prev_distance as int, add, ignore_next);
    proof {
        assert(rest_end.0 == (if add { seq![lit_item(prev_byte)] } else { Seq::<LZValue>::empty() }));
    }
    if add {
        // We may still have a leftover byte at this point, so we add it here if needed.
        let ghost buf = writer.buffer_view();
        proof {
            lemma_step_literal(data@, start as int, old_buf, buf, pos - 1);
        }
        let b_status = writer.write_literal(prev_byte);
        proof {
            assert(writer.buffer_view().take(len0) =~= old_buf);
            assert(writer.buffer_view() =~= buf + rest_end.0);
            assert(writer.buffer_view().skip(len0) =~= buf.skip(len0) + rest_end.0);
            assert(parse.0.take(parse.0.len() as int) =~= parse.0);
        }
        match b_status {
            BufferStatus::Full => {
                assert(writer.buffer_view() =~= old_buf + writer.buffer_view().skip(len0));
                return (0, ProcessStatus::BufferFull(end));
            },
            BufferStatus::NotFull => {},
        }
    }
    assert(writer.buffer_view() =~= old_buf + writer.buffer_view().skip(len0));
    proof {
        if !add {
            assert(writer.buffer_view().skip(len0) + Seq::<LZValue>::empty() =~= writer.buffer_view().skip(len0));
        }
        assert(parse.0.take(parse.0.len() as int) =~= parse.0);
    }
    (overlap, ProcessStatus::Complete)
}

/// The symbols appended to `old_buf` are the first of those of `parse`, and all of them, with
/// the table the parse leaves, where the chunk was completed.
#[verifier::opaque]
pub open spec fn follows_parse(
    parse: (Seq<LZValue>, (u16, Seq<u16>, Seq<u16>)),
    old_buf: Seq<LZValue>,
    new_buf: Seq<LZValue>,
    table: (u16, Seq<u16>, Seq<u16>),
    complete: bool,
) -> bool {
    let new_items = new_buf.skip(old_buf.len() as int);
    &&& parse.0.take(new_items.len() as int) == new_items
    &&& complete ==> new_items == parse.0 && table == parse.1
}

/// The symbols and table of parsing the chunk with the configured kind of matching.
pub open spec fn chunk_parse(
    data: Seq<u8>,
    iterated_data: Range<usize>,
    v: (u16, Seq<u16>, Seq<u16>),
    max_hash_checks: u16,
    lazy_if_less_than: usize,
    matching_type: MatchingType,
) -> (Seq<LZValue>, (u16, Seq<u16>, Seq<u16>)) {
    let end = chunk_end(data, iterated_data);
    let start = iterated_data.start as int;
    match matching_type {
        MatchingType::Greedy => greedy_parse(data, end, end - start > 2, start, v, max_hash_checks as int),
        MatchingType::Lazy => lazy_parse(
            data,
            end,
            end - start > 2,
            if lazy_if_less_than < 3 { 3 } else { lazy_if_less_than as int },
            max_hash_checks,
            start,
            v,
            0,
            NO_LENGTH as int,
            0,
            false,
            false,
        ),
    }
}

/// The table a pass starts from on `data`: every chain empty, and the running hash fed the
/// first two bytes where there are more than two.
pub open spec fn start_table(data: Seq<u8>) -> (u16, Seq<u16>, Seq<u16>) {
    let empty = Seq::new(WINDOW_SIZE as nat, |n: int| n as u16);
    (if data.len() > 2 { spec_update_hash(spec_update_hash(0, data[0]), data[1]) } else { 0 }, empty, empty)
}

/// The symbols of a pass that takes all of `data` as one chunk from the start, with the
/// matching settings `options` (hash chain links searched, lazy threshold, kind of matching).
pub open spec fn first_pass_parse(data: Seq<u8>, options: (u16, u16, MatchingType)) -> Seq<LZValue> {
    chunk_parse(
        data,
        Range { start: 0usize, end: data.len() as usize },
        start_table(data),
        options.0,
        options.1 as usize,
        options.2,
    ).0
}

/// Whatever kind of matching, parsing a chunk that hashes leaves every position of it in the
/// hash table, inserted in order.
pub proof fn lemma_chunk_parse_inserts_all(
    data: Seq<u8>,
    iterated_data: Range<usize>,
    v: (u16, Seq<u16>, Seq<u16>),
    max_hash_checks: u16,
    lazy_if_less_than: usize,
    matching_type: MatchingType,
)
    requires
        chunk_end(data, iterated_data) - iterated_data.start > 2,
    ensures
        chunk_parse(data, iterated_data, v, max_hash_checks, lazy_if_less_than, matching_type).1 == table_add_range(
            v,
            data,
            iterated_data.start as int,
            chunk_end(data, iterated_data),
            chunk_end(data, iterated_data),
        ),
{
    let end = chunk_end(data, iterated_data);
    let start = iterated_data.start as int;
    match matching_type {
        MatchingType::Greedy => {
            lemma_greedy_inserts_all(data, end, true, start, v, max_hash_checks as int);
        },
        MatchingType::Lazy => {
            lemma_lazy_inserts_all(
                data,
                end,
                true,
                if lazy_if_less_than < 3 { 3 } else { lazy_if_less_than as int },
                max_hash_checks,
                start,
                v,
                0,
                NO_LENGTH as int,
                0,
                false,
                false,
            );
        },
    }
}

/// Process a chunk with the configured kind of matching.
fn process_chunk<W: OutputWriter>(
    data: &[u8],
    iterated_data: &Range<usize>,
    hash_table: &mut ChainedHashTable,
    writer: &mut W,
    max_hash_checks: u16,
    lazy_if_less_than: usize,
    matching_type: MatchingType,
) -> (r: (usize, ProcessStatus))
    requires
        old(hash_table).wf(),
        ready(old(writer)),
        chunk_ok(data@, *iterated_data),
    ensures
        final(hash_table).wf(),
        chunk_done(data@, iterated_data.start as int, chunk_end(data@, *iterated_data), *old(writer), *final(writer), r),
        follows_parse(
            chunk_parse(data@, *iterated_data, table_view(*old(hash_table)), max_hash_checks, lazy_if_less_than,
                matching_type),
            old(writer).buffer_view(),
            final(writer).buffer_view(),
            table_view(*final(hash_table)),
            r.1 == ProcessStatus::Complete,
        ),
{
    let r = match matching_type {
        MatchingType::Greedy => process_chunk_greedy(data, iterated_data, hash_table, writer, max_hash_checks),
        MatchingType::Lazy => process_chunk_lazy(
            data,
            iterated_data,
            hash_table,
            writer,
            max_hash_checks,
            lazy_if_less_than,
        ),
    };
    proof {
        reveal(follows_parse);
    }
    r
}


pub const DEFAULT_WINDOW_SIZE: usize = 32768;

/// The status of the lz77 pass after a call.
#[derive(Eq, PartialEq, Structural, Clone, Copy, Debug)]
pub enum LZ77Status {
    /// Waiting for more input before doing any processing
    NeedInput,
    /// The output buffer is full, so the current block needs to be ended so the
    /// buffer can be flushed.
    EndBlock,
    /// All pending data has been processed.
    Finished,
}

/// A struct that contains the hash table, and keeps track of where we are in the input data
pub struct LZ77State {
    /// Struct containing hash chains that will be used to find matches.
    hash_table: ChainedHashTable,
    /// True if this is the first window that is being processed.
    is_first_window: bool,
    /// Set to true when the last block has been processed.
    is_last_block: bool,
    /// How many bytes the last match in the previous window extended into the current one.
    overlap: usize,
    /// How many bytes of input the current block contains.
    current_block_input_bytes: u64,
    /// The maximum number of hash entries to search.
    max_hash_checks: u16,
    /// Only lazy match if we have a match length less than this.
    lazy_if_less_than: u16,
    /// Whether to use greedy or lazy parsing
    matching_type: MatchingType,
    /// All the input added to the buffer since the state was created or reset.
    consumed: Ghost<Seq<u8>>,
    /// How much of that input the symbols of earlier blocks cover.
    block_start: Ghost<int>,
    /// How much of that input the symbols output so far cover.
    done: Ghost<int>,
}

/// A count, or the largest `u64` where it does not fit.
pub open spec fn saturate(x: int) -> u64 {
    if x > u64::MAX { u64::MAX } else { x as u64 }
}

proof fn lemma_saturate_add(a: int, d: int)
    requires
        0 <= a,
        0 <= d <= u64::MAX,
    ensures
        (if saturate(a) + d > u64::MAX { u64::MAX } else { (saturate(a) + d) as u64 }) == saturate(a + d),
{
}

/// Symbols that cover `out` after `start`, as seen from the whole input `h`.
proof fn lemma_chunk_to_history(
    h: Seq<u8>,
    base: int,
    bs: int,
    s: int,
    c: int,
    d: Seq<u8>,
    old_items: Seq<LZValue>,
    new_items: Seq<LZValue>,
)
    requires
        0 <= base,
        d == h.skip(base),
        base <= h.len(),
        0 <= s <= c <= d.len(),
        0 <= bs <= base + s,
        decodes_to(h.take(bs), old_items, h.take(base + s)),
        decodes_to(d.take(s), new_items, d.take(c)),
    ensures
        decodes_to(h.take(bs), old_items + new_items, h.take(base + c)),
{
    crate::lz_decode::lemma_decode_append((h.take(bs), None, true), old_items, new_items);
    assert(h.take(base + s) =~= h.take(base) + d.take(s));
    lemma_decode_longer_history(h.take(base), (d.take(s), None, true), new_items);
    assert(h.take(base) + d.take(c) =~= h.take(base + c));
}

impl LZ77State {
    /// All the input fed to the buffer since the state was created or reset.
    pub closed spec fn consumed(&self) -> Seq<u8> {
        self.consumed@
    }

    /// How much of the input the symbols of finished blocks cover.
    pub closed spec fn block_start(&self) -> int {
        self.block_start@
    }

    /// How much of the input the symbols output so far cover.
    pub closed spec fn done(&self) -> int {
        self.done@
    }

    /// Whether the last block has been processed.
    pub closed spec fn is_last(&self) -> bool {
        self.is_last_block
    }

    /// The output stopped in the lookahead area, which only a finishing call can continue from.
    pub closed spec fn resumes_in_lookahead(&self) -> bool {
        !self.is_first_window && self.overlap > WINDOW_SIZE
    }

    /// The hash table is well formed.
    pub closed spec fn wf(&self) -> bool {
        self.hash_table.wf()
    }

    /// The counted input bytes of the current block.
    pub closed spec fn block_input_bytes(&self) -> u64 {
        self.current_block_input_bytes
    }

    /// How far the input buffer is from the start of the input: the buffer holds the input
    /// from this position on.
    pub closed spec fn base(&self, buffer: &InputBuffer) -> int {
        self.consumed@.len() - buffer.data().len()
    }

    /// The state and the buffer agree: the buffer holds the end of the input, and the positions
    /// the state will resume from lie in it.
    pub closed spec fn inv(&self, buffer: &InputBuffer) -> bool {
        let base = self.consumed@.len() - buffer.data().len();
        &&& self.wf()
        &&& buffer.wf()
        &&& 0 <= base
        &&& buffer.data() == self.consumed@.skip(base)
        &&& 0 <= self.block_start@ <= self.done@ <= self.consumed@.len()
        &&& self.current_block_input_bytes == saturate(self.done@ - self.block_start@)
        &&& self.is_first_window ==> base == 0 && self.overlap <= WINDOW_SIZE && self.overlap <= buffer.data().len()
            && self.done@ == self.overlap
        &&& !self.is_first_window ==> self.overlap <= WINDOW_SIZE + MAX_MATCH && WINDOW_SIZE + self.overlap <= buffer.data().len()
            && self.done@ == base + WINDOW_SIZE + self.overlap
    }

    /// The symbols of the current block, after the input their block starts from, decode to
    /// the input covered so far.
    pub closed spec fn block_ok(&self, items: Seq<LZValue>) -> bool {
        decodes_to(self.consumed@.take(self.block_start@), items, self.consumed@.take(self.done@))
    }

    /// The pass has not yet had a full window of input: nothing has been encoded.
    pub closed spec fn at_first_window(&self) -> bool {
        self.is_first_window
    }

    /// The matching settings: how many hash chain links are searched, the match length below
    /// which a lazy search looks one byte further, and greedy or lazy matching.
    pub closed spec fn options(&self) -> (u16, u16, MatchingType) {
        (self.max_hash_checks, self.lazy_if_less_than, self.matching_type)
    }

    /// An empty hash table, with nothing carried over from a previous chunk.
    pub closed spec fn fresh_table(&self) -> bool {
        &&& self.hash_table.hash() == 0
        &&& identity_table(self.hash_table.heads())
        &&& identity_table(self.hash_table.prevs())
        &&& self.overlap == 0
    }

    /// Input may have been taken, but nothing has been encoded: the hash table is empty, the
    /// pass is at its first window, and no block has been started or ended.
    pub closed spec fn waiting(&self) -> bool {
        &&& self.fresh_table()
        &&& self.is_first_window
        &&& !self.is_last_block
        &&& self.block_start@ == 0
    }

    /// A pass waiting for input has encoded nothing: everything taken is in the buffer.
    pub proof fn lemma_waiting(&self, buffer: &InputBuffer)
        requires
            self.waiting(),
            self.inv(buffer),
        ensures
            self.block_start() == 0,
            self.done() == 0,
            !self.is_last(),
            self.at_first_window(),
            buffer.data() == self.consumed(),
    {
        assert(self.consumed@.skip(0) =~= self.consumed@);
    }

    /// A pass that has seen nothing has taken no input and started no block.
    pub proof fn lemma_initial(&self)
        requires
            self.initial(),
        ensures
            self.consumed() == Seq::<u8>::empty(),
            self.block_start() == 0,
            self.done() == 0,
            !self.is_last(),
            self.at_first_window(),
            self.waiting(),
    {
    }

    /// The state of a pass that has seen nothing: an empty hash table, at the first window,
    /// with nothing carried over.
    pub closed spec fn initial(&self) -> bool {
        &&& self.hash_table.wf()
        &&& self.hash_table.hash() == 0
        &&& identity_table(self.hash_table.heads())
        &&& identity_table(self.hash_table.prevs())
        &&& self.is_first_window
        &&& !self.is_last_block
        &&& self.overlap == 0
        &&& self.current_block_input_bytes == 0
        &&& self.consumed@ == Seq::<u8>::empty()
        &&& self.block_start@ == 0
        &&& self.done@ == 0
    }

    /// Creates a new LZ77 state.
    pub fn new(max_hash_checks: u16, lazy_if_less_than: u16, matching_type: MatchingType) -> (r: LZ77State)
        ensures
            r.initial(),
            r.options() == (max_hash_checks, lazy_if_less_than, matching_type),
            forall|b: &InputBuffer| b.wf() && b.data() == Seq::<u8>::empty() ==> r.inv(b),
            r.consumed() == Seq::<u8>::empty(),
            r.block_start() == 0,
            r.done() == 0,
            !r.is_last(),
            !r.resumes_in_lookahead(),
            r.block_input_bytes() == 0,
            r.block_ok(Seq::<LZValue>::empty()),
    {
        let r = LZ77State {
            hash_table: ChainedHashTable::new(),
            is_first_window: true,
            is_last_block: false,
            overlap: 0,
            current_block_input_bytes: 0,
            max_hash_checks,
            lazy_if_less_than,
            matching_type,
            consumed: Ghost(Seq::empty()),
            block_start: Ghost(0),
            done: Ghost(0),
        };
        proof {
            assert(Seq::<u8>::empty().skip(0) =~= Seq::<u8>::empty());
        }
        r
    }

    /// Resets the state excluding max_hash_checks and lazy_if_less_than.
    pub fn reset(&mut self)
        requires
            old(self).wf(),
        ensures
            final(self).initial(),
            final(self).options() == old(self).options(),
            forall|b: &InputBuffer| b.wf() && b.data() == Seq::<u8>::empty() ==> final(self).inv(b),
            final(self).consumed() == Seq::<u8>::empty(),
            final(self).block_start() == 0,
            final(self).done() == 0,
            !final(self).is_last(),
            !final(self).resumes_in_lookahead(),
            final(self).block_input_bytes() == 0,
            final(self).block_ok(Seq::<LZValue>::empty()),
    {
        self.hash_table.reset();
        self.is_first_window = true;
        self.is_last_block = false;
        self.overlap = 0;
        self.current_block_input_bytes = 0;
        self.consumed = Ghost(Seq::empty());
        self.block_start = Ghost(0);
        self.done = Ghost(0);
        proof {
            assert(Seq::<u8>::empty().skip(0) =~= Seq::<u8>::empty());
        }
    }

    /// Mark the last block as processed.
    pub fn set_last(&mut self)
        ensures
            final(self).is_last(),
            final(self).consumed() == old(self).consumed(),
            final(self).block_start() == old(self).block_start(),
            final(self).done() == old(self).done(),
            final(self).block_input_bytes() == old(self).block_input_bytes(),
            forall|b: &InputBuffer| old(self).inv(b) ==> final(self).inv(b),
    {
        self.is_last_block = true;
    }

    /// Is this the last block we are outputting?
    pub fn is_last_block(&self) -> (r: bool)
        ensures
            r == self.is_last(),
    {
        self.is_last_block
    }

    /// How many bytes of input the current block contains.
    pub fn current_block_input_bytes(&self) -> (r: u64)
        ensures
            r == self.block_input_bytes(),
    {
        self.current_block_input_bytes
    }

    /// Start a new block: the input covered so far belongs to the finished blocks.
    pub fn reset_input_bytes(&mut self)
        ensures
            final(self).options() == old(self).options(),
            final(self).block_input_bytes() == 0,
            final(self).consumed() == old(self).consumed(),
            final(self).done() == old(self).done(),
            final(self).block_start() == old(self).done(),
            final(self).is_last() == old(self).is_last(),
            final(self).block_ok(Seq::<LZValue>::empty()),
            forall|b: &InputBuffer| old(self).inv(b) ==> final(self).inv(b),
            forall|b: &InputBuffer| final(self).base(b) == old(self).base(b),
            final(self).resumes_in_lookahead() == old(self).resumes_in_lookahead(),
    {
        self.current_block_input_bytes = 0;
        self.block_start = Ghost(self.done@);
    }
}


/// The number of bytes in the optional slice.
pub open spec fn opt_len(r: Option<&[u8]>) -> int {
    match r {
        Some(s) => s@.len() as int,
        None => 0,
    }
}

impl LZ77State {
    /// What `block_ok` says.
    pub proof fn lemma_block_ok(&self, items: Seq<LZValue>)
        ensures
            self.block_ok(items) == decodes_to(self.consumed().take(self.block_start()), items, self.consumed().take(
                self.done(),
            )),
    {
    }

    /// Facts that follow from the invariant.
    pub proof fn lemma_inv(&self, buffer: &InputBuffer)
        requires
            self.inv(buffer),
        ensures
            0 <= self.base(buffer),
            buffer.data() == self.consumed().skip(self.base(buffer)),
            self.base(buffer) <= self.done() <= self.consumed().len(),
            self.base(buffer) == 0 || self.done() - self.base(buffer) >= WINDOW_SIZE,
            0 <= self.block_start() <= self.done(),
            self.block_input_bytes() == saturate(self.done() - self.block_start()),
            self.wf(),
            buffer.wf(),
    {
    }
}

/// The writer's symbols after a call start with those before it.
pub open spec fn extends<W: OutputWriter>(before: W, after: W) -> bool {
    &&& after.inv()
    &&& after.buffer_view().len() >= before.buffer_view().len()
    &&& after.buffer_view().take(before.buffer_view().len() as int) == before.buffer_view()
}

proof fn lemma_extends_refl<W: OutputWriter>(w: W)
    requires
        w.inv(),
    ensures
        extends(w, w),
{
    assert(w.buffer_view().take(w.buffer_view().len() as int) =~= w.buffer_view());
}

proof fn lemma_extends_trans<W: OutputWriter>(a: W, b: W, c: W)
    requires
        extends(a, b),
        extends(b, c),
    ensures
        extends(a, c),
{
    assert(c.buffer_view().take(a.buffer_view().len() as int) =~= b.buffer_view().take(
        a.buffer_view().len() as int,
    ));
}

/// The bytes of an optional slice.
pub open spec fn opt_seq(r: Option<&[u8]>) -> Seq<u8> {
    match r {
        Some(s) => s@,
        None => Seq::<u8>::empty(),
    }
}

/// Process the first window of the input buffer. Returns `None` where the pass goes on with
/// the next window, and the status and the position reached where it stops.
#[verifier::spinoff_prover]
fn compress_first_window<W: OutputWriter>(
    state: &mut LZ77State,
    buffer: &mut InputBuffer,
    writer: &mut W,
    finish: bool,
    sync: bool,
    all_added: bool,
) -> (r: Option<(LZ77Status, usize)>)
    requires
        old(state).inv(old(buffer)),
        old(state).is_first_window,
        ready(old(writer)),
        !all_added ==> old(buffer).data().len() == BUFFER_SIZE,
        old(buffer).data().len() >= BUFFER_SIZE || finish,
        sync ==> finish,
    ensures
        final(state).options() == old(state).options(),
        final(state).inv(final(buffer)),
        final(state).consumed@ == old(state).consumed@,
        final(state).block_start@ == old(state).block_start@,
        extends(*old(writer), *final(writer)),
        old(state).block_ok(old(writer).buffer_view()) ==> final(state).block_ok(final(writer).buffer_view()),
        !all_added ==> final(buffer).data() == old(buffer).data(),
        final(state).done@ >= old(state).done@,
        r matches Some((st, _)) && st == LZ77Status::EndBlock ==> final(state).done@ > old(state).done@,
        r matches Some((st, _)) && st == LZ77Status::EndBlock ==> !ready(final(writer)),
        r is None ==> {
            &&& !final(state).is_first_window
            &&& final(buffer).data() == old(buffer).data()
            &&& ready(final(writer))
            &&& final(state).is_last_block == old(state).is_last_block
            &&& !final(state).resumes_in_lookahead()
        },
        r matches Some((st, pos)) ==> {
            &&& (st == LZ77Status::EndBlock || (st == LZ77Status::Finished && finish && all_added
                && final(state).done@ == final(state).consumed@.len() && ready(final(writer))))
            &&& pos == final(state).done@ - final(state).base(final(buffer))
            &&& final(state).is_last_block == (old(state).is_last_block || (st == LZ77Status::Finished && !sync))
            &&& final(state).resumes_in_lookahead() ==> finish && all_added
            &&& st == LZ77Status::Finished && sync ==> !final(state).resumes_in_lookahead()
        },
        old(state).fresh_table() && finish && all_added && old(buffer).data().len() <= WINDOW_SIZE
            && old(writer).buffer_view().len() + old(buffer).data().len() < MAX_BUFFER_LENGTH ==> {
            &&& r matches Some((st, _)) && st == LZ77Status::Finished
            &&& final(writer).buffer_view() == old(writer).buffer_view() + first_pass_parse(
                old(buffer).data(),
                old(state).options(),
            )
        },
{
    let ghost h = state.consumed@;
    let ghost fresh = old(state).fresh_table() && finish && all_added && old(buffer).data().len() <= WINDOW_SIZE
        && old(writer).buffer_view().len() + old(buffer).data().len() < MAX_BUFFER_LENGTH;
    let ghost items_before = writer.buffer_view();
    let ghost track = state.block_ok(writer.buffer_view());
    let window_size = DEFAULT_WINDOW_SIZE;
    proof {
        buffer.lemma_wf();
    }
    if buffer.current_end() > 2 {
        let b = buffer.get_buffer();
        // Warm up the hash with the two first values, so we can find  matches at
        // index 0.
        state.hash_table.add_initial_hash_values(b[0], b[1]);
    }
    let cur = buffer.current_end();
    let first_chunk_end = if finish && all_added {
        // If we are finishing, make sure we include data in the lookahead area.
        cur
    } else if cur < window_size {
        cur
    } else {
        window_size
    };
    let start = state.overlap;
    proof {
        if fresh {
            assert(table_view(state.hash_table) == start_table(buffer.data())) by {
                let e = Seq::new(WINDOW_SIZE as nat, |n: int| n as u16);
                assert(state.hash_table.heads() =~= e);
                assert(state.hash_table.prevs() =~= e);
            }
        }
    }
    let (overlap, p_status) = process_chunk(
        buffer.get_buffer(),
        &(start..first_chunk_end),
        &mut state.hash_table,
        writer,
        state.max_hash_checks,
        state.lazy_if_less_than as usize,
        state.matching_type,
    );
    let ghost new_items = writer.buffer_view().skip(items_before.len() as int);
    proof {
        assert(writer.buffer_view() =~= items_before + new_items);
        assert(writer.buffer_view().take(items_before.len() as int) =~= items_before);
        if fresh {
            reveal(follows_parse);
            assert(start == 0);
            assert(first_chunk_end == buffer.data().len());
        }
    }
    match p_status {
        ProcessStatus::BufferFull(written) => {
            proof {
                if fresh {
                    crate::lz_decode::lemma_decode_count((buffer.data().take(0), None, true), new_items);
                    assert(false);
                }
                if track {
                    lemma_chunk_to_history(h, 0, state.block_start@, start as int, written as int, buffer.data(), items_before, new_items);
                }
                state.done = Ghost(written as int);
                lemma_saturate_add(state.done@ - state.block_start@ - (written - start), (written - start) as int);
            }
            state.current_block_input_bytes = state.current_block_input_bytes.saturating_add((written - start) as u64);
            // The buffer being full in the first window can only really happen in
            // tests where the buffer was filled beforehand.
            if overlap > 0 {
                state.overlap = overlap;
                state.is_first_window = false;
            } else if written <= window_size {
                state.overlap = written;
            } else {
                // The output stopped in the second window or the lookahead.
                state.overlap = written - window_size;
                state.is_first_window = false;
            }
            return Some((LZ77Status::EndBlock, written));
        },
        ProcessStatus::Complete => {},
    }
    proof {
        if track {
            lemma_chunk_to_history(h, 0, state.block_start@, start as int, (first_chunk_end + overlap) as int, buffer.data(), items_before, new_items);
        }
        state.done = Ghost((first_chunk_end + overlap) as int);
        lemma_saturate_add(state.done@ - state.block_start@ - (first_chunk_end - start + overlap), (first_chunk_end - start + overlap) as int);
    }
    state.overlap = overlap;
    state.current_block_input_bytes = state.current_block_input_bytes.saturating_add((first_chunk_end - start + overlap) as u64);
    // We are at the first window so we don't need to slide the hash table yet.
    // If finishing or syncing, we stop here.
    if first_chunk_end >= cur && finish {
        if !sync {
            state.is_last_block = true;
        }
        if cur <= window_size {
            // Further input continues from the end of what was processed.
            state.overlap = first_chunk_end;
            return Some((LZ77Status::Finished, first_chunk_end));
        } else {
            // Keep the last window as history, as after a later window.
            state.overlap = 0;
            let n = buffer.move_down();
            state.hash_table.slide(n);
            state.is_first_window = false;
            proof {
                assert(buffer.data() =~= state.consumed@.skip(state.consumed@.len() - buffer.data().len()));
            }
            return Some((LZ77Status::Finished, window_size));
        }
    }
    // Otherwise, continue.
    state.is_first_window = false;
    None
}

/// Slide the hash table and the input buffer on by a window, adding more of `remaining` to
/// the buffer, after a window was processed up to `overlap` bytes past its end.
fn slide_on<'a>(state: &mut LZ77State, buffer: &mut InputBuffer, remaining: Option<&'a [u8]>, overlap: usize) -> (r:
    Option<&'a [u8]>)
    requires
        old(buffer).wf(),
        old(buffer).data().len() == BUFFER_SIZE,
        old(state).hash_table.wf(),
        !old(state).is_first_window,
        old(state).consumed@.len() >= BUFFER_SIZE,
        old(buffer).data() == old(state).consumed@.skip(old(state).consumed@.len() - BUFFER_SIZE),
        0 <= old(state).block_start@ <= old(state).done@ <= old(state).consumed@.len(),
        old(state).current_block_input_bytes == saturate(old(state).done@ - old(state).block_start@),
        overlap <= MAX_MATCH,
        old(state).done@ == old(state).consumed@.len() - BUFFER_SIZE + 2 * WINDOW_SIZE + overlap,
    ensures
        final(state).options() == old(state).options(),
        ({
            let k = opt_len(remaining) - opt_len(r);
            &&& 0 <= k
            &&& final(state).consumed@ == old(state).consumed@ + opt_seq(remaining).take(k)
            &&& r matches Some(s) ==> s@ == opt_seq(remaining).skip(k) && final(buffer).data().len() == BUFFER_SIZE
        }),
        final(state).inv(final(buffer)),
        final(state).done@ == old(state).done@,
        final(state).block_start@ == old(state).block_start@,
        final(state).is_last_block == old(state).is_last_block,
        final(state).overlap == overlap,
        final(buffer).data().len() >= WINDOW_SIZE + overlap,
        final(state).consumed@.len() - final(buffer).data().len() == old(state).consumed@.len() - BUFFER_SIZE + WINDOW_SIZE,
        !final(state).is_first_window,
        !final(state).resumes_in_lookahead(),
        forall|items: Seq<LZValue>| old(state).block_ok(items) ==> final(state).block_ok(items),
        opt_len(r) < opt_len(remaining) || (opt_len(remaining) == 0 && final(buffer).data().len() < BUFFER_SIZE),
{
    let ghost h = state.consumed@;
    state.hash_table.slide(DEFAULT_WINDOW_SIZE);
    let rest = match remaining {
        Some(r) => r,
        None => &[],
    };
    let ghost b1 = buffer.data();
    // Discard the data we no longer need and add new data.
    let new_rem = buffer.slide(rest);
    proof {
        lemma_slide_rest(h, b1, buffer.data(), rest@, opt_len(new_rem), opt_seq(new_rem));
        state.consumed = Ghost(h + rest@.take(rest@.len() - opt_len(new_rem)));
        assert(state.consumed@.take(state.done@) =~= h.take(state.done@));
        assert(state.consumed@.take(state.block_start@) =~= h.take(state.block_start@));
        assert(opt_seq(remaining) =~= rest@);
    }
    state.overlap = overlap;
    new_rem
}

/// Process the window after the first one in the input buffer, sliding the buffer on to the
/// next one where the pass goes on. Returns what remains of `remaining` after the slide, and
/// `None` where the pass goes on, or the status and the position reached where it stops.
#[verifier::spinoff_prover]
fn compress_later_window<'a, W: OutputWriter>(
    state: &mut LZ77State,
    buffer: &mut InputBuffer,
    writer: &mut W,
    finish: bool,
    sync: bool,
    remaining: Option<&'a [u8]>,
) -> (r: (Option<&'a [u8]>, Option<(LZ77Status, usize)>))
    requires
        old(state).inv(old(buffer)),
        !old(state).is_first_window,
        ready(old(writer)),
        remaining is Some ==> old(buffer).data().len() == BUFFER_SIZE,
        old(buffer).data().len() >= BUFFER_SIZE || finish,
        old(state).resumes_in_lookahead() ==> finish && remaining is None,
        sync ==> finish,
    ensures
        final(state).options() == old(state).options(),
        ({
            let k = opt_len(remaining) - opt_len(r.0);
            &&& 0 <= k
            &&& final(state).consumed@ == old(state).consumed@ + opt_seq(remaining).take(k)
            &&& r.0 matches Some(s) ==> s@ == opt_seq(remaining).skip(k) && final(buffer).data().len() == BUFFER_SIZE
        }),
        final(state).inv(final(buffer)),
        final(state).block_start@ == old(state).block_start@,
        extends(*old(writer), *final(writer)),
        old(state).block_ok(old(writer).buffer_view()) ==> final(state).block_ok(final(writer).buffer_view()),
        final(state).done@ >= old(state).done@,
        r.1 matches Some((st, _)) && st == LZ77Status::EndBlock ==> final(state).done@ > old(state).done@,
        r.1 matches Some((st, _)) && st == LZ77Status::EndBlock ==> !ready(final(writer)),
        r.1 is None ==> {
            &&& !final(state).is_first_window
            &&& ready(final(writer))
            &&& final(state).is_last_block == old(state).is_last_block
            &&& !final(state).resumes_in_lookahead()
            &&& (opt_len(r.0) < opt_len(remaining) || (opt_len(remaining) == 0
                && final(buffer).data().len() < BUFFER_SIZE && old(buffer).data().len() == BUFFER_SIZE))
        },
        r.1 matches Some((st, pos)) ==> {
            &&& (st == LZ77Status::EndBlock || (st == LZ77Status::Finished && finish && remaining is None
                && r.0 is None && final(state).done@ == final(state).consumed@.len() && ready(final(writer))))
            &&& pos == final(state).done@ - final(state).base(final(buffer))
            &&& final(state).is_last_block == (old(state).is_last_block || (st == LZ77Status::Finished && !sync))
            &&& final(state).resumes_in_lookahead() ==> finish && r.0 is None
            &&& st == LZ77Status::Finished && sync ==> !final(state).resumes_in_lookahead()
        },
{
    let ghost h = state.consumed@;
    let ghost items_before = writer.buffer_view();
    let ghost track = state.block_ok(writer.buffer_view());
    let ghost base = state.consumed@.len() - buffer.data().len();
    let window_size = DEFAULT_WINDOW_SIZE;
    proof {
        buffer.lemma_wf();
    }
    // This isn't the first chunk, so we start reading at one window in in the
    // buffer plus any additional overlap from earlier.
    let start = window_size + state.overlap;
    let cur = buffer.current_end();
    // Determine where we have to stop iterating to slide the buffer and hash,
    // or stop because we are at the end of the input data.
    let end = if remaining.is_none() && finish {
        // If we are finishing, make sure we include the lookahead data.
        cur
    } else if cur < window_size * 2 {
        cur
    } else {
        // Otherwise we process at most one window size of data.
        window_size * 2
    };
    let (overlap, p_status) = process_chunk(
        buffer.get_buffer(),
        &(start..end),
        &mut state.hash_table,
        writer,
        state.max_hash_checks,
        state.lazy_if_less_than as usize,
        state.matching_type,
    );
    let ghost new_items = writer.buffer_view().skip(items_before.len() as int);
    proof {
        assert(writer.buffer_view() =~= items_before + new_items);
        assert(writer.buffer_view().take(items_before.len() as int) =~= items_before);
        assert(opt_seq(remaining).take(0) =~= Seq::<u8>::empty());
        assert(opt_seq(remaining).skip(0) =~= opt_seq(remaining));
        assert(h + opt_seq(remaining).take(0) =~= h);
    }
    match p_status {
        ProcessStatus::BufferFull(written) => {
            proof {
                if track {
                    lemma_chunk_to_history(h, base, state.block_start@, start as int, written as int, buffer.data(), items_before, new_items);
                }
                state.done = Ghost(base + written);
                lemma_saturate_add(state.done@ - state.block_start@ - (written - start), (written - start) as int);
            }
            state.current_block_input_bytes = state.current_block_input_bytes.saturating_add((written - start) as u64);
            // If the buffer is full, return and end the block.
            if overlap > 0 {
                assert(cur == BUFFER_SIZE && end == 2 * window_size);
                // The last match reaches into the next window: slide to it.
                let new_rem = slide_on(state, buffer, remaining, overlap);
                return (new_rem, Some((LZ77Status::EndBlock, window_size + overlap)));
            } else {
                state.overlap = written - window_size;
                return (remaining, Some((LZ77Status::EndBlock, written)));
            }
        },
        ProcessStatus::Complete => {},
    }
    proof {
        if track {
            lemma_chunk_to_history(h, base, state.block_start@, start as int, (end + overlap) as int, buffer.data(), items_before, new_items);
        }
        state.done = Ghost(base + end + overlap);
        lemma_saturate_add(state.done@ - state.block_start@ - (end - start + overlap), (end - start + overlap) as int);
    }
    state.current_block_input_bytes = state.current_block_input_bytes.saturating_add((end - start + overlap) as u64);
    // The buffer is not full, but we still need to note if there is any overlap into the
    // next window.
    state.overlap = overlap;
    if remaining.is_none() && finish {
        // We stopped before or at the window size, so we are at the end.
        if !sync {
            // If we are finishing and not syncing, we simply indicate that we are done, and
            // note where the output stopped.
            state.is_last_block = true;
            state.overlap = end - window_size;
            (remaining, Some((LZ77Status::Finished, end)))
        } else {
            // For sync flushing we need to slide the buffer and the hash chains so that the
            // next call to this function starts at the right place.
            state.overlap = 0;
            let n = buffer.move_down();
            state.hash_table.slide(n);
            proof {
                assert(buffer.data() =~= state.consumed@.skip(state.consumed@.len() - buffer.data().len()));
            }
            (remaining, Some((LZ77Status::Finished, window_size)))
        }
    } else {
        // We are not at the end, so slide and continue.
        // We slide the hash table back to make space for new hash values
        // We only need to remember 2^15 bytes back (the maximum distance allowed by the
        // deflate spec).
        assert(cur == BUFFER_SIZE && end == 2 * window_size);
        let new_rem = slide_on(state, buffer, remaining, overlap);
        (new_rem, None)
    }
}

/// The input seen after sliding the buffer and adding more of `rest`.
proof fn lemma_slide_rest(h: Seq<u8>, b1: Seq<u8>, b2: Seq<u8>, rest: Seq<u8>, left: int, left_seq: Seq<u8>)
    requires
        b1.len() == BUFFER_SIZE,
        h.len() >= b1.len(),
        b1 == h.skip(h.len() - b1.len()),
        rest.len() <= WINDOW_SIZE ==> b2 == b1.skip(WINDOW_SIZE as int) + rest && left == 0,
        rest.len() > WINDOW_SIZE ==> b2 == b1.skip(WINDOW_SIZE as int) + rest.take(WINDOW_SIZE as int)
            && left == rest.len() - WINDOW_SIZE && left_seq == rest.skip(WINDOW_SIZE as int),
    ensures
        0 <= left <= rest.len(),
        b2 == (h + rest.take(rest.len() - left)).skip((h + rest.take(rest.len() - left)).len() - b2.len()),
        left > 0 ==> left_seq == rest.skip(rest.len() - left) && b2.len() == BUFFER_SIZE,
        left == 0 ==> b2.len() == BUFFER_SIZE - WINDOW_SIZE + rest.len(),
{
    if rest.len() <= WINDOW_SIZE {
        assert(rest.take(rest.len() as int) =~= rest);
    }
    assert(b2 =~= (h + rest.take(rest.len() - left)).skip((h + rest.take(rest.len() - left)).len() - b2.len()));
}

/// Compress a slice with lz77 compression.
///
/// This function processes one window at a time, and returns when there is no input left,
/// or it determines it's time to end a block.
///
/// Returns the number of bytes of the input that were consumed, a status describing
/// whether there is no input, it's time to finish, or it's time to end the block, and the
/// position in the input buffer up to which the input has been processed.
#[verifier::spinoff_prover]
pub fn lz77_compress_block<W: OutputWriter>(
    data: &[u8],
    state: &mut LZ77State,
    buffer: &mut InputBuffer,
    writer: &mut W,
    flush: Flush,
) -> (r: (usize, LZ77Status, usize))
    requires
        old(state).inv(old(buffer)),
        ready(old(writer)),
        old(state).resumes_in_lookahead() ==> (flush == Flush::Finish || flush == Flush::Sync)
            && old(state).consumed().len() - old(state).base(old(buffer)) + data@.len() <= BUFFER_SIZE,
    ensures
        flush == Flush::NoFlush && old(state).at_first_window() && old(state).consumed().len() + data@.len()
            < BUFFER_SIZE ==> r == (data@.len() as usize, LZ77Status::NeedInput, 0usize) && *final(writer)
            == *old(writer) && final(state).at_first_window() && final(buffer).data() == old(buffer).data()
            + data@ && (old(state).waiting() ==> final(state).waiting()),
        old(state).waiting() && (flush == Flush::Finish || flush == Flush::Sync) && old(state).consumed().len()
            + data@.len() <= WINDOW_SIZE && old(writer).buffer_view().len() + old(state).consumed().len() + data@.len()
            < MAX_BUFFER_LENGTH ==> r.0 == data@.len() && r.1 == LZ77Status::Finished && final(writer).buffer_view()
            == old(writer).buffer_view() + first_pass_parse(old(state).consumed() + data@, old(state).options()),
        final(state).options() == old(state).options(),
        final(state).inv(final(buffer)),
        r.0 <= data@.len(),
        final(state).consumed() == old(state).consumed() + data@.take(r.0 as int),
        final(state).block_start() == old(state).block_start(),
        final(writer).inv(),
        final(writer).buffer_view().len() >= old(writer).buffer_view().len(),
        final(writer).buffer_view().take(old(writer).buffer_view().len() as int) == old(writer).buffer_view(),
        old(state).block_ok(old(writer).buffer_view()) ==> final(state).block_ok(final(writer).buffer_view()),
        r.1 != LZ77Status::EndBlock ==> r.0 == data@.len() && ready(final(writer)),
        r.1 == LZ77Status::Finished ==> final(state).done() == final(state).consumed().len(),
        r.1 == LZ77Status::Finished ==> flush == Flush::Finish || flush == Flush::Sync,
        final(state).is_last() == (old(state).is_last() || (r.1 == LZ77Status::Finished && flush != Flush::Sync)),
        r.1 != LZ77Status::NeedInput ==> r.2 == final(state).done() - final(state).base(final(buffer)),
        final(state).done() >= old(state).done(),
        r.1 == LZ77Status::EndBlock ==> final(state).done() > old(state).done(),
        r.1 == LZ77Status::EndBlock ==> writer_full(final(writer)),
        r.1 == LZ77Status::NeedInput ==> flush != Flush::Finish && flush != Flush::Sync,
        r.1 == LZ77Status::Finished && flush == Flush::Sync ==> !final(state).resumes_in_lookahead(),
        final(state).resumes_in_lookahead() ==> r.0 == data@.len() && (flush == Flush::Finish || flush
            == Flush::Sync),
{
    let ghost h0 = state.consumed@;
    let ghost old_items = writer.buffer_view();
    let ghost track = state.block_ok(writer.buffer_view());
    // Currently we only support the maximum window size
    let window_size = DEFAULT_WINDOW_SIZE;
    // Indicates whether we should try to process all the data including the lookahead, or if we
    // should wait until we have at least one window size of data before doing anything.
    let finish = flush == Flush::Finish || flush == Flush::Sync;
    let sync = flush == Flush::Sync;
    let mut current_position: usize = 0;
    // The current status of the encoding.
    let mut status = LZ77Status::EndBlock;
    // Add data to the input buffer and keep a reference to the slice of data not added yet.
    let ghost b0 = buffer.data();
    proof {
        buffer.lemma_wf();
    }
    let mut remaining_data = buffer.add_data(data);
    proof {
        let added = data@.len() - opt_len(remaining_data);
        assert(data@.take(data@.len() as int) =~= data@);
        assert(b0.len() <= BUFFER_SIZE);
        if b0.len() + data@.len() > BUFFER_SIZE {
            let k = BUFFER_SIZE - b0.len();
            assert(opt_len(remaining_data) == data@.len() - k);
            assert(added == k);
        } else {
            assert(remaining_data is None);
        }
        state.consumed = Ghost(h0 + data@.take(added));
        assert(buffer.data() =~= b0 + data@.take(added));
        assert(state.consumed@.skip(state.consumed@.len() - buffer.data().len()) =~= buffer.data()) by {
            assert(b0 == h0.skip(h0.len() - b0.len()));
        }
        assert(state.consumed@.take(state.done@) =~= h0.take(state.done@));
        assert(state.consumed@.take(state.block_start@) =~= h0.take(state.block_start@));
    }
    proof {
        lemma_extends_refl(*writer);
    }
    let ghost quiet = flush == Flush::NoFlush && old(state).is_first_window && old(state).consumed@.len()
        + data@.len() < BUFFER_SIZE;
    let ghost fresh = old(state).waiting() && finish && h0.len() + data@.len() <= WINDOW_SIZE
        && old(writer).buffer_view().len() + h0.len() + data@.len() < MAX_BUFFER_LENGTH;
    let ghost was_waiting = old(state).waiting();
    loop
        invariant_except_break
            quiet ==> *writer == *old(writer) && state.is_first_window && buffer.data().len() < BUFFER_SIZE,
            quiet ==> flush == Flush::NoFlush && current_position == 0 && remaining_data is None
                && buffer.data() == b0 + data@ && (was_waiting ==> state.waiting()),
            was_waiting == old(state).waiting(),
            fresh ==> *writer == *old(writer) && state.fresh_table() && state.is_first_window && buffer.data()
                == h0 + data@ && remaining_data is None && state.options() == old(state).options(),
            fresh ==> finish && h0.len() + data@.len() <= WINDOW_SIZE && old(writer).buffer_view().len() + h0.len()
                + data@.len() < MAX_BUFFER_LENGTH,
            ready(writer),
            state.is_last_block == old(state).is_last(),
            state.resumes_in_lookahead() ==> finish && remaining_data is None,
        invariant
            state.inv(buffer),
            state.block_start@ == old(state).block_start(),
            opt_len(remaining_data) <= data@.len(),
            state.consumed@ == h0 + data@.take(data@.len() - opt_len(remaining_data)),
            h0 == old(state).consumed(),
            remaining_data matches Some(rest) ==> rest@ == data@.skip(data@.len() - opt_len(remaining_data))
                && buffer.data().len() == BUFFER_SIZE,
            finish == (flush == Flush::Finish || flush == Flush::Sync),
            sync == (flush == Flush::Sync),
            extends(*old(writer), *writer),
            track == old(state).block_ok(old(writer).buffer_view()),
            track ==> state.block_ok(writer.buffer_view()),
            state.done@ >= old(state).done(),
            state.options() == old(state).options(),
        ensures
            quiet ==> status == LZ77Status::NeedInput && *writer == *old(writer) && state.is_first_window
                && current_position == 0 && remaining_data is None && buffer.data() == b0 + data@
                && (was_waiting ==> state.waiting()),
            fresh ==> status == LZ77Status::Finished && remaining_data is None && writer.buffer_view()
                == old(writer).buffer_view() + first_pass_parse(h0 + data@, old(state).options()),
            state.done@ >= old(state).done(),
            status == LZ77Status::EndBlock ==> state.done@ > old(state).done(),
            status == LZ77Status::EndBlock ==> !ready(writer),
            status == LZ77Status::NeedInput ==> !finish,
            status == LZ77Status::Finished && sync ==> !state.resumes_in_lookahead(),
            state.resumes_in_lookahead() ==> finish && remaining_data is None,
            state.inv(buffer),
            state.block_start@ == old(state).block_start(),
            opt_len(remaining_data) <= data@.len(),
            state.consumed@ == h0 + data@.take(data@.len() - opt_len(remaining_data)),
            extends(*old(writer), *writer),
            track ==> state.block_ok(writer.buffer_view()),
            status != LZ77Status::EndBlock ==> remaining_data is None && ready(writer),
            status == LZ77Status::Finished ==> state.done@ == state.consumed@.len() && finish,
            state.is_last_block == (old(state).is_last() || (status == LZ77Status::Finished && !sync)),
            status != LZ77Status::NeedInput ==> current_position == state.done@ - state.base(buffer),
        decreases opt_len(remaining_data), (if state.is_first_window { 2int } else { 0int }) + (if buffer.data().len()
            == BUFFER_SIZE { 1int } else { 0int }),
    {
        proof {
            buffer.lemma_wf();
        }
        let ghost w_before = *writer;
        let cur = buffer.current_end();
        if !(cur >= BUFFER_SIZE || finish) {
            // The caller has not indicated that they want to finish or flush, and there is less
            // than a window + lookahead of new data, so we wait for more.
            status = LZ77Status::NeedInput;
            break;
        }
        if state.is_first_window {
            // Don't do anything until we are either flushing, or we have at least one window of
            // data.
            let res = compress_first_window(state, buffer, writer, finish, sync, remaining_data.is_none());
            proof {
                lemma_extends_trans(*old(writer), w_before, *writer);
            }
            match res {
                Some((st, pos)) => {
                    status = st;
                    current_position = pos;
                    break;
                },
                None => {},
            }
        } else {
            let ghost rem_before = opt_seq(remaining_data);
            let ghost a = data@.len() - opt_len(remaining_data);
            let (new_rem, res) = compress_later_window(state, buffer, writer, finish, sync, remaining_data);
            proof {
                lemma_extends_trans(*old(writer), w_before, *writer);
                let k = rem_before.len() - opt_len(new_rem);
                assert(remaining_data is None ==> rem_before =~= data@.skip(a));
                assert(data@.take(a) + data@.skip(a).take(k) =~= data@.take(a + k));
                assert(h0 + data@.take(a) + data@.skip(a).take(k) =~= h0 + data@.take(a + k));
                assert(data@.skip(a).skip(k) =~= data@.skip(a + k));
            }
            remaining_data = new_rem;
            match res {
                Some((st, pos)) => {
                    status = st;
                    current_position = pos;
                    break;
                },
                None => {},
            }
        }
    }
    let rem = match remaining_data {
        Some(r) => r.len(),
        None => 0,
    };
    proof {
        reveal(writer_full);
    }
    (data.len() - rem, status, current_position)
}


/// Compress a slice with lz77 compression, finishing: all the input is processed, including
/// the lookahead, unless the output buffer fills up first.
pub fn lz77_compress_block_finish<W: OutputWriter>(
    data: &[u8],
    state: &mut LZ77State,
    buffer: &mut InputBuffer,
    writer: &mut W,
) -> (r: (usize, LZ77Status))
    requires
        old(state).inv(old(buffer)),
        ready(old(writer)),
        old(state).resumes_in_lookahead() ==> old(state).consumed().len() - old(state).base(old(buffer))
            + data@.len() <= BUFFER_SIZE,
    ensures
        final(state).inv(final(buffer)),
        r.0 <= data@.len(),
        final(state).consumed() == old(state).consumed() + data@.take(r.0 as int),
        final(state).block_start() == old(state).block_start(),
        extends(*old(writer), *final(writer)),
        old(state).block_ok(old(writer).buffer_view()) ==> final(state).block_ok(final(writer).buffer_view()),
        r.1 != LZ77Status::NeedInput,
        r.1 == LZ77Status::Finished ==> r.0 == data@.len() && ready(final(writer)) && final(state).done()
            == final(state).consumed().len(),
        final(state).is_last() == (old(state).is_last() || r.1 == LZ77Status::Finished),
        final(state).done() >= old(state).done(),
        r.1 == LZ77Status::EndBlock ==> final(state).done() > old(state).done(),
        r.1 == LZ77Status::EndBlock ==> writer_full(final(writer)),
        final(state).resumes_in_lookahead() ==> r.0 == data@.len(),
        old(state).waiting() && old(state).consumed().len() + data@.len() <= WINDOW_SIZE && old(writer).buffer_view().len()
            + old(state).consumed().len() + data@.len() < MAX_BUFFER_LENGTH ==> r.0 == data@.len() && r.1
            == LZ77Status::Finished && final(state).is_last() && final(writer).buffer_view() == old(writer).buffer_view()
            + first_pass_parse(old(state).consumed() + data@, old(state).options()),
{
    let (consumed, status, _) = lz77_compress_block(data, state, buffer, writer, Flush::Finish);
    (consumed, status)
}

/// Copying a match one byte at a time: each byte comes from `d` bytes back.
proof fn lemma_copy_match_step(s: Seq<u8>, d: int, n: int)
    requires
        1 <= d <= s.len(),
        0 <= n,
    ensures
        copy_match(s, d, n + 1) == copy_match(s, d, n).push(copy_match(s, d, n)[s.len() + n - d]),
{
    if n >= d {
        assert((n - d) % d == n % d) by (nonlinear_arith)
            requires
                n >= d,
                d >= 1,
        {
            vstd::arithmetic::div_mod::lemma_mod_sub_multiples_vanish(n, d);
        }
    } else {
        assert(n % d == n) by (nonlinear_arith)
            requires
                0 <= n < d,
        ;
    }
    assert(copy_match(s, d, n + 1) =~= copy_match(s, d, n).push(copy_match(s, d, n)[s.len() + n - d]));
}

proof fn lemma_copy_match_zero(s: Seq<u8>, d: int)
    ensures
        copy_match(s, d, 0) == s,
{
    assert(copy_match(s, d, 0) =~= s);
}

/// A prefix of well formed symbols is well formed.
proof fn lemma_decode_prefix_ok(s: DecodeState, items: Seq<LZValue>, k: int)
    requires
        0 <= k <= items.len(),
        lz_decode_from(s, items).2,
    ensures
        lz_decode_from(s, items.take(k)).2,
{
    crate::lz_decode::lemma_decode_append(s, items.take(k), items.skip(k));
    assert(items.take(k) + items.skip(k) =~= items);
    if !lz_decode_from(s, items.take(k)).2 {
        crate::lz_decode::lemma_decode_failed(lz_decode_from(s, items.take(k)), items.skip(k));
    }
}

/// Turn lz77 symbols back into the bytes they stand for, where matches may reach back into
/// `back_buffer`, the data before the symbols.
#[verifier::spinoff_prover]
pub fn decompress_lz77_with_backbuffer(input: &[LZValue], back_buffer: &[u8]) -> (r: Vec<u8>)
    requires
        lz_decode(back_buffer@, input@).2,
    ensures
        r@ == lz_decode(back_buffer@, input@).0.skip(back_buffer@.len() as int),
{
    let mut output: Vec<u8> = Vec::new();
    // A match length waiting for its distance.
    let mut pending: Option<u16> = None;
    let mut i: usize = 0;
    proof {
        assert(input@.take(0) =~= Seq::<LZValue>::empty());
        assert(back_buffer@ + output@ =~= back_buffer@);
    }
    while i < input.len()
        invariant
            i <= input@.len(),
            lz_decode(back_buffer@, input@).2,
            lz_decode_from((back_buffer@, None, true), input@.take(i as int)) == (back_buffer@ + output@, pending, true),
        decreases input@.len() - i,
    {
        let ghost s = (back_buffer@ + output@, pending, true);
        proof {
            lemma_decode_prefix_ok((back_buffer@, None, true), input@, i + 1);
            assert(input@.take(i + 1) =~= input@.take(i as int).push(input@[i as int]));
            crate::lz_decode::lemma_decode_push((back_buffer@, None, true), input@.take(i as int), input@[i as int]);
        }
        match input[i].value() {
            LDPair::Literal(l) => {
                output.push(l);
                proof {
                    assert(back_buffer@ + output@ =~= s.0.push(l));
                }
            },
            LDPair::Length(l) => {
                pending = Some(l);
            },
            LDPair::Distance(d) => {
                // We found a match, so we have to get the data that the match refers to.
                let l = match pending {
                    Some(l) => l,
                    None => 0,
                };
                let d = d as usize;
                let ghost before = back_buffer@ + output@;
                let mut n: usize = 0;
                proof {
                    lemma_copy_match_zero(before, d as int);
                }
                while n < l as usize
                    invariant
                        1 <= d <= before.len(),
                        before.len() == back_buffer@.len() + output@.len() - n,
                        back_buffer@ + output@ == copy_match(before, d as int, n as int),
                        n <= l,
                    decreases l - n,
                {
                    proof {
                        lemma_copy_match_step(before, d as int, n as int);
                    }
                    let ol = output.len();
                    // Get match data from the back buffer if the match extends that far, and
                    // from the data decompressed so far otherwise.
                    let b = if ol >= d {
                        output[ol - d]
                    } else {
                        back_buffer[back_buffer.len() - (d - ol)]
                    };
                    output.push(b);
                    n = n + 1;
                    proof {
                        assert(back_buffer@ + output@ =~= copy_match(before, d as int, n - 1).push(b));
                    }
                }
                pending = None;
            },
        }
        i = i + 1;
    }
    proof {
        assert(input@.take(input@.len() as int) =~= input@);
        assert((back_buffer@ + output@).skip(back_buffer@.len() as int) =~= output@);
    }
    output
}

/// Turn lz77 symbols back into the bytes they stand for.
pub fn decompress_lz77(input: &[LZValue]) -> (r: Vec<u8>)
    requires
        lz_decode(Seq::empty(), input@).2,
    ensures
        r@ == lz_decode(Seq::empty(), input@).0,
{
    let empty: [u8; 0] = [];
    proof {
        assert(empty@ =~= Seq::<u8>::empty());
    }
    let r = decompress_lz77_with_backbuffer(input, empty.as_slice());
    proof {
        assert(lz_decode(Seq::empty(), input@).0.skip(0) =~= lz_decode(Seq::empty(), input@).0);
    }
    r
}

/// The lz77 pass with its buffers, as used by the tests.
pub struct TestStruct {
    pub state: LZ77State,
    pub buffer: InputBuffer,
    pub writer: FixedWriter,
}

impl TestStruct {
    /// The state and the buffer agree and the writer is well formed.
    pub open spec fn wf(&self) -> bool {
        self.state.inv(&self.buffer) && self.writer.inv()
    }

    /// A pass with the high compression settings.
    pub fn new() -> (r: TestStruct)
        ensures
            r.wf(),
            r.state.consumed() == Seq::<u8>::empty(),
            r.writer.buffer_view() == Seq::<LZValue>::empty(),
            !r.state.is_last(),
            r.state.initial(),
            r.state.options() == (HIGH_MAX_HASH_CHECKS, HIGH_LAZY_IF_LESS_THAN, MatchingType::Lazy),
    {
        TestStruct::with_config(HIGH_MAX_HASH_CHECKS, HIGH_LAZY_IF_LESS_THAN, MatchingType::Lazy)
    }

    /// A pass with the given settings.
    pub fn with_config(max_hash_checks: u16, lazy_if_less_than: u16, matching_type: MatchingType) -> (r:
        TestStruct)
        ensures
            r.wf(),
            r.state.consumed() == Seq::<u8>::empty(),
            r.state.done() == 0,
            r.state.block_start() == 0,
            r.state.block_ok(Seq::<LZValue>::empty()),
            r.writer.buffer_view() == Seq::<LZValue>::empty(),
            !r.state.is_last(),
            r.state.initial(),
            r.state.options() == (max_hash_checks, lazy_if_less_than, matching_type),
    {
        let buffer = InputBuffer::empty();
        let state = LZ77State::new(max_hash_checks, lazy_if_less_than, matching_type);
        TestStruct { state, buffer, writer: FixedWriter::new() }
    }

    /// Feed `data` to the pass, finishing if `flush` is set.
    pub fn compress_block(&mut self, data: &[u8], flush: bool) -> (r: (usize, LZ77Status, usize))
        requires
            old(self).wf(),
            ready(&old(self).writer),
            old(self).state.resumes_in_lookahead() ==> flush && old(self).state.consumed().len()
                - old(self).state.base(&old(self).buffer) + data@.len() <= BUFFER_SIZE,
        ensures
            final(self).wf(),
            r.0 <= data@.len(),
            final(self).state.consumed() == old(self).state.consumed() + data@.take(r.0 as int),
            extends(old(self).writer, final(self).writer),
            old(self).state.block_ok(old(self).writer.buffer_view()) ==> final(self).state.block_ok(
                final(self).writer.buffer_view(),
            ),
            r.1 != LZ77Status::EndBlock ==> r.0 == data@.len(),
            r.1 == LZ77Status::Finished ==> flush && final(self).state.done() == final(self).state.consumed().len(),
            r.1 == LZ77Status::NeedInput ==> !flush,
            !flush && old(self).state.waiting() && old(self).state.consumed().len() + data@.len() < BUFFER_SIZE ==> r
                == (data@.len() as usize, LZ77Status::NeedInput, 0usize) && final(self).state.waiting()
                && final(self).writer == old(self).writer && final(self).buffer.data() == final(self).state.consumed(),
            flush && old(self).state.waiting() && old(self).state.consumed().len() + data@.len() <= WINDOW_SIZE
                && old(self).writer.buffer_view().len() + old(self).state.consumed().len() + data@.len()
                < MAX_BUFFER_LENGTH ==> r.0 == data@.len() && r.1 == LZ77Status::Finished
                && final(self).writer.buffer_view() == old(self).writer.buffer_view() + first_pass_parse(
                old(self).state.consumed() + data@,
                old(self).state.options(),
            ),
            final(self).state.options() == old(self).state.options(),
    {
        let flush_mode = if flush { Flush::Finish } else { Flush::NoFlush };
        lz77_compress_block(data, &mut self.state, &mut self.buffer, &mut self.writer, flush_mode)
    }
}

/// Compress a slice with lz77 compression, with the high compression settings.
pub fn lz77_compress(data: &[u8]) -> (r: Option<Vec<LZValue>>)
    ensures
        r matches Some(v) && decodes_to(Seq::empty(), v@, data@),
        r matches Some(v) && (data@.len() <= WINDOW_SIZE ==> v@ == first_pass_parse(
            data@,
            (HIGH_MAX_HASH_CHECKS, HIGH_LAZY_IF_LESS_THAN, MatchingType::Lazy),
        )),
{
    lz77_compress_conf(data, HIGH_MAX_HASH_CHECKS, HIGH_LAZY_IF_LESS_THAN, MatchingType::Lazy)
}

/// Compress a slice, not storing frequency information
///
/// This is a convenience function for compression with fixed huffman values. Input that fits
/// in one window is parsed as one chunk: the symbols are `first_pass_parse` of it.
#[verifier::spinoff_prover]
pub fn lz77_compress_conf(
    data: &[u8],
    max_hash_checks: u16,
    lazy_if_less_than: u16,
    matching_type: MatchingType,
) -> (r: Option<Vec<LZValue>>)
    ensures
        r matches Some(v) && decodes_to(Seq::empty(), v@, data@),
        r matches Some(v) && (data@.len() <= WINDOW_SIZE ==> v@ == first_pass_parse(
            data@,
            (max_hash_checks, lazy_if_less_than, matching_type),
        )),
{
    let ghost small = data@.len() <= WINDOW_SIZE;
    let ghost opts = (max_hash_checks, lazy_if_less_than, matching_type);
    let mut test = TestStruct::with_config(max_hash_checks, lazy_if_less_than, matching_type);
    let mut out = Vec::<LZValue>::with_capacity(data.len() / 3);
    let mut pos: usize = 0;
    proof {
        assert(data@.take(0) =~= Seq::<u8>::empty());
    }
    loop
        invariant_except_break
            !test.state.is_last(),
            small ==> pos == 0 && test.state.initial() && test.state.options() == opts && out@.len() == 0,
        invariant
            small == (data@.len() <= WINDOW_SIZE),
            opts == (max_hash_checks, lazy_if_less_than, matching_type),
            test.wf(),
            pos <= data@.len(),
            test.state.consumed() == data@.take(pos as int),
            test.writer.buffer_view() == Seq::<LZValue>::empty(),
            test.state.block_ok(Seq::<LZValue>::empty()),
            test.state.block_start() == test.state.done(),
            decodes_to(Seq::empty(), out@, data@.take(test.state.done())),
            test.state.resumes_in_lookahead() ==> pos == data@.len(),
            0 <= test.state.done() <= pos,
        ensures
            test.state.done() == data@.len(),
            decodes_to(Seq::empty(), out@, data@.take(test.state.done())),
            small ==> out@ == first_pass_parse(data@, opts),
        decreases data@.len() - test.state.done(),
    {
        let slice = slice_subrange(data, pos, data.len());
        proof {
            test.state.lemma_inv(&test.buffer);
            test.buffer.lemma_wf();
            if test.state.resumes_in_lookahead() {
                assert(slice@.len() == 0);
            }
        }
        let ghost done0 = test.state.done();
        proof {
            if small {
                test.state.lemma_initial();
            }
        }
        let (bytes_written, status) = lz77_compress_block_finish(
            slice,
            &mut test.state,
            &mut test.buffer,
            &mut test.writer,
        );
        let ghost items = test.writer.buffer_view();
        proof {
            assert(data@.take(pos as int) + slice@.take(bytes_written as int) =~= data@.take(pos + bytes_written));
            test.state.lemma_inv(&test.buffer);
            assert(Seq::<LZValue>::empty().take(0) =~= Seq::<LZValue>::empty());
        }
        pos = pos + bytes_written;
        // Collect the symbols of this block.
        let buf = test.writer.get_buffer();
        let mut j: usize = 0;
        let ghost out0 = out@;
        while j < buf.len()
            invariant
                j <= buf@.len(),
                out@ == out0 + buf@.take(j as int),
            decreases buf@.len() - j,
        {
            out.push(buf[j]);
            j = j + 1;
            proof {
                assert(out@ =~= out0 + buf@.take(j as int));
            }
        }
        proof {
            assert(buf@.take(buf@.len() as int) =~= buf@);
            if small {
                assert(slice@ =~= data@);
                assert(Seq::<u8>::empty() + slice@ =~= data@);
                assert(out@ =~= first_pass_parse(data@, opts));
            }
            assert(test.state.consumed().take(done0) =~= data@.take(done0));
            assert(test.state.consumed().take(test.state.done()) =~= data@.take(test.state.done()));
            assert(test.state.consumed().take(test.state.block_start()) =~= data@.take(test.state.block_start()));
            crate::lz_decode::lemma_decode_append((Seq::empty(), None, true), out0, items);
        }
        test.writer.clear_buffer();
        test.state.reset_input_bytes();
        if test.state.is_last_block() {
            break;
        }
    }
    proof {
        assert(data@.take(data@.len() as int) =~= data@);
    }
    Some(out)
}


/// Decompressing what the lz77 pass produces gives back its input: symbols that decode to
/// `data` meet what `decompress_lz77` asks, and it returns `data` for them.
pub proof fn lz77_roundtrip(data: Seq<u8>, symbols: Seq<LZValue>)
    requires
        decodes_to(Seq::empty(), symbols, data),
    ensures
        lz_decode(Seq::empty(), symbols).2,
        lz_decode(Seq::empty(), symbols).0 == data,
{
}

} // verus!
