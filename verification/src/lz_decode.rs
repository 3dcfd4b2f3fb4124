//! What a stream of lz77 symbols means: the bytes it decodes to.
use vstd::prelude::*;
use crate::lzvalue::{LZValue, LDPair, decode_lzvalue};

verus! {

/// The state of a decoder: the bytes produced so far, a length waiting for its distance, and
/// whether the symbols seen so far were well formed.
pub type DecodeState = (Seq<u8>, Option<u16>, bool);

/// The bytes after copying `l` bytes from `d` bytes back (the copy may overlap itself).
pub open spec fn copy_match(out: Seq<u8>, d: int, l: int) -> Seq<u8> {
    Seq::new(
        (out.len() + l) as nat,
        |i: int|
            if i < out.len() {
                out[i]
            } else {
                out[out.len() - d + (i - out.len()) % d]
            },
    )
}

/// The decoder state after one more symbol.
pub open spec fn dec_step(s: DecodeState, v: LZValue) -> DecodeState {
    match decode_lzvalue(v.data) {
        LDPair::Literal(l) => (s.0.push(l), None, s.2 && s.1 is None),
        LDPair::Length(l) => (s.0, Some(l), s.2 && s.1 is None && 3 <= l <= 258),
        LDPair::Distance(d) => match s.1 {
            Some(l) => (copy_match(s.0, d as int, l as int), None, s.2 && 1 <= d <= s.0.len()),
            None => (s.0, None, false),
        },
    }
}

/// The decoder state after the symbols `items`, starting from `s`.
pub open spec fn lz_decode_from(s: DecodeState, items: Seq<LZValue>) -> DecodeState
    decreases items.len(),
{
    if items.len() == 0 {
        s
    } else {
        dec_step(lz_decode_from(s, items.drop_last()), items.last())
    }
}

/// The decoder state after the symbols `items`, with `history` already decoded.
pub open spec fn lz_decode(history: Seq<u8>, items: Seq<LZValue>) -> DecodeState {
    lz_decode_from((history, None, true), items)
}

/// The symbols `items`, after `history`, are well formed and decode to `out` (which includes the
/// history).
pub open spec fn decodes_to(history: Seq<u8>, items: Seq<LZValue>, out: Seq<u8>) -> bool {
    lz_decode(history, items) == (out, None::<u16>, true)
}

pub proof fn lemma_decode_push(s: DecodeState, items: Seq<LZValue>, v: LZValue)
    ensures
        lz_decode_from(s, items.push(v)) == dec_step(lz_decode_from(s, items), v),
{
    assert(items.push(v).drop_last() =~= items);
}

pub proof fn lemma_decode_empty(s: DecodeState)
    ensures
        lz_decode_from(s, Seq::<LZValue>::empty()) == s,
{
}

/// Decoding two runs of symbols one after the other.
pub proof fn lemma_decode_append(s: DecodeState, a: Seq<LZValue>, b: Seq<LZValue>)
    ensures
        lz_decode_from(s, a + b) == lz_decode_from(lz_decode_from(s, a), b),
    decreases b.len(),
{
    if b.len() == 0 {
        assert(a + b =~= a);
    } else {
        lemma_decode_append(s, a, b.drop_last());
        assert((a + b).drop_last() =~= a + b.drop_last());
        assert((a + b).last() == b.last());
    }
}

/// A failed decoder state stays failed.
pub proof fn lemma_decode_failed(s: DecodeState, items: Seq<LZValue>)
    requires
        !s.2,
    ensures
        !lz_decode_from(s, items).2,
    decreases items.len(),
{
    if items.len() > 0 {
        lemma_decode_failed(s, items.drop_last());
    }
}

/// Symbols that decode well after `h2` decode to the same bytes after any longer history that
/// ends with `h2`.
pub proof fn lemma_decode_longer_history(h1: Seq<u8>, s: DecodeState, items: Seq<LZValue>)
    requires
        lz_decode_from(s, items).2,
    ensures
        lz_decode_from((h1 + s.0, s.1, s.2), items) == (
            h1 + lz_decode_from(s, items).0,
            lz_decode_from(s, items).1,
            true,
        ),
    decreases items.len(),
{
    if items.len() == 0 {
    } else {
        let prev = lz_decode_from(s, items.drop_last());
        if !prev.2 {
            lemma_decode_failed(prev, seq![items.last()]);
            assert(lz_decode_from(prev, seq![items.last()]) == dec_step(prev, items.last())) by {
                assert(seq![items.last()].drop_last() =~= Seq::<LZValue>::empty());
            }
        }
        lemma_decode_longer_history(h1, s, items.drop_last());
        let v = items.last();
        match decode_lzvalue(v.data) {
            LDPair::Literal(l) => {
                assert((h1 + prev.0).push(l) =~= h1 + prev.0.push(l));
            },
            LDPair::Length(l) => {},
            LDPair::Distance(d) => {
                if let Some(l) = prev.1 {
                    assert(copy_match(h1 + prev.0, d as int, l as int) =~= h1 + copy_match(prev.0, d as int, l as int));
                }
            },
        }
    }
}

/// Copying a match whose bytes repeat those `d` bytes back reproduces the data.
pub proof fn lemma_match_copy(data: Seq<u8>, p: int, d: int, l: int)
    requires
        1 <= d <= p,
        0 <= l,
        p + l <= data.len(),
        forall|i: int| 0 <= i < l ==> #[trigger] data[p + i] == data[p - d + i],
    ensures
        copy_match(data.take(p), d, l) == data.take(p + l),
{
    assert forall|i: int| p <= i < p + l implies data[p - d + (i - p) % d] == #[trigger] data[i] by {
        lemma_match_copy_at(data, p, d, l, i);
    }
    assert(copy_match(data.take(p), d, l) =~= data.take(p + l));
}

proof fn lemma_match_copy_at(data: Seq<u8>, p: int, d: int, l: int, i: int)
    requires
        1 <= d <= p,
        p + l <= data.len(),
        forall|k: int| 0 <= k < l ==> #[trigger] data[p + k] == data[p - d + k],
        p <= i < p + l,
    ensures
        data[p - d + (i - p) % d] == data[i],
    decreases i - p,
{
    let k = i - p;
    assert(data[p + k] == data[p - d + k]);
    if i - p < d {
        assert((i - p) % d == i - p) by {
            vstd::arithmetic::div_mod::lemma_small_mod((i - p) as nat, d as nat);
        }
    } else {
        lemma_match_copy_at(data, p, d, l, i - d);
        assert((i - p) % d == (i - d - p) % d) by {
            vstd::arithmetic::div_mod::lemma_mod_sub_multiples_vanish(i - p, d);
        }
    }
}

/// Decoding a literal adds its byte.
pub proof fn lemma_decode_literal(data: Seq<u8>, p: int, v: LZValue)
    requires
        0 <= p < data.len(),
        decode_lzvalue(v.data) == LDPair::Literal(data[p]),
    ensures
        dec_step((data.take(p), None, true), v) == (data.take(p + 1), None::<u16>, true),
{
    assert(data.take(p).push(data[p]) =~= data.take(p + 1));
}

/// Decoding a length/distance pair of a genuine match adds the bytes it covers.
pub proof fn lemma_decode_match(data: Seq<u8>, p: int, d: int, l: int, lv: LZValue, dv: LZValue)
    requires
        1 <= d <= p,
        d <= 32768,
        3 <= l <= 258,
        p + l <= data.len(),
        forall|i: int| 0 <= i < l ==> #[trigger] data[p + i] == data[p - d + i],
        decode_lzvalue(lv.data) == LDPair::Length(l as u16),
        decode_lzvalue(dv.data) == LDPair::Distance(d as u16),
    ensures
        dec_step(dec_step((data.take(p), None, true), lv), dv) == (data.take(p + l), None::<u16>, true),
{
    lemma_match_copy(data, p, d, l);
}


/// Each symbol of a well formed run decodes to at most 258 bytes, and lengths and distances are
/// in range.
pub proof fn lemma_decode_growth(s: DecodeState, items: Seq<LZValue>)
    requires
        lz_decode_from(s, items).2,
        s.1 matches Some(l) ==> 3 <= l <= 258,
    ensures
        lz_decode_from(s, items).0.len() <= s.0.len() + 258 * items.len(),
        lz_decode_from(s, items).0.len() >= s.0.len(),
        lz_decode_from(s, items).1 matches Some(l) ==> 3 <= l <= 258,
        forall|i: int| 0 <= i < items.len() ==> #[trigger] symbol_in_range(decode_lzvalue(items[i].data)),
    decreases items.len(),
{
    if items.len() > 0 {
        let prev = lz_decode_from(s, items.drop_last());
        if !prev.2 {
            lemma_decode_failed(prev, seq![items.last()]);
            assert(lz_decode_from(prev, seq![items.last()]) == dec_step(prev, items.last())) by {
                assert(seq![items.last()].drop_last() =~= Seq::<LZValue>::empty());
            }
        }
        lemma_decode_growth(s, items.drop_last());
        lemma_distance_bound(items.last().data);
        assert forall|i: int| 0 <= i < items.len() implies #[trigger] symbol_in_range(decode_lzvalue(items[i].data)) by {
            if i < items.len() - 1 {
                assert(items.drop_last()[i] == items[i]);
            } else {
                lemma_distance_bound(items[i].data);
            }
        }
    }
}

/// A decoded symbol with values the format allows: lengths of 3 to 258 and distances of 1 to
/// 32768.
pub open spec fn symbol_in_range(v: LDPair) -> bool {
    match v {
        LDPair::Literal(_) => true,
        LDPair::Length(l) => 3 <= l <= 258,
        LDPair::Distance(d) => 1 <= d <= 32768,
    }
}

/// Symbols that decode well after a history decode to the same bytes after its last 32768
/// bytes (or more): matches never reach further back.
pub proof fn lemma_decode_shorter_history(p: Seq<u8>, s: DecodeState, items: Seq<LZValue>)
    requires
        lz_decode_from((p + s.0, s.1, s.2), items).2,
        s.0.len() >= 32768 || p.len() == 0,
    ensures
        lz_decode_from(s, items).2,
        lz_decode_from((p + s.0, s.1, s.2), items) == (
            p + lz_decode_from(s, items).0,
            lz_decode_from(s, items).1,
            true,
        ),
    decreases items.len(),
{
    if p.len() == 0 {
        assert(p + s.0 =~= s.0);
        lemma_decode_prefix_ok_from((p + s.0, s.1, s.2), items, items.len() as int);
        assert(items.take(items.len() as int) =~= items);
        lemma_decode_longer_history(p, s, items);
        return;
    }
    if items.len() > 0 {
        let big = (p + s.0, s.1, s.2);
        let prevb = lz_decode_from(big, items.drop_last());
        if !prevb.2 {
            lemma_decode_failed(prevb, seq![items.last()]);
            assert(lz_decode_from(prevb, seq![items.last()]) == dec_step(prevb, items.last())) by {
                assert(seq![items.last()].drop_last() =~= Seq::<LZValue>::empty());
            }
        }
        lemma_decode_shorter_history(p, s, items.drop_last());
        let prev = lz_decode_from(s, items.drop_last());
        let v = items.last();
        lemma_decode_growth_len(s, items.drop_last());
        match decode_lzvalue(v.data) {
            LDPair::Literal(l) => {
                assert((p + prev.0).push(l) =~= p + prev.0.push(l));
            },
            LDPair::Length(l) => {},
            LDPair::Distance(d) => {
                if let Some(l) = prev.1 {
                    assert(d <= 32768) by {
                        assert(v.data & 0xC000u16 != 0xC000u16 || true);
                        lemma_distance_bound(v.data);
                    }
                    assert(copy_match(p + prev.0, d as int, l as int) =~= p + copy_match(prev.0, d as int, l as int));
                }
            },
        }
    }
}

proof fn lemma_distance_bound(data: u16)
    ensures
        decode_lzvalue(data) matches LDPair::Distance(d) ==> 1 <= d <= 32768,
{
    if data & 0xC000u16 != 0xC000u16 && data & 0xC000u16 != 0x8000u16 && data != 0 {
        assert(data < 0x8000u16) by (bit_vector)
            requires
                data & 0xC000u16 != 0xC000u16,
                data & 0xC000u16 != 0x8000u16,
        ;
    }
}

/// Well formed symbols are no more than the bytes they add, counting a length that waits for
/// its distance as one: a literal adds a byte, and a length with its distance at least three.
pub proof fn lemma_decode_count(s: DecodeState, items: Seq<LZValue>)
    requires
        lz_decode_from(s, items).2,
        s.1 is None,
    ensures
        items.len() <= lz_decode_from(s, items).0.len() - s.0.len() + (if lz_decode_from(s, items).1 is Some {
            1int
        } else {
            0int
        }),
        lz_decode_from(s, items).1 matches Some(l) ==> l >= 3,
    decreases items.len(),
{
    if items.len() > 0 {
        let prev = lz_decode_from(s, items.drop_last());
        lemma_decode_count(s, items.drop_last());
        let v = items.last();
        match decode_lzvalue(v.data) {
            LDPair::Literal(l) => {},
            LDPair::Length(l) => {},
            LDPair::Distance(d) => {},
        }
    }
}

proof fn lemma_decode_growth_len(s: DecodeState, items: Seq<LZValue>)
    ensures
        lz_decode_from(s, items).0.len() >= s.0.len(),
    decreases items.len(),
{
    if items.len() > 0 {
        lemma_decode_growth_len(s, items.drop_last());
        let prev = lz_decode_from(s, items.drop_last());
        let v = items.last();
        match decode_lzvalue(v.data) {
            LDPair::Literal(l) => {},
            LDPair::Length(l) => {},
            LDPair::Distance(d) => {},
        }
    }
}

/// A prefix of well formed symbols is well formed.
pub proof fn lemma_decode_prefix_ok_from(s: DecodeState, items: Seq<LZValue>, k: int)
    requires
        0 <= k <= items.len(),
        lz_decode_from(s, items).2,
    ensures
        lz_decode_from(s, items.take(k)).2,
{
    lemma_decode_append(s, items.take(k), items.skip(k));
    assert(items.take(k) + items.skip(k) =~= items);
    if !lz_decode_from(s, items.take(k)).2 {
        lemma_decode_failed(lz_decode_from(s, items.take(k)), items.skip(k));
    }
}

} // verus!
