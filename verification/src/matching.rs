//! Searching the hash chains for the longest earlier occurrence of the upcoming bytes.
use vstd::prelude::*;
use crate::chained_hash_table::{ChainedHashTable, WINDOW_SIZE};

verus! {

pub const MAX_MATCH: usize = 258;

/// The `l` bytes at `p` repeat the bytes `d` positions earlier.
pub open spec fn is_match(data: Seq<u8>, p: int, d: int, l: int) -> bool {
    &&& 1 <= d <= p
    &&& 0 <= l
    &&& p + l <= data.len()
    &&& forall|k: int| 0 <= k < l ==> #[trigger] data[p + k] == data[p - d + k]
}

/// The number of equal bytes at `p + i`, `q + i` and on, counted from `i`: the common length of
/// the bytes from `p` and from `q`, at most `MAX_MATCH`, once the first `i` are known equal.
pub open spec fn match_len(data: Seq<u8>, p: int, q: int, i: int) -> int
    decreases MAX_MATCH - i,
{
    if i >= MAX_MATCH || p + i >= data.len() || q + i >= data.len() || data[p + i] != data[q + i] {
        i
    } else {
        match_len(data, p, q, i + 1)
    }
}

/// The common length counts equal bytes, no more than `MAX_MATCH` and within the data.
pub proof fn lemma_match_len(data: Seq<u8>, p: int, q: int, i: int)
    requires
        0 <= i <= MAX_MATCH,
        0 <= p,
        0 <= q,
    ensures
        i <= match_len(data, p, q, i) <= MAX_MATCH,
        match_len(data, p, q, i) > i ==> p + match_len(data, p, q, i) <= data.len() && q + match_len(data, p, q, i)
            <= data.len(),
        forall|k: int| i <= k < match_len(data, p, q, i) ==> #[trigger] data[p + k] == data[q + k],
    decreases MAX_MATCH - i,
{
    if !(i >= MAX_MATCH || p + i >= data.len() || q + i >= data.len() || data[p + i] != data[q + i]) {
        lemma_match_len(data, p, q, i + 1);
    }
}

/// The number of equal bytes starting at the two positions, at most `MAX_MATCH`.
pub fn get_match_length(data: &[u8], current_pos: usize, pos_to_check: usize) -> (r: usize)
    requires
        current_pos <= data@.len(),
        pos_to_check <= data@.len(),
    ensures
        r == match_len(data@, current_pos as int, pos_to_check as int, 0),
        r <= MAX_MATCH,
        current_pos + r <= data@.len(),
        pos_to_check + r <= data@.len(),
        forall|k: int| 0 <= k < r ==> #[trigger] data@[current_pos + k] == data@[pos_to_check + k],
        r < MAX_MATCH && current_pos + r < data@.len() && pos_to_check + r < data@.len() ==> data@[current_pos + r as int]
            != data@[pos_to_check + r as int],
{
    let mut i: usize = 0;
    while i < MAX_MATCH && i < data.len() - current_pos && i < data.len() - pos_to_check
        && data[current_pos + i] == data[pos_to_check + i]
        invariant
            i <= MAX_MATCH,
            current_pos + i <= data@.len(),
            pos_to_check + i <= data@.len(),
            forall|k: int| 0 <= k < i ==> #[trigger] data@[current_pos + k] == data@[pos_to_check + k],
            match_len(data@, current_pos as int, pos_to_check as int, 0) == match_len(
                data@,
                current_pos as int,
                pos_to_check as int,
                i as int,
            ),
        decreases MAX_MATCH - i,
    {
        i = i + 1;
    }
    i
}

/// The longest match, and its distance, among the positions the search visits: it follows the
/// links of the chain from `cur` for at most `checks` more positions, and stops at a link that
/// does not lead further back or leads below `limit`. A position counts only with a match
/// longer than the best so far, so the first position reaching the longest length is kept.
pub open spec fn chain_search(
    data: Seq<u8>,
    prevs: Seq<u16>,
    position: int,
    limit: int,
    cur: int,
    checks: int,
    best_len: int,
    best_dist: int,
) -> (int, int)
    decreases checks,
{
    if checks <= 0 {
        (best_len, best_dist)
    } else {
        let next = prevs[cur % (WINDOW_SIZE as int)] as int;
        if next >= cur || next < limit {
            (best_len, best_dist)
        } else {
            let l = match_len(data, position, next, 0);
            if l > best_len {
                chain_search(data, prevs, position, limit, next, checks - 1, l, position - next)
            } else {
                chain_search(data, prevs, position, limit, next, checks - 1, best_len, best_dist)
            }
        }
    }
}

/// A search that already has a match as long as any can be ends with it.
proof fn lemma_search_done(
    data: Seq<u8>,
    prevs: Seq<u16>,
    position: int,
    limit: int,
    cur: int,
    checks: int,
    best_len: int,
    best_dist: int,
)
    requires
        0 <= position,
        0 <= best_len,
        best_len >= MAX_MATCH || best_len >= data.len() - position,
    ensures
        chain_search(data, prevs, position, limit, cur, checks, best_len, best_dist) == (best_len, best_dist),
    decreases checks,
{
    if checks > 0 {
        let next = prevs[cur % (WINDOW_SIZE as int)] as int;
        if !(next >= cur || next < limit) {
            lemma_match_len(data, position, next, 0);
            let l = match_len(data, position, next, 0);
            assert(l <= best_len);
            lemma_search_done(data, prevs, position, limit, next, checks - 1, best_len, best_dist);
        }
    }
}

/// The position `k` links down the hash chain from `cur`: each link is followed only where it
/// leads further back and not below `limit`, else the walk has ended (`None`).
pub open spec fn chain_walk(prevs: Seq<u16>, cur: int, limit: int, k: nat) -> Option<int>
    decreases k,
{
    if k == 0 {
        Some(cur)
    } else {
        let next = prevs[cur % (WINDOW_SIZE as int)] as int;
        if next >= cur || next < limit {
            None
        } else {
            chain_walk(prevs, next, limit, (k - 1) as nat)
        }
    }
}

/// The search of the chain from `cur` sees every position of its walk: the length it ends with
/// is at least the one it started with and no shorter than the match at any position within
/// `checks` links; where it grew, the length is that of the match at a position within
/// `checks` links, at the distance it gives; else the distance is the one it started with.
pub proof fn lemma_chain_search_longest(
    data: Seq<u8>,
    prevs: Seq<u16>,
    position: int,
    limit: int,
    cur: int,
    checks: int,
    best_len: int,
    best_dist: int,
)
    ensures
        ({
            let (l, d) = chain_search(data, prevs, position, limit, cur, checks, best_len, best_dist);
            &&& l >= best_len
            &&& forall|k: nat|
                1 <= k <= checks && #[trigger] chain_walk(prevs, cur, limit, k) is Some ==> match_len(
                    data,
                    position,
                    chain_walk(prevs, cur, limit, k)->0,
                    0,
                ) <= l
            &&& l > best_len ==> exists|k: nat|
                1 <= k <= checks && #[trigger] chain_walk(prevs, cur, limit, k) == Some(position - d) && match_len(
                    data,
                    position,
                    position - d,
                    0,
                ) == l
            &&& l == best_len ==> d == best_dist
        }),
    decreases checks,
{
    if checks > 0 {
        let next = prevs[cur % (WINDOW_SIZE as int)] as int;
        if next >= cur || next < limit {
            assert forall|k: nat| 1 <= k <= checks implies #[trigger] chain_walk(prevs, cur, limit, k) is None by {
            }
        } else {
            let l = match_len(data, position, next, 0);
            let (nb, nd) = if l > best_len { (l, position - next) } else { (best_len, best_dist) };
            lemma_chain_search_longest(data, prevs, position, limit, next, checks - 1, nb, nd);
            let (rl, rd) = chain_search(data, prevs, position, limit, cur, checks, best_len, best_dist);
            assert(chain_walk(prevs, cur, limit, 1) == Some(next)) by {
                assert(chain_walk(prevs, next, limit, 0) == Some(next));
            }
            assert forall|k: nat|
                1 <= k <= checks && #[trigger] chain_walk(prevs, cur, limit, k) is Some implies match_len(
                data,
                position,
                chain_walk(prevs, cur, limit, k)->0,
                0,
            ) <= rl by {
                if k >= 2 {
                    assert(chain_walk(prevs, cur, limit, k) == chain_walk(prevs, next, limit, (k - 1) as nat));
                }
            }
            if rl > best_len {
                if rl > nb {
                    let k0 = choose|k: nat|
                        1 <= k <= checks - 1 && #[trigger] chain_walk(prevs, next, limit, k) == Some(position - rd)
                            && match_len(data, position, position - rd, 0) == rl;
                    assert(chain_walk(prevs, cur, limit, k0 + 1) == chain_walk(prevs, next, limit, k0));
                } else {
                    assert(chain_walk(prevs, cur, limit, 1) == Some(position - rd));
                }
            }
        }
    }
}

/// What `longest_match` returns: (0, 0) where the match so far cannot grow or the search finds
/// nothing longer than it, else the length and distance the search finds.
pub open spec fn spec_longest_match(
    data: Seq<u8>,
    prevs: Seq<u16>,
    position: int,
    prev_length: int,
    max_hash_checks: int,
) -> (int, int) {
    if prev_length >= MAX_MATCH || prev_length >= data.len() - position {
        (0, 0)
    } else {
        let limit = if position > WINDOW_SIZE { position - WINDOW_SIZE } else { 0 };
        let min_length = if prev_length < 1 { 1 } else { prev_length };
        let (l, d) = chain_search(data, prevs, position, limit, position, max_hash_checks, min_length, 0);
        if l > prev_length && d != 0 {
            (l, d)
        } else {
            (0, 0)
        }
    }
}

/// The lowest position a match may start at from `position`: one window back.
pub open spec fn window_limit(position: int) -> int {
    if position > WINDOW_SIZE { position - WINDOW_SIZE } else { 0 }
}

/// `(len, dist)` is the longest match at `position` among the positions the chain search
/// visits: walking the chain at most `max_hash_checks` links, each further back and within the
/// window. A found match is at one of those positions and longer than `prev_length`, and none
/// of them matches longer; where nothing is found (`(0, 0)`) and the match could still grow,
/// none of them matches longer than `prev_length` (or one byte).
pub open spec fn longest_among_visited(
    data: Seq<u8>,
    prevs: Seq<u16>,
    position: int,
    prev_length: int,
    max_hash_checks: int,
    len: int,
    dist: int,
) -> bool {
    let limit = window_limit(position);
    &&& (len, dist) != (0int, 0int) ==> forall|k: nat|
        1 <= k <= max_hash_checks && #[trigger] chain_walk(prevs, position, limit, k) is Some ==> match_len(
            data,
            position,
            chain_walk(prevs, position, limit, k)->0,
            0,
        ) <= len
    &&& (len, dist) != (0int, 0int) ==> len > prev_length && exists|k: nat|
        1 <= k <= max_hash_checks && #[trigger] chain_walk(prevs, position, limit, k) == Some(position - dist)
            && match_len(data, position, position - dist, 0) == len
    &&& (len, dist) == (0int, 0int) && prev_length < MAX_MATCH && prev_length < data.len() - position ==> forall|k: nat|
        1 <= k <= max_hash_checks && #[trigger] chain_walk(prevs, position, limit, k) is Some ==> match_len(
            data,
            position,
            chain_walk(prevs, position, limit, k)->0,
            0,
        ) <= (if prev_length < 1 { 1 } else { prev_length })
}

/// The result of the search is the longest match among the positions it visits: walking the
/// chain of `position` at most `max_hash_checks` links, each leading further back and staying
/// within the window. A found match is at one of those positions, and none of them matches
/// longer; where nothing is found, no visited position matches longer than `prev_length` (or
/// one byte).
pub proof fn lemma_longest_match_is_longest(
    data: Seq<u8>,
    prevs: Seq<u16>,
    position: int,
    prev_length: int,
    max_hash_checks: int,
)
    requires
        0 <= position,
        0 <= prev_length,
    ensures
        ({
            let r = spec_longest_match(data, prevs, position, prev_length, max_hash_checks);
            longest_among_visited(data, prevs, position, prev_length, max_hash_checks, r.0, r.1)
        }),
{
    if !(prev_length >= MAX_MATCH || prev_length >= data.len() - position) {
        let limit = window_limit(position);
        let min_length = if prev_length < 1 { 1 } else { prev_length };
        lemma_chain_search_longest(data, prevs, position, limit, position, max_hash_checks, min_length, 0);
        let (l, d) = chain_search(data, prevs, position, limit, position, max_hash_checks, min_length, 0);
        if l > min_length {
            let k0 = choose|k: nat|
                1 <= k <= max_hash_checks && #[trigger] chain_walk(prevs, position, limit, k) == Some(position - d)
                    && match_len(data, position, position - d, 0) == l;
            lemma_chain_walk_back(prevs, position, limit, k0);
            assert(d != 0);
        }
    }
}

/// Every link of the walk leads further back.
pub proof fn lemma_chain_walk_back(prevs: Seq<u16>, cur: int, limit: int, k: nat)
    requires
        k >= 1,
        chain_walk(prevs, cur, limit, k) is Some,
    ensures
        limit <= chain_walk(prevs, cur, limit, k)->0 < cur,
    decreases k,
{
    let next = prevs[cur % (WINDOW_SIZE as int)] as int;
    assert(chain_walk(prevs, next, limit, 0) == Some(next));
    assert(chain_walk(prevs, cur, limit, k) == chain_walk(prevs, next, limit, (k - 1) as nat));
    if k >= 2 {
        lemma_chain_walk_back(prevs, next, limit, (k - 1) as nat);
    }
}

/// Search the hash chain of `position` (at most `max_hash_checks` links, none further back than
/// the window) for a match longer than `prev_length`.
///
/// Returns the length and distance of the longest match found, or (0, 0) if none is longer.
#[verifier::spinoff_prover]
pub fn longest_match(
    data: &[u8],
    hash_table: &ChainedHashTable,
    position: usize,
    prev_length: usize,
    max_hash_checks: u16,
) -> (r: (usize, usize))
    requires
        hash_table.wf(),
        position + 2 < data@.len(),
    ensures
        (r.0 as int, r.1 as int) == spec_longest_match(
            data@,
            hash_table.prevs(),
            position as int,
            prev_length as int,
            max_hash_checks as int,
        ),
        r == (0usize, 0usize) || {
            &&& r.0 > prev_length
            &&& 2 <= r.0 <= MAX_MATCH
            &&& 1 <= r.1 <= WINDOW_SIZE
            &&& is_match(data@, position as int, r.1 as int, r.0 as int)
        },
        longest_among_visited(
            data@,
            hash_table.prevs(),
            position as int,
            prev_length as int,
            max_hash_checks as int,
            r.0 as int,
            r.1 as int,
        ),
{
    proof {
        lemma_longest_match_is_longest(
            data@,
            hash_table.prevs(),
            position as int,
            prev_length as int,
            max_hash_checks as int,
        );
    }
    // If we already have a match at the maximum length,
    // or we can't grow further, we stop here.
    if prev_length >= MAX_MATCH || prev_length >= data.len() - position {
        return (0, 0);
    }
    let limit = if position > WINDOW_SIZE { position - WINDOW_SIZE } else { 0 };
    // Make sure the length is at least one to simplify the matching code.
    let min_length = if prev_length < 1 { 1 } else { prev_length };
    let max_length = if data.len() - position < MAX_MATCH { data.len() - position } else { MAX_MATCH };
    // The position in the hash chain we are currently checking.
    let mut current_head = position;
    // The best match length we've found so far, and it's distance.
    let mut best_length = min_length;
    let mut best_distance: usize = 0;
    let mut checks: u16 = 0;
    let ghost prevs = hash_table.prevs();
    let ghost target = chain_search(
        data@,
        prevs,
        position as int,
        limit as int,
        position as int,
        max_hash_checks as int,
        min_length as int,
        0,
    );
    while checks < max_hash_checks
        invariant
            hash_table.wf(),
            prevs == hash_table.prevs(),
            target == chain_search(
                data@,
                prevs,
                position as int,
                limit as int,
                position as int,
                max_hash_checks as int,
                min_length as int,
                0,
            ),
            limit == if position > WINDOW_SIZE { position - WINDOW_SIZE } else { 0 },
            min_length == if prev_length < 1 { 1 } else { prev_length },
            prev_length < MAX_MATCH && prev_length < data@.len() - position,
            target == chain_search(
                data@,
                prevs,
                position as int,
                limit as int,
                current_head as int,
                max_hash_checks - checks,
                best_length as int,
                best_distance as int,
            ),
            checks <= max_hash_checks,
            position + 2 < data@.len(),
            max_length == if data@.len() - position < MAX_MATCH { data@.len() - position } else { MAX_MATCH as int },
            min_length <= best_length < max_length,
            min_length >= 1,
            min_length >= prev_length,
            limit + WINDOW_SIZE >= position,
            limit <= current_head <= position,
            best_distance == 0 ==> best_length == min_length,
            best_distance != 0 ==> best_length >= 2,
            best_distance != 0 ==> 1 <= best_distance <= WINDOW_SIZE && is_match(
                data@,
                position as int,
                best_distance as int,
                best_length as int,
            ),
        ensures
            target == (best_length as int, best_distance as int),
        decreases max_hash_checks - checks,
    {
        let prev_head = current_head;
        let ghost bl0 = best_length as int;
        let ghost bd0 = best_distance as int;
        current_head = hash_table.get_prev(current_head) as usize;
        if current_head >= prev_head || current_head < limit {
            // The chain refers to itself or goes forward or too far back: it ends here.
            current_head = prev_head;
            break;
        }
        // Only check the whole match if the bytes that would extend the best match agree.
        let ghost ml = match_len(data@, position as int, current_head as int, 0);
        proof {
            lemma_match_len(data@, position as int, current_head as int, 0);
            if ml > best_length {
                let b = best_length as int;
                assert(data@[position + (b - 1)] == data@[current_head + (b - 1)]);
                assert(data@[position + b] == data@[current_head + b]);
            }
            assert(target == (if ml > bl0 {
                chain_search(data@, prevs, position as int, limit as int, current_head as int, max_hash_checks - checks
                    - 1, ml, position - current_head)
            } else {
                chain_search(data@, prevs, position as int, limit as int, current_head as int, max_hash_checks - checks
                    - 1, bl0, bd0)
            }));
        }
        if data[current_head + best_length - 1] == data[position + best_length - 1]
            && data[current_head + best_length] == data[position + best_length] {
            let length = get_match_length(data, position, current_head);
            if length > best_length {
                best_length = length;
                best_distance = position - current_head;
                proof {
                    assert forall|k: int| 0 <= k < best_length implies #[trigger] data@[position + k]
                        == data@[position - best_distance + k] by {
                        assert(data@[position + k] == data@[current_head + k]);
                    }
                }
                if length == max_length {
                    // We are at the max length, so there is no point searching any longer.
                    proof {
                        lemma_search_done(
                            data@,
                            prevs,
                            position as int,
                            limit as int,
                            current_head as int,
                            max_hash_checks - checks - 1,
                            best_length as int,
                            best_distance as int,
                        );
                        assert(length == ml);
                        assert(ml > bl0);
                        assert(target == (best_length as int, best_distance as int));
                        assert(best_length > prev_length && best_distance != 0);
                        lemma_longest_match_is_longest(
                            data@,
                            prevs,
                            position as int,
                            prev_length as int,
                            max_hash_checks as int,
                        );
                    }
                    return (best_length, best_distance);
                }
            }
        }
        checks = checks + 1;
    }
    if best_length > prev_length && best_distance != 0 {
        (best_length, best_distance)
    } else {
        (0, 0)
    }
}

} // verus!
