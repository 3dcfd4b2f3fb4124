//! Canonical huffman codes built from tables of code lengths.
use vstd::prelude::*;
use vstd::arithmetic::power2::*;
use vstd::arithmetic::div_mod::*;
use crate::huffman_table::{HuffmanCode, HuffmanError, MAX_CODE_LENGTH, reverse_bits_spec, lemma_reverse_bits_mod};

verus! {

/// The number of entries of `s` that equal `v`.
pub open spec fn count_eq(s: Seq<u8>, v: int) -> nat
    decreases s.len(),
{
    if s.len() == 0 {
        0
    } else {
        count_eq(s.drop_last(), v) + if s.last() == v { 1nat } else { 0nat }
    }
}

pub proof fn lemma_count_eq_bound(s: Seq<u8>, v: int)
    ensures
        count_eq(s, v) <= s.len(),
    decreases s.len(),
{
    if s.len() > 0 {
        lemma_count_eq_bound(s.drop_last(), v);
    }
}

/// Extending a prefix by one entry adds that entry to the counts.
pub proof fn lemma_count_eq_take(s: Seq<u8>, n: int, v: int)
    requires
        0 <= n < s.len(),
    ensures
        count_eq(s.take(n + 1), v) == count_eq(s.take(n), v) + if s[n] == v { 1nat } else { 0nat },
{
    assert(s.take(n + 1).drop_last() =~= s.take(n));
}

/// Why a table of code lengths cannot give a huffman table, if it cannot.
pub open spec fn length_table_error(s: Seq<u8>) -> Option<HuffmanError> {
    if s.len() == 0 {
        Some(HuffmanError::EmptyLengthTable)
    } else if exists|i: int| 0 <= i < s.len() && s[i] > MAX_CODE_LENGTH {
        Some(HuffmanError::CodeTooLong)
    } else {
        None
    }
}

/// The first code of the given length in the canonical huffman code of the length table `s`
/// (RFC 1951, section 3.2.2, step 2).
pub open spec fn first_code(s: Seq<u8>, len: nat) -> int
    decreases len,
{
    if len <= 1 {
        0
    } else {
        2 * (first_code(s, (len - 1) as nat) + count_eq(s, len - 1))
    }
}

/// The canonical huffman code of symbol `n` (RFC 1951, section 3.2.2, step 3): the first code
/// of its length plus the number of earlier symbols of the same length.
pub open spec fn canonical_code(s: Seq<u8>, n: int) -> int {
    first_code(s, s[n] as nat) + count_eq(s.take(n), s[n] as int)
}

/// The code that symbol `n` of the length table `s` gets, bit-reversed for output.
pub open spec fn code_of(s: Seq<u8>, n: int) -> HuffmanCode {
    HuffmanCode { code: reverse_bits_spec(canonical_code(s, n), s[n] as nat) as u16, length: s[n] }
}

/// A code table after giving the symbols of `s` below `upto` that have a length their codes.
pub open spec fn assign_codes_upto(old: Seq<HuffmanCode>, s: Seq<u8>, upto: int) -> Seq<HuffmanCode> {
    Seq::new(
        old.len(),
        |i: int|
            if i < upto && i < s.len() && s[i] != 0 {
                code_of(s, i)
            } else {
                old[i]
            },
    )
}

/// A code table after giving every symbol of `s` that has a length its code.
pub open spec fn assign_codes(old: Seq<HuffmanCode>, s: Seq<u8>) -> Seq<HuffmanCode> {
    assign_codes_upto(old, s, s.len() as int)
}

/// Counts the number of values of each length.
/// Returns a tuple containing the longest length value in the table, it's position,
/// and a vector of lengths.
/// Returns an error if `table` is empty, or if any of the lenghts exceed 15.
pub fn build_length_count_table(table: &[u8]) -> (r: Result<(usize, usize, Vec<u16>), HuffmanError>)
    requires
        table@.len() < 65536,
    ensures
        length_table_error(table@) matches Some(e) ==> r == Err::<(usize, usize, Vec<u16>), HuffmanError>(e),
        length_table_error(table@) is None ==> (r matches Ok((max, pos, counts)) && {
            &&& max <= MAX_CODE_LENGTH
            &&& forall|i: int| 0 <= i < table@.len() ==> table@[i] <= max
            &&& exists|i: int| 0 <= i < table@.len() && table@[i] == max
            &&& pos < table@.len()
            &&& forall|i: int| pos < i < table@.len() ==> table@[i] == 0
            &&& (pos > 0 ==> table@[pos as int] != 0)
            &&& counts@.len() == max + 1
            &&& forall|l: int| 0 <= l <= max ==> counts@[l] == count_eq(table@, l)
        }),
{
    if table.len() == 0 {
        return Err(HuffmanError::EmptyLengthTable);
    }
    let mut max_length: usize = table[0] as usize;
    let mut i: usize = 1;
    while i < table.len()
        invariant
            1 <= i <= table@.len(),
            forall|j: int| 0 <= j < i ==> table@[j] <= max_length,
            exists|j: int| 0 <= j < i && table@[j] == max_length,
        decreases table@.len() - i,
    {
        if table[i] as usize > max_length {
            max_length = table[i] as usize;
        }
        i = i + 1;
    }
    if max_length > MAX_CODE_LENGTH {
        proof {
            let j = choose|j: int| 0 <= j < table@.len() && table@[j] == max_length;
            assert(table@[j] > MAX_CODE_LENGTH);
        }
        return Err(HuffmanError::CodeTooLong);
    }
    let mut max_length_pos: usize = 0;
    let mut len_counts: Vec<u16> = vec![0u16; max_length + 1];
    let mut n: usize = 0;
    while n < table.len()
        invariant
            n <= table@.len() < 65536,
            max_length <= MAX_CODE_LENGTH,
            forall|j: int| 0 <= j < table@.len() ==> table@[j] <= max_length,
            len_counts@.len() == max_length + 1,
            forall|l: int| 0 <= l <= max_length ==> len_counts@[l] == count_eq(table@.take(n as int), l),
            max_length_pos < table@.len(),
            forall|j: int| max_length_pos < j < n ==> table@[j] == 0,
            max_length_pos > 0 ==> table@[max_length_pos as int] != 0,
        decreases table@.len() - n,
    {
        let length = table[n] as usize;
        proof {
            lemma_count_eq_bound(table@.take(n as int), length as int);
            assert forall|l: int| 0 <= l <= max_length implies count_eq(table@.take(n + 1), l)
                == count_eq(table@.take(n as int), l) + if table@[n as int] == l { 1nat } else { 0nat } by {
                lemma_count_eq_take(table@, n as int, l);
            }
        }
        len_counts[length] = len_counts[length] + 1;
        if length > 0 {
            max_length_pos = n;
        }
        n = n + 1;
    }
    assert(table@.take(table@.len() as int) =~= table@);
    Ok((max_length, max_length_pos, len_counts))
}

/// Generate a vector of huffman codes given a table of bit lengths.
/// Returns an error if the table is empty or any of the lengths are > 15.
pub fn create_codes(length_table: &[u8]) -> (r: Result<Vec<HuffmanCode>, HuffmanError>)
    requires
        length_table@.len() < 65536,
    ensures
        length_table_error(length_table@) matches Some(e) ==> r == Err::<Vec<HuffmanCode>, HuffmanError>(e),
        length_table_error(length_table@) is None ==> (r matches Ok(codes) && codes@ == assign_codes(
            Seq::new(length_table@.len(), |i: int| HuffmanCode { code: 0, length: 0 }),
            length_table@,
        )),
{
    let mut codes: Vec<HuffmanCode> = Vec::new();
    let mut i: usize = 0;
    while i < length_table.len()
        invariant
            i <= length_table@.len(),
            codes@ =~= Seq::new(i as nat, |j: int| HuffmanCode { code: 0, length: 0 }),
        decreases length_table@.len() - i,
    {
        codes.push(HuffmanCode { code: 0, length: 0 });
        i = i + 1;
    }
    match create_codes_in_place(codes.as_mut_slice(), length_table) {
        Ok(()) => Ok(codes),
        Err(e) => Err(e),
    }
}

/// Fill in `code_table` with the canonical huffman codes for the table of bit lengths
/// `length_table`; entries of symbols without a length are left as they were.
/// Returns an error if the table is empty or any of the lengths are > 15.
#[verifier::spinoff_prover]
pub fn create_codes_in_place(code_table: &mut [HuffmanCode], length_table: &[u8]) -> (r: Result<(), HuffmanError>)
    requires
        length_table@.len() < 65536,
        length_table_error(length_table@) is None ==> forall|i: int|
            old(code_table)@.len() <= i < length_table@.len() ==> length_table@[i] == 0,
    ensures
        length_table_error(length_table@) matches Some(e) ==> r == Err::<(), HuffmanError>(e)
            && final(code_table)@ == old(code_table)@,
        length_table_error(length_table@) is None ==> r is Ok && final(code_table)@ == assign_codes(
            old(code_table)@,
            length_table@,
        ),
{
    let ghost s = length_table@;
    let ghost old_codes = code_table@;
    let (max_length, max_length_pos, lengths) = match build_length_count_table(length_table) {
        Ok(t) => t,
        Err(e) => return Err(e),
    };
    let ghost cnt0 = count_eq(s, 0) as int;
    let mut code: u16 = 0;
    let mut next_code: Vec<u16> = Vec::new();
    next_code.push(0);
    let mut bits: usize = 1;
    while bits <= max_length
        invariant
            1 <= bits <= max_length + 1,
            max_length <= MAX_CODE_LENGTH,
            lengths@.len() == max_length + 1,
            forall|l: int| 0 <= l <= max_length ==> lengths@[l] == count_eq(s, l),
            cnt0 == count_eq(s, 0),
            next_code@.len() == bits,
            bits == 1 ==> code == 0,
            bits > 1 ==> code == next_code@[bits - 1],
            forall|b: int| 1 <= b < bits ==> next_code@[b] == (first_code(s, b as nat) + cnt0 * pow2(b as nat)) % 65536,
        decreases max_length + 1 - bits,
    {
        let c = lengths[bits - 1];
        let ghost prev = if bits == 1 { 0int } else { first_code(s, (bits - 1) as nat) + cnt0 * pow2((bits - 1) as nat) };
        proof {
            lemma_pow2_unfold(bits as nat);
            if bits > 1 {
                lemma_add_mod_noop(prev, c as int, 65536);
                lemma_mod_twice(prev, 65536);
                lemma_mul_mod_noop_left(prev + c, 2, 65536);
                lemma_first_code_nonneg(s, (bits - 1) as nat);
                lemma_pow2_pos((bits - 1) as nat);
                assert(cnt0 * pow2((bits - 1) as nat) >= 0) by (nonlinear_arith)
                    requires cnt0 >= 0, pow2((bits - 1) as nat) > 0;
                lemma_mod_pos_bound(prev, 65536);
                assert((code as int + c as int) % 65536 == (prev + c) % 65536);
                assert(prev * 2 + c * 2 == first_code(s, bits as nat) + cnt0 * pow2(bits as nat)) by (nonlinear_arith)
                    requires
                        prev == first_code(s, (bits - 1) as nat) + cnt0 * pow2((bits - 1) as nat),
                        first_code(s, bits as nat) == 2 * (first_code(s, (bits - 1) as nat) + c),
                        pow2(bits as nat) == 2 * pow2((bits - 1) as nat);
            } else {
                assert(pow2(0) == 1) by { lemma2_to64(); }
                assert(first_code(s, 1) == 0);
            }
            lemma_mul_mod_noop_left(code as int + c as int, 2, 65536);
        }
        code = (((code as u32 + c as u32) % 65536) * 2 % 65536) as u16;
        next_code.push(code);
        bits = bits + 1;
    }
    let mut n: usize = 0;
    while n <= max_length_pos
        invariant
            n <= max_length_pos + 1,
            max_length_pos < s.len(),
            s == length_table@,
            s.len() < 65536,
            max_length <= MAX_CODE_LENGTH,
            length_table_error(s) is None,
            forall|j: int| 0 <= j < s.len() ==> s[j] <= max_length,
            forall|j: int| max_length_pos < j < s.len() ==> s[j] == 0,
            forall|i: int| old_codes.len() <= i < s.len() ==> s[i] == 0,
            cnt0 == count_eq(s, 0),
            next_code@.len() == max_length + 1,
            forall|b: int| 1 <= b <= max_length ==> next_code@[b] == (first_code(s, b as nat) + cnt0 * pow2(b as nat)
                + count_eq(s.take(n as int), b)) % 65536,
            code_table@ == assign_codes_upto(old_codes, s, n as int),
        decreases max_length_pos + 1 - n,
    {
        let length = length_table[n] as usize;
        proof {
            assert forall|b: int| 1 <= b <= max_length implies count_eq(s.take(n + 1), b)
                == count_eq(s.take(n as int), b) + if s[n as int] == b { 1nat } else { 0nat } by {
                lemma_count_eq_take(s, n as int, b);
            }
        }
        if length != 0 {
            let c = next_code[length];
            let ghost canon = canonical_code(s, n as int);
            proof {
                let x = first_code(s, length as nat) + cnt0 * pow2(length as nat) + count_eq(s.take(n as int), length as int);
                lemma_pow2_pos(length as nat);
                lemma_pow2_adds(length as nat, (16 - length) as nat);
                lemma2_to64();
                assert(x >= 0) by {
                    lemma_first_code_nonneg(s, length as nat);
                    assert(cnt0 * pow2(length as nat) >= 0) by (nonlinear_arith)
                        requires cnt0 >= 0, pow2(length as nat) > 0;
                }
                assert(canon >= 0) by { lemma_first_code_nonneg(s, length as nat); }
                lemma_mod_mod(x, pow2(length as nat) as int, pow2((16 - length) as nat) as int);
                assert((c as int) % pow2(length as nat) as int == x % pow2(length as nat) as int);
                lemma_mod_multiples_vanish(cnt0, canon, pow2(length as nat) as int);
                assert(x == pow2(length as nat) * cnt0 + canon) by (nonlinear_arith)
                    requires x == first_code(s, length as nat) + cnt0 * pow2(length as nat) + count_eq(s.take(n as int), length as int),
                    canon == first_code(s, length as nat) + count_eq(s.take(n as int), length as int);
                lemma_reverse_bits_mod(c as nat, canon as nat, length as nat, length as nat);
            }
            match HuffmanCode::from_reversed_bits(c, length as u8) {
                Some(hc) => {
                    code_table[n] = hc;
                },
                None => {
                    return Err(HuffmanError::CodeTooLong);
                },
            }
            proof {
                lemma_add_mod_noop(
                    first_code(s, length as nat) + cnt0 * pow2(length as nat) + count_eq(s.take(n as int), length as int),
                    1,
                    65536,
                );
                lemma_mod_twice(first_code(s, length as nat) + cnt0 * pow2(length as nat) + count_eq(s.take(n as int), length as int), 65536);
            }
            next_code[length] = ((c as u32 + 1) % 65536) as u16;
        }
        proof {
            assert(code_table@ =~= assign_codes_upto(old_codes, s, n + 1));
        }
        n = n + 1;
    }
    proof {
        assert(code_table@ =~= assign_codes_upto(old_codes, s, s.len() as int));
    }
    Ok(())
}

pub proof fn lemma_first_code_nonneg(s: Seq<u8>, len: nat)
    ensures
        first_code(s, len) >= 0,
    decreases len,
{
    if len > 1 {
        lemma_first_code_nonneg(s, (len - 1) as nat);
    }
}

} // verus!
