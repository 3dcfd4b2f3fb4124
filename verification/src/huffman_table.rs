//! Huffman code tables for DEFLATE: the code numbers of lengths and distances, and the
//! construction of canonical huffman codes from code lengths.
use vstd::prelude::*;
use vstd::arithmetic::power2::*;
use vstd::arithmetic::div_mod::*;
use vstd::arithmetic::mul::*;
use crate::huffman_codes::{create_codes_in_place, assign_codes, assign_codes_upto, length_table_error, code_of};
pub use crate::tables::{FIXED_CODE_LENGTHS, LENGTH_EXTRA_BITS_LENGTH, LENGTH_CODE, BASE_LENGTH, LENGTH_BITS_START, FIXED_CODE_LENGTHS_DISTANCE, DISTANCE_CODES, DISTANCE_EXTRA_BITS, DISTANCE_BASE};

verus! {

/// Ways building a huffman table from a table of code lengths can fail.
#[derive(Debug, PartialEq, Eq)]
pub enum HuffmanError {
    EmptyLengthTable,
    CodeTooLong,
    _TooManyOfLength,
}

/// The number of length codes in the huffman table.
pub const NUM_LENGTH_CODES: usize = 29;
/// The number of distance codes in the distance huffman table.
pub const NUM_DISTANCE_CODES: usize = 30;
/// Combined number of literal and length codes.
pub const NUM_LITERALS_AND_LENGTHS: usize = 286;
/// The maximum length of a huffman code.
pub const MAX_CODE_LENGTH: usize = 15;
/// The minimum and maximum lengths for a match.
pub const MIN_MATCH: u16 = 3;
pub const MAX_MATCH: u16 = 258;
/// The minimum and maximum distances of a match.
pub const MIN_DISTANCE: u16 = 1;
pub const MAX_DISTANCE: u16 = 32768;
/// The position in the literal/length table of the end of block symbol.
pub const END_OF_BLOCK_POSITION: usize = 256;

/// The length code (minus 257) of the match length `l + 3`, as RFC 1951 section 3.2.5 lists it.
pub open spec fn spec_length_code(l: int) -> int {
    if l == 255 { 28 }
    else if l >= 224 { 27 } else if l >= 192 { 26 } else if l >= 160 { 25 }
    else if l >= 128 { 24 } else if l >= 112 { 23 } else if l >= 96 { 22 }
    else if l >= 80 { 21 } else if l >= 64 { 20 } else if l >= 56 { 19 }
    else if l >= 48 { 18 } else if l >= 40 { 17 } else if l >= 32 { 16 }
    else if l >= 28 { 15 } else if l >= 24 { 14 } else if l >= 20 { 13 }
    else if l >= 16 { 12 } else if l >= 14 { 11 } else if l >= 12 { 10 }
    else if l >= 10 { 9 } else if l >= 8 { 8 } else { l }
}

/// The distance code of the distance `d + 1`, as RFC 1951 section 3.2.5 lists it.
pub open spec fn spec_distance_code(d: int) -> int {
    if d >= 24576 { 29 } else if d >= 16384 { 28 } else if d >= 12288 { 27 }
    else if d >= 8192 { 26 } else if d >= 6144 { 25 } else if d >= 4096 { 24 }
    else if d >= 3072 { 23 } else if d >= 2048 { 22 } else if d >= 1536 { 21 }
    else if d >= 1024 { 20 } else if d >= 768 { 19 } else if d >= 512 { 18 }
    else if d >= 384 { 17 } else if d >= 256 { 16 } else if d >= 192 { 15 }
    else if d >= 128 { 14 } else if d >= 96 { 13 } else if d >= 64 { 12 }
    else if d >= 48 { 11 } else if d >= 32 { 10 } else if d >= 24 { 9 }
    else if d >= 16 { 8 } else if d >= 12 { 7 } else if d >= 8 { 6 }
    else if d >= 6 { 5 } else if d >= 4 { 4 } else { d }
}

/// The data needed to output a length or distance: the position of its code in the huffman
/// table, and the number and value of the extra bits that follow the code.
#[derive(Copy, Clone, Debug)]
pub struct ExtraBits {
    pub code_number: u16,
    pub num_bits: u8,
    pub value: u16,
}

/// Get the length code that corresponds to the length value.
pub fn get_length_code(length: u16) -> (r: Option<usize>)
    requires
        MIN_MATCH <= length <= MAX_MATCH,
    ensures
        r == Some((LENGTH_BITS_START + spec_length_code(length - MIN_MATCH)) as usize),
{
    let c = LENGTH_CODE[(length - MIN_MATCH) as usize] as usize;
    Some(c + LENGTH_BITS_START as usize)
}

/// Get the code for the huffman table and the extra bits for the requested length.
/// Returns None if length < 3 or length > 258.
pub fn get_length_code_and_extra_bits(length: u16) -> (r: Option<ExtraBits>)
    ensures
        r is None <==> (length < MIN_MATCH || length > MAX_MATCH),
        r matches Some(e) ==> {
            let n = spec_length_code(length - MIN_MATCH);
            &&& e.code_number == LENGTH_BITS_START + n
            &&& e.num_bits == LENGTH_EXTRA_BITS_LENGTH@[n]
            &&& e.value == length - MIN_MATCH - BASE_LENGTH@[n]
            &&& e.value < pow2(e.num_bits as nat)
        },
{
    if length < MIN_MATCH || length > MAX_MATCH {
        return None;
    }
    let n = LENGTH_CODE[(length - MIN_MATCH) as usize];
    let base = BASE_LENGTH[n as usize] as u16;
    let num_bits = LENGTH_EXTRA_BITS_LENGTH[n as usize];
    proof {
        lemma2_to64();
    }
    Some(ExtraBits { code_number: n as u16 + LENGTH_BITS_START, num_bits, value: length - base - MIN_MATCH })
}

/// Get the spot in the huffman table for distances `distance` corresponds to.
/// Returns None if the distance is 0, or above 32768.
pub fn get_distance_code(distance: u16) -> (r: Option<u8>)
    ensures
        r is None <==> (distance < MIN_DISTANCE || distance > MAX_DISTANCE),
        r matches Some(c) ==> c == spec_distance_code(distance - 1),
{
    let distance = distance as usize;
    if 1 <= distance && distance <= 256 {
        Some(DISTANCE_CODES[distance - 1])
    } else if 257 <= distance && distance <= 32768 {
        let dm1 = distance - 1;
        let k = dm1 >> 7;
        assert(k == dm1 / 128) by (bit_vector)
            requires k == dm1 >> 7usize;
        Some(DISTANCE_CODES[256 + k])
    } else {
        None
    }
}

/// The code number and extra bits of a distance; None if the distance is 0 or above 32768.
pub fn get_distance_code_and_extra_bits(distance: u16) -> (r: Option<ExtraBits>)
    ensures
        r is None <==> (distance < MIN_DISTANCE || distance > MAX_DISTANCE),
        r matches Some(e) ==> {
            let n = spec_distance_code(distance - 1);
            &&& e.code_number == n
            &&& e.num_bits == DISTANCE_EXTRA_BITS@[n]
            &&& e.value == distance - 1 - DISTANCE_BASE@[n]
            &&& e.value < pow2(e.num_bits as nat)
        },
{
    match get_distance_code(distance) {
        Some(distance_code) => {
            let extra = DISTANCE_EXTRA_BITS[distance_code as usize];
            let base = DISTANCE_BASE[distance_code as usize] + 1;
            proof {
                lemma2_to64();
            }
            Some(ExtraBits { code_number: distance_code as u16, num_bits: extra, value: distance - base })
        },
        None => None,
    }
}

/// Bit `i` of `x`.
pub open spec fn bit_at(x: int, i: nat) -> int {
    (x / pow2(i) as int) % 2
}

/// The `len` low bits of `x` in reverse order: bit `i` of `x` becomes bit `len - 1 - i`.
pub open spec fn reverse_bits_spec(x: int, len: nat) -> int
    decreases len,
{
    if len == 0 {
        0
    } else {
        2 * reverse_bits_spec(x, (len - 1) as nat) + bit_at(x, (len - 1) as nat)
    }
}

/// Numbers that agree modulo 2^m agree on their m low bits.
pub proof fn lemma_bit_at_mod(a: nat, b: nat, m: nat, i: nat)
    requires
        a % pow2(m) == b % pow2(m),
        i < m,
    ensures
        bit_at(a as int, i) == bit_at(b as int, i),
{
    let pm = pow2(m) as int;
    let pi = pow2(i) as int;
    let pr = pow2((m - i) as nat) as int;
    lemma_pow2_pos(m);
    lemma_pow2_pos(i);
    lemma_pow2_pos((m - i) as nat);
    lemma_pow2_adds(i, (m - i) as nat);
    assert(pm == pi * pr);
    lemma_pow2_unfold((m - i) as nat);
    let half = pow2((m - i - 1) as nat) as int;
    assert(pr == 2 * half);
    let r = a as int % pm;
    lemma_fundamental_div_mod(a as int, pm);
    lemma_fundamental_div_mod(b as int, pm);
    let qa = a as int / pm;
    let qb = b as int / pm;
    lemma_div_pos_is_pos(a as int, pm);
    lemma_div_pos_is_pos(b as int, pm);
    assert(a == r + (qa * pr) * pi) by (nonlinear_arith)
        requires a == pm * qa + r, pm == pi * pr;
    assert(b == r + (qb * pr) * pi) by (nonlinear_arith)
        requires b == pm * qb + r, pm == pi * pr;
    lemma_hoist_over_denominator(r as int, qa * pr, pi as nat);
    lemma_hoist_over_denominator(r as int, qb * pr, pi as nat);
    lemma_mod_pos_bound(a as int, pm);
    lemma_div_pos_is_pos(r as int, pi);
    assert(qa * pr == 2 * (qa * half)) by (nonlinear_arith) requires pr == 2 * half;
    assert(qb * pr == 2 * (qb * half)) by (nonlinear_arith) requires pr == 2 * half;
    assert(qa * half >= 0) by (nonlinear_arith) requires qa >= 0, half > 0;
    assert(qb * half >= 0) by (nonlinear_arith) requires qb >= 0, half > 0;
    lemma_mod_multiples_vanish(qa * half, r as int / pi, 2);
    lemma_mod_multiples_vanish(qb * half, r as int / pi, 2);
}

/// Reversing the `len` low bits only looks at those bits.
pub proof fn lemma_reverse_bits_mod(a: nat, b: nat, len: nat, k: nat)
    requires
        a % pow2(len) == b % pow2(len),
        k <= len,
    ensures
        reverse_bits_spec(a as int, k) == reverse_bits_spec(b as int, k),
    decreases k,
{
    if k > 0 {
        lemma_reverse_bits_mod(a, b, len, (k - 1) as nat);
        lemma_bit_at_mod(a, b, len, (k - 1) as nat);
    }
}

/// Reverse the `length` low bits of `code`.
pub fn reverse_bits(code: u16, length: u8) -> (r: u16)
    requires
        length <= 16,
    ensures
        r == reverse_bits_spec(code as int, length as nat),
        r < pow2(length as nat),
{
    let mut r: u32 = 0;
    let mut c: u16 = code;
    let mut i: u8 = 0;
    proof {
        lemma2_to64();
    }
    while i < length
        invariant
            i <= length <= 16,
            c == code as int / pow2(i as nat) as int,
            r == reverse_bits_spec(code as int, i as nat),
            r < pow2(i as nat),
            pow2(16) == 65536,
        decreases length - i,
    {
        proof {
            lemma_pow2_pos(i as nat);
            lemma_div_denominator(code as int, pow2(i as nat) as int, 2);
            lemma_pow2_unfold((i + 1) as nat);
            if i + 1 < 16 {
                lemma_pow2_strictly_increases((i + 1) as nat, 16);
            }
            assert(pow2(i as nat) * 2 == pow2((i + 1) as nat)) by (nonlinear_arith)
                requires pow2((i + 1) as nat) == 2 * pow2(i as nat);
        }
        r = r * 2 + (c % 2) as u32;
        c = c / 2;
        i = i + 1;
    }
    proof {
        if length < 16 {
            lemma_pow2_strictly_increases(length as nat, 16);
        }
    }
    r as u16
}

/// A huffman code: `length` bits to be written least significant bit first.
#[derive(Copy, Clone, Default, Debug, PartialEq, Eq)]
pub struct HuffmanCode {
    pub code: u16,
    pub length: u8,
}

impl HuffmanCode {
    /// Create a new huffman code struct, reversing the bits in the code.
    /// Returns None if the code is longer than 15 bits (the maximum allowed by the DEFLATE spec).
    pub fn from_reversed_bits(code: u16, length: u8) -> (r: Option<HuffmanCode>)
        ensures
            length <= 15 ==> r == Some(
                (HuffmanCode { code: reverse_bits_spec(code as int, length as nat) as u16, length }),
            ),
            length > 15 ==> r is None,
    {
        if length <= 15 {
            Some(HuffmanCode { code: reverse_bits(code, length), length })
        } else {
            None
        }
    }
}


/// The codes, extra bits and their lengths needed to output one length/distance pair.
pub struct LengthAndDistanceBits {
    pub length_code: HuffmanCode,
    pub length_extra_bits: HuffmanCode,
    pub distance_code: HuffmanCode,
    pub distance_extra_bits: HuffmanCode,
}

/// A structure containing the tables of huffman codes for lengths, literals and distances.
pub struct HuffmanTable {
    /// Literal, end of block and length codes.
    pub codes: Vec<HuffmanCode>,
    /// Distance codes.
    pub distance_codes: Vec<HuffmanCode>,
}

/// A table of `n` empty codes.
pub open spec fn empty_codes(n: nat) -> Seq<HuffmanCode> {
    Seq::new(n, |i: int| HuffmanCode { code: 0, length: 0 })
}

fn empty_code_vec(n: usize) -> (r: Vec<HuffmanCode>)
    ensures
        r@ == empty_codes(n as nat),
{
    let mut v: Vec<HuffmanCode> = Vec::new();
    let mut i: usize = 0;
    while i < n
        invariant
            i <= n,
            v@ =~= empty_codes(i as nat),
        decreases n - i,
    {
        v.push(HuffmanCode { code: 0, length: 0 });
        i = i + 1;
    }
    v
}

/// The literal/length codes of a table built from `ll`.
pub open spec fn lengths_fit(s: Seq<u8>, n: nat) -> bool {
    s.len() < 65536 && (length_table_error(s) is None ==> forall|i: int| n <= i < s.len() ==> s[i] == 0)
}


/// Reversing `len` bits gives a number of `len` bits.
pub proof fn lemma_reverse_bits_bound(x: int, len: nat)
    ensures
        0 <= reverse_bits_spec(x, len) < pow2(len),
    decreases len,
{
    lemma2_to64();
    if len > 0 {
        lemma_reverse_bits_bound(x, (len - 1) as nat);
        lemma_pow2_unfold(len);
        assert(0 <= bit_at(x, (len - 1) as nat) < 2) by {
            lemma_pow2_pos((len - 1) as nat);
            lemma_mod_bound(x / pow2((len - 1) as nat) as int, 2);
        }
    }
}

/// A code that can be written: at most 15 bits, and a value that fits them.
pub open spec fn code_ok(c: HuffmanCode) -> bool {
    c.length <= 15 && c.code < pow2(c.length as nat)
}

/// Every code of the table can be written.
pub open spec fn codes_ok(s: Seq<HuffmanCode>) -> bool {
    forall|i: int| 0 <= i < s.len() ==> code_ok(#[trigger] s[i])
}

pub proof fn lemma_empty_codes_ok(n: nat)
    ensures
        codes_ok(empty_codes(n)),
{
    lemma2_to64();
}

/// Giving symbols the codes of a valid length table keeps every code writable.
pub proof fn lemma_assign_codes_ok(old: Seq<HuffmanCode>, s: Seq<u8>)
    requires
        codes_ok(old),
        length_table_error(s) is None,
    ensures
        codes_ok(assign_codes(old, s)),
{
    let r = assign_codes(old, s);
    assert forall|i: int| 0 <= i < r.len() implies code_ok(#[trigger] r[i]) by {
        if i < s.len() && s[i] != 0 {
            let c = crate::huffman_codes::canonical_code(s, i);
            assert(s[i] <= 15);
            lemma_reverse_bits_bound(c, s[i] as nat);
            lemma2_to64();
            lemma_pow2_strictly_increases(s[i] as nat, 16);
        }
    }
}

impl HuffmanTable {
    /// The 288 literal/length codes (the last two only take part in code construction).
    pub closed spec fn codes(&self) -> Seq<HuffmanCode> {
        self.codes@
    }

    /// The 32 distance codes (the last two only take part in code construction).
    pub closed spec fn distance_codes(&self) -> Seq<HuffmanCode> {
        self.distance_codes@
    }

    pub open spec fn wf(&self) -> bool {
        self.codes().len() == 288 && self.distance_codes().len() == 32
    }

    /// Well formed, and every code can be written.
    pub open spec fn valid(&self) -> bool {
        self.wf() && codes_ok(self.codes()) && codes_ok(self.distance_codes())
    }

    /// A table where every code is empty.
    pub fn empty() -> (r: HuffmanTable)
        ensures
            r.wf(),
            r.codes() == empty_codes(288),
            r.distance_codes() == empty_codes(32),
    {
        HuffmanTable { codes: empty_code_vec(288), distance_codes: empty_code_vec(32) }
    }

    /// Build a table from literal/length and distance length tables.
    pub fn from_length_tables(literals_and_lengths: &[u8], distances: &[u8]) -> (r: Result<HuffmanTable, HuffmanError>)
        requires
            lengths_fit(literals_and_lengths@, 288),
            lengths_fit(distances@, 32),
        ensures
            length_table_error(literals_and_lengths@) matches Some(e) ==> r == Err::<HuffmanTable, HuffmanError>(e),
            length_table_error(literals_and_lengths@) is None ==> (length_table_error(distances@) matches Some(e)
                ==> r == Err::<HuffmanTable, HuffmanError>(e)),
            length_table_error(literals_and_lengths@) is None && length_table_error(distances@) is None ==> (r matches Ok(t) && {
                &&& t.wf()
                &&& t.codes() == assign_codes(empty_codes(288), literals_and_lengths@)
                &&& t.distance_codes() == assign_codes(empty_codes(32), distances@)
            }),
    {
        let mut table = HuffmanTable::empty();
        match table.update_from_length_tables(literals_and_lengths, distances) {
            Ok(()) => Ok(table),
            Err(e) => Err(e),
        }
    }

    /// Update the `HuffmanTable` from the provided length tables.
    /// Returns Err if the tables are empty or hold lengths above 15; the literal/length codes
    /// are then updated only if the distance table alone is at fault.
    pub fn update_from_length_tables(&mut self, literals_and_lengths: &[u8], distances: &[u8]) -> (r: Result<(), HuffmanError>)
        requires
            old(self).wf(),
            lengths_fit(literals_and_lengths@, 288),
            lengths_fit(distances@, 32),
        ensures
            final(self).wf(),
            length_table_error(literals_and_lengths@) matches Some(e) ==> r == Err::<(), HuffmanError>(e)
                && final(self).codes() == old(self).codes()
                && final(self).distance_codes() == old(self).distance_codes(),
            length_table_error(literals_and_lengths@) is None ==> final(self).codes() == assign_codes(
                old(self).codes(),
                literals_and_lengths@,
            ),
            length_table_error(literals_and_lengths@) is None ==> (length_table_error(distances@) matches Some(e)
                ==> r == Err::<(), HuffmanError>(e) && final(self).distance_codes() == old(self).distance_codes()),
            length_table_error(literals_and_lengths@) is None && length_table_error(distances@) is None ==> r is Ok
                && final(self).distance_codes() == assign_codes(old(self).distance_codes(), distances@),
    {
        match create_codes_in_place(self.codes.as_mut_slice(), literals_and_lengths) {
            Ok(()) => {},
            Err(e) => return Err(e),
        }
        create_codes_in_place(self.distance_codes.as_mut_slice(), distances)
    }

    /// Switch to the fixed huffman codes of the DEFLATE format specification.
    pub fn set_to_fixed(&mut self) -> (r: Result<(), HuffmanError>)
        requires
            old(self).wf(),
        ensures
            r is Ok,
            final(self).wf(),
            final(self).codes() == assign_codes(old(self).codes(), FIXED_CODE_LENGTHS@),
            final(self).distance_codes() == assign_codes(old(self).distance_codes(), FIXED_CODE_LENGTHS_DISTANCE@),
    {
        proof {
            lemma_fixed_tables_valid();
        }
        self.update_from_length_tables(FIXED_CODE_LENGTHS.as_slice(), FIXED_CODE_LENGTHS_DISTANCE.as_slice())
    }

    /// Create a HuffmanTable using the fixed tables specified in the DEFLATE format specification.
    pub fn fixed_table() -> (r: HuffmanTable)
        ensures
            r.wf(),
            r.codes() == assign_codes(empty_codes(288), FIXED_CODE_LENGTHS@),
            r.distance_codes() == assign_codes(empty_codes(32), FIXED_CODE_LENGTHS_DISTANCE@),
    {
        let mut table = HuffmanTable::empty();
        let _ = table.set_to_fixed();
        table
    }

    /// Get the huffman code from the corresponding literal value.
    pub fn get_literal(&self, value: u8) -> (r: HuffmanCode)
        requires
            self.wf(),
        ensures
            r == self.codes()[value as int],
    {
        self.codes[value as usize]
    }

    /// Get the huffman code for the end of block value.
    pub fn get_end_of_block(&self) -> (r: HuffmanCode)
        requires
            self.wf(),
        ensures
            r == self.codes()[END_OF_BLOCK_POSITION as int],
    {
        self.codes[END_OF_BLOCK_POSITION]
    }

    /// Get the huffman code and extra bits for the specified length.
    ///
    /// Returns None if the length is smaller than MIN_MATCH or larger than MAX_MATCH.
    pub fn get_length_huffman(&self, length: u16) -> (r: Option<(HuffmanCode, HuffmanCode)>)
        requires
            self.wf(),
        ensures
            r is None <==> (length < MIN_MATCH || length > MAX_MATCH),
            r matches Some((c, e)) ==> {
                let n = spec_length_code(length - MIN_MATCH);
                &&& c == self.codes()[LENGTH_BITS_START + n]
                &&& e.length == LENGTH_EXTRA_BITS_LENGTH@[n]
                &&& e.code == length - MIN_MATCH - BASE_LENGTH@[n]
                &&& e.code < pow2(e.length as nat)
            },
    {
        if length < MIN_MATCH || length > MAX_MATCH {
            return None;
        }
        let length_data = match get_length_code_and_extra_bits(length) {
            Some(t) => t,
            None => return None,
        };
        let length_huffman_code = self.codes[length_data.code_number as usize];
        Some((length_huffman_code, HuffmanCode { code: length_data.value, length: length_data.num_bits }))
    }

    /// Get the huffman code and extra bits for the specified distance.
    ///
    /// Returns None if distance is 0 or above 32768.
    pub fn get_distance_huffman(&self, distance: u16) -> (r: Option<(HuffmanCode, HuffmanCode)>)
        requires
            self.wf(),
        ensures
            r is None <==> (distance < MIN_DISTANCE || distance > MAX_DISTANCE),
            r matches Some((c, e)) ==> {
                let n = spec_distance_code(distance - 1);
                &&& c == self.distance_codes()[n]
                &&& e.length == DISTANCE_EXTRA_BITS@[n]
                &&& e.code == distance - 1 - DISTANCE_BASE@[n]
                &&& e.code < pow2(e.length as nat)
            },
    {
        if distance < MIN_DISTANCE || distance > MAX_DISTANCE {
            return None;
        }
        let distance_data = match get_distance_code_and_extra_bits(distance) {
            Some(t) => t,
            None => return None,
        };
        let distance_huffman_code = self.distance_codes[distance_data.code_number as usize];
        Some((distance_huffman_code, HuffmanCode { code: distance_data.value, length: distance_data.num_bits }))
    }

    /// The codes and extra bits of a length/distance pair.
    pub fn get_length_distance_code(&self, length: u16, distance: u16) -> (r: Option<LengthAndDistanceBits>)
        requires
            self.wf(),
            MIN_MATCH <= length <= MAX_MATCH,
            MIN_DISTANCE <= distance <= MAX_DISTANCE,
        ensures
            r matches Some(b) && {
                &&& Some((b.length_code, b.length_extra_bits)) == self.get_length_huffman_spec(length)
                &&& Some((b.distance_code, b.distance_extra_bits)) == self.get_distance_huffman_spec(distance)
            },
    {
        let l_codes = self.get_length_huffman(length);
        let d_codes = self.get_distance_huffman(distance);
        match (l_codes, d_codes) {
            (Some(l), Some(d)) => Some(LengthAndDistanceBits {
                length_code: l.0,
                length_extra_bits: l.1,
                distance_code: d.0,
                distance_extra_bits: d.1,
            }),
            _ => None,
        }
    }

    /// The code and extra bits of a valid length.
    pub open spec fn get_length_huffman_spec(&self, length: u16) -> Option<(HuffmanCode, HuffmanCode)> {
        let n = spec_length_code(length - MIN_MATCH);
        Some((self.codes()[LENGTH_BITS_START + n], HuffmanCode {
            code: (length - MIN_MATCH - BASE_LENGTH@[n]) as u16,
            length: LENGTH_EXTRA_BITS_LENGTH@[n],
        }))
    }

    /// The code and extra bits of a valid distance.
    pub open spec fn get_distance_huffman_spec(&self, distance: u16) -> Option<(HuffmanCode, HuffmanCode)> {
        let n = spec_distance_code(distance - 1);
        Some((self.distance_codes()[n], HuffmanCode {
            code: (distance - 1 - DISTANCE_BASE@[n]) as u16,
            length: DISTANCE_EXTRA_BITS@[n],
        }))
    }
}

/// The fixed length tables are valid length tables that fit the code tables.
pub proof fn lemma_fixed_tables_valid()
    ensures
        length_table_error(FIXED_CODE_LENGTHS@) is None,
        length_table_error(FIXED_CODE_LENGTHS_DISTANCE@) is None,
        lengths_fit(FIXED_CODE_LENGTHS@, 288),
        lengths_fit(FIXED_CODE_LENGTHS_DISTANCE@, 32),
{
    assert(forall|i: int| 0 <= i < 288 ==> FIXED_CODE_LENGTHS@[i] <= 9);
    assert(forall|i: int| 0 <= i < 32 ==> FIXED_CODE_LENGTHS_DISTANCE@[i] == 5);
}

} // verus!
