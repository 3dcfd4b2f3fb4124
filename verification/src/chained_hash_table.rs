//! Hash chains over the last window of input, used to find earlier occurrences of a sequence.
use vstd::prelude::*;

verus! {

pub const WINDOW_SIZE: usize = 32768;
pub const WINDOW_MASK: usize = 32767;
pub const HASH_BYTES: usize = 3;
pub const HASH_SHIFT: u16 = 5;
pub const HASH_MASK: u16 = 32767;

/// The hash after feeding `to_insert` to the running hash `current_hash`.
pub open spec fn spec_update_hash(current_hash: u16, to_insert: u8) -> u16 {
    ((current_hash << HASH_SHIFT) ^ (to_insert as u16)) & HASH_MASK
}

/// Returns a new hash value based on the previous value and the next byte.
pub fn update_hash(current_hash: u16, to_insert: u8) -> (r: u16)
    ensures
        r == spec_update_hash(current_hash, to_insert),
        r < WINDOW_SIZE,
{
    let r = update_hash_conf(current_hash, to_insert, HASH_SHIFT, HASH_MASK);
    assert(r & 32767u16 < 32768u16) by (bit_vector);
    assert((((current_hash << 5u16) ^ (to_insert as u16)) & 32767u16) < 32768u16) by (bit_vector);
    r
}

/// The running hash with a configurable shift and mask.
pub fn update_hash_conf(current_hash: u16, to_insert: u8, shift: u16, mask: u16) -> (r: u16)
    requires
        shift < 16,
    ensures
        r == ((current_hash << shift) ^ (to_insert as u16)) & mask,
{
    ((current_hash << shift) ^ (to_insert as u16)) & mask
}

/// Set every entry of `arr` to its own index (modulo 2^16).
pub fn init_array(arr: &mut [u16])
    ensures
        final(arr)@.len() == old(arr)@.len(),
        forall|n: int| 0 <= n < final(arr)@.len() ==> final(arr)@[n] == n % 65536,
{
    let mut n: usize = 0;
    while n < arr.len()
        invariant
            n <= arr@.len(),
            arr@.len() == old(arr)@.len(),
            forall|m: int| 0 <= m < n ==> arr@[m] == m % 65536,
        decreases arr@.len() - n,
    {
        arr[n] = (n % 65536) as u16;
        n = n + 1;
    }
}

/// A window-sized table where every entry holds its own index.
pub fn new_array() -> (r: Vec<u16>)
    ensures
        r@.len() == WINDOW_SIZE,
        forall|n: int| 0 <= n < WINDOW_SIZE ==> r@[n] == n,
{
    let mut arr = vec![0u16; WINDOW_SIZE];
    init_array(arr.as_mut_slice());
    arr
}

/// The value an entry takes when the window slides down by `bytes`: positions that stay in
/// the window move down, the others point to the entry itself (an empty chain).
pub open spec fn spec_slide_value(b: u16, pos: u16, bytes: u16) -> u16 {
    if b >= bytes { (b - bytes) as u16 } else { pos }
}

/// A table where every entry holds its own index.
pub open spec fn identity_table(t: Seq<u16>) -> bool {
    t.len() == WINDOW_SIZE && forall|n: int| 0 <= n < WINDOW_SIZE ==> t[n] == n
}

pub struct ChainedHashTable {
    // Current running hash value of the last 3 bytes
    current_hash: u16,
    // Starts of hash chains (in prev)
    head: Vec<u16>,
    // link to previous occurence of this hash value
    prev: Vec<u16>,
}

impl ChainedHashTable {
    /// The running hash.
    pub closed spec fn hash(&self) -> u16 {
        self.current_hash
    }

    /// The most recent position of each hash value.
    pub closed spec fn heads(&self) -> Seq<u16> {
        self.head@
    }

    /// The previous position with the same hash, by position modulo the window size.
    pub closed spec fn prevs(&self) -> Seq<u16> {
        self.prev@
    }

    pub open spec fn wf(&self) -> bool {
        self.heads().len() == WINDOW_SIZE && self.prevs().len() == WINDOW_SIZE && self.hash() < WINDOW_SIZE
    }

    pub fn new() -> (r: ChainedHashTable)
        ensures
            r.wf(),
            r.hash() == 0,
            identity_table(r.heads()),
            identity_table(r.prevs()),
    {
        let chain = new_array();
        ChainedHashTable { current_hash: 0, head: chain.clone(), prev: chain }
    }

    /// A table whose running hash has been fed `v1` then `v2`.
    pub fn from_starting_values(v1: u8, v2: u8) -> (r: ChainedHashTable)
        ensures
            r.wf(),
            r.hash() == spec_update_hash(spec_update_hash(0, v1), v2),
            identity_table(r.heads()),
            identity_table(r.prevs()),
    {
        let mut t = ChainedHashTable::new();
        t.current_hash = update_hash(t.current_hash, v1);
        t.current_hash = update_hash(t.current_hash, v2);
        t
    }

    /// Resets the hash value and hash chains.
    pub fn reset(&mut self)
        requires
            old(self).wf(),
        ensures
            final(self).wf(),
            final(self).hash() == 0,
            identity_table(final(self).heads()),
            identity_table(final(self).prevs()),
    {
        self.current_hash = 0;
        init_array(self.head.as_mut_slice());
        init_array(self.prev.as_mut_slice());
    }

    /// Feed the two first bytes to the running hash.
    pub fn add_initial_hash_values(&mut self, v1: u8, v2: u8)
        requires
            old(self).wf(),
        ensures
            final(self).wf(),
            final(self).hash() == spec_update_hash(spec_update_hash(old(self).hash(), v1), v2),
            final(self).heads() == old(self).heads(),
            final(self).prevs() == old(self).prevs(),
    {
        self.current_hash = update_hash(self.current_hash, v1);
        self.current_hash = update_hash(self.current_hash, v2);
    }

    /// Insert a byte into the hash table: the position becomes the head of the chain of the new
    /// hash, linked to the previous head. Positions are stored modulo 2^16.
    pub fn add_hash_value(&mut self, position: usize, value: u8)
        requires
            old(self).wf(),
        ensures
            final(self).wf(),
            final(self).hash() == spec_update_hash(old(self).hash(), value),
            final(self).prevs() == old(self).prevs().update(
                (position % WINDOW_SIZE) as int,
                old(self).heads()[spec_update_hash(old(self).hash(), value) as int],
            ),
            final(self).heads() == old(self).heads().update(
                spec_update_hash(old(self).hash(), value) as int,
                (position % 65536) as u16,
            ),
    {
        let new_hash = update_hash(self.current_hash, value);
        assert(position & WINDOW_MASK == position % 32768) by (bit_vector);
        let h = self.head[new_hash as usize];
        self.prev[position & WINDOW_MASK] = h;
        assert(position as u16 == position % 65536) by (bit_vector);
        self.head[new_hash as usize] = position as u16;
        self.current_hash = new_hash;
    }

    /// Get the head of the hash chain for the current hash value.
    pub fn current_head(&self) -> (r: u16)
        requires
            self.wf(),
        ensures
            r == self.heads()[self.hash() as int],
    {
        self.head[self.current_hash as usize]
    }

    /// The running hash.
    pub fn current_hash(&self) -> (r: u16)
        ensures
            r == self.hash(),
    {
        self.current_hash
    }

    /// The previous position in the chain of the position `bytes`.
    pub fn get_prev(&self, bytes: usize) -> (r: u16)
        requires
            self.wf(),
        ensures
            r == self.prevs()[(bytes % WINDOW_SIZE) as int],
    {
        assert(bytes & WINDOW_MASK == bytes % 32768) by (bit_vector);
        self.prev[bytes & WINDOW_MASK]
    }

    /// The value of a table entry after sliding the window down by `bytes`.
    pub fn slide_value(b: u16, pos: u16, bytes: u16) -> (r: u16)
        ensures
            r == spec_slide_value(b, pos, bytes),
    {
        if b >= bytes { b - bytes } else { pos }
    }

    /// Slide every entry of a table down by `bytes`.
    pub fn slide_table(table: &mut [u16], bytes: u16)
        ensures
            final(table)@.len() == old(table)@.len(),
            forall|n: int| 0 <= n < final(table)@.len() ==> final(table)@[n] == spec_slide_value(
                old(table)@[n],
                (n % 65536) as u16,
                bytes,
            ),
    {
        let mut n: usize = 0;
        while n < table.len()
            invariant
                n <= table@.len(),
                table@.len() == old(table)@.len(),
                forall|m: int| 0 <= m < n ==> table@[m] == spec_slide_value(old(table)@[m], (m % 65536) as u16, bytes),
                forall|m: int| n <= m < table@.len() ==> table@[m] == old(table)@[m],
            decreases table@.len() - n,
        {
            let v = ChainedHashTable::slide_value(table[n], (n % 65536) as u16, bytes);
            table[n] = v;
            n = n + 1;
        }
    }

    /// Slide the hash chains down by `bytes` positions (taken modulo 2^16).
    pub fn slide(&mut self, bytes: usize)
        requires
            old(self).wf(),
        ensures
            final(self).wf(),
            final(self).hash() == old(self).hash(),
            forall|n: int| 0 <= n < WINDOW_SIZE ==> final(self).heads()[n] == spec_slide_value(
                old(self).heads()[n],
                n as u16,
                (bytes % 65536) as u16,
            ),
            forall|n: int| 0 <= n < WINDOW_SIZE ==> final(self).prevs()[n] == spec_slide_value(
                old(self).prevs()[n],
                n as u16,
                (bytes % 65536) as u16,
            ),
    {
        assert(bytes as u16 == bytes % 65536) by (bit_vector);
        ChainedHashTable::slide_table(self.head.as_mut_slice(), bytes as u16);
        ChainedHashTable::slide_table(self.prev.as_mut_slice(), bytes as u16);
    }

    /// The heads of the hash chains.
    pub fn _get_head_arr(&self) -> (r: &[u16])
        ensures
            r@ == self.heads(),
    {
        self.head.as_slice()
    }

    /// The links of the hash chains.
    pub fn _get_prev_arr(&self) -> (r: &[u16])
        ensures
            r@ == self.prevs(),
    {
        self.prev.as_slice()
    }
}

/// The running hash after the first `n` bytes of `data`.
pub open spec fn data_hash(data: Seq<u8>, n: int) -> u16
    decreases n,
{
    if n <= 0 {
        0
    } else {
        spec_update_hash(data_hash(data, n - 1), data[n - 1])
    }
}

/// The heads and links of a table fed the first `n` bytes of `data`: the first two only start
/// the running hash, and byte `i` from the third on is inserted at position `i - 2`.
pub open spec fn filled_tables(data: Seq<u8>, n: int) -> (Seq<u16>, Seq<u16>)
    decreases n,
{
    if n <= 2 {
        (Seq::new(WINDOW_SIZE as nat, |i: int| i as u16), Seq::new(WINDOW_SIZE as nat, |i: int| i as u16))
    } else {
        let (heads, prevs) = filled_tables(data, n - 1);
        let h = data_hash(data, n) as int;
        (
            heads.update(h, ((n - 3) % 65536) as u16),
            prevs.update((n - 3) % (WINDOW_SIZE as int), heads[h]),
        )
    }
}

/// A hash table fed the bytes of `data`: the first two start the running hash, the others are
/// inserted at positions 0, 1, 2, ...
pub fn filled_hash_table(data: &[u8]) -> (r: ChainedHashTable)
    requires
        data@.len() >= 2,
    ensures
        r.wf(),
        r.hash() == data_hash(data@, data@.len() as int),
        r.heads() == filled_tables(data@, data@.len() as int).0,
        r.prevs() == filled_tables(data@, data@.len() as int).1,
{
    let mut hash_table = ChainedHashTable::from_starting_values(data[0], data[1]);
    let mut n: usize = 2;
    proof {
        reveal_with_fuel(data_hash, 3);
        assert(hash_table.heads() =~= filled_tables(data@, 2).0);
        assert(hash_table.prevs() =~= filled_tables(data@, 2).1);
    }
    while n < data.len()
        invariant
            2 <= n <= data@.len(),
            hash_table.wf(),
            hash_table.hash() == data_hash(data@, n as int),
            hash_table.heads() == filled_tables(data@, n as int).0,
            hash_table.prevs() == filled_tables(data@, n as int).1,
        decreases data@.len() - n,
    {
        hash_table.add_hash_value(n - 2, data[n]);
        n = n + 1;
    }
    hash_table
}

} // verus!
