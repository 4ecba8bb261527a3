//! Hash tables that map a hash of the bytes at an input position to an
//! earlier position, and the byte-level helpers of the match finder.
use vstd::prelude::*;
use crate::greedy::{count_limit, match_len};

verus! {

/// Knuth's multiplicative hash constant (golden ratio * 2^32).
pub const KNUTH: u32 = 2654435761;

/// Multiplier of the 5-byte hash.
pub const PRIME5: u64 = 889523592379;

/// Entries of [`HashTableU32`].
pub const HASHTABLE_SIZE_U32: usize = 2048;

/// Entries of the default [`HashTableU32U16`].
pub const HASHTABLE_SIZE_U16: usize = 4096;

/// The eight bytes at `pos`, read as a little-endian number.
pub open spec fn le_u64_at(input: Seq<u8>, pos: int) -> int {
    input[pos] + 0x100 * input[pos + 1] + 0x1_0000 * input[pos + 2] + 0x100_0000 * input[pos + 3]
        + 0x1_0000_0000 * input[pos + 4] + 0x100_0000_0000 * input[pos + 5] + 0x1_0000_0000_0000 * input[pos + 6]
        + 0x100_0000_0000_0000 * input[pos + 7]
}

/// The four bytes at `pos`, read as a little-endian number.
pub open spec fn le_u32_at(input: Seq<u8>, pos: int) -> int {
    input[pos] + 0x100 * input[pos + 1] + 0x1_0000 * input[pos + 2] + 0x100_0000 * input[pos + 3]
}

/// The table index for an eight-byte batch in a table of `n` entries: the low
/// five bytes, multiplied by `PRIME5`, scaled to `0..n` by their top bits.
pub open spec fn hash_index(batch: u64, n: u64) -> usize {
    ((((batch << 24u64).wrapping_mul(PRIME5) >> 32u64) as int * n) / 0x1_0000_0000) as usize
}

/// The hash of the five bytes at `pos` for a table of `n` entries.
pub open spec fn hash_at(input: Seq<u8>, pos: int, n: u64) -> usize {
    hash_index(le_u64_at(input, pos) as u64, n)
}

/// The hash of any batch addresses a table of `n` entries.
pub proof fn lemma_hash_index_bound(batch: u64, n: u64)
    requires
        0 < n <= 0x1_0000_0000,
    ensures
        hash_index(batch, n) < n,
{
    let x: u64 = (batch << 24u64).wrapping_mul(PRIME5) >> 32u64;
    assert(x <= 0xFFFF_FFFF) by (bit_vector)
        requires x == (batch << 24u64).wrapping_mul(PRIME5) >> 32u64;
    assert((x as int * n) / 0x1_0000_0000 < n) by (nonlinear_arith)
        requires x <= 0xFFFF_FFFF, n > 0;
}

/// Read an eight-byte "batch" from some position (little-endian).
pub fn get_batch_arch(input: &[u8], n: usize) -> (r: u64)
    requires
        n + 8 <= input@.len(),
    ensures
        r == le_u64_at(input@, n as int),
{
    input[n] as u64 + 0x100 * (input[n + 1] as u64) + 0x1_0000 * (input[n + 2] as u64) + 0x100_0000 * (input[n + 3] as u64)
        + 0x1_0000_0000 * (input[n + 4] as u64) + 0x100_0000_0000 * (input[n + 5] as u64)
        + 0x1_0000_0000_0000 * (input[n + 6] as u64) + 0x100_0000_0000_0000 * (input[n + 7] as u64)
}

/// Read 4 bytes from `input` at position `n` (little-endian).
pub fn get_batch_unchecked(input: &[u8], n: usize) -> (r: u32)
    requires
        n + 4 <= input@.len(),
    ensures
        r == le_u32_at(input@, n as int),
{
    input[n] as u32 + 0x100 * (input[n + 1] as u32) + 0x1_0000 * (input[n + 2] as u32) + 0x100_0000 * (input[n + 3] as u32)
}

/// Two four-byte batches are equal exactly when their bytes are.
pub proof fn lemma_batch_eq(a: Seq<u8>, i: int, b: Seq<u8>, j: int)
    requires
        0 <= i,
        i + 4 <= a.len(),
        0 <= j,
        j + 4 <= b.len(),
    ensures
        le_u32_at(a, i) == le_u32_at(b, j) <==> a.subrange(i, i + 4) == b.subrange(j, j + 4),
{
    let (a0, a1, a2, a3) = (a[i], a[i + 1], a[i + 2], a[i + 3]);
    let (b0, b1, b2, b3) = (b[j], b[j + 1], b[j + 2], b[j + 3]);
    if le_u32_at(a, i) == le_u32_at(b, j) {
        assert(a0 == b0 && a1 == b1 && a2 == b2 && a3 == b3) by (nonlinear_arith)
            requires
                a0 + 0x100 * a1 + 0x1_0000 * a2 + 0x100_0000 * a3 == b0 + 0x100 * b1 + 0x1_0000 * b2 + 0x100_0000 * b3,
                a0 < 256, a1 < 256, a2 < 256, a3 < 256, b0 < 256, b1 < 256, b2 < 256, b3 < 256,
        ;
        assert(a.subrange(i, i + 4) =~= b.subrange(j, j + 4));
    }
    if a.subrange(i, i + 4) == b.subrange(j, j + 4) {
        assert(a.subrange(i, i + 4)[1] == b.subrange(j, j + 4)[1]);
        assert(a.subrange(i, i + 4)[0] == b.subrange(j, j + 4)[0]);
        assert(a.subrange(i, i + 4)[2] == b.subrange(j, j + 4)[2]);
        assert(a.subrange(i, i + 4)[3] == b.subrange(j, j + 4)[3]);
    }
}

/// The hash of an eight-byte batch for a table of `n` entries.
pub fn hash_batch(batch: u64, n: u64) -> (h: usize)
    requires
        0 < n <= 0x1_0000_0000,
    ensures
        h == hash_index(batch, n),
        h < n,
{
    let x: u64 = (batch << 24u64).wrapping_mul(PRIME5) >> 32u64;
    assert(x <= 0xFFFF_FFFF) by (bit_vector)
        requires x == (batch << 24u64).wrapping_mul(PRIME5) >> 32u64;
    assert(x * n <= 0xFFFF_FFFF * n) by (nonlinear_arith)
        requires x <= 0xFFFF_FFFF;
    assert(0xFFFF_FFFF * n <= 0xFFFF_FFFF * 0x1_0000_0000) by (nonlinear_arith)
        requires n <= 0x1_0000_0000;
    let y: u64 = x * n;
    assert(y >> 32u64 == y / 0x1_0000_0000) by (bit_vector);
    assert(y / 0x1_0000_0000 < n) by (nonlinear_arith)
        requires y == x * n, x <= 0xFFFF_FFFF, n > 0;
    (y >> 32u64) as usize
}

/// Count matching bytes between `input[cur..]` and `source[candidate..]`,
/// stopping before `input[input.len() - end_offset]` and at the end of
/// `source`. Advances `cur` past the matching bytes.
pub fn count_same_bytes_unchecked(
    input: &[u8],
    cur: &mut usize,
    source: &[u8],
    candidate: usize,
    end_offset: usize,
) -> (n: usize)
    requires
        candidate <= source@.len(),
        *old(cur) + end_offset <= usize::MAX,
    ensures
        *final(cur) == *old(cur) + n,
        n <= source@.len() - candidate,
        n + *old(cur) + end_offset <= input@.len() || n == 0,
        forall|i: int| 0 <= i < n ==> input@[*old(cur) + i] == #[trigger] source@[candidate + i],
        n < source@.len() - candidate && *old(cur) + end_offset + n < input@.len() ==> input@[*old(cur) + n] != source@[candidate + n],
        n == match_len(input@, *old(cur) as int, source@, candidate as int,
            count_limit(input@.len() as int, *old(cur) as int, end_offset as int, source@.len() as int, candidate as int)),
{
    let max_input = input.len().saturating_sub(*cur + end_offset);
    let max_cand = source.len() - candidate;
    let limit = if max_input < max_cand { max_input } else { max_cand };
    let start = *cur;
    let mut n: usize = 0;
    while n < limit && input[start + n] == source[candidate + n]
        invariant
            start == *old(cur),
            *cur == start,
            n <= limit,
            limit <= max_cand,
            max_cand == source.len() - candidate,
            limit == 0 || start + end_offset + limit <= input.len(),
            max_input == (if input@.len() >= start + end_offset { input@.len() - (start + end_offset) } else { 0 }),
            limit == (if max_input < max_cand { max_input } else { max_cand }),
            forall|i: int| 0 <= i < n ==> input@[start + i] == #[trigger] source@[candidate + i],
            limit == count_limit(input@.len() as int, start as int, end_offset as int, source@.len() as int, candidate as int),
            match_len(input@, start as int, source@, candidate as int, limit as int)
                == n + match_len(input@, start + n, source@, candidate + n, limit - n),
        decreases limit - n,
    {
        n = n + 1;
    }
    *cur = start + n;
    n
}

/// Hash table trait for LZ4 match finding.
pub trait HashTable: Sized {
    /// Number of entries.
    spec fn table_size() -> nat;

    /// The table holds `table_size()` entries.
    spec fn wf(&self) -> bool;

    /// A well-formed table has a size that the hash can address.
    proof fn lemma_wf_size(&self)
        requires
            self.wf(),
        ensures
            0 < Self::table_size() <= 0x1_0000_0000;

    /// The entries, each a position.
    spec fn entries(&self) -> Seq<usize>;

    /// What the table keeps of a position that is stored.
    spec fn stored(val: usize) -> usize;

    /// The hash of the bytes at `pos`.
    spec fn spec_hash(input: Seq<u8>, pos: int) -> usize;

    /// Every hash addresses an entry of a table of a size the hash can address.
    proof fn lemma_hash_bound(input: Seq<u8>, pos: int)
        requires
            0 < Self::table_size() <= 0x1_0000_0000,
        ensures
            Self::spec_hash(input, pos) < Self::table_size();

    /// Look up a table entry by hash index.
    fn get_at(&self, idx: usize) -> (v: usize)
        requires
            self.wf(),
            idx < Self::table_size(),
        ensures
            v == self.entries()[idx as int],
            self.entries().len() == Self::table_size();

    /// Store a position at the given hash index.
    fn put_at(&mut self, idx: usize, val: usize)
        requires
            old(self).wf(),
            idx < Self::table_size(),
        ensures
            final(self).wf(),
            final(self).entries() == old(self).entries().update(idx as int, Self::stored(val));

    /// Zero all entries.
    fn clear(&mut self)
        requires
            old(self).wf(),
        ensures
            final(self).wf(),
            final(self).entries() == Seq::new(Self::table_size(), |i: int| 0usize);

    /// Hash `input[pos..]` with bounds checking.
    fn get_hash_at(input: &[u8], pos: usize) -> (h: usize)
        requires
            pos + 8 <= input@.len(),
            0 < Self::table_size() <= 0x1_0000_0000,
        ensures
            h == Self::spec_hash(input@, pos as int),
            h < Self::table_size();

    /// Hash `input[pos..]` where the caller has checked the bounds.
    ///
    /// Default delegates to the checked [`get_hash_at`](Self::get_hash_at).
    fn get_hash_at_unchecked(input: &[u8], pos: usize) -> (h: usize)
        requires
            pos + 8 <= input@.len(),
            0 < Self::table_size() <= 0x1_0000_0000,
        ensures
            h == Self::spec_hash(input@, pos as int),
            h < Self::table_size(),
    {
        Self::get_hash_at(input, pos)
    }
}

/// A 2K entry hash table using 32-bit values (8 KB total).
#[derive(Debug)]
pub struct HashTableU32 {
    dict: Vec<u32>,
}

impl HashTableU32 {
    /// Create a new zeroed hash table.
    pub fn new() -> (t: Self)
        ensures
            t.wf(),
            t.entries() == Seq::new(HASHTABLE_SIZE_U32 as nat, |i: int| 0usize),
    {
        let t = HashTableU32 { dict: vec![0u32; HASHTABLE_SIZE_U32] };
        assert(t.entries() =~= Seq::new(HASHTABLE_SIZE_U32 as nat, |i: int| 0usize));
        t
    }

    /// Subtract `offset` from all entries (saturating).
    pub fn reposition(&mut self, offset: u32)
        requires
            old(self).wf(),
        ensures
            final(self).wf(),
            final(self).entries().len() == old(self).entries().len(),
            forall|i: int| 0 <= i < old(self).entries().len() ==> #[trigger] final(self).entries()[i]
                == if old(self).entries()[i] >= offset { (old(self).entries()[i] - offset) as usize } else { 0usize },
    {
        let mut i: usize = 0;
        while i < self.dict.len()
            invariant
                self.dict@.len() == HASHTABLE_SIZE_U32,
                old(self).dict@.len() == HASHTABLE_SIZE_U32,
                i <= self.dict@.len(),
                forall|j: int| 0 <= j < i ==> #[trigger] self.dict@[j]
                    == if old(self).dict@[j] >= offset { (old(self).dict@[j] - offset) as u32 } else { 0u32 },
                forall|j: int| i <= j < self.dict@.len() ==> #[trigger] self.dict@[j] == old(self).dict@[j],
            decreases self.dict@.len() - i,
        {
            let v = self.dict[i];
            self.dict.set(i, v.saturating_sub(offset));
            i = i + 1;
        }
    }
}

impl HashTable for HashTableU32 {
    open spec fn table_size() -> nat {
        HASHTABLE_SIZE_U32 as nat
    }

    closed spec fn wf(&self) -> bool {
        self.dict@.len() == HASHTABLE_SIZE_U32
    }

    closed spec fn entries(&self) -> Seq<usize> {
        self.dict@.map_values(|v: u32| v as usize)
    }

    open spec fn stored(val: usize) -> usize {
        (val as u32) as usize
    }

    proof fn lemma_wf_size(&self) {
    }

    proof fn lemma_hash_bound(input: Seq<u8>, pos: int) {
        lemma_hash_index_bound(le_u64_at(input, pos) as u64, HASHTABLE_SIZE_U32 as u64);
    }

    open spec fn spec_hash(input: Seq<u8>, pos: int) -> usize {
        hash_at(input, pos, HASHTABLE_SIZE_U32 as u64)
    }

    fn get_at(&self, idx: usize) -> (v: usize) {
        self.dict[idx] as usize
    }

    fn put_at(&mut self, idx: usize, val: usize) {
        self.dict.set(idx, val as u32);
        assert(self.entries() =~= old(self).entries().update(idx as int, Self::stored(val)));
    }

    fn clear(&mut self) {
        let mut i: usize = 0;
        while i < self.dict.len()
            invariant
                self.dict@.len() == HASHTABLE_SIZE_U32,
                i <= self.dict@.len(),
                forall|j: int| 0 <= j < i ==> #[trigger] self.dict@[j] == 0u32,
            decreases self.dict@.len() - i,
        {
            self.dict.set(i, 0);
            i = i + 1;
        }
        assert(self.entries() =~= Seq::new(Self::table_size(), |i: int| 0usize));
    }

    fn get_hash_at(input: &[u8], pos: usize) -> (h: usize) {
        let batch = get_batch_arch(input, pos);
        hash_batch(batch, HASHTABLE_SIZE_U32 as u64)
    }
}

/// `N` is a table size that the hash can address.
pub open spec fn valid_table_size(n: usize) -> bool {
    0 < n <= 0x1_0000_0000
}

/// A hash table of `N` entries using 16-bit values, for inputs (with their
/// dictionary) shorter than 64 KB.
#[derive(Debug)]
pub struct HashTableU32U16<const N: usize> {
    dict: Vec<u16>,
}

impl<const N: usize> HashTableU32U16<N> {
    /// Create a new zeroed hash table.
    pub fn new() -> (t: Self)
        requires
            valid_table_size(N),
        ensures
            t.wf(),
            t.entries() == Seq::new(N as nat, |i: int| 0usize),
    {
        let t = HashTableU32U16 { dict: vec![0u16; N] };
        assert(t.entries() =~= Seq::new(N as nat, |i: int| 0usize));
        t
    }
}

impl<const N: usize> HashTable for HashTableU32U16<N> {
    open spec fn table_size() -> nat {
        N as nat
    }

    closed spec fn wf(&self) -> bool {
        self.dict@.len() == N && valid_table_size(N)
    }

    closed spec fn entries(&self) -> Seq<usize> {
        self.dict@.map_values(|v: u16| v as usize)
    }

    open spec fn stored(val: usize) -> usize {
        (val as u16) as usize
    }

    open spec fn spec_hash(input: Seq<u8>, pos: int) -> usize {
        hash_at(input, pos, N as u64)
    }

    proof fn lemma_wf_size(&self) {
    }

    proof fn lemma_hash_bound(input: Seq<u8>, pos: int) {
        lemma_hash_index_bound(le_u64_at(input, pos) as u64, N as u64);
    }

    fn get_at(&self, idx: usize) -> (v: usize) {
        self.dict[idx] as usize
    }

    fn put_at(&mut self, idx: usize, val: usize) {
        self.dict.set(idx, val as u16);
        assert(self.entries() =~= old(self).entries().update(idx as int, Self::stored(val)));
    }

    fn clear(&mut self) {
        let mut i: usize = 0;
        while i < self.dict.len()
            invariant
                self.dict@.len() == N,
                i <= self.dict@.len(),
                forall|j: int| 0 <= j < i ==> #[trigger] self.dict@[j] == 0u16,
            decreases self.dict@.len() - i,
        {
            self.dict.set(i, 0);
            i = i + 1;
        }
        assert(self.entries() =~= Seq::new(Self::table_size(), |i: int| 0usize));
    }

    fn get_hash_at(input: &[u8], pos: usize) -> (h: usize) {
        let batch = get_batch_arch(input, pos);
        hash_batch(batch, N as u64)
    }
}

/// A hash table of `N` entries using 32-bit values.
#[derive(Debug)]
pub struct HashTableU32N<const N: usize> {
    dict: Vec<u32>,
}

impl<const N: usize> HashTableU32N<N> {
    /// Create a new zeroed hash table.
    pub fn new() -> (t: Self)
        requires
            valid_table_size(N),
        ensures
            t.wf(),
            t.entries() == Seq::new(N as nat, |i: int| 0usize),
    {
        let t = HashTableU32N { dict: vec![0u32; N] };
        assert(t.entries() =~= Seq::new(N as nat, |i: int| 0usize));
        t
    }

    /// Subtract `offset` from all entries (saturating).
    pub fn reposition(&mut self, offset: u32)
        requires
            old(self).wf(),
        ensures
            final(self).wf(),
            final(self).entries().len() == old(self).entries().len(),
            forall|i: int| 0 <= i < old(self).entries().len() ==> #[trigger] final(self).entries()[i]
                == if old(self).entries()[i] >= offset { (old(self).entries()[i] - offset) as usize } else { 0usize },
    {
        let mut i: usize = 0;
        while i < self.dict.len()
            invariant
                self.dict@.len() == N,
                old(self).dict@.len() == N,
                valid_table_size(N),
                i <= self.dict@.len(),
                forall|j: int| 0 <= j < i ==> #[trigger] self.dict@[j]
                    == if old(self).dict@[j] >= offset { (old(self).dict@[j] - offset) as u32 } else { 0u32 },
                forall|j: int| i <= j < self.dict@.len() ==> #[trigger] self.dict@[j] == old(self).dict@[j],
            decreases self.dict@.len() - i,
        {
            let v = self.dict[i];
            self.dict.set(i, v.saturating_sub(offset));
            i = i + 1;
        }
    }

    /// Overwrite this table's entries with the contents of `other`, reusing
    /// this table's storage.
    pub fn copy_from(&mut self, other: &Self)
        requires
            old(self).wf(),
            other.wf(),
        ensures
            final(self).wf(),
            final(self).entries() == other.entries(),
    {
        let mut i: usize = 0;
        while i < self.dict.len()
            invariant
                self.dict@.len() == N,
                other.dict@.len() == N,
                valid_table_size(N),
                i <= self.dict@.len(),
                forall|j: int| 0 <= j < i ==> #[trigger] self.dict@[j] == other.dict@[j],
            decreases self.dict@.len() - i,
        {
            self.dict.set(i, other.dict[i]);
            i = i + 1;
        }
        assert(self.dict@ =~= other.dict@);
    }
}

impl<const N: usize> HashTable for HashTableU32N<N> {
    open spec fn table_size() -> nat {
        N as nat
    }

    closed spec fn wf(&self) -> bool {
        self.dict@.len() == N && valid_table_size(N)
    }

    closed spec fn entries(&self) -> Seq<usize> {
        self.dict@.map_values(|v: u32| v as usize)
    }

    open spec fn stored(val: usize) -> usize {
        (val as u32) as usize
    }

    open spec fn spec_hash(input: Seq<u8>, pos: int) -> usize {
        hash_at(input, pos, N as u64)
    }

    proof fn lemma_wf_size(&self) {
    }

    proof fn lemma_hash_bound(input: Seq<u8>, pos: int) {
        lemma_hash_index_bound(le_u64_at(input, pos) as u64, N as u64);
    }

    fn get_at(&self, idx: usize) -> (v: usize) {
        self.dict[idx] as usize
    }

    fn put_at(&mut self, idx: usize, val: usize) {
        self.dict.set(idx, val as u32);
        assert(self.entries() =~= old(self).entries().update(idx as int, Self::stored(val)));
    }

    fn clear(&mut self) {
        let mut i: usize = 0;
        while i < self.dict.len()
            invariant
                self.dict@.len() == N,
                i <= self.dict@.len(),
                forall|j: int| 0 <= j < i ==> #[trigger] self.dict@[j] == 0u32,
            decreases self.dict@.len() - i,
        {
            self.dict.set(i, 0);
            i = i + 1;
        }
        assert(self.entries() =~= Seq::new(Self::table_size(), |i: int| 0usize));
    }

    fn get_hash_at(input: &[u8], pos: usize) -> (h: usize) {
        let batch = get_batch_arch(input, pos);
        hash_batch(batch, N as u64)
    }
}

} // verus!
