//! Reusable block compressors that keep their hash tables between calls.
use vstd::prelude::*;
use crate::compress::{
    compressed_block, block_dict, compress_block, compress_dict_block, lemma_compressed_from_start, compress_into_slice_with_dict, compressed_into, compressed_to_slice,
    compressed_vec, compressible, dict_positions, get_maximum_output_size, hashed_positions, init_dict, max_output_size,
    window_tail,
};
use crate::error::CompressError;
use crate::hashtable::{
    valid_table_size, HashTable, HashTableU32, HashTableU32N, HashTableU32U16, HASHTABLE_SIZE_U16, HASHTABLE_SIZE_U32,
};
use crate::greedy::greedy_block;
use crate::{MAX_DISTANCE, MINMATCH, WINDOW_SIZE};

verus! {

/// Epoch-based table reuse threshold. Inputs up to this size skip the
/// clearing of the table and rely on the distance check to reject stale
/// entries. Above this size the offset arithmetic in the hot loop costs more
/// than the clearing it saves.
pub const EPOCH_THRESHOLD: usize = 8192;

/// Entries of the table of a compressor without a dictionary (8 KB).
pub const DEFAULT_NODICT_ENTRIES: usize = 2048;

/// Entries of each table of a compressor with a dictionary (8 KB each).
pub const DEFAULT_DICT_ENTRIES: usize = 4096;

/// Whether preparing a reused table whose next input starts at the stream
/// offset `so` for an input of `len` bytes clears the table: for an input
/// longer than `EPOCH_THRESHOLD`, or when the input and a full window after
/// it would pass `u32::MAX`.
pub open spec fn clears_table(so: int, len: int) -> bool {
    len > EPOCH_THRESHOLD || so + len + MAX_DISTANCE + 1 > u32::MAX
}

/// The entries `e` of a reused table of `n` entries after it was prepared
/// for an input of `len` bytes at the stream offset `so`.
pub open spec fn prepared_entries(e: Seq<usize>, n: nat, so: int, len: int) -> Seq<usize> {
    if clears_table(so, len) {
        Seq::new(n, |i: int| 0usize)
    } else {
        e
    }
}

/// The stream offset at which the input after one of `len` bytes at the
/// stream offset `so` starts.
pub open spec fn next_stream_offset(so: int, len: int) -> int {
    if clears_table(so, len) {
        len + MAX_DISTANCE + 1
    } else {
        so + len + MAX_DISTANCE + 1
    }
}

/// The stream offset at which an input of `len` bytes is compressed in a
/// reused table whose next input starts at `so`: 0 for an input longer than
/// `EPOCH_THRESHOLD`, or when its positions would not fit in a `usize`.
pub open spec fn reuse_offset(so: int, len: int) -> int {
    let off = if len > EPOCH_THRESHOLD { 0 } else { so };
    if off > 0 && off + len <= usize::MAX {
        off
    } else {
        0
    }
}

/// The block written for `input` with a reused table that holds `e` and
/// whose next input starts at the stream offset `so`, and the entries after it.
pub open spec fn reused_block<T: HashTable>(input: Seq<u8>, e: Seq<usize>, so: int) -> (Seq<u8>, Seq<usize>) {
    greedy_block::<T>(input, 0, Seq::empty(), reuse_offset(so, input.len() as int), false, false, Seq::empty(),
        prepared_entries(e, T::table_size(), so, input.len() as int))
}

/// The table keeps every position that fits in 32 bits as it is.
pub open spec fn keeps_u32_positions<T: HashTable>() -> bool {
    forall|v: usize| v <= u32::MAX ==> #[trigger] T::stored(v) == v
}

/// The tables of the compressors without a dictionary keep their 32-bit
/// positions as they are.
pub proof fn lemma_plain_tables_keep_positions<const N: usize>()
    ensures
        keeps_u32_positions::<HashTableU32>(),
        keeps_u32_positions::<HashTableU32N<N>>(),
{
}

/// The block that a compressor with the dictionary `dict` writes for
/// `input`: where dictionary and input fit in 16-bit positions, the search
/// with a cleared table, falling back on a second table that holds every
/// third position of `dict`; otherwise the block of a fresh table.
pub open spec fn dict_tables_block<T: HashTable>(input: Seq<u8>, dict: Seq<u8>) -> Seq<u8> {
    if dict.len() + input.len() < 65535 {
        greedy_block::<T>(input, 0, dict, dict.len() as int, true, true, hashed_positions::<T>(
            Seq::new(T::table_size(), |i: int| 0usize), dict, dict_positions(dict.len())), Seq::new(T::table_size(),
            |i: int| 0usize)).0
    } else {
        compressed_block(input, true, dict)
    }
}

/// Prepares a reused table for the next input and returns the stream offset
/// at which that input starts.
///
/// Inputs longer than `EPOCH_THRESHOLD` get a cleared table and offset 0.
/// Shorter ones start where the last one ended plus a full window, so that
/// every entry of earlier inputs is out of reach; when that would pass
/// `u32::MAX`, the table is cleared and the next input starts afresh.
pub fn prepare_plain_table<T: HashTable>(table: &mut T, stream_offset: &mut usize, input_len: usize) -> (offset: usize)
    requires
        old(table).wf(),
        input_len <= isize::MAX,
    ensures
        final(table).wf(),
        offset == (if input_len > EPOCH_THRESHOLD { 0 } else { *old(stream_offset) }),
        if input_len > EPOCH_THRESHOLD || *old(stream_offset) + input_len + MAX_DISTANCE + 1 > u32::MAX {
            &&& final(table).entries() == Seq::new(T::table_size(), |i: int| 0usize)
            &&& *final(stream_offset) == input_len + MAX_DISTANCE + 1
        } else {
            &&& final(table).entries() == old(table).entries()
            &&& *final(stream_offset) == *old(stream_offset) + input_len + MAX_DISTANCE + 1
        },
{
    if input_len > EPOCH_THRESHOLD {
        table.clear();
        *stream_offset = input_len + MAX_DISTANCE + 1;
        return 0;
    }
    let offset = *stream_offset;
    let next = match offset.checked_add(input_len) {
        Some(v) => v.checked_add(MAX_DISTANCE + 1),
        None => None,
    };
    match next {
        Some(n) if n <= 0xFFFF_FFFF => {
            *stream_offset = n;
        },
        _ => {
            table.clear();
            *stream_offset = input_len + MAX_DISTANCE + 1;
        },
    }
    offset
}

/// Compresses `input` into `output` with a table that is reused between
/// calls, at the stream offset that [`prepare_plain_table`] picks. An offset
/// that leaves no room for the input's positions in a `usize` (which only a
/// 32-bit `usize` allows) is not used: the table was cleared for it, and the
/// input starts at offset 0.
fn compress_reusing_table<T: HashTable>(
    table: &mut T,
    stream_offset: &mut usize,
    input: &[u8],
    output: &mut [u8],
) -> (res: Result<usize, CompressError>)
    requires
        old(table).wf(),
        compressible(input@.len() as int, false, Seq::empty()),
    ensures
        final(table).wf(),
        compressed_to_slice(res, old(output)@, final(output)@, input@, Seq::empty()),
        *final(stream_offset) == next_stream_offset(*old(stream_offset) as int, input@.len() as int),
        res matches Ok(n) ==> final(output)@.take(n as int) == reused_block::<T>(input@, old(table).entries(),
            *old(stream_offset) as int).0,
        res is Ok ==> final(table).entries() == reused_block::<T>(input@, old(table).entries(), *old(stream_offset) as int).1,
        res is Err ==> final(table).entries() == prepared_entries(old(table).entries(), T::table_size(),
            *old(stream_offset) as int, input@.len() as int),
{
    let offset = prepare_plain_table(table, stream_offset, input.len());
    let empty: &[u8] = &[];
    assert(empty@ =~= Seq::<u8>::empty());
    let mut pos: usize = 0;
    let res = if offset > 0 && offset <= usize::MAX - input.len() {
        compress_block::<T, false, true>(input, 0, output, &mut pos, table, empty, offset)
    } else {
        compress_block::<T, false, false>(input, 0, output, &mut pos, table, empty, 0)
    };
    proof {
        lemma_compressed_from_start(res, old(output)@, 0, output@, pos as int, input@, empty@);
        assert(output@.subrange(0, pos as int) =~= output@.take(pos as int));
    }
    res
}

/// Compresses `input` into `output` with the dictionary `dict`, whose
/// positions `pristine` holds: in the dual-table mode with a cleared `table`
/// when dictionary and input fit in 16-bit positions, else from scratch.
fn compress_dict_tables<T: HashTable>(
    table: &mut T,
    pristine: &T,
    dict: &[u8],
    input: &[u8],
    output: &mut [u8],
) -> (res: Result<usize, CompressError>)
    requires
        old(table).wf(),
        pristine.wf(),
        dict@.len() <= WINDOW_SIZE,
        dict@.len() == 0 || dict@.len() >= MINMATCH,
        compressible(input@.len() as int, true, dict@),
        pristine.entries() == hashed_positions::<T>(Seq::new(T::table_size(), |i: int| 0usize), dict@, dict_positions(
            dict@.len())),
    ensures
        final(table).wf(),
        compressed_to_slice(res, old(output)@, final(output)@, input@, dict@),
        res matches Ok(n) ==> final(output)@.take(n as int) == dict_tables_block::<T>(input@, dict@),
{
    let mut pos: usize = 0;
    let res = if dict.len() + input.len() < 65535 {
        table.clear();
        let r = compress_dict_block(input, output, &mut pos, table, pristine, dict, dict.len());
        proof {
            lemma_compressed_from_start(r, old(output)@, 0, output@, pos as int, input@, dict@);
        }
        r
    } else {
        compress_into_slice_with_dict::<true>(input, output, &mut pos, dict)
    };
    proof {
        assert(block_dict(true, dict@) =~= dict@);
        assert(output@.subrange(0, pos as int) =~= output@.take(pos as int));
    }
    res
}

/// The dictionary that a compressor built with `dict` keeps: none when
/// `dict` is shorter than `MINMATCH`, else its last `WINDOW_SIZE` bytes.
pub open spec fn kept_dict(dict: Seq<u8>) -> Seq<u8> {
    block_dict(true, dict)
}

/// The block that a [`Compressor`] writes for `input`: with its dictionary
/// `dict`, the block of [`dict_tables_block`]; without one, the block of its
/// reused table, which holds `e` and whose next input starts at `so`.
pub open spec fn compressor_block(input: Seq<u8>, dict: Seq<u8>, e: Seq<usize>, so: int) -> Seq<u8> {
    if dict.len() > 0 {
        dict_tables_block::<HashTableU32U16<HASHTABLE_SIZE_U16>>(input, dict)
    } else {
        reused_block::<HashTableU32>(input, e, so).0
    }
}

/// The tables of a [`Compressor`].
#[derive(Debug)]
enum CompressorTables {
    Plain { table: HashTableU32, stream_offset: usize },
    Dict { table: HashTableU32U16<HASHTABLE_SIZE_U16>, pristine: HashTableU32U16<HASHTABLE_SIZE_U16>, dict: Vec<u8> },
}

/// A reusable block compressor. Pre-allocates the hash table once and reuses
/// it across calls. When constructed with [`Compressor::with_dict`], the
/// dictionary is hashed once; a read-only pristine table is probed as
/// fallback on main-table misses.
///
/// For one-shot compression, use [`compress`](crate::compress::compress) or
/// [`compress_into`](crate::compress::compress_into) instead.
#[derive(Debug)]
pub struct Compressor {
    tables: CompressorTables,
}

impl Compressor {
    /// The dictionary that precedes every block this compressor writes.
    pub closed spec fn dict(&self) -> Seq<u8> {
        match self.tables {
            CompressorTables::Plain { .. } => Seq::empty(),
            CompressorTables::Dict { dict, .. } => dict@,
        }
    }

    /// The entries of the table of a compressor without a dictionary (none
    /// for one with a dictionary, which clears its table for every input).
    pub closed spec fn entries(&self) -> Seq<usize> {
        match self.tables {
            CompressorTables::Plain { table, .. } => table.entries(),
            CompressorTables::Dict { .. } => Seq::empty(),
        }
    }

    /// The stream offset at which the next input of a compressor without a
    /// dictionary starts (0 for one with a dictionary).
    pub closed spec fn stream_offset(&self) -> int {
        match self.tables {
            CompressorTables::Plain { stream_offset, .. } => stream_offset as int,
            CompressorTables::Dict { .. } => 0,
        }
    }

    /// The tables are well formed, and the dictionary is a window whose
    /// positions the pristine table holds.
    pub closed spec fn wf(&self) -> bool {
        match self.tables {
            CompressorTables::Plain { table, .. } => table.wf(),
            CompressorTables::Dict { table, pristine, dict } => {
                &&& table.wf()
                &&& pristine.wf()
                &&& MINMATCH <= dict@.len() <= WINDOW_SIZE
                &&& pristine.entries() == hashed_positions::<HashTableU32U16<HASHTABLE_SIZE_U16>>(
                    Seq::new(HASHTABLE_SIZE_U16 as nat, |i: int| 0usize),
                    dict@,
                    dict_positions(dict@.len()),
                )
            },
        }
    }

    /// Create a new compressor without a dictionary.
    pub fn new() -> (c: Self)
        ensures
            c.wf(),
            c.dict() == Seq::<u8>::empty(),
            c.entries() == Seq::new(HASHTABLE_SIZE_U32 as nat, |i: int| 0usize),
            c.stream_offset() == 0,
    {
        Compressor { tables: CompressorTables::Plain { table: HashTableU32::new(), stream_offset: 0 } }
    }

    /// Create a new compressor seeded with an external dictionary.
    ///
    /// The dictionary is hashed once during construction into an 8 KB
    /// read-only table. Each call clears the 8 KB main table and probes
    /// the pristine table on miss (when dict+input fits in u16; falls back
    /// to a fresh single-table path otherwise).
    ///
    /// If `dict` is shorter than 4 bytes, it is ignored.
    pub fn with_dict(dict: &[u8]) -> (c: Self)
        ensures
            c.wf(),
            c.dict() == kept_dict(dict@),
            dict@.len() < MINMATCH ==> c.entries() == Seq::new(HASHTABLE_SIZE_U32 as nat, |i: int| 0usize),
            dict@.len() < MINMATCH ==> c.stream_offset() == 0,
    {
        if dict.len() < MINMATCH {
            return Self::new();
        }
        assert(valid_table_size(HASHTABLE_SIZE_U16));
        let mut pristine = HashTableU32U16::<HASHTABLE_SIZE_U16>::new();
        let mut dict_ref = dict;
        init_dict(&mut pristine, &mut dict_ref);
        Compressor {
            tables: CompressorTables::Dict {
                table: HashTableU32U16::<HASHTABLE_SIZE_U16>::new(),
                pristine,
                dict: vstd::slice::slice_to_vec(dict_ref),
            },
        }
    }

    /// Compress `input` into `output`, returning the number of compressed bytes.
    ///
    /// `output` must be at least [`get_maximum_output_size`]`(input.len())` bytes.
    pub fn compress_into(&mut self, input: &[u8], output: &mut [u8]) -> (res: Result<usize, CompressError>)
        requires
            old(self).wf(),
            compressible(input@.len() as int, true, old(self).dict()),
        ensures
            final(self).wf(),
            final(self).dict() == old(self).dict(),
            compressed_to_slice(res, old(output)@, final(output)@, input@, old(self).dict()),
            res matches Ok(n) ==> final(output)@.take(n as int) == compressor_block(input@, old(self).dict(), old(self).entries(),
                old(self).stream_offset()),
            old(self).dict().len() == 0 ==> final(self).stream_offset() == next_stream_offset(old(self).stream_offset(),
                input@.len() as int),
            old(self).dict().len() == 0 ==> final(self).entries() == if res is Ok {
                reused_block::<HashTableU32>(input@, old(self).entries(), old(self).stream_offset()).1
            } else {
                prepared_entries(old(self).entries(), HASHTABLE_SIZE_U32 as nat, old(self).stream_offset(), input@.len() as int)
            },
    {
        match &mut self.tables {
            CompressorTables::Dict { table, pristine, dict } => {
                proof {
                    assert(block_dict(true, dict@) =~= dict@);
                }
                compress_dict_tables(table, pristine, dict.as_slice(), input, output)
            },
            CompressorTables::Plain { table, stream_offset } => {
                proof {
                    assert(block_dict(true, Seq::<u8>::empty()) =~= Seq::<u8>::empty());
                }
                compress_reusing_table(table, stream_offset, input, output)
            },
        }
    }

    /// Compress `input` into a new `Vec<u8>`.
    pub fn compress(&mut self, input: &[u8]) -> (v: Vec<u8>)
        requires
            old(self).wf(),
            compressible(input@.len() as int, true, old(self).dict()),
        ensures
            final(self).wf(),
            final(self).dict() == old(self).dict(),
            compressed_vec(v@, input@, old(self).dict()),
            v@ == compressor_block(input@, old(self).dict(), old(self).entries(), old(self).stream_offset()),
            old(self).dict().len() == 0 ==> final(self).stream_offset() == next_stream_offset(old(self).stream_offset(),
                input@.len() as int),
            old(self).dict().len() == 0 ==> final(self).entries() == reused_block::<HashTableU32>(input@, old(self).entries(),
                old(self).stream_offset()).1,
    {
        let max_compressed = get_maximum_output_size(input.len());
        let mut compressed: Vec<u8> = vec![0u8; max_compressed];
        let compressed_len = match self.compress_into(input, compressed.as_mut_slice()) {
            Ok(n) => n,
            Err(_) => 0,
        };
        compressed.truncate(compressed_len);
        compressed
    }
}

impl Default for Compressor {
    fn default() -> (c: Self)
        ensures
            c.wf(),
            c.dict() == Seq::<u8>::empty(),
    {
        Self::new()
    }
}

/// A reusable no-dict block compressor (owning) with `N` hash-table entries.
///
/// `CompressorN<DEFAULT_NODICT_ENTRIES>` is the standard size (8 KB table);
/// a smaller `N` gives a smaller table.
#[derive(Debug)]
pub struct CompressorN<const N: usize> {
    table: HashTableU32N<N>,
    stream_offset: usize,
}

impl<const N: usize> CompressorN<N> {
    /// The table is well formed.
    pub closed spec fn wf(&self) -> bool {
        self.table.wf()
    }

    /// The entries of the table.
    pub closed spec fn entries(&self) -> Seq<usize> {
        self.table.entries()
    }

    /// The stream offset at which the next input starts.
    pub closed spec fn stream_offset(&self) -> int {
        self.stream_offset as int
    }

    /// Create a new compressor without a dictionary.
    pub fn new() -> (c: Self)
        requires
            valid_table_size(N),
        ensures
            c.wf(),
            c.entries() == Seq::new(N as nat, |i: int| 0usize),
            c.stream_offset() == 0,
    {
        CompressorN { table: HashTableU32N::<N>::new(), stream_offset: 0 }
    }

    /// Compress `input` into `output`, returning the number of compressed bytes.
    ///
    /// `output` must be at least [`get_maximum_output_size`]`(input.len())` bytes.
    pub fn compress_into(&mut self, input: &[u8], output: &mut [u8]) -> (res: Result<usize, CompressError>)
        requires
            old(self).wf(),
            compressible(input@.len() as int, false, Seq::empty()),
        ensures
            final(self).wf(),
            compressed_to_slice(res, old(output)@, final(output)@, input@, Seq::empty()),
            res matches Ok(n) ==> final(output)@.take(n as int) == reused_block::<HashTableU32N<N>>(input@, old(self).entries(),
                old(self).stream_offset()).0,
            final(self).stream_offset() == next_stream_offset(old(self).stream_offset(), input@.len() as int),
            final(self).entries() == if res is Ok {
                reused_block::<HashTableU32N<N>>(input@, old(self).entries(), old(self).stream_offset()).1
            } else {
                prepared_entries(old(self).entries(), N as nat, old(self).stream_offset(), input@.len() as int)
            },
    {
        compress_reusing_table(&mut self.table, &mut self.stream_offset, input, output)
    }

    /// Compress `input` into a new `Vec<u8>`.
    pub fn compress(&mut self, input: &[u8]) -> (v: Vec<u8>)
        requires
            old(self).wf(),
            compressible(input@.len() as int, false, Seq::empty()),
        ensures
            final(self).wf(),
            compressed_vec(v@, input@, Seq::empty()),
            v@ == reused_block::<HashTableU32N<N>>(input@, old(self).entries(), old(self).stream_offset()).0,
            final(self).stream_offset() == next_stream_offset(old(self).stream_offset(), input@.len() as int),
            final(self).entries() == reused_block::<HashTableU32N<N>>(input@, old(self).entries(), old(self).stream_offset()).1,
    {
        let max_compressed = get_maximum_output_size(input.len());
        let mut compressed: Vec<u8> = vec![0u8; max_compressed];
        let compressed_len = match self.compress_into(input, compressed.as_mut_slice()) {
            Ok(n) => n,
            Err(_) => 0,
        };
        compressed.truncate(compressed_len);
        compressed
    }
}

/// A reusable no-dict block compressor with the standard 8 KB table.
pub type StandardCompressor = CompressorN<DEFAULT_NODICT_ENTRIES>;

/// A reusable dict block compressor with the standard two 8 KB tables.
pub type DictCompressor = DictCompressorN<DEFAULT_DICT_ENTRIES>;

/// A reusable dict block compressor (owning) with `N` entries per table.
///
/// `DictCompressorN<DEFAULT_DICT_ENTRIES>` is the standard size (two 8 KB
/// tables); a smaller `N` gives smaller tables.
#[derive(Debug)]
pub struct DictCompressorN<const N: usize> {
    /// Trimmed dictionary bytes (empty when the dictionary was shorter than
    /// [`MINMATCH`]).
    dict: Vec<u8>,
    table: HashTableU32U16<N>,
    pristine: HashTableU32U16<N>,
}

impl<const N: usize> DictCompressorN<N> {
    /// The dictionary that precedes every block this compressor writes.
    pub closed spec fn dict(&self) -> Seq<u8> {
        self.dict@
    }

    /// The tables are well formed, the dictionary is a window, and the
    /// pristine table holds the dictionary's positions.
    pub closed spec fn wf(&self) -> bool {
        &&& self.table.wf()
        &&& self.pristine.wf()
        &&& self.dict@.len() <= WINDOW_SIZE
        &&& (self.dict@.len() == 0 || self.dict@.len() >= MINMATCH)
        &&& self.pristine.entries() == hashed_positions::<HashTableU32U16<N>>(
            Seq::new(N as nat, |i: int| 0usize),
            self.dict@,
            dict_positions(self.dict@.len()),
        )
    }

    /// Create a new compressor seeded with an external dictionary.
    ///
    /// The dictionary is cloned into owned storage. If `dict` is longer than the
    /// LZ4 window it is trimmed to the last [`WINDOW_SIZE`] bytes. A dictionary
    /// shorter than 4 bytes is ignored (no dict matches).
    pub fn new(dict: &[u8]) -> (c: Self)
        requires
            valid_table_size(N),
        ensures
            c.wf(),
            c.dict() == kept_dict(dict@),
    {
        let trimmed: &[u8] = if dict.len() < MINMATCH {
            &[]
        } else {
            dict
        };
        let mut pristine = HashTableU32U16::<N>::new();
        let mut dict_ref = trimmed;
        init_dict(&mut pristine, &mut dict_ref);
        proof {
            assert(trimmed@.len() == 0 ==> window_tail(trimmed@) =~= Seq::<u8>::empty());
            assert(kept_dict(dict@) =~= dict_ref@);
        }
        DictCompressorN { dict: vstd::slice::slice_to_vec(dict_ref), table: HashTableU32U16::<N>::new(), pristine }
    }

    /// Compress `input` into `output`, returning the number of compressed bytes.
    ///
    /// `output` must be at least [`get_maximum_output_size`]`(input.len())` bytes.
    pub fn compress_into(&mut self, input: &[u8], output: &mut [u8]) -> (res: Result<usize, CompressError>)
        requires
            old(self).wf(),
            compressible(input@.len() as int, true, old(self).dict()),
        ensures
            final(self).wf(),
            final(self).dict() == old(self).dict(),
            compressed_to_slice(res, old(output)@, final(output)@, input@, old(self).dict()),
            res matches Ok(n) ==> final(output)@.take(n as int) == dict_tables_block::<HashTableU32U16<N>>(input@, old(self).dict()),
    {
        proof {
            assert(block_dict(true, self.dict@) =~= self.dict@);
        }
        compress_dict_tables(&mut self.table, &self.pristine, self.dict.as_slice(), input, output)
    }

    /// Compress `input` into a new `Vec<u8>`.
    pub fn compress(&mut self, input: &[u8]) -> (v: Vec<u8>)
        requires
            old(self).wf(),
            compressible(input@.len() as int, true, old(self).dict()),
        ensures
            final(self).wf(),
            final(self).dict() == old(self).dict(),
            compressed_vec(v@, input@, old(self).dict()),
            v@ == dict_tables_block::<HashTableU32U16<N>>(input@, old(self).dict()),
    {
        let max = get_maximum_output_size(input.len());
        let mut out: Vec<u8> = vec![0u8; max];
        let n = match self.compress_into(input, out.as_mut_slice()) {
            Ok(n) => n,
            Err(_) => 0,
        };
        out.truncate(n);
        out
    }
}

} // verus!
