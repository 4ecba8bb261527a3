//! Properties of the library that relate several of its functions.
use vstd::prelude::*;
use crate::compress::{block_dict, compressed_block, compressed_into_from, compressed_vec, le_u32_bytes, window_tail};
use crate::compressor::{clears_table, keeps_u32_positions, kept_dict, next_stream_offset, reused_block};
use crate::greedy::{entries_at_most, greedy_block, lemma_greedy_at_most, lemma_greedy_stale, probe, stale_equiv, stores_positions};
use crate::{MAX_DISTANCE, MFLIMIT};
use crate::hashtable::HashTable;
use crate::decompress::{decoded_into, le_u32};
use crate::MINMATCH;
use crate::error::{CompressError, DecompressError};
use crate::format::{
    decode_from, encode_int, lemma_decode_embed, lemma_decode_extends, lemma_read_encoded_int, lz4_decode, read_int_from,
};

verus! {

/// Round trip: a block that compresses `x` against the dictionary `dict`
/// (as every compressor of this library promises of what it returns)
/// decodes back to `x` into an output of any capacity of at least `x.len()`,
/// and with any dictionary that ends with `dict`.
pub proof fn law_roundtrip(x: Seq<u8>, v: Seq<u8>, dict: Seq<u8>, front: Seq<u8>, cap: usize)
    requires
        compressed_vec(v, x, dict),
        cap >= x.len(),
    ensures
        lz4_decode(v, front + dict, cap) == Ok::<Seq<u8>, DecompressError>(x),
{
    let e = Seq::<u8>::empty();
    assert(dict + e =~= dict);
    lemma_decode_embed(v, dict, e, x.len() as usize, e, 0, front, cap);
    assert(e + e =~= e);
    assert(e + x =~= x);
}

/// Round trip without a dictionary: `decompress(compress(x), n)` gives back
/// `x` for every `n >= x.len()`.
pub proof fn law_compress_roundtrip(x: Seq<u8>, v: Seq<u8>, cap: usize)
    requires
        compressed_vec(v, x, Seq::empty()),
        cap >= x.len(),
    ensures
        lz4_decode(v, Seq::empty(), cap) == Ok::<Seq<u8>, DecompressError>(x),
{
    law_roundtrip(x, v, Seq::empty(), Seq::empty(), cap);
    assert(Seq::<u8>::empty() + Seq::<u8>::empty() =~= Seq::<u8>::empty());
}

/// The dictionary that a compressor keeps is a suffix of the one it was given.
pub proof fn law_kept_dict_is_suffix(d: Seq<u8>)
    ensures
        d == d.take(d.len() - kept_dict(d).len()) + kept_dict(d),
{
    assert(window_tail(d).len() <= d.len());
    assert(d =~= d.take(d.len() - kept_dict(d).len()) + kept_dict(d));
}

/// Round trip with a dictionary: what a compressor built with `d` writes
/// decodes back to the input with a decompressor built with the same `d`,
/// however long `d` is.
pub proof fn law_dict_roundtrip(d: Seq<u8>, x: Seq<u8>, v: Seq<u8>, cap: usize)
    requires
        compressed_vec(v, x, kept_dict(d)),
        cap >= x.len(),
    ensures
        lz4_decode(v, d, cap) == Ok::<Seq<u8>, DecompressError>(x),
{
    law_kept_dict_is_suffix(d);
    law_roundtrip(x, v, kept_dict(d), d.take(d.len() - kept_dict(d).len()), cap);
}

/// A compressed block does not fit an output shorter than its input: the
/// decoder reports an error.
pub proof fn law_short_output_fails(x: Seq<u8>, v: Seq<u8>, dict: Seq<u8>, cap: usize)
    requires
        compressed_vec(v, x, dict),
        cap < x.len(),
    ensures
        lz4_decode(v, dict, cap) is Err,
{
    let e = Seq::<u8>::empty();
    if lz4_decode(v, dict, cap) is Ok {
        let r = lz4_decode(v, dict, cap)->Ok_0;
        lemma_decode_extends(v, dict, cap, e, 0);
        assert(dict + e =~= dict);
        lemma_decode_embed(v, dict, e, cap, e, 0, e, x.len() as usize);
        assert(e + dict =~= dict);
        assert(e + e =~= e);
        assert(e + r =~= r);
        assert(r.len() <= cap);
    }
}

/// Size-prepended round trip: the first four bytes that
/// `compress_prepend_size` writes are the input's length as
/// `decompress_size_prepended` reads it, and the rest decodes to the input.
pub proof fn law_prepend_size_roundtrip(x: Seq<u8>, w: Seq<u8>)
    requires
        x.len() <= u32::MAX,
        w.len() >= 4,
        w.take(4) == le_u32_bytes(x.len() as u32),
        compressed_vec(w.skip(4), x, Seq::empty()),
    ensures
        le_u32(w) == x.len(),
        lz4_decode(w.skip(4), Seq::empty(), le_u32(w) as usize) == Ok::<Seq<u8>, DecompressError>(x),
{
    let n = x.len() as u32;
    assert(w[0] == w.take(4)[0] && w[1] == w.take(4)[1] && w[2] == w.take(4)[2] && w[3] == w.take(4)[3]);
    assert((n % 256) as u8 + 256 * (((n / 256) % 256) as u8) + 65536 * (((n / 65536) % 256) as u8) + 16777216 * ((n
        / 16777216) as u8) == n) by (bit_vector);
    law_compress_roundtrip(x, w.skip(4), le_u32(w) as usize);
}

/// Integer round trip: a length extension that `write_integer` writes for
/// `n` reads back as `n`, ending just past what was written.
pub proof fn law_integer_roundtrip(b: Seq<u8>, n: usize)
    requires
        encode_int(n as nat).len() <= b.len(),
        b.take(encode_int(n as nat).len() as int) == encode_int(n as nat),
    ensures
        read_int_from(b, 0, 0) == Ok::<(int, int), DecompressError>((n as int, encode_int(n as nat).len() as int)),
{
    assert(b.subrange(0, encode_int(n as nat).len() as int) =~= b.take(encode_int(n as nat).len() as int));
    lemma_read_encoded_int(b, 0, n as nat, 0);
}

/// A block that decodes with the dictionary `dict` decodes the same way when
/// the dictionary is split: its first `cut` bytes as the external dictionary
/// and the rest already at the front of the output, which then grows by that
/// rest.
pub proof fn law_split_history(b: Seq<u8>, dict: Seq<u8>, cut: int, cap: usize, capx: usize)
    requires
        lz4_decode(b, dict, cap) is Ok,
        0 <= cut <= dict.len(),
        capx >= cap + dict.len() - cut,
    ensures
        decode_from(b, dict.take(cut), capx, dict.skip(cut), 0)
            == Ok::<Seq<u8>, DecompressError>(dict.skip(cut) + lz4_decode(b, dict, cap)->Ok_0),
{
    let e = Seq::<u8>::empty();
    assert(dict.take(cut) + dict.skip(cut) =~= dict);
    lemma_decode_embed(b, dict.take(cut), dict.skip(cut), cap, e, 0, e, capx);
    assert(e + dict.take(cut) =~= dict.take(cut));
    assert(dict.skip(cut) + e =~= dict.skip(cut));
}

/// Decompression shows nothing of what the output held before: two runs on
/// the same input and capacity report the same result and write the same
/// bytes, whatever the two buffers held.
pub proof fn law_no_output_leak(
    spec_res: Result<Seq<u8>, DecompressError>,
    r1: Result<usize, DecompressError>,
    o1: Seq<u8>,
    r2: Result<usize, DecompressError>,
    o2: Seq<u8>,
)
    requires
        decoded_into(r1, spec_res, 0, o1),
        decoded_into(r2, spec_res, 0, o2),
    ensures
        r1 == r2,
        r1 matches Ok(n) ==> o1.take(n as int) == o2.take(n as int),
{
}

/// Round trip of a block written after a preamble: the block that a
/// compressor writes for `input[input_pos..]` (as `compress_internal`
/// promises) decodes, with the same dictionary, into an output that already
/// holds `input[..input_pos]` and has room for all of `input`, to `input`;
/// the decoder reports the length of the rest and the output then starts
/// with `input`.
pub proof fn law_internal_roundtrip(
    res: Result<usize, CompressError>,
    out0: Seq<u8>,
    start: int,
    out: Seq<u8>,
    pos: int,
    input: Seq<u8>,
    input_pos: int,
    dict: Seq<u8>,
    cap: usize,
    r: Result<usize, DecompressError>,
    o: Seq<u8>,
)
    requires
        compressed_into_from(res, out0, start, out, pos, input, input_pos, dict),
        res is Ok,
        0 <= input_pos <= input.len() <= cap,
        decoded_into(r, decode_from(out.subrange(start, pos), dict, cap, input.take(input_pos), 0), input_pos, o),
    ensures
        decode_from(out.subrange(start, pos), dict, cap, input.take(input_pos), 0) == Ok::<Seq<u8>, DecompressError>(input),
        r == Ok::<usize, DecompressError>((input.len() - input_pos) as usize),
        o.take(input.len() as int) == input,
{
    let e = Seq::<u8>::empty();
    assert(dict + e =~= dict);
    assert(e + dict =~= dict);
    lemma_decode_embed(out.subrange(start, pos), dict, e, input.len() as usize, input.take(input_pos), 0, e, cap);
    assert(e + input.take(input_pos) =~= input.take(input_pos));
    assert(e + input =~= input);
}

/// A dictionary shorter than `MINMATCH` is ignored: compressing with it
/// writes the same block as compressing without one, and the block decodes
/// with no dictionary in front.
pub proof fn law_short_dict_ignored(input: Seq<u8>, d: Seq<u8>)
    requires
        d.len() < MINMATCH,
    ensures
        compressed_block(input, true, d) == compressed_block(input, false, Seq::empty()),
        block_dict(true, d) == Seq::<u8>::empty(),
{
}

/// Stale entries are ignored, which is what lets a compressor without a
/// dictionary reuse its table without clearing it: for an input that does
/// not make the table be cleared, a reused table whose entries all lie below
/// its stream offset writes the same block, whatever those entries and that
/// offset are.
pub proof fn law_reuse_ignores_stale<T: HashTable>(input: Seq<u8>, e1: Seq<usize>, so1: int, e2: Seq<usize>, so2: int)
    requires
        keeps_u32_positions::<T>(),
        0 < T::table_size() <= 0x1_0000_0000,
        e1.len() == T::table_size(),
        e2.len() == T::table_size(),
        0 < so1,
        0 < so2,
        !clears_table(so1, input.len() as int),
        !clears_table(so2, input.len() as int),
        forall|i: int| 0 <= i < e1.len() ==> e1[i] < so1,
        forall|i: int| 0 <= i < e2.len() ==> e2[i] < so2,
    ensures
        reused_block::<T>(input, e1, so1).0 == reused_block::<T>(input, e2, so2).0,
{
    let n = input.len() as int;
    assert forall|p: int| 0 <= p <= n implies #[trigger] T::stored((p + so1) as usize) == p + so1 by {
        assert(T::stored((p + so1) as usize) == (p + so1) as usize);
    }
    assert forall|p: int| 0 <= p <= n implies #[trigger] T::stored((p + so2) as usize) == p + so2 by {
        assert(T::stored((p + so2) as usize) == (p + so2) as usize);
    }
    assert(stores_positions::<T>(so1, n));
    assert(stores_positions::<T>(so2, n));
    assert(stale_equiv(e1, so1, e2, so2));
    lemma_greedy_stale::<T>(input, so1, e1, so2, e2);
}

/// After a call that does not clear it, a reused table of a compressor
/// without a dictionary holds only stale entries for the next input: each
/// lies below the next stream offset. (Together with
/// [`law_reuse_ignores_stale`]: from the second call on, compressing the
/// same input again gives the same bytes.)
pub proof fn law_reuse_leaves_stale<T: HashTable>(input: Seq<u8>, e: Seq<usize>, so: int)
    requires
        keeps_u32_positions::<T>(),
        0 < T::table_size() <= 0x1_0000_0000,
        e.len() == T::table_size(),
        0 <= so,
        !clears_table(so, input.len() as int),
        forall|i: int| 0 <= i < e.len() ==> e[i] <= so,
    ensures
        reused_block::<T>(input, e, so).1.len() == T::table_size(),
        forall|i: int| 0 <= i < T::table_size() ==> reused_block::<T>(input, e, so).1[i] < next_stream_offset(so,
            input.len() as int),
{
    let n = input.len() as int;
    assert forall|p: int| 0 <= p <= n implies #[trigger] T::stored((p + so) as usize) == p + so by {
        assert(T::stored((p + so) as usize) == (p + so) as usize);
    }
    assert(stores_positions::<T>(so, n));
    assert(entries_at_most(e, so + n));
    lemma_greedy_at_most::<T>(input, so, e, so + n);
}

/// The search never passes over a match that its table offers in the input:
/// when the entry at the forward hash holds a position of the input (not
/// before its stream offset) before `cur` and at most `MAX_DISTANCE` bytes
/// back, whose four bytes equal those at `cur`, and the probe is not past
/// the end, the search stops at `cur` with that position as a match in the
/// input at that distance, with or without a dictionary and a second table.
pub proof fn law_search_takes_input_match<T: HashTable>(
    input: Seq<u8>,
    dict: Seq<u8>,
    iso: int,
    use_dict: bool,
    dual: bool,
    pe: Seq<usize>,
    e: Seq<usize>,
    cur: int,
    fh: int,
    k: nat,
)
    requires
        0 <= cur,
        0 <= fh < e.len(),
        cur + (8 + k) / 8 <= input.len() - MFLIMIT + 1,
        iso <= e[fh] < iso + cur,
        iso + cur - e[fh] <= MAX_DISTANCE,
        input.subrange(e[fh] - iso, e[fh] - iso + 4) == input.subrange(cur, cur + 4),
    ensures
        probe::<T>(input, dict, iso, use_dict, dual, pe, e, cur, fh, k).0 == Some(
            ((e[fh] - iso) as usize, false, (iso + cur - e[fh]) as u16),
        ),
        probe::<T>(input, dict, iso, use_dict, dual, pe, e, cur, fh, k).2 == cur,
{
}

/// With a dictionary, the search falls back on it only when the table offers
/// no position of the input in reach: then, when the entry of the
/// dictionary's table (or, with a single table, the table's entry) holds a
/// dictionary position at most `MAX_DISTANCE` bytes back with four bytes
/// after it in the dictionary, equal to those at `cur`, the search stops at
/// `cur` with that match in the dictionary.
pub proof fn law_search_falls_back_on_dict<T: HashTable>(
    input: Seq<u8>,
    dict: Seq<u8>,
    iso: int,
    dual: bool,
    pe: Seq<usize>,
    e: Seq<usize>,
    cur: int,
    fh: int,
    k: nat,
)
    requires
        0 <= cur,
        0 <= fh < e.len(),
        dual ==> fh < pe.len(),
        cur + (8 + k) / 8 <= input.len() - MFLIMIT + 1,
        !(iso <= e[fh] < iso + cur && iso + cur - e[fh] <= MAX_DISTANCE),
        ({
            let d = if dual { pe[fh] as int } else { e[fh] as int };
            &&& iso - dict.len() <= d < iso
            &&& iso + cur - d <= MAX_DISTANCE
            &&& d - (iso - dict.len()) + 4 <= dict.len()
            &&& dict.subrange(d - (iso - dict.len()), d - (iso - dict.len()) + 4) == input.subrange(cur, cur + 4)
        }),
    ensures
        ({
            let d = if dual { pe[fh] as int } else { e[fh] as int };
            &&& probe::<T>(input, dict, iso, true, dual, pe, e, cur, fh, k).0 == Some(
                ((d - (iso - dict.len())) as usize, true, (iso + cur - d) as u16),
            )
            &&& probe::<T>(input, dict, iso, true, dual, pe, e, cur, fh, k).2 == cur
        }),
{
}

/// Reuse changes what the table holds, not the block: a compressor without
/// a dictionary whose table holds only stale entries writes, for an input
/// that does not make the table be cleared, the block that the search of
/// `compress_internal` writes for that input at any positive stream offset
/// from any table whose entries all lie below that offset (a cleared table,
/// for instance).
pub proof fn law_reuse_is_a_fresh_search<T: HashTable>(
    input: Seq<u8>,
    e: Seq<usize>,
    so: int,
    e2: Seq<usize>,
    iso: int,
)
    requires
        keeps_u32_positions::<T>(),
        0 < T::table_size() <= 0x1_0000_0000,
        e.len() == T::table_size(),
        e2.len() == T::table_size(),
        0 < so,
        !clears_table(so, input.len() as int),
        forall|i: int| 0 <= i < e.len() ==> e[i] < so,
        0 < iso,
        iso + input.len() <= u32::MAX,
        forall|i: int| 0 <= i < e2.len() ==> e2[i] < iso,
    ensures
        reused_block::<T>(input, e, so).0 == greedy_block::<T>(input, 0, Seq::empty(), iso, false, false, Seq::empty(), e2).0,
{
    let n = input.len() as int;
    assert forall|p: int| 0 <= p <= n implies #[trigger] T::stored((p + so) as usize) == p + so by {
        assert(T::stored((p + so) as usize) == (p + so) as usize);
    }
    assert forall|p: int| 0 <= p <= n implies #[trigger] T::stored((p + iso) as usize) == p + iso by {
        assert(T::stored((p + iso) as usize) == (p + iso) as usize);
    }
    assert(stores_positions::<T>(so, n));
    assert(stores_positions::<T>(iso, n));
    assert(stale_equiv(e, so, e2, iso));
    lemma_greedy_stale::<T>(input, so, e, iso, e2);
}

} // verus!
