//! LZ4 block compression.
use vstd::prelude::*;
use crate::error::CompressError;
use crate::format::{
    conformant, decode_from, encode_int, encode_last, encode_sequence, encodes_prefix, extend_match, length_ext, lemma_encode_int_len,
    lemma_shaped_empty, lemma_shaped_finish, lemma_shaped_step, shaped,
    lemma_encodes_prefix_empty, lemma_encodes_prefix_finish, lemma_encodes_prefix_step, lemma_match_is_copy,
    lz4_decode, nibble,
};
use crate::hashtable::{
    count_same_bytes_unchecked, get_batch_unchecked, lemma_batch_eq, HashTable, HashTableU32, HashTableU32U16, HASHTABLE_SIZE_U16,
    HASHTABLE_SIZE_U32,
};
use crate::primitives::copy_from_src;
use crate::sink::Sink;
use crate::greedy::{
    after_match, backtrack_len, greedy_block, lemma_after_match, lemma_match_from, lemma_search_from, match_from, match_step, probe,
    search_from,
};
use crate::{END_OFFSET, LZ4_MIN_LENGTH, MAX_DISTANCE, MFLIMIT, MINMATCH, WINDOW_SIZE};

verus! {

/// Skip acceleration: the step grows by 1 every `1 << N` consecutive non-matches.
pub const INCREASE_STEPSIZE_BITSHIFT: usize = 3;

/// The maximum size of the compressed output of `n` input bytes.
pub open spec fn max_output_size(n: int) -> int {
    20 + n * 110 / 100
}

/// The maximum output size of `n` input bytes can be computed without overflow.
pub open spec fn output_size_fits(n: int) -> bool {
    n * 110 <= u64::MAX && max_output_size(n) <= usize::MAX
}

/// Returns the maximum output size of the compressed data.
/// Can be used to preallocate capacity on the output vector
pub fn get_maximum_output_size(input_len: usize) -> (r: usize)
    requires
        output_size_fits(input_len as int),
    ensures
        r == max_output_size(input_len as int),
{
    16 + 4 + ((input_len as u64) * 110 / 100) as usize
}

/// The token of a sequence with literals only.
pub fn token_from_literal(lit_len: usize) -> (t: u8)
    ensures
        t == nibble(lit_len as nat) * 16,
{
    if lit_len < 0xF {
        let l = lit_len as u8;
        assert(l << 4u8 == l * 16) by (bit_vector)
            requires l < 15;
        l << 4
    } else {
        0xF0
    }
}

/// The token of a sequence with `lit_len` literals and a match of
/// `duplicate_length + 4` bytes.
pub fn token_from_literal_and_match_length(lit_len: usize, duplicate_length: usize) -> (t: u8)
    ensures
        t == nibble(lit_len as nat) * 16 + nibble(duplicate_length as nat),
{
    let mut token: u8 = token_from_literal(lit_len);
    let low: u8 = if duplicate_length < 0xF { duplicate_length as u8 } else { 0xF };
    assert(token | low == token + low) by (bit_vector)
        requires token % 16 == 0, low < 16;
    token = token | low;
    token
}

/// Writes one byte at `*pos` and advances `pos`.
pub fn push_byte(output: &mut [u8], pos: &mut usize, el: u8)
    requires
        *old(pos) < old(output)@.len(),
    ensures
        final(output)@.len() == old(output)@.len(),
        *final(pos) == *old(pos) + 1,
        final(output)@.take(*final(pos) as int) == old(output)@.take(*old(pos) as int).push(el),
{
    let ghost prev = output@;
    output[*pos] = el;
    *pos = *pos + 1;
    assert(output@.take(*pos as int) =~= prev.take(*pos - 1).push(el));
}

/// Writes a 16-bit number little-endian at `*pos` and advances `pos`.
pub fn push_u16(output: &mut [u8], pos: &mut usize, el: u16)
    requires
        *old(pos) + 2 <= old(output)@.len(),
    ensures
        final(output)@.len() == old(output)@.len(),
        *final(pos) == *old(pos) + 2,
        final(output)@.take(*final(pos) as int) == old(output)@.take(*old(pos) as int) + seq![(el % 256) as u8, (el / 256) as u8],
{
    let ghost start = output@.take(*pos as int);
    push_byte(output, pos, (el % 256) as u8);
    push_byte(output, pos, (el / 256) as u8);
    assert(start.push((el % 256) as u8).push((el / 256) as u8) =~= start + seq![(el % 256) as u8, (el / 256) as u8]);
}

/// Write an integer to the output.
///
/// Each additional byte then represent a value from 0 to 255, which is added to the previous value
/// to produce a total length. When the byte value is 255, another byte must read and added, and so
/// on. There can be any number of bytes of value "255" following token
pub fn write_integer_at(output: &mut [u8], pos: &mut usize, n: usize)
    requires
        *old(pos) + encode_int(n as nat).len() <= old(output)@.len(),
    ensures
        final(output)@.len() == old(output)@.len(),
        *final(pos) == *old(pos) + encode_int(n as nat).len(),
        final(output)@.take(*final(pos) as int) == old(output)@.take(*old(pos) as int) + encode_int(n as nat),
{
    let ghost total = old(output)@.take(*old(pos) as int) + encode_int(n as nat);
    let ghost end = *old(pos) + encode_int(n as nat).len();
    let mut n = n;
    while n >= 0xFF
        invariant
            output@.len() == old(output)@.len(),
            *pos + encode_int(n as nat).len() == end,
            end <= output@.len(),
            output@.take(*pos as int) + encode_int(n as nat) == total,
        decreases n,
    {
        let ghost before = output@.take(*pos as int);
        assert(encode_int(n as nat) == seq![255u8] + encode_int((n - 255) as nat));
        n = n - 0xFF;
        push_byte(output, pos, 0xFF);
        assert(before.push(255u8) + encode_int(n as nat) =~= before + (seq![255u8] + encode_int(n as nat)));
    }
    push_byte(output, pos, n as u8);
    assert(encode_int(n as nat) == seq![n as u8]);
}

/// The literals of a sequence, copied from `input[input_start..]`.
pub fn copy_literals_wild(output: &mut [u8], pos: &mut usize, input: &[u8], input_start: usize, len: usize)
    requires
        input_start + len <= input@.len(),
        *old(pos) + len <= old(output)@.len(),
    ensures
        final(output)@.len() == old(output)@.len(),
        *final(pos) == *old(pos) + len,
        final(output)@.take(*final(pos) as int) == old(output)@.take(*old(pos) as int) + input@.subrange(input_start as int, input_start + len),
{
    copy_from_src(input, input_start, output, pos, len);
}

/// The length of a length extension, bounded by its value.
pub proof fn lemma_length_ext_len(n: nat)
    ensures
        length_ext(n).len() == (if n >= 15 { (n - 15) / 255 + 1 } else { 0 }),
        255 * length_ext(n).len() <= n + 240,
{
    if n >= 15 {
        lemma_encode_int_len((n - 15) as nat);
    }
}

/// An encoded sequence is at most 256/255 times the input it covers.
pub proof fn lemma_sequence_size(lits: Seq<u8>, offset: nat, dup: nat)
    ensures
        encode_sequence(lits, offset, dup).len() == 3 + lits.len() + length_ext(lits.len()).len() + length_ext(dup).len(),
        255 * encode_sequence(lits, offset, dup).len() <= 256 * (lits.len() + dup + 4),
{
    lemma_length_ext_len(lits.len());
    lemma_length_ext_len(dup);
}

/// The last sequence is at most 256/255 times its literals plus a little.
pub proof fn lemma_last_size(lits: Seq<u8>)
    ensures
        encode_last(lits).len() == 1 + lits.len() + length_ext(lits.len()).len(),
        255 * encode_last(lits).len() <= 256 * lits.len() + 495,
{
    lemma_length_ext_len(lits.len());
}

/// Writes the sequence for `lit_len` literals at `literal_start` followed by
/// a match of `duplicate_length + 4` bytes at distance `offset`.
pub fn write_sequence(
    output: &mut [u8],
    pos: &mut usize,
    input: &[u8],
    literal_start: usize,
    lit_len: usize,
    offset: u16,
    duplicate_length: usize,
)
    requires
        literal_start + lit_len <= input@.len(),
        *old(pos) + encode_sequence(input@.subrange(literal_start as int, literal_start + lit_len), offset as nat, duplicate_length as nat).len()
            <= old(output)@.len(),
    ensures
        final(output)@.len() == old(output)@.len(),
        final(output)@.take(*final(pos) as int) == old(output)@.take(*old(pos) as int)
            + encode_sequence(input@.subrange(literal_start as int, literal_start + lit_len), offset as nat, duplicate_length as nat),
        *final(pos) == *old(pos)
            + encode_sequence(input@.subrange(literal_start as int, literal_start + lit_len), offset as nat, duplicate_length as nat).len(),
{
    let ghost lits = input@.subrange(literal_start as int, literal_start + lit_len);
    let ghost start = output@.take(*pos as int);
    proof {
        lemma_sequence_size(lits, offset as nat, duplicate_length as nat);
        lemma_length_ext_len(lit_len as nat);
        lemma_length_ext_len(duplicate_length as nat);
    }
    let token = token_from_literal_and_match_length(lit_len, duplicate_length);
    push_byte(output, pos, token);
    if lit_len >= 0xF {
        write_integer_at(output, pos, lit_len - 0xF);
    }
    let ghost after_ext = output@.take(*pos as int);
    assert(after_ext == start.push(token) + length_ext(lit_len as nat));
    if lit_len > 0 {
        copy_literals_wild(output, pos, input, literal_start, lit_len);
    } else {
        assert(after_ext + lits =~= after_ext);
    }
    push_u16(output, pos, offset);
    if duplicate_length >= 0xF {
        write_integer_at(output, pos, duplicate_length - 0xF);
    } else {
        assert(output@.take(*pos as int) + length_ext(duplicate_length as nat) =~= output@.take(*pos as int));
    }
    assert(output@.take(*pos as int) =~= start + encode_sequence(lits, offset as nat, duplicate_length as nat));
}

/// Handle the last bytes from the input as literals
pub fn handle_last_literals(output: &mut [u8], pos: &mut usize, input: &[u8], start: usize)
    requires
        start <= input@.len(),
        *old(pos) + encode_last(input@.skip(start as int)).len() <= old(output)@.len(),
    ensures
        final(output)@.len() == old(output)@.len(),
        final(output)@.take(*final(pos) as int) == old(output)@.take(*old(pos) as int) + encode_last(input@.skip(start as int)),
        *final(pos) == *old(pos) + encode_last(input@.skip(start as int)).len(),
{
    let ghost lits = input@.skip(start as int);
    let ghost begin = output@.take(*pos as int);
    let lit_len = input.len() - start;
    proof {
        lemma_last_size(lits);
        lemma_length_ext_len(lit_len as nat);
    }
    let token = token_from_literal(lit_len);
    push_byte(output, pos, token);
    if lit_len >= 0xF {
        write_integer_at(output, pos, lit_len - 0xF);
    }
    assert(input@.subrange(start as int, start + lit_len) =~= lits);
    copy_literals_wild(output, pos, input, start, lit_len);
    assert(output@.take(*pos as int) =~= begin + encode_last(lits));
}

/// Moves the cursors back as long as the bytes match, to find additional bytes in a duplicate.
/// Stops at `literal_start`, at the start of `source`, or before the first pair of bytes that differ.
pub fn backtrack_match(input: &[u8], cur: &mut usize, literal_start: usize, source: &[u8], candidate: &mut usize)
    requires
        literal_start <= *old(cur) <= input@.len(),
        *old(candidate) <= source@.len(),
    ensures
        literal_start <= *final(cur) <= *old(cur),
        *final(candidate) <= *old(candidate),
        *old(cur) - *final(cur) == *old(candidate) - *final(candidate),
        forall|i: int| 0 <= i < *old(cur) - *final(cur) ==> input@[*final(cur) + i] == #[trigger] source@[*final(candidate) + i],
        *final(cur) == literal_start || *final(candidate) == 0
            || input@[*final(cur) - 1] != source@[*final(candidate) - 1],
        *old(cur) - *final(cur) == backtrack_len(input@, *old(cur) as int, literal_start as int, source@, *old(candidate) as int),
{
    while *candidate > 0 && *cur > literal_start && input[*cur - 1] == source[*candidate - 1]
        invariant
            literal_start <= *cur <= *old(cur),
            *old(cur) <= input@.len(),
            *candidate <= *old(candidate),
            *old(candidate) <= source@.len(),
            *old(cur) - *cur == *old(candidate) - *candidate,
            forall|i: int| 0 <= i < *old(cur) - *cur ==> input@[*cur + i] == #[trigger] source@[*candidate + i],
            backtrack_len(input@, *old(cur) as int, literal_start as int, source@, *old(candidate) as int)
                == (*old(cur) - *cur) + backtrack_len(input@, *cur as int, literal_start as int, source@, *candidate as int),
        decreases *cur,
    {
        *cur = *cur - 1;
        *candidate = *candidate - 1;
        assert forall|i: int| 0 <= i < *old(cur) - *cur implies input@[*cur + i] == #[trigger] source@[*candidate + i] by {
            if i > 0 {
                assert(input@[(*cur + 1) + (i - 1)] == source@[(*candidate + 1) + (i - 1)]);
            }
        }
    }
}

/// The output capacity that `get_maximum_output_size` reserves covers 256/255
/// of the input plus the overhead of the last sequence.
pub proof fn lemma_capacity(n: int)
    requires
        n >= 0,
    ensures
        256 * n + 495 <= 255 * max_output_size(n),
{
    let q = n * 110 / 100;
    assert(100 * q >= 110 * n - 99) by (nonlinear_arith)
        requires q == n * 110 / 100, n >= 0;
}

/// A match found at `cur`: the four bytes at `cur` agree with those at
/// `candidate` in `source`, and `offset` is the distance that the decoder
/// uses, within the input or into the dictionary in front of it.
pub open spec fn match_found(
    input: Seq<u8>,
    dict: Seq<u8>,
    source: Seq<u8>,
    from_dict: bool,
    cur: int,
    candidate: int,
    offset: int,
) -> bool {
    &&& 0 <= candidate
    &&& candidate + 4 <= source.len()
    &&& 0 <= cur
    &&& cur + 4 <= input.len()
    &&& input.subrange(cur, cur + 4) == source.subrange(candidate, candidate + 4)
    &&& 1 <= offset <= 65535
    &&& if from_dict {
        source == dict && offset == dict.len() - candidate + cur
    } else {
        source == input && candidate < cur && offset == cur - candidate
    }
}

/// The bytes that a found match covers, after backtracking by `j` bytes and
/// counting `dup` more bytes after the first four, all agree.
proof fn lemma_combine_match(input: Seq<u8>, source: Seq<u8>, curp: int, candp: int, j: int, dup: int)
    requires
        0 <= j,
        0 <= dup,
        0 <= curp,
        0 <= candp,
        forall|i: int| 0 <= i < j ==> input[curp + i] == #[trigger] source[candp + i],
        curp + j + 4 <= input.len(),
        candp + j + 4 <= source.len(),
        input.subrange(curp + j, curp + j + 4) == source.subrange(candp + j, candp + j + 4),
        forall|i: int| 0 <= i < dup ==> input[curp + 4 + i] == #[trigger] source[candp + 4 + i],
        curp + 4 + dup <= input.len(),
        candp + 4 + dup <= source.len(),
    ensures
        forall|i: int| 0 <= i < 4 + dup ==> input[curp + i] == #[trigger] source[candp + i],
{
    assert forall|i: int| 0 <= i < 4 + dup implies input[curp + i] == #[trigger] source[candp + i] by {
        if i < j {
            assert(input[curp + i] == source[candp + i]);
        } else if i < j + 4 {
            let k = i - j;
            assert(input.subrange(curp + j, curp + j + 4)[k] == input[curp + j + k]);
            assert(source.subrange(candp + j, candp + j + 4)[k] == source[candp + j + k]);
            assert(input.subrange(curp + j, curp + j + 4)[k] == source.subrange(candp + j, candp + j + 4)[k]);
        } else {
            let k = i - 4;
            assert(0 <= k < dup);
            assert(input[curp + 4 + k] == source[candp + 4 + k]);
        }
    }
}

/// A match whose bytes agree with the source repeats the decoder's window.
#[verifier::spinoff_prover]
#[verifier::rlimit(30)]
proof fn lemma_found_match_is_copy(
    input: Seq<u8>,
    dict: Seq<u8>,
    source: Seq<u8>,
    from_dict: bool,
    cur: int,
    candidate: int,
    offset: int,
    ml: int,
)
    requires
        0 <= cur,
        0 <= candidate,
        0 <= ml,
        cur + ml <= input.len(),
        candidate + ml <= source.len(),
        forall|i: int| 0 <= i < ml ==> input[cur + i] == #[trigger] source[candidate + i],
        1 <= offset,
        if from_dict {
            source == dict && offset == dict.len() - candidate + cur
        } else {
            source == input && candidate < cur && offset == cur - candidate
        },
    ensures
        offset <= dict.len() + cur,
        extend_match(dict, input.take(cur), offset, ml as nat) == input.take(cur + ml),
{
    let hist = input.take(cur);
    let t = input.subrange(cur, cur + ml);
    let w = dict + hist + t;
    assert(w.len() == dict.len() + cur + ml);
    assert forall|i: int| 0 <= i < t.len() implies #[trigger] t[i] == w[dict.len() + hist.len() - offset + i] by {
        assert(t[i] == input[cur + i]);
        assert(input[cur + i] == source[candidate + i]);
        if from_dict {
            assert(w[dict.len() + hist.len() - offset + i] == dict[candidate + i]);
        } else {
            let k = candidate + i;
            assert(w[dict.len() + hist.len() - offset + i] == w[dict.len() + k]);
            if k < cur {
                assert(w[dict.len() + k] == hist[k]);
            } else {
                assert(w[dict.len() + k] == t[k - cur]);
                assert(t[k - cur] == input[k]);
            }
        }
    }
    lemma_match_is_copy(dict, hist, t, offset);
    assert(hist + t =~= input.take(cur + ml));
}

/// `res` is what a compressor that writes a block of `input[input_pos..]`
/// at `start` of `out0`, leaving `out` behind with its write position at
/// `pos`, reports: an error exactly when fewer than
/// `max_output_size(input.len() - input_pos)` bytes are free (nothing is
/// written then), and otherwise the length of a block of at most that size, laid out as the format
/// requires, that appends `input[input_pos..]` when decoded into an output
/// that already holds `input[..input_pos]`, with `dict` in front of it; a
/// remainder too short to search for matches is written as literals alone.
/// The bytes before `start` are kept.
pub open spec fn compressed_into_from(
    res: Result<usize, CompressError>,
    out0: Seq<u8>,
    start: int,
    out: Seq<u8>,
    pos: int,
    input: Seq<u8>,
    input_pos: int,
    dict: Seq<u8>,
) -> bool {
    &&& out.len() == out0.len()
    &&& out.take(start) == out0.take(start)
    &&& if out0.len() - start < max_output_size(input.len() - input_pos) {
        res == Err::<usize, CompressError>(CompressError::OutputTooSmall) && pos == start && out == out0
    } else {
        &&& res matches Ok(n)
        &&& pos == start + n
        &&& n <= max_output_size(input.len() - input_pos)
        &&& decode_from(out.subrange(start, pos), dict, input.len() as usize, input.take(input_pos), 0)
            == Ok::<Seq<u8>, crate::error::DecompressError>(input)
        &&& input.len() - input_pos < LZ4_MIN_LENGTH ==> out.subrange(start, pos) == encode_last(input.skip(input_pos))
        &&& conformant(out.subrange(start, pos), input.len() - input_pos)
    }
}

/// `res` is what a compressor that writes a block of `input` at `start` of
/// `out0` and leaves `out` behind with its write position at `pos` reports:
/// an error exactly when fewer than `max_output_size(input.len())` bytes are
/// free (nothing is written then), and otherwise the length of a block of at most that size that
/// decodes to `input` with `dict` in front of it, laid out as the format
/// requires of a block of `input.len()` bytes; an input too short to search
/// for matches is written as literals alone. The bytes before `start` are
/// kept.
pub open spec fn compressed_into(
    res: Result<usize, CompressError>,
    out0: Seq<u8>,
    start: int,
    out: Seq<u8>,
    pos: int,
    input: Seq<u8>,
    dict: Seq<u8>,
) -> bool {
    &&& out.len() == out0.len()
    &&& out.take(start) == out0.take(start)
    &&& if out0.len() - start < max_output_size(input.len() as int) {
        res == Err::<usize, CompressError>(CompressError::OutputTooSmall) && pos == start && out == out0
    } else {
        &&& res matches Ok(n)
        &&& pos == start + n
        &&& n <= max_output_size(input.len() as int)
        &&& lz4_decode(out.subrange(start, pos), dict, input.len() as usize) == Ok::<Seq<u8>, crate::error::DecompressError>(input)
        &&& input.len() < LZ4_MIN_LENGTH ==> out.subrange(start, pos) == encode_last(input)
        &&& conformant(out.subrange(start, pos), input.len() as int)
    }
}

/// A block of the whole input is a block from input position 0.
pub(crate) proof fn lemma_compressed_from_start(
    res: Result<usize, CompressError>,
    out0: Seq<u8>,
    start: int,
    out: Seq<u8>,
    pos: int,
    input: Seq<u8>,
    dict: Seq<u8>,
)
    requires
        compressed_into_from(res, out0, start, out, pos, input, 0, dict),
    ensures
        compressed_into(res, out0, start, out, pos, input, dict),
{
    assert(input.take(0) =~= Seq::<u8>::empty());
    assert(input.skip(0) =~= input);
}

/// The facts that the sequences written so far establish: the block begins
/// at `start`, `output[start..opos]` encodes `input[input_pos..literal_start]`
/// after `input[..input_pos]`, with every match placed as the format
/// requires, and is at most 256/255 of it, and the bytes before `start` are
/// still `pre`.
pub open spec fn progress(
    output: Seq<u8>,
    pre: Seq<u8>,
    start: int,
    opos: int,
    input: Seq<u8>,
    input_pos: int,
    literal_start: int,
    dict: Seq<u8>,
) -> bool {
    &&& 0 <= start <= opos <= output.len()
    &&& 0 <= input_pos <= literal_start <= input.len()
    &&& input.len() <= usize::MAX
    &&& output.len() - start >= max_output_size(input.len() - input_pos)
    &&& 255 * (opos - start) <= 256 * (literal_start - input_pos)
    &&& output.take(start) == pre
    &&& encodes_prefix(input.take(input_pos), output.subrange(start, opos), dict, input.len() as usize, input.take(literal_start))
    &&& shaped(output.subrange(start, opos), literal_start - input_pos, input.len() - input_pos)
}

/// What was written at the end of a prefix extends the block that starts at `start`.
proof fn lemma_extend_block(old_out: Seq<u8>, new_out: Seq<u8>, start: int, p0: int, p1: int, s: Seq<u8>)
    requires
        0 <= start <= p0 <= old_out.len(),
        0 <= p1 <= new_out.len(),
        new_out.take(p1) == old_out.take(p0) + s,
    ensures
        p1 == p0 + s.len(),
        new_out.subrange(start, p1) == old_out.subrange(start, p0) + s,
        new_out.take(start) == old_out.take(start),
{
    assert(new_out.take(p1).len() == p1);
    assert((old_out.take(p0) + s).len() == p0 + s.len());
    assert forall|i: int| 0 <= i < p1 - start implies new_out.subrange(start, p1)[i] == (old_out.subrange(start, p0) + s)[i] by {
        assert(new_out.take(p1)[start + i] == (old_out.take(p0) + s)[start + i]);
        if start + i < p0 {
            assert((old_out.take(p0) + s)[start + i] == old_out[start + i]);
            assert((old_out.subrange(start, p0) + s)[i] == old_out[start + i]);
        } else {
            assert((old_out.take(p0) + s)[start + i] == s[start + i - p0]);
            assert((old_out.subrange(start, p0) + s)[i] == s[i - (p0 - start)]);
        }
    }
    assert(new_out.subrange(start, p1) =~= old_out.subrange(start, p0) + s);
    assert forall|i: int| 0 <= i < start implies new_out.take(start)[i] == old_out.take(start)[i] by {
        assert(new_out.take(p1)[i] == (old_out.take(p0) + s)[i]);
    }
    assert(new_out.take(start) =~= old_out.take(start));
}

/// Ends the block: writes the literals from `literal_start` on as the last
/// sequence. The block then decodes to the rest of the input.
#[verifier::spinoff_prover]
#[verifier::rlimit(30)]
fn finish_block(
    output: &mut [u8],
    opos: &mut usize,
    input: &[u8],
    literal_start: usize,
    pre: Ghost<Seq<u8>>,
    start: Ghost<int>,
    input_pos: Ghost<int>,
    dict: Ghost<Seq<u8>>,
)
    requires
        progress(old(output)@, pre@, start@, *old(opos) as int, input@, input_pos@, literal_start as int, dict@),
        literal_start == input_pos@ || literal_start + 5 <= input@.len(),
    ensures
        final(output)@.len() == old(output)@.len(),
        conformant(final(output)@.subrange(start@, *final(opos) as int), input@.len() - input_pos@),
        start@ <= *final(opos),
        *final(opos) - start@ <= max_output_size(input@.len() - input_pos@),
        final(output)@.take(start@) == pre@,
        final(output)@.subrange(start@, *final(opos) as int) == old(output)@.subrange(start@, *old(opos) as int)
            + encode_last(input@.skip(literal_start as int)),
        decode_from(final(output)@.subrange(start@, *final(opos) as int), dict@, input@.len() as usize, input@.take(input_pos@), 0)
            == Ok::<Seq<u8>, crate::error::DecompressError>(input@),
{
    proof {
        lemma_capacity(input@.len() - input_pos@);
        lemma_last_size(input@.skip(literal_start as int));
    }
    let ghost old_out = output@;
    let ghost p0 = *opos as int;
    let ghost p = output@.subrange(start@, *opos as int);
    handle_last_literals(output, opos, input, literal_start);
    proof {
        lemma_extend_block(old_out, output@, start@, p0, *opos as int, encode_last(input@.skip(literal_start as int)));
        lemma_encodes_prefix_finish(input@.take(input_pos@), p, dict@, input@.len() as usize, input@.take(literal_start as int),
            input@.skip(literal_start as int));
        assert(input@.take(literal_start as int) + input@.skip(literal_start as int) =~= input@);
        lemma_shaped_finish(p, literal_start - input_pos@, input@.len() - input_pos@, input@.skip(literal_start as int));
    }
}

/// Where the match search that starts at `start` probes after `k` misses:
/// the `k`-th step (counting from 0) skips `(8 + k) / 8` bytes, so the skip
/// grows by one every eight misses.
pub open spec fn probe_position(start: int, k: nat) -> int
    decreases k,
{
    if k == 0 {
        start
    } else {
        probe_position(start, (k - 1) as nat) + (8 + (k - 1)) / 8
    }
}

/// Searches for a match from `*cur` on, skipping ahead faster the longer none
/// is found (the positions of [`probe_position`]). Records each position
/// probed in `table`. Returns the candidate, whether it lies in `ext_dict`,
/// and the match offset; `None` exactly when the next probe would leave fewer
/// than `MFLIMIT - 1` bytes after it.
fn find_match<T: HashTable, const USE_DICT: bool>(
    input: &[u8],
    table: &mut T,
    ext_dict: &[u8],
    input_stream_offset: usize,
    cur: &mut usize,
    forward_hash: &mut usize,
    literal_start: usize,
) -> (res: Option<(usize, bool, u16)>)
    requires
        old(table).wf(),
        *old(forward_hash) < T::table_size(),
        literal_start <= *old(cur) <= input@.len(),
        input@.len() >= LZ4_MIN_LENGTH,
        input@.len() <= isize::MAX,
        USE_DICT ==> ext_dict@.len() <= input_stream_offset,
        !USE_DICT ==> ext_dict@.len() == 0,
        input_stream_offset + input@.len() + ext_dict@.len() <= usize::MAX,
    ensures
        final(table).wf(),
        *final(forward_hash) < T::table_size(),
        *old(cur) <= *final(cur),
        exists|k: nat| {
            &&& #[trigger] probe_position(*old(cur) as int, k) == *final(cur)
            &&& (res is None <==> probe_position(*old(cur) as int, k + 1) + MFLIMIT > input@.len() + 1)
        },
        res matches Some((candidate, from_dict, offset)) ==> {
            &&& *final(cur) + MFLIMIT <= input@.len()
            &&& match_found(input@, ext_dict@, if from_dict { ext_dict@ } else { input@ }, from_dict,
                *final(cur) as int, candidate as int, offset as int)
        },
        (res, final(table).entries(), *final(cur) as int, *final(forward_hash) as int) == probe::<T>(input@, ext_dict@,
            input_stream_offset as int, USE_DICT, false, Seq::empty(), old(table).entries(), *old(cur) as int,
            *old(forward_hash) as int, 0),
{
    let end_pos_check = input.len() - MFLIMIT;
    let ext_dict_stream_offset = if USE_DICT { input_stream_offset - ext_dict.len() } else { input_stream_offset };
    assert(1usize << 3usize == 8) by (bit_vector);
    let mut non_match_count: usize = 1 << INCREASE_STEPSIZE_BITSHIFT;
    let ghost mut k: nat = 0;
    proof {
        table.lemma_wf_size();
    }
    loop
        invariant
            non_match_count == 8 + k,
            *cur == probe_position(*old(cur) as int, k),
            probe::<T>(input@, ext_dict@, input_stream_offset as int, USE_DICT, false, Seq::empty(), old(table).entries(),
                *old(cur) as int, *old(forward_hash) as int, 0) == probe::<T>(input@, ext_dict@, input_stream_offset as int, USE_DICT,
                false, Seq::empty(), table.entries(), *cur as int, *forward_hash as int, k),
            table.wf(),
            0 < T::table_size() <= 0x1_0000_0000,
            *forward_hash < T::table_size(),
            *old(cur) <= *cur <= input@.len(),
            8 <= non_match_count <= 8 + *cur,
            end_pos_check + MFLIMIT == input@.len(),
            input@.len() <= isize::MAX,
            ext_dict_stream_offset + ext_dict@.len() == input_stream_offset,
            USE_DICT ==> ext_dict@.len() <= input_stream_offset,
            !USE_DICT ==> ext_dict@.len() == 0,
            input_stream_offset + input@.len() + ext_dict@.len() <= usize::MAX,
        decreases input@.len() - *cur,
    {
        assert(non_match_count >> 3usize == non_match_count / 8) by (bit_vector);
        let step = non_match_count >> INCREASE_STEPSIZE_BITSHIFT;
        non_match_count = non_match_count + 1;
        let next_cur = *cur + step;
        assert(probe_position(*old(cur) as int, k + 1) == next_cur);
        if next_cur > end_pos_check + 1 {
            return None;
        }
        let hash = *forward_hash;
        let cand_abs = table.get_at(hash);
        *forward_hash = T::get_hash_at_unchecked(input, next_cur);
        table.put_at(hash, *cur + input_stream_offset);
        let cur_abs = input_stream_offset + *cur;
        let candidate;
        let from_dict;
        let offset;
        if cand_abs < cur_abs && cand_abs >= input_stream_offset && cur_abs - cand_abs <= MAX_DISTANCE {
            offset = (cur_abs - cand_abs) as u16;
            candidate = cand_abs - input_stream_offset;
            from_dict = false;
        } else if USE_DICT && cand_abs >= ext_dict_stream_offset && cand_abs < input_stream_offset
            && cur_abs - cand_abs <= MAX_DISTANCE && cand_abs - ext_dict_stream_offset + 4 <= ext_dict.len() {
            offset = (cur_abs - cand_abs) as u16;
            candidate = cand_abs - ext_dict_stream_offset;
            from_dict = true;
        } else {
            *cur = next_cur;
            proof {
                k = k + 1;
            }
            continue;
        }
        let candidate_source: &[u8] = if from_dict { ext_dict } else { input };
        let cand_bytes: u32 = get_batch_unchecked(candidate_source, candidate);
        let curr_bytes: u32 = get_batch_unchecked(input, *cur);
        proof {
            lemma_batch_eq(candidate_source@, candidate as int, input@, *cur as int);
        }
        if cand_bytes == curr_bytes {
            return Some((candidate, from_dict, offset));
        }
        *cur = next_cur;
        proof {
            k = k + 1;
        }
    }
}

/// Writes the sequence for the match found at `*cur`: extends it backwards
/// over equal bytes and forwards as far as the bytes agree (stopping
/// `END_OFFSET` bytes before the end), records its end in `table`, and writes
/// the literals since `literal_start` and the match. Leaves `cur` at the end
/// of the match.
#[verifier::spinoff_prover]
#[verifier::rlimit(30)]
fn encode_match<T: HashTable>(
    input: &[u8],
    output: &mut [u8],
    opos: &mut usize,
    table: &mut T,
    source: &[u8],
    from_dict: bool,
    dict: Ghost<Seq<u8>>,
    pre: Ghost<Seq<u8>>,
    start: Ghost<int>,
    input_pos: Ghost<int>,
    input_stream_offset: usize,
    literal_start: usize,
    cur: &mut usize,
    candidate: usize,
    offset: u16,
)
    requires
        old(table).wf(),
        literal_start <= *old(cur),
        *old(cur) + MFLIMIT <= input@.len(),
        input_stream_offset + input@.len() <= usize::MAX,
        match_found(input@, dict@, source@, from_dict, *old(cur) as int, candidate as int, offset as int),
        progress(old(output)@, pre@, start@, *old(opos) as int, input@, input_pos@, literal_start as int, dict@),
    ensures
        final(table).wf(),
        final(output)@.len() == old(output)@.len(),
        *old(cur) < *final(cur),
        *final(cur) + END_OFFSET <= input@.len(),
        progress(final(output)@, pre@, start@, *final(opos) as int, input@, input_pos@, *final(cur) as int, dict@),
        final(output)@.subrange(start@, *final(opos) as int) == old(output)@.subrange(start@, *old(opos) as int)
            + match_step::<T>(input@, source@, input_stream_offset as int, old(table).entries(), literal_start as int,
            *old(cur) as int, candidate as int, offset as int).0,
        final(table).entries() == match_step::<T>(input@, source@, input_stream_offset as int, old(table).entries(),
            literal_start as int, *old(cur) as int, candidate as int, offset as int).1,
        *final(cur) == match_step::<T>(input@, source@, input_stream_offset as int, old(table).entries(), literal_start as int,
            *old(cur) as int, candidate as int, offset as int).2,
{
    let ghost cur0 = *cur;
    let ghost cand0 = candidate;
    let mut candidate = candidate;
    backtrack_match(input, cur, literal_start, source, &mut candidate);
    let ghost curp = *cur;
    let ghost candp = candidate;
    assert(source@.len() == source.len());
    assert(input@.len() == input.len());
    let lit_len = *cur - literal_start;
    *cur = *cur + MINMATCH;
    candidate = candidate + MINMATCH;
    let duplicate_length = count_same_bytes_unchecked(input, cur, source, candidate, END_OFFSET);
    proof {
        let j = cur0 - curp;
        if duplicate_length < j {
            let k = curp + 4 + duplicate_length;
            assert(input@[k] == source@[candp + 4 + duplicate_length]) by {
                let i = 4 + duplicate_length;
                if i < j {
                    assert(input@[curp + i] == source@[candp + i]);
                } else {
                    let m = i - j;
                    assert(input@.subrange(cur0 as int, cur0 + 4)[m] == source@.subrange(cand0 as int, cand0 + 4)[m]);
                }
            }
        }
        lemma_combine_match(input@, source@, curp as int, candp as int, cur0 - curp, duplicate_length as int);
        lemma_found_match_is_copy(input@, dict@, source@, from_dict, curp as int, candp as int, offset as int, 4 + duplicate_length);
        table.lemma_wf_size();
    }
    let hash = T::get_hash_at_unchecked(input, *cur - 2);
    table.put_at(hash, *cur - 2 + input_stream_offset);
    let ghost lits = input@.subrange(literal_start as int, literal_start + lit_len);
    let ghost p = output@.subrange(start@, *opos as int);
    let ghost old_out = output@;
    let ghost p0 = *opos as int;
    proof {
        lemma_capacity(input@.len() - input_pos@);
        lemma_sequence_size(lits, offset as nat, duplicate_length as nat);
        assert(input@.take(literal_start as int) + lits =~= input@.take(curp as int));
        lemma_encodes_prefix_step(input@.take(input_pos@), p, dict@, input@.len() as usize, input@.take(literal_start as int), lits,
            offset as nat, duplicate_length as nat);
        lemma_shaped_step(p, literal_start - input_pos@, input@.len() - input_pos@, lits, offset as nat, duplicate_length as nat);
    }
    write_sequence(output, opos, input, literal_start, lit_len, offset, duplicate_length);
    proof {
        lemma_extend_block(old_out, output@, start@, p0, *opos as int, encode_sequence(lits, offset as nat, duplicate_length as nat));
    }
}

/// Compress all bytes of `input[input_pos..]` into `output` from `*opos` on.
///
/// Bytes in `input[..input_pos]` are treated as a preamble and can be used
/// for lookback. Bytes in `ext_dict` logically precede the bytes in `input`
/// and can be used for lookback too. `input_stream_offset` is the logical
/// position of the first byte of `input`, so that the same `table` can serve
/// many calls: entries below it are older than this input. `table` maps
/// hashes of 4-byte groups to positions where they were last seen.
///
/// Returns the number of bytes written (compressed) into `output`.
///
/// # Const parameters
/// `USE_DICT`: whether `ext_dict` is searched for matches (it must be empty
/// otherwise). `HAS_OFFSET`: whether `input_stream_offset` may be non-zero.
#[verifier::spinoff_prover]
#[verifier::rlimit(50)]
pub(crate) fn compress_block<T: HashTable, const USE_DICT: bool, const HAS_OFFSET: bool>(
    input: &[u8],
    input_pos: usize,
    output: &mut [u8],
    opos: &mut usize,
    table: &mut T,
    ext_dict: &[u8],
    input_stream_offset: usize,
) -> (res: Result<usize, CompressError>)
    requires
        old(table).wf(),
        *old(opos) <= old(output)@.len(),
        input_pos <= input@.len(),
        input@.len() <= isize::MAX,
        USE_DICT ==> ext_dict@.len() <= WINDOW_SIZE && ext_dict@.len() <= input_stream_offset
            && input_stream_offset + input@.len() + ext_dict@.len() <= isize::MAX,
        !USE_DICT ==> ext_dict@.len() == 0,
        !HAS_OFFSET ==> input_stream_offset == 0,
        input_stream_offset + input@.len() + ext_dict@.len() <= usize::MAX,
        output_size_fits(input@.len() - input_pos),
    ensures
        final(table).wf(),
        compressed_into_from(res, old(output)@, *old(opos) as int, final(output)@, *final(opos) as int, input@, input_pos as int,
            ext_dict@),
        res is Err ==> final(table).entries() == old(table).entries(),
        res is Ok ==> final(output)@.subrange(*old(opos) as int, *final(opos) as int) == greedy_block::<T>(input@, input_pos as int,
            ext_dict@, input_stream_offset as int, USE_DICT, false, Seq::empty(), old(table).entries()).0,
        res is Ok ==> final(table).entries() == greedy_block::<T>(input@, input_pos as int, ext_dict@, input_stream_offset as int,
            USE_DICT, false, Seq::empty(), old(table).entries()).1,
{
    let ghost total = greedy_block::<T>(input@, input_pos as int, ext_dict@, input_stream_offset as int, USE_DICT, false,
        Seq::empty(), table.entries());
    proof {
        reveal(greedy_block);
    }
    let stream_offset = if HAS_OFFSET { input_stream_offset } else { 0 };
    let start = *opos;
    if output.len() - start < get_maximum_output_size(input.len() - input_pos) {
        return Err(CompressError::OutputTooSmall);
    }
    let ghost dict = ext_dict@;
    let ghost pre = output@.take(start as int);
    let ghost ip = input_pos as int;
    proof {
        lemma_encodes_prefix_empty(input@.take(ip), dict, input@.len() as usize);
        lemma_shaped_empty(input@.len() - ip);
        assert(output@.subrange(start as int, start as int) =~= Seq::<u8>::empty());
        table.lemma_wf_size();
    }
    if input.len() - input_pos < LZ4_MIN_LENGTH {
        let ghost before = output@;
        finish_block(output, opos, input, input_pos, Ghost(pre), Ghost(start as int), Ghost(ip), Ghost(dict));
        proof {
            assert(before.subrange(start as int, start as int) + encode_last(input@.skip(ip)) =~= encode_last(input@.skip(ip)));
        }
        return Ok(*opos - start);
    }
    let mut literal_start: usize = input_pos;
    let mut cur: usize = input_pos;
    if cur == 0 && stream_offset == 0 {
        let hash = T::get_hash_at_unchecked(input, 0);
        table.put_at(hash, 0);
        cur = 1;
    }
    let mut forward_hash = T::get_hash_at_unchecked(input, cur);
    let ghost iso = stream_offset as int;
    let ghost pe = Seq::<usize>::empty();
    proof {
        assert(output@.subrange(start as int, *opos as int) =~= Seq::<u8>::empty());
        assert(Seq::<u8>::empty() + search_from::<T>(input@, dict, iso, USE_DICT, false, pe, table.entries(), literal_start as int,
            cur as int, forward_hash as int).0 =~= total.0);
    }
    loop
        invariant
            output@.subrange(start as int, *opos as int) + search_from::<T>(input@, dict, iso, USE_DICT, false, pe, table.entries(),
                literal_start as int, cur as int, forward_hash as int).0 == total.0,
            search_from::<T>(input@, dict, iso, USE_DICT, false, pe, table.entries(), literal_start as int, cur as int,
                forward_hash as int).1 == total.1,
            iso == stream_offset,
            stream_offset == input_stream_offset,
            pe == Seq::<usize>::empty(),
            total == greedy_block::<T>(input@, input_pos as int, ext_dict@, input_stream_offset as int, USE_DICT, false,
                Seq::empty(), old(table).entries()),
            table.wf(),
            0 < T::table_size() <= 0x1_0000_0000,
            forward_hash < T::table_size(),
            literal_start <= cur,
            cur + END_OFFSET <= input@.len(),
            input@.len() >= LZ4_MIN_LENGTH,
            input@.len() <= isize::MAX,
            output@.len() == old(output)@.len(),
            start == *old(opos),
            pre == old(output)@.take(start as int),
            ip == input_pos,
            input_pos <= literal_start,
            input@.len() - input_pos >= LZ4_MIN_LENGTH,
            progress(output@, pre, start as int, *opos as int, input@, ip, literal_start as int, dict),
            dict == ext_dict@,
            USE_DICT ==> ext_dict@.len() <= stream_offset,
            !USE_DICT ==> ext_dict@.len() == 0,
            stream_offset + input@.len() + ext_dict@.len() <= usize::MAX,
        decreases input@.len() - literal_start,
    {
        let ghost written = output@.subrange(start as int, *opos as int);
        proof {
            lemma_search_from::<T>(input@, dict, iso, USE_DICT, false, pe, table.entries(), literal_start as int, cur as int,
                forward_hash as int);
        }
        let found = find_match::<T, USE_DICT>(input, table, ext_dict, stream_offset, &mut cur, &mut forward_hash, literal_start);
        let (mut candidate, mut from_dict, mut offset) = match found {
            Some(m) => m,
            None => {
                let ghost w = output@.subrange(start as int, *opos as int);
                finish_block(output, opos, input, literal_start, Ghost(pre), Ghost(start as int), Ghost(ip), Ghost(dict));
                proof {
                    assert(output@.subrange(start as int, *opos as int) == w + encode_last(input@.skip(literal_start as int)));
                    assert(w + encode_last(input@.skip(literal_start as int)) == total.0);
                }
                return Ok(*opos - start);
            },
        };
        let ghost ls0 = literal_start;
        loop
            invariant_except_break
                cur + MFLIMIT <= input@.len(),
                match_found(input@, dict, if from_dict { ext_dict@ } else { input@ }, from_dict, cur as int, candidate as int, offset as int),
                output@.subrange(start as int, *opos as int) + match_from::<T>(input@, dict, iso, USE_DICT, false, pe,
                    table.entries(), literal_start as int, cur as int, forward_hash as int, candidate as int, from_dict,
                    offset as int).0 == total.0,
                match_from::<T>(input@, dict, iso, USE_DICT, false, pe, table.entries(), literal_start as int, cur as int,
                    forward_hash as int, candidate as int, from_dict, offset as int).1 == total.1,
            invariant
                iso == stream_offset,
                stream_offset == input_stream_offset,
                pe == Seq::<usize>::empty(),
                total == greedy_block::<T>(input@, input_pos as int, ext_dict@, input_stream_offset as int, USE_DICT, false,
                    Seq::empty(), old(table).entries()),
                table.wf(),
                0 < T::table_size() <= 0x1_0000_0000,
                forward_hash < T::table_size(),
                ls0 <= literal_start <= cur,
                input_pos <= ls0,
                ip == input_pos,
                input@.len() <= isize::MAX,
                output@.len() == old(output)@.len(),
                progress(output@, pre, start as int, *opos as int, input@, ip, literal_start as int, dict),
                dict == ext_dict@,
                !USE_DICT ==> ext_dict@.len() == 0,
                stream_offset + input@.len() + ext_dict@.len() <= usize::MAX,
            ensures
                output@.subrange(start as int, *opos as int) + search_from::<T>(input@, dict, iso, USE_DICT, false, pe,
                    table.entries(), literal_start as int, cur as int, forward_hash as int).0 == total.0,
                search_from::<T>(input@, dict, iso, USE_DICT, false, pe, table.entries(), literal_start as int, cur as int,
                    forward_hash as int).1 == total.1,
                table.wf(),
                forward_hash < T::table_size(),
                ls0 < literal_start,
                input_pos <= literal_start,
                literal_start == cur,
                cur + END_OFFSET <= input@.len(),
                output@.len() == old(output)@.len(),
                progress(output@, pre, start as int, *opos as int, input@, ip, literal_start as int, dict),
            decreases input@.len() - literal_start,
        {
            let source: &[u8] = if from_dict { ext_dict } else { input };
            let ghost w0 = output@.subrange(start as int, *opos as int);
            let ghost st = match_step::<T>(input@, source@, iso, table.entries(), literal_start as int, cur as int, candidate as int,
                offset as int);
            proof {
                lemma_match_from::<T>(input@, dict, iso, USE_DICT, false, pe, table.entries(), literal_start as int, cur as int,
                    forward_hash as int, candidate as int, from_dict, offset as int);
            }
            encode_match(input, output, opos, table, source, from_dict, Ghost(dict), Ghost(pre), Ghost(start as int), Ghost(ip),
                stream_offset, literal_start, &mut cur, candidate, offset);
            literal_start = cur;
            proof {
                lemma_after_match::<T>(input@, dict, iso, USE_DICT, false, pe, table.entries(), cur as int, forward_hash as int);
                let rest = after_match::<T>(input@, dict, iso, USE_DICT, false, pe, table.entries(), cur as int, forward_hash as int);
                assert(w0 + st.0 + rest.0 =~= w0 + (st.0 + rest.0));
            }
            if !USE_DICT && cur + MFLIMIT <= input.len() {
                let hash = T::get_hash_at_unchecked(input, cur);
                let rematch = table.get_at(hash);
                let cur_abs = stream_offset + cur;
                if rematch < cur_abs && cur_abs - rematch <= MAX_DISTANCE && rematch >= stream_offset {
                    let rc = rematch - stream_offset;
                    let a = get_batch_unchecked(input, cur);
                    let b = get_batch_unchecked(input, rc);
                    proof {
                        lemma_batch_eq(input@, cur as int, input@, rc as int);
                    }
                    if a == b {
                        table.put_at(hash, cur + stream_offset);
                        candidate = rc;
                        from_dict = false;
                        offset = (cur_abs - rematch) as u16;
                        continue;
                    }
                }
                forward_hash = hash;
            } else if cur + MFLIMIT <= input.len() {
                forward_hash = T::get_hash_at_unchecked(input, cur);
            }
            break;
        }
    }
}

/// Compress all bytes of `input[input_pos..]` into the sink `output`, after
/// what it already holds.
///
/// Bytes in `input[..input_pos]` are treated as a preamble and can be used
/// for lookback. Bytes in `ext_dict` logically precede the bytes in `input`
/// and can be used for lookback too. `input_stream_offset` is the logical
/// position of the first byte of `input`, so that the same `table` can serve
/// many calls: entries below it are older than this input. `table` maps
/// hashes of 4-byte groups to positions where they were last seen.
///
/// Returns the number of bytes written (compressed) into `output`.
///
/// # Const parameters
/// `USE_DICT`: whether `ext_dict` is searched for matches (it must be empty
/// otherwise). `HAS_OFFSET`: whether `input_stream_offset` may be non-zero.
pub fn compress_internal<T: HashTable, const USE_DICT: bool, const HAS_OFFSET: bool, S: Sink>(
    input: &[u8],
    input_pos: usize,
    output: &mut S,
    table: &mut T,
    ext_dict: &[u8],
    input_stream_offset: usize,
) -> (res: Result<usize, CompressError>)
    requires
        old(table).wf(),
        old(output).position() <= old(output).buffer().len(),
        input_pos <= input@.len(),
        input@.len() <= isize::MAX,
        USE_DICT ==> ext_dict@.len() <= WINDOW_SIZE && ext_dict@.len() <= input_stream_offset
            && input_stream_offset + input@.len() + ext_dict@.len() <= isize::MAX,
        !USE_DICT ==> ext_dict@.len() == 0,
        !HAS_OFFSET ==> input_stream_offset == 0,
        input_stream_offset + input@.len() + ext_dict@.len() <= usize::MAX,
        output_size_fits(input@.len() - input_pos),
    ensures
        final(table).wf(),
        compressed_into_from(res, old(output).buffer(), old(output).position() as int, final(output).buffer(),
            final(output).position() as int, input@, input_pos as int, ext_dict@),
        res is Err ==> final(table).entries() == old(table).entries(),
        res is Ok ==> final(output).buffer().subrange(old(output).position() as int, final(output).position() as int)
            == greedy_block::<T>(input@, input_pos as int, ext_dict@, input_stream_offset as int, USE_DICT, false, Seq::empty(),
            old(table).entries()).0,
        res is Ok ==> final(table).entries() == greedy_block::<T>(input@, input_pos as int, ext_dict@, input_stream_offset as int,
            USE_DICT, false, Seq::empty(), old(table).entries()).1,
{
    let (out, pos) = output.output_mut_with_pos();
    compress_block::<T, USE_DICT, HAS_OFFSET>(input, input_pos, out, pos, table, ext_dict, input_stream_offset)
}

/// Searches for a match from `*cur` on like [`find_match`], looking up input
/// positions in `table` and, where none in reach is found there, dictionary
/// positions in `dict_table`.
fn find_match_dual<T: HashTable>(
    input: &[u8],
    table: &mut T,
    dict_table: &T,
    ext_dict: &[u8],
    input_stream_offset: usize,
    cur: &mut usize,
    forward_hash: &mut usize,
    literal_start: usize,
) -> (res: Option<(usize, bool, u16)>)
    requires
        old(table).wf(),
        dict_table.wf(),
        *old(forward_hash) < T::table_size(),
        literal_start <= *old(cur) <= input@.len(),
        input@.len() >= LZ4_MIN_LENGTH,
        input@.len() <= isize::MAX,
        ext_dict@.len() <= input_stream_offset,
        input_stream_offset + input@.len() + ext_dict@.len() <= usize::MAX,
    ensures
        final(table).wf(),
        *final(forward_hash) < T::table_size(),
        *old(cur) <= *final(cur),
        exists|k: nat| {
            &&& #[trigger] probe_position(*old(cur) as int, k) == *final(cur)
            &&& (res is None <==> probe_position(*old(cur) as int, k + 1) + MFLIMIT > input@.len() + 1)
        },
        res matches Some((candidate, from_dict, offset)) ==> {
            &&& *final(cur) + MFLIMIT <= input@.len()
            &&& match_found(input@, ext_dict@, if from_dict { ext_dict@ } else { input@ }, from_dict,
                *final(cur) as int, candidate as int, offset as int)
        },
        (res, final(table).entries(), *final(cur) as int, *final(forward_hash) as int) == probe::<T>(input@, ext_dict@,
            input_stream_offset as int, true, true, dict_table.entries(), old(table).entries(), *old(cur) as int,
            *old(forward_hash) as int, 0),
{
    let end_pos_check = input.len() - MFLIMIT;
    let ext_dict_stream_offset = input_stream_offset - ext_dict.len();
    assert(1usize << 3usize == 8) by (bit_vector);
    let mut non_match_count: usize = 1 << INCREASE_STEPSIZE_BITSHIFT;
    let ghost mut k: nat = 0;
    proof {
        table.lemma_wf_size();
    }
    loop
        invariant
            non_match_count == 8 + k,
            *cur == probe_position(*old(cur) as int, k),
            probe::<T>(input@, ext_dict@, input_stream_offset as int, true, true, dict_table.entries(), old(table).entries(),
                *old(cur) as int, *old(forward_hash) as int, 0) == probe::<T>(input@, ext_dict@, input_stream_offset as int, true,
                true, dict_table.entries(), table.entries(), *cur as int, *forward_hash as int, k),
            table.wf(),
            dict_table.wf(),
            0 < T::table_size() <= 0x1_0000_0000,
            *forward_hash < T::table_size(),
            *old(cur) <= *cur <= input@.len(),
            8 <= non_match_count <= 8 + *cur,
            end_pos_check + MFLIMIT == input@.len(),
            input@.len() <= isize::MAX,
            ext_dict_stream_offset + ext_dict@.len() == input_stream_offset,
            input_stream_offset + input@.len() + ext_dict@.len() <= usize::MAX,
        decreases input@.len() - *cur,
    {
        assert(non_match_count >> 3usize == non_match_count / 8) by (bit_vector);
        let step = non_match_count >> INCREASE_STEPSIZE_BITSHIFT;
        non_match_count = non_match_count + 1;
        let next_cur = *cur + step;
        assert(probe_position(*old(cur) as int, k + 1) == next_cur);
        if next_cur > end_pos_check + 1 {
            return None;
        }
        let hash = *forward_hash;
        let cand_abs = table.get_at(hash);
        *forward_hash = T::get_hash_at_unchecked(input, next_cur);
        table.put_at(hash, *cur + input_stream_offset);
        let cur_abs = input_stream_offset + *cur;
        let candidate;
        let from_dict;
        let offset;
        if cand_abs < cur_abs && cand_abs >= input_stream_offset && cur_abs - cand_abs <= MAX_DISTANCE {
            offset = (cur_abs - cand_abs) as u16;
            candidate = cand_abs - input_stream_offset;
            from_dict = false;
        } else {
            let dict_abs = dict_table.get_at(hash);
            if dict_abs < input_stream_offset && dict_abs >= ext_dict_stream_offset && cur_abs - dict_abs <= MAX_DISTANCE
                && dict_abs - ext_dict_stream_offset + 4 <= ext_dict.len() {
                offset = (cur_abs - dict_abs) as u16;
                candidate = dict_abs - ext_dict_stream_offset;
                from_dict = true;
            } else {
                *cur = next_cur;
                proof {
                    k = k + 1;
                }
                continue;
            }
        }
        let candidate_source: &[u8] = if from_dict { ext_dict } else { input };
        let cand_bytes: u32 = get_batch_unchecked(candidate_source, candidate);
        let curr_bytes: u32 = get_batch_unchecked(input, *cur);
        proof {
            lemma_batch_eq(candidate_source@, candidate as int, input@, *cur as int);
        }
        if cand_bytes == curr_bytes {
            return Some((candidate, from_dict, offset));
        }
        *cur = next_cur;
        proof {
            k = k + 1;
        }
    }
}

/// Dual-table compression for a compressor seeded with a dictionary. The main
/// table tracks input positions; `dict_table` is a read-only snapshot of the
/// dictionary. On a main-table miss, `dict_table` is probed as fallback.
pub fn compress_with_dict_table<T: HashTable, S: Sink>(
    input: &[u8],
    output: &mut S,
    table: &mut T,
    dict_table: &T,
    ext_dict: &[u8],
    input_stream_offset: usize,
) -> (res: Result<usize, CompressError>)
    requires
        old(table).wf(),
        dict_table.wf(),
        old(output).position() <= old(output).buffer().len(),
        input@.len() <= isize::MAX,
        ext_dict@.len() <= WINDOW_SIZE,
        ext_dict@.len() <= input_stream_offset,
        input_stream_offset + input@.len() + ext_dict@.len() <= isize::MAX,
        output_size_fits(input@.len() as int),
    ensures
        final(table).wf(),
        compressed_into(res, old(output).buffer(), old(output).position() as int, final(output).buffer(),
            final(output).position() as int, input@, ext_dict@),
        res is Err ==> final(table).entries() == old(table).entries(),
        res is Ok ==> final(output).buffer().subrange(old(output).position() as int, final(output).position() as int)
            == greedy_block::<T>(input@, 0, ext_dict@, input_stream_offset as int, true, true, dict_table.entries(),
            old(table).entries()).0,
        res is Ok ==> final(table).entries() == greedy_block::<T>(input@, 0, ext_dict@, input_stream_offset as int, true, true,
            dict_table.entries(), old(table).entries()).1,
{
    let (out, opos) = output.output_mut_with_pos();
    let res = compress_dict_block(input, out, opos, table, dict_table, ext_dict, input_stream_offset);
    proof {
        lemma_compressed_from_start(res, old(output).buffer(), old(output).position() as int, final(out)@, *final(opos) as int,
            input@, ext_dict@);
    }
    res
}

/// The block that [`compress_with_dict_table`] writes, at `*opos` of `out`.
#[verifier::spinoff_prover]
#[verifier::rlimit(50)]
pub(crate) fn compress_dict_block<T: HashTable>(
    input: &[u8],
    out: &mut [u8],
    opos: &mut usize,
    table: &mut T,
    dict_table: &T,
    ext_dict: &[u8],
    input_stream_offset: usize,
) -> (res: Result<usize, CompressError>)
    requires
        old(table).wf(),
        dict_table.wf(),
        *old(opos) <= old(out)@.len(),
        input@.len() <= isize::MAX,
        ext_dict@.len() <= input_stream_offset,
        input_stream_offset + input@.len() + ext_dict@.len() <= usize::MAX,
        output_size_fits(input@.len() as int),
    ensures
        final(table).wf(),
        compressed_into_from(res, old(out)@, *old(opos) as int, final(out)@, *final(opos) as int, input@, 0, ext_dict@),
        res is Err ==> final(table).entries() == old(table).entries(),
        res is Ok ==> final(out)@.subrange(*old(opos) as int, *final(opos) as int) == greedy_block::<T>(input@, 0, ext_dict@,
            input_stream_offset as int, true, true, dict_table.entries(), old(table).entries()).0,
        res is Ok ==> final(table).entries() == greedy_block::<T>(input@, 0, ext_dict@, input_stream_offset as int, true, true,
            dict_table.entries(), old(table).entries()).1,
{
    let ghost total = greedy_block::<T>(input@, 0, ext_dict@, input_stream_offset as int, true, true, dict_table.entries(),
        table.entries());
    proof {
        reveal(greedy_block);
    }
    let ghost iso = input_stream_offset as int;
    let ghost pe = dict_table.entries();
    let start = *opos;
    if out.len() - start < get_maximum_output_size(input.len()) {
        return Err(CompressError::OutputTooSmall);
    }
    let ghost dict = ext_dict@;
    let ghost pre = out@.take(start as int);
    proof {
        lemma_encodes_prefix_empty(input@.take(0), dict, input@.len() as usize);
        lemma_shaped_empty(input@.len() as int);
        assert(out@.subrange(start as int, start as int) =~= Seq::<u8>::empty());
        assert(input@.take(0) =~= Seq::<u8>::empty());
        table.lemma_wf_size();
    }
    if input.len() < LZ4_MIN_LENGTH {
        let ghost before = out@;
        finish_block(out, opos, input, 0, Ghost(pre), Ghost(start as int), Ghost(0), Ghost(dict));
        proof {
            assert(input@.skip(0) =~= input@);
            assert(before.subrange(start as int, start as int) + encode_last(input@) =~= encode_last(input@));
        }
        return Ok(*opos - start);
    }
    let mut literal_start: usize = 0;
    let hash = T::get_hash_at_unchecked(input, 0);
    table.put_at(hash, input_stream_offset);
    let mut cur: usize = 1;
    let mut forward_hash = T::get_hash_at_unchecked(input, cur);
    proof {
        assert(out@.subrange(start as int, *opos as int) =~= Seq::<u8>::empty());
        assert(Seq::<u8>::empty() + search_from::<T>(input@, dict, iso, true, true, pe, table.entries(), literal_start as int,
            cur as int, forward_hash as int).0 =~= total.0);
    }
    loop
        invariant
            out@.subrange(start as int, *opos as int) + search_from::<T>(input@, dict, iso, true, true, pe, table.entries(),
                literal_start as int, cur as int, forward_hash as int).0 == total.0,
            search_from::<T>(input@, dict, iso, true, true, pe, table.entries(), literal_start as int, cur as int,
                forward_hash as int).1 == total.1,
            iso == input_stream_offset,
            pe == dict_table.entries(),
            total == greedy_block::<T>(input@, 0, ext_dict@, input_stream_offset as int, true, true, dict_table.entries(),
                old(table).entries()),
            table.wf(),
            dict_table.wf(),
            0 < T::table_size() <= 0x1_0000_0000,
            forward_hash < T::table_size(),
            literal_start <= cur,
            cur + END_OFFSET <= input@.len(),
            input@.len() >= LZ4_MIN_LENGTH,
            input@.len() <= isize::MAX,
            out@.len() == old(out)@.len(),
            start == *old(opos),
            pre == old(out)@.take(start as int),
            progress(out@, pre, start as int, *opos as int, input@, 0, literal_start as int, dict),
            dict == ext_dict@,
            ext_dict@.len() <= input_stream_offset,
            input_stream_offset + input@.len() + ext_dict@.len() <= usize::MAX,
        decreases input@.len() - literal_start,
    {
        proof {
            lemma_search_from::<T>(input@, dict, iso, true, true, pe, table.entries(), literal_start as int, cur as int,
                forward_hash as int);
        }
        let found = find_match_dual(input, table, dict_table, ext_dict, input_stream_offset, &mut cur, &mut forward_hash,
            literal_start);
        let (candidate, from_dict, offset) = match found {
            Some(m) => m,
            None => {
                let ghost w = out@.subrange(start as int, *opos as int);
                finish_block(out, opos, input, literal_start, Ghost(pre), Ghost(start as int), Ghost(0), Ghost(dict));
                proof {
                    assert(out@.subrange(start as int, *opos as int) == w + encode_last(input@.skip(literal_start as int)));
                }
                return Ok(*opos - start);
            },
        };
        let source: &[u8] = if from_dict { ext_dict } else { input };
        let ghost w0 = out@.subrange(start as int, *opos as int);
        let ghost st = match_step::<T>(input@, source@, iso, table.entries(), literal_start as int, cur as int, candidate as int,
            offset as int);
        proof {
            lemma_match_from::<T>(input@, dict, iso, true, true, pe, table.entries(), literal_start as int, cur as int,
                forward_hash as int, candidate as int, from_dict, offset as int);
        }
        encode_match(input, out, opos, table, source, from_dict, Ghost(dict), Ghost(pre), Ghost(start as int), Ghost(0),
            input_stream_offset, literal_start, &mut cur, candidate, offset);
        literal_start = cur;
        proof {
            lemma_after_match::<T>(input@, dict, iso, true, true, pe, table.entries(), cur as int, forward_hash as int);
            let rest = after_match::<T>(input@, dict, iso, true, true, pe, table.entries(), cur as int, forward_hash as int);
            assert(w0 + st.0 + rest.0 =~= w0 + (st.0 + rest.0));
        }
        if cur + MFLIMIT <= input.len() {
            forward_hash = T::get_hash_at_unchecked(input, cur);
        }
    }
}

/// Write an integer to the sink, in the LZ4 length-extension encoding: a
/// byte of 255 for every 255 in `n`, then the remainder.
pub fn write_integer<S: Sink>(output: &mut S, n: usize)
    requires
        old(output).position() + encode_int(n as nat).len() <= old(output).buffer().len(),
    ensures
        final(output).buffer().len() == old(output).buffer().len(),
        final(output).position() == old(output).position() + encode_int(n as nat).len(),
        final(output).buffer().take(final(output).position() as int)
            == old(output).buffer().take(old(output).position() as int) + encode_int(n as nat),
{
    let (out, pos) = output.output_mut_with_pos();
    write_integer_at(out, pos, n);
}

/// The last `WINDOW_SIZE` bytes of `d`, the part of a dictionary that
/// matches can reach.
pub open spec fn window_tail(d: Seq<u8>) -> Seq<u8> {
    if d.len() > WINDOW_SIZE {
        d.skip(d.len() - WINDOW_SIZE)
    } else {
        d
    }
}

/// How many of the positions `0, 3, 6, ...` of `n` bytes have 8 bytes from
/// them on: the positions that [`init_dict`] hashes.
pub open spec fn dict_positions(n: nat) -> nat {
    if n >= 8 {
        ((n - 8) / 3 + 1) as nat
    } else {
        0
    }
}

/// The entries `e` after recording the first `k` of the positions
/// `0, 3, 6, ...` of `data` under their hashes.
pub open spec fn hashed_positions<T: HashTable>(e: Seq<usize>, data: Seq<u8>, k: nat) -> Seq<usize>
    decreases k,
{
    if k == 0 {
        e
    } else {
        let i = 3 * (k - 1);
        hashed_positions::<T>(e, data, (k - 1) as nat).update(T::spec_hash(data, i) as int, T::stored(i as usize))
    }
}

/// Trims `dict_data` to its last `WINDOW_SIZE` bytes and records every third
/// position of it in `dict`.
pub fn init_dict<T: HashTable>(dict: &mut T, dict_data: &mut &[u8])
    requires
        old(dict).wf(),
    ensures
        final(dict).wf(),
        final(dict_data)@ == window_tail(old(dict_data)@),
        final(dict).entries() == hashed_positions::<T>(old(dict).entries(), final(dict_data)@, dict_positions(final(dict_data)@.len())),
{
    if dict_data.len() > WINDOW_SIZE {
        *dict_data = vstd::slice::slice_subrange(*dict_data, dict_data.len() - WINDOW_SIZE, dict_data.len());
    }
    let data: &[u8] = *dict_data;
    proof {
        dict.lemma_wf_size();
    }
    let ghost e0 = dict.entries();
    let mut i: usize = 0;
    let ghost mut k: nat = 0;
    while i + 8 <= data.len()
        invariant
            dict.wf(),
            0 < T::table_size() <= 0x1_0000_0000,
            i == 3 * k,
            data@.len() < 8 ==> k == 0,
            data@.len() >= 8 ==> k <= (data@.len() - 8) / 3 + 1,
            data@.len() <= WINDOW_SIZE,
            dict.entries() == hashed_positions::<T>(e0, data@, k),
        decreases data@.len() + 3 - i,
    {
        let hash = T::get_hash_at(data, i);
        dict.put_at(hash, i);
        i = i + 3;
        proof {
            k = k + 1;
        }
    }
}

/// The dictionary that a block compressed with `use_dict` and `dict_data`
/// refers to: none when it is shorter than `MINMATCH`, else its window.
pub open spec fn block_dict(use_dict: bool, dict_data: Seq<u8>) -> Seq<u8> {
    if use_dict && dict_data.len() >= MINMATCH {
        window_tail(dict_data)
    } else {
        Seq::empty()
    }
}

/// What compressing `input` with `dict_data` asks of the machine: the output
/// bound can be computed and the stream positions fit.
pub open spec fn compressible(input_len: int, use_dict: bool, dict_data: Seq<u8>) -> bool {
    &&& input_len <= isize::MAX
    &&& output_size_fits(input_len)
    &&& input_len + 2 * block_dict(use_dict, dict_data).len() <= isize::MAX
}

/// The block that the greedy search writes for `input` after the block
/// dictionary `d` (`use_dict` telling whether it is searched), in a fresh
/// table sized for both that holds every third position of `d`: a table of
/// 16-bit positions when `d` and `input` fit in them, else one of 32-bit
/// positions.
pub open spec fn fresh_block(input: Seq<u8>, use_dict: bool, d: Seq<u8>) -> Seq<u8> {
    if d.len() < 65535 && input.len() < 65535 - d.len() {
        greedy_block::<HashTableU32U16<HASHTABLE_SIZE_U16>>(input, 0, d, d.len() as int, use_dict, false, Seq::empty(),
            hashed_positions::<HashTableU32U16<HASHTABLE_SIZE_U16>>(Seq::new(HASHTABLE_SIZE_U16 as nat, |i: int| 0usize), d,
            dict_positions(d.len()))).0
    } else {
        greedy_block::<HashTableU32>(input, 0, d, d.len() as int, use_dict, false, Seq::empty(), hashed_positions::<HashTableU32>(
            Seq::new(HASHTABLE_SIZE_U32 as nat, |i: int| 0usize), d, dict_positions(d.len()))).0
    }
}

/// The block that compressing `input` writes, with `dict_data` in front of it
/// when `use_dict` holds: a dictionary shorter than `MINMATCH` is not used,
/// and a longer one is cut to its last `WINDOW_SIZE` bytes.
pub open spec fn compressed_block(input: Seq<u8>, use_dict: bool, dict_data: Seq<u8>) -> Seq<u8> {
    fresh_block(input, use_dict && dict_data.len() >= MINMATCH, block_dict(use_dict, dict_data))
}

/// Compresses `input` at `*opos` of `output` with the dictionary `dict_data`,
/// in a fresh table sized for the input and dictionary.
fn compress_with_fresh_table<const USE_DICT: bool>(
    input: &[u8],
    output: &mut [u8],
    opos: &mut usize,
    dict_data: &[u8],
) -> (res: Result<usize, CompressError>)
    requires
        *old(opos) <= old(output)@.len(),
        USE_DICT ==> dict_data@.len() >= MINMATCH,
        !USE_DICT ==> dict_data@.len() == 0,
        compressible(input@.len() as int, USE_DICT, dict_data@),
    ensures
        compressed_into(res, old(output)@, *old(opos) as int, final(output)@, *final(opos) as int, input@,
            block_dict(USE_DICT, dict_data@)),
        res is Ok ==> final(output)@.subrange(*old(opos) as int, *final(opos) as int) == fresh_block(input@, USE_DICT,
            block_dict(USE_DICT, dict_data@)),
{
    let ghost orig = dict_data@;
    let mut dict_data = dict_data;
    assert(dict_data@.len() == dict_data.len());
    if dict_data.len() < 65535 && input.len() < 65535 - dict_data.len() {
        let mut dict = HashTableU32U16::<HASHTABLE_SIZE_U16>::new();
        init_dict(&mut dict, &mut dict_data);
        proof {
            assert(block_dict(USE_DICT, orig) =~= dict_data@);
        }
        let res = compress_block::<HashTableU32U16<HASHTABLE_SIZE_U16>, USE_DICT, USE_DICT>(input, 0, output, opos, &mut dict,
            dict_data, dict_data.len());
        proof {
            lemma_compressed_from_start(res, old(output)@, *old(opos) as int, final(output)@, *final(opos) as int, input@,
                dict_data@);
        }
        res
    } else {
        let mut dict = HashTableU32::new();
        init_dict(&mut dict, &mut dict_data);
        proof {
            assert(block_dict(USE_DICT, orig) =~= dict_data@);
        }
        let res = compress_block::<HashTableU32, USE_DICT, USE_DICT>(input, 0, output, opos, &mut dict, dict_data,
            dict_data.len());
        proof {
            lemma_compressed_from_start(res, old(output)@, *old(opos) as int, final(output)@, *final(opos) as int, input@,
                dict_data@);
        }
        res
    }
}

/// Compresses `input` at `*opos` of `output`; with `USE_DICT`, `dict_data`
/// precedes the input, unless it is shorter than `MINMATCH`.
pub(crate) fn compress_into_slice_with_dict<const USE_DICT: bool>(
    input: &[u8],
    output: &mut [u8],
    opos: &mut usize,
    dict_data: &[u8],
) -> (res: Result<usize, CompressError>)
    requires
        *old(opos) <= old(output)@.len(),
        !USE_DICT ==> dict_data@.len() == 0,
        compressible(input@.len() as int, USE_DICT, dict_data@),
    ensures
        compressed_into(res, old(output)@, *old(opos) as int, final(output)@, *final(opos) as int, input@,
            block_dict(USE_DICT, dict_data@)),
        res is Ok ==> final(output)@.subrange(*old(opos) as int, *final(opos) as int) == compressed_block(input@, USE_DICT,
            dict_data@),
{
    if USE_DICT && dict_data.len() < MINMATCH {
        let empty: &[u8] = &[];
        assert(empty@.len() == 0);
        compress_with_fresh_table::<false>(input, output, opos, empty)
    } else {
        compress_with_fresh_table::<USE_DICT>(input, output, opos, dict_data)
    }
}

/// Compress all bytes of `input` into the sink `output`, after what it
/// already holds. The method chooses an appropriate hashtable to lookup
/// duplicates. With `USE_DICT`, the last `WINDOW_SIZE` bytes of `dict_data`
/// precede the input; a dictionary shorter than `MINMATCH` is ignored.
///
/// Returns the number of bytes written (compressed) into `output`.
pub fn compress_into_sink_with_dict<const USE_DICT: bool, S: Sink>(
    input: &[u8],
    output: &mut S,
    dict_data: &[u8],
) -> (res: Result<usize, CompressError>)
    requires
        old(output).position() <= old(output).buffer().len(),
        !USE_DICT ==> dict_data@.len() == 0,
        compressible(input@.len() as int, USE_DICT, dict_data@),
    ensures
        compressed_into(res, old(output).buffer(), old(output).position() as int, final(output).buffer(),
            final(output).position() as int, input@, block_dict(USE_DICT, dict_data@)),
        res is Ok ==> final(output).buffer().subrange(old(output).position() as int, final(output).position() as int)
            == compressed_block(input@, USE_DICT, dict_data@),
{
    let (out, pos) = output.output_mut_with_pos();
    compress_into_slice_with_dict::<USE_DICT>(input, out, pos, dict_data)
}

/// `res` is what compressing `input` into the buffer `out0` reports, `out`
/// being the buffer afterwards: an error exactly when the buffer is shorter
/// than `max_output_size(input.len())` (nothing is written then), and
/// otherwise the length of a block at its start, of at most that size and laid out as the format requires,
/// that decodes to `input` with `dict` in front of it.
pub open spec fn compressed_to_slice(
    res: Result<usize, CompressError>,
    out0: Seq<u8>,
    out: Seq<u8>,
    input: Seq<u8>,
    dict: Seq<u8>,
) -> bool {
    &&& out.len() == out0.len()
    &&& if out0.len() < max_output_size(input.len() as int) {
        res == Err::<usize, CompressError>(CompressError::OutputTooSmall) && out == out0
    } else {
        &&& res matches Ok(n)
        &&& n <= max_output_size(input.len() as int)
        &&& lz4_decode(out.take(n as int), dict, input.len() as usize) == Ok::<Seq<u8>, crate::error::DecompressError>(input)
        &&& input.len() < LZ4_MIN_LENGTH ==> out.take(n as int) == encode_last(input)
        &&& conformant(out.take(n as int), input.len() as int)
    }
}

/// Compress all bytes of `input` into `output`.
/// The method chooses an appropriate hashtable to lookup duplicates.
/// output should be preallocated with a size of
/// `get_maximum_output_size`.
///
/// Returns the number of bytes written (compressed) into `output`.
pub fn compress_into(input: &[u8], output: &mut [u8]) -> (res: Result<usize, CompressError>)
    requires
        compressible(input@.len() as int, false, Seq::empty()),
    ensures
        compressed_to_slice(res, old(output)@, final(output)@, input@, Seq::empty()),
        res matches Ok(n) ==> final(output)@.take(n as int) == compressed_block(input@, false, Seq::empty()),
{
    let mut pos: usize = 0;
    let empty: &[u8] = &[];
    assert(empty@ =~= Seq::<u8>::empty());
    let res = compress_into_slice_with_dict::<false>(input, output, &mut pos, empty);
    proof {
        assert(output@.subrange(0, pos as int) =~= output@.take(pos as int));
    }
    res
}

/// Compress all bytes of `input` into `output`, with the last `WINDOW_SIZE`
/// bytes of `dict` in front of it; a dictionary shorter than `MINMATCH` is
/// ignored.
///
/// Returns the number of bytes written (compressed) into `output`.
pub fn compress_into_with_dict(input: &[u8], output: &mut [u8], dict: &[u8]) -> (res: Result<usize, CompressError>)
    requires
        compressible(input@.len() as int, true, dict@),
    ensures
        compressed_to_slice(res, old(output)@, final(output)@, input@, block_dict(true, dict@)),
        res matches Ok(n) ==> final(output)@.take(n as int) == compressed_block(input@, true, dict@),
{
    let mut pos: usize = 0;
    let res = compress_into_slice_with_dict::<true>(input, output, &mut pos, dict);
    proof {
        assert(output@.subrange(0, pos as int) =~= output@.take(pos as int));
    }
    res
}

/// A compressed block of `input` in a vector: at most
/// `max_output_size(input.len())` bytes that decode to `input` with `dict`
/// in front of them, laid out as the format requires, and literals alone for
/// an input too short to search for matches.
pub open spec fn compressed_vec(v: Seq<u8>, input: Seq<u8>, dict: Seq<u8>) -> bool {
    &&& input.len() <= usize::MAX
    &&& v.len() <= max_output_size(input.len() as int)
    &&& lz4_decode(v, dict, input.len() as usize) == Ok::<Seq<u8>, crate::error::DecompressError>(input)
    &&& input.len() < LZ4_MIN_LENGTH ==> v == encode_last(input)
    &&& conformant(v, input.len() as int)
}

/// Compress all bytes of `input`.
pub fn compress(input: &[u8]) -> (v: Vec<u8>)
    requires
        compressible(input@.len() as int, false, Seq::empty()),
    ensures
        compressed_vec(v@, input@, Seq::empty()),
        v@ == compressed_block(input@, false, Seq::empty()),
{
    let max_compressed_size = get_maximum_output_size(input.len());
    let mut compressed: Vec<u8> = vec![0u8; max_compressed_size];
    let compressed_len = match compress_into(input, compressed.as_mut_slice()) {
        Ok(n) => n,
        Err(_) => 0,
    };
    compressed.truncate(compressed_len);
    compressed
}

/// The little-endian encoding of a 32-bit number.
pub open spec fn le_u32_bytes(n: u32) -> Seq<u8> {
    seq![(n % 256) as u8, ((n / 256) % 256) as u8, ((n / 65536) % 256) as u8, (n / 16777216) as u8]
}

/// Compress all bytes of `input` into a new vec, prepended with the
/// uncompressed size as a little-endian 32-bit number (its low 32 bits), as
/// `decompress_size_prepended` expects.
pub fn compress_prepend_size(input: &[u8]) -> (v: Vec<u8>)
    requires
        compressible(input@.len() as int, false, Seq::empty()),
    ensures
        v@.len() >= 4,
        v@.take(4) == le_u32_bytes(input@.len() as u32),
        compressed_vec(v@.skip(4), input@, Seq::empty()),
        v@.skip(4) == compressed_block(input@, false, Seq::empty()),
{
    let max_compressed_size = get_maximum_output_size(input.len());
    let mut compressed: Vec<u8> = vec![0u8; 4 + max_compressed_size];
    let size = input.len() as u32;
    compressed.set(0, (size % 256) as u8);
    compressed.set(1, ((size / 256) % 256) as u8);
    compressed.set(2, ((size / 65536) % 256) as u8);
    compressed.set(3, (size / 16777216) as u8);
    let mut pos: usize = 4;
    let ghost before = compressed@;
    let empty: &[u8] = &[];
    assert(empty@ =~= Seq::<u8>::empty());
    let res = compress_into_slice_with_dict::<false>(input, compressed.as_mut_slice(), &mut pos, empty);
    proof {
        assert(compressed@.take(4) =~= before.take(4));
        assert(before.take(4) =~= le_u32_bytes(size));
    }
    let ghost full = compressed@;
    let end = match res {
        Ok(n) => pos,
        Err(_) => 4,
    };
    compressed.truncate(end);
    proof {
        assert(compressed@.take(4) =~= before.take(4));
        assert(compressed@.skip(4) =~= full.subrange(4, pos as int));
    }
    compressed
}

} // verus!
