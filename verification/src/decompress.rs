//! LZ4 block decompression.
use vstd::prelude::*;
use crate::error::DecompressError;
use crate::primitives::{copy_from_src, copy_within_overlapping};
use crate::format::{after_literals, after_match, copy_match, decode_from, lz4_decode, extend_match, lemma_copy_match_add, lemma_copy_match_from_window, lemma_copy_match_len, lemma_copy_match_prefix, lemma_decode_extends, lemma_extend_match_add, lemma_literal_length_bounds, lemma_match_length_bounds, lemma_read_int_bounds, read_int_from};
use crate::sink::Sink;
use crate::MINMATCH;

verus! {

/// `res` is what a decoder that started writing at `start` reports for the
/// decoding `spec_res`, and `out` holds the decoded bytes.
pub open spec fn decoded_into(
    res: Result<usize, DecompressError>,
    spec_res: Result<Seq<u8>, DecompressError>,
    start: int,
    out: Seq<u8>,
) -> bool {
    match spec_res {
        Ok(h) => {
            &&& res == Ok::<usize, DecompressError>((h.len() - start) as usize)
            &&& start <= h.len() <= out.len()
            &&& out.take(h.len() as int) == h
        },
        Err(e) => res == Err::<usize, DecompressError>(e),
    }
}

/// The history in front of the output: the dictionary when one is used.
pub open spec fn window_dict(use_dict: bool, dict: Seq<u8>) -> Seq<u8> {
    if use_dict {
        dict
    } else {
        Seq::empty()
    }
}

/// Read a variable-length integer in the LZ4 encoding.
pub fn read_integer(input: &[u8], input_pos: &mut usize) -> (res: Result<usize, DecompressError>)
    ensures
        match read_int_from(input@, *old(input_pos) as int, 0) {
            Ok((n, next)) => res == Ok::<usize, DecompressError>(n as usize) && *final(input_pos) == next,
            Err(e) => res == Err::<usize, DecompressError>(e),
        },
        *old(input_pos) <= *final(input_pos),
{
    let mut n: usize = 0;
    loop
        invariant
            read_int_from(input@, *input_pos as int, n as int) == read_int_from(input@, *old(input_pos) as int, 0),
            *old(input_pos) <= *input_pos,
        decreases input.len() - *input_pos,
    {
        if *input_pos >= input.len() {
            return Err(DecompressError::ExpectedAnotherByte);
        }
        let extra: u8 = input[*input_pos];
        *input_pos = *input_pos + 1;
        match n.checked_add(extra as usize) {
            Some(v) => {
                n = v;
            },
            None => {
                return Err(DecompressError::LiteralOutOfBounds);
            },
        }
        if extra != 0xFF {
            return Ok(n);
        }
    }
}

/// Whether the literal AND match lengths both fit in the token nibbles
/// (no variable-length extension needed): both nibbles are below 15.
pub fn does_token_fit(token: u8) -> (r: bool)
    ensures
        r == (token / 16 < 15 && token % 16 < 15),
{
    token / 16 < 15 && token % 16 < 15
}

/// Copies the part of a match that lies in the external dictionary. Returns
/// the number of bytes copied.
fn copy_from_dict(output: &mut [u8], pos: &mut usize, ext_dict: &[u8], offset: usize, match_length: usize)
    -> (res: Result<usize, DecompressError>)
    requires
        offset > *old(pos),
        *old(pos) + match_length <= old(output).len(),
    ensures
        final(output)@.len() == old(output)@.len(),
        offset > *old(pos) + ext_dict@.len() ==> res == Err::<usize, DecompressError>(DecompressError::OffsetOutOfBounds),
        offset <= *old(pos) + ext_dict@.len() ==> {
            let n = if match_length <= offset - *old(pos) { match_length } else { (offset - *old(pos)) as usize };
            &&& res == Ok::<usize, DecompressError>(n)
            &&& *final(pos) == *old(pos) + n
            &&& final(output)@.take(*final(pos) as int) == extend_match(ext_dict@, old(output)@.take(*old(pos) as int), offset as int, n as nat)
        },
{
    let back = offset - *pos;
    if back > ext_dict.len() {
        return Err(DecompressError::OffsetOutOfBounds);
    }
    let dict_offset = ext_dict.len() - back;
    let dict_match_length = if match_length <= back { match_length } else { back };
    let ghost hist = output@.take(*pos as int);
    proof {
        lemma_copy_match_from_window(ext_dict@ + hist, offset as int, dict_match_length as nat);
        let w = ext_dict@ + hist;
        assert(w.subrange(w.len() - offset, w.len() - offset + dict_match_length)
            =~= ext_dict@.subrange(dict_offset as int, dict_offset + dict_match_length));
        assert((ext_dict@ + (hist + ext_dict@.subrange(dict_offset as int, dict_offset + dict_match_length))).skip(ext_dict@.len() as int)
            =~= hist + ext_dict@.subrange(dict_offset as int, dict_offset + dict_match_length));
        assert(ext_dict@ + (hist + ext_dict@.subrange(dict_offset as int, dict_offset + dict_match_length))
            =~= w + w.subrange(w.len() - offset, w.len() - offset + dict_match_length));
    }
    copy_from_src(ext_dict, dict_offset, output, pos, dict_match_length);
    Ok(dict_match_length)
}

/// Decodes the literals of the sequence with token `token`: reads the literal
/// length extension at `*input_pos`, checks the bounds and copies the literals.
fn decompress_literals(input: &[u8], input_pos: &mut usize, token: u8, output: &mut [u8], pos: &mut usize)
    -> (res: Result<(), DecompressError>)
    requires
        *old(input_pos) <= input.len(),
        *old(pos) <= old(output).len(),
    ensures
        final(output)@.len() == old(output)@.len(),
        match after_literals(input@, old(output).len() as usize, old(output)@.take(*old(pos) as int), token, *old(input_pos) as int) {
            Err(e) => res == Err::<(), DecompressError>(e),
            Ok((hist2, ip3)) => {
                &&& res == Ok::<(), DecompressError>(())
                &&& *final(input_pos) == ip3
                &&& *old(input_pos) <= ip3 <= input.len()
                &&& *final(pos) == hist2.len()
                &&& *old(pos) <= *final(pos) <= final(output)@.len()
                &&& final(output)@.take(*final(pos) as int) == hist2
            },
        },
{
    let ghost ip1 = *input_pos as int;
    let ghost hist = output@.take(*pos as int);
    proof {
        lemma_literal_length_bounds(input@, ip1, token);
        lemma_read_int_bounds(input@, ip1, 0);
    }
    assert(token >> 4u8 == token / 16) by (bit_vector);
    let mut literal_length: usize = (token >> 4) as usize;
    if literal_length != 0 {
        if literal_length == 15 {
            let extra = read_integer(input, input_pos)?;
            match literal_length.checked_add(extra) {
                Some(v) => {
                    literal_length = v;
                },
                None => {
                    return Err(DecompressError::LiteralOutOfBounds);
                },
            }
        }
        if literal_length > input.len() - *input_pos {
            return Err(DecompressError::LiteralOutOfBounds);
        }
        if literal_length > output.len() - *pos {
            return Err(DecompressError::OutputTooSmall { expected: pos.saturating_add(literal_length), actual: output.len() });
        }
        copy_from_src(input, *input_pos, output, pos, literal_length);
        *input_pos = *input_pos + literal_length;
    } else {
        assert(hist + input@.subrange(ip1, ip1) =~= hist);
    }
    Ok(())
}

/// Decodes the match of the sequence with token `token`: reads the offset at
/// `*input_pos` and the match length extension, checks them and copies the
/// match, from `ext_dict` first when it reaches in front of the output.
fn decompress_match(
    input: &[u8],
    input_pos: &mut usize,
    token: u8,
    output: &mut [u8],
    pos: &mut usize,
    use_dict: bool,
    ext_dict: &[u8],
) -> (res: Result<(), DecompressError>)
    requires
        *old(input_pos) + 2 <= input.len(),
        *old(pos) <= old(output).len(),
    ensures
        final(output)@.len() == old(output)@.len(),
        match after_match(input@, window_dict(use_dict, ext_dict@), old(output).len() as usize,
            old(output)@.take(*old(pos) as int), token, *old(input_pos) as int) {
            Err(e) => res == Err::<(), DecompressError>(e),
            Ok((hist3, ip4)) => {
                &&& res == Ok::<(), DecompressError>(())
                &&& *final(input_pos) == ip4
                &&& *old(input_pos) + 2 <= ip4 <= input.len()
                &&& *final(pos) == hist3.len()
                &&& *old(pos) <= *final(pos) <= final(output)@.len()
                &&& final(output)@.take(*final(pos) as int) == hist3
            },
        },
{
    let ghost dict = window_dict(use_dict, ext_dict@);
    let ghost ip3 = *input_pos as int;
    let ghost hist2 = output@.take(*pos as int);
    let offset: usize = input[*input_pos] as usize + 256 * (input[*input_pos + 1] as usize);
    *input_pos = *input_pos + 2;
    if offset == 0 {
        return Err(DecompressError::OffsetZero);
    }
    proof {
        lemma_match_length_bounds(input@, ip3 + 2, token);
        lemma_read_int_bounds(input@, ip3 + 2, 0);
    }
    assert(token & 0xFu8 == token % 16) by (bit_vector);
    let mut match_length: usize = MINMATCH + (token & 0xF) as usize;
    if match_length == MINMATCH + 15 {
        let extra = read_integer(input, input_pos)?;
        match match_length.checked_add(extra) {
            Some(v) => {
                match_length = v;
            },
            None => {
                return Err(DecompressError::LiteralOutOfBounds);
            },
        }
    }
    if match_length > output.len() - *pos {
        return Err(DecompressError::OutputTooSmall { expected: pos.saturating_add(match_length), actual: output.len() });
    }
    if use_dict && offset > *pos {
        let copied = copy_from_dict(output, pos, ext_dict, offset, match_length)?;
        if copied < match_length {
            let ghost mid = output@;
            let ghost hmid = output@.take(*pos as int);
            copy_within_overlapping(output, *pos - offset, pos, match_length - copied, offset);
            proof {
                lemma_extend_match_add(dict, hist2, offset as int, copied as nat, (match_length - copied) as nat);
                lemma_copy_match_prefix(dict, hmid, offset as int, (match_length - copied) as nat);
                assert((dict + copy_match(hmid, offset as int, (match_length - copied) as nat)).skip(dict.len() as int)
                    =~= copy_match(hmid, offset as int, (match_length - copied) as nat));
                assert((copied + (match_length - copied)) as nat == match_length as nat);
            }
        }
    } else {
        if offset > *pos {
            return Err(DecompressError::OffsetOutOfBounds);
        }
        copy_within_overlapping(output, *pos - offset, pos, match_length, offset);
        proof {
            lemma_copy_match_prefix(dict, hist2, offset as int, match_length as nat);
            assert((dict + copy_match(hist2, offset as int, match_length as nat)).skip(dict.len() as int)
                =~= copy_match(hist2, offset as int, match_length as nat));
        }
    }
    proof {
        lemma_copy_match_len(dict + hist2, offset as int, match_length as nat);
    }
    Ok(())
}

/// Decompresses `input` into `output`, whose first `start` bytes are history
/// that matches may refer to. With `use_dict`, `ext_dict` is the history in
/// front of `output`. Returns the number of bytes written after `start`.
pub fn decompress_core(input: &[u8], output: &mut [u8], start: usize, use_dict: bool, ext_dict: &[u8])
    -> (res: Result<usize, DecompressError>)
    requires
        start <= old(output)@.len(),
    ensures
        final(output)@.len() == old(output)@.len(),
        decoded_into(
            res,
            decode_from(input@, window_dict(use_dict, ext_dict@), old(output)@.len() as usize, old(output)@.take(start as int), 0),
            start as int,
            final(output)@,
        ),
{
    let ghost dict = window_dict(use_dict, ext_dict@);
    let cap = output.len();
    let ghost initial = output@.take(start as int);
    let ghost total = decode_from(input@, dict, cap, initial, 0);
    proof {
        lemma_decode_extends(input@, dict, cap, initial, 0);
    }
    let mut input_pos: usize = 0;
    let mut pos: usize = start;
    loop
        invariant
            output@.len() == cap,
            cap == old(output)@.len(),
            start <= pos <= cap,
            input_pos <= input.len(),
            dict == window_dict(use_dict, ext_dict@),
            initial == old(output)@.take(start as int),
            total == decode_from(input@, dict, cap, initial, 0),
            decode_from(input@, dict, cap, output@.take(pos as int), input_pos as int) == total,
            total matches Ok(h) ==> start <= h.len() <= cap,
        decreases input@.len() - input_pos,
    {
        if input_pos >= input.len() {
            return Err(DecompressError::ExpectedAnotherByte);
        }
        let token: u8 = input[input_pos];
        input_pos = input_pos + 1;
        decompress_literals(input, &mut input_pos, token, output, &mut pos)?;
        if input_pos >= input.len() {
            return Ok(pos - start);
        }
        if input.len() - input_pos < 2 {
            return Err(DecompressError::ExpectedAnotherByte);
        }
        let ghost ip3 = input_pos;
        decompress_match(input, &mut input_pos, token, output, &mut pos, use_dict, ext_dict)?;
        proof {
            lemma_match_length_bounds(input@, ip3 + 2, token);
        }
    }
}

/// Decompress `input` into `output`, using `ext_dict` for cross-buffer
/// back-references when `USE_DICT` is true. The bytes before the sink's
/// position are history that matches may refer to.
///
/// Returns the number of bytes written (decompressed) into `output`.
pub fn decompress_internal<const USE_DICT: bool, S: Sink>(input: &[u8], output: &mut S, ext_dict: &[u8])
    -> (res: Result<usize, DecompressError>)
    requires
        old(output).position() <= old(output).buffer().len(),
    ensures
        final(output).buffer().len() == old(output).buffer().len(),
        decoded_into(
            res,
            decode_from(input@, window_dict(USE_DICT, ext_dict@), old(output).buffer().len() as usize,
                old(output).buffer().take(old(output).position() as int), 0),
            old(output).position() as int,
            final(output).buffer(),
        ),
        res matches Ok(n) ==> final(output).position() == old(output).position() + n,
{
    let (out, pos) = output.output_mut_with_pos();
    let start = *pos;
    let res = decompress_core(input, out, start, USE_DICT, ext_dict);
    if let Ok(n) = res {
        assert(start + n <= out.len());
        *pos = start + n;
    }
    res
}

/// Decompress all bytes of `input` into `output`.
/// `output` should be preallocated with a size of the uncompressed data.
pub fn decompress_into(input: &[u8], output: &mut [u8]) -> (res: Result<usize, DecompressError>)
    ensures
        final(output)@.len() == old(output)@.len(),
        decoded_into(res, lz4_decode(input@, Seq::empty(), old(output)@.len() as usize), 0, final(output)@),
{
    proof {
        assert(old(output)@.take(0) =~= Seq::<u8>::empty());
    }
    decompress_core(input, output, 0, false, &[])
}

/// Decompress all bytes of `input` into `output`, with `dict` as the
/// history in front of the output.
pub fn decompress_into_with_dict(input: &[u8], output: &mut [u8], dict: &[u8]) -> (res: Result<usize, DecompressError>)
    ensures
        final(output)@.len() == old(output)@.len(),
        decoded_into(res, lz4_decode(input@, dict@, old(output)@.len() as usize), 0, final(output)@),
{
    proof {
        assert(old(output)@.take(0) =~= Seq::<u8>::empty());
    }
    decompress_core(input, output, 0, true, dict)
}

/// `res` is the allocating decoder's report of the decoding `spec_res`.
pub open spec fn decoded_vec(res: Result<Vec<u8>, DecompressError>, spec_res: Result<Seq<u8>, DecompressError>) -> bool {
    match spec_res {
        Ok(h) => res matches Ok(v) && v@ == h,
        Err(e) => res == Err::<Vec<u8>, DecompressError>(e),
    }
}

/// Decompresses into a fresh buffer of `uncompressed_size` bytes and keeps
/// the decoded part.
fn decompress_to_vec(input: &[u8], uncompressed_size: usize, use_dict: bool, ext_dict: &[u8])
    -> (res: Result<Vec<u8>, DecompressError>)
    ensures
        decoded_vec(res, lz4_decode(input@, window_dict(use_dict, ext_dict@), uncompressed_size)),
{
    let mut decompressed: Vec<u8> = vec![0u8; uncompressed_size];
    let ghost empty = decompressed@.take(0);
    assert(empty =~= Seq::<u8>::empty());
    let decomp_len = decompress_core(input, decompressed.as_mut_slice(), 0, use_dict, ext_dict)?;
    decompressed.truncate(decomp_len);
    Ok(decompressed)
}

/// Decompress all bytes of `input` into a new vec.
///
/// `uncompressed_size` must be >= the actual decompressed output size.
pub fn decompress(input: &[u8], uncompressed_size: usize) -> (res: Result<Vec<u8>, DecompressError>)
    ensures
        decoded_vec(res, lz4_decode(input@, Seq::empty(), uncompressed_size)),
{
    decompress_to_vec(input, uncompressed_size, false, &[])
}

/// The little-endian 32-bit number in the first four bytes of `b`.
pub open spec fn le_u32(b: Seq<u8>) -> int {
    b[0] + 256 * b[1] + 65536 * b[2] + 16777216 * b[3]
}

/// This can be used in conjunction with `decompress_size_prepended`.
/// It will read the first 4 bytes as little-endian encoded length, and return
/// the rest of the bytes after the length encoding.
pub fn uncompressed_size(input: &[u8]) -> (res: Result<(usize, &[u8]), DecompressError>)
    ensures
        input@.len() < 4 ==> res == Err::<(usize, &[u8]), DecompressError>(DecompressError::ExpectedAnotherByte),
        input@.len() >= 4 ==> (res matches Ok((size, rest)) && size == le_u32(input@) && rest@ == input@.skip(4)),
{
    if input.len() < 4 {
        return Err(DecompressError::ExpectedAnotherByte);
    }
    let size: u32 = input[0] as u32 + 256 * (input[1] as u32) + 65536 * (input[2] as u32) + 16777216 * (input[3] as u32);
    let rest = vstd::slice::slice_subrange(input, 4, input.len());
    assert(rest@ =~= input@.skip(4));
    Ok((size as usize, rest))
}

/// Decompress all bytes of `input` whose first four bytes are the little-endian
/// uncompressed size, as `compress_prepend_size` writes it.
pub fn decompress_size_prepended(input: &[u8]) -> (res: Result<Vec<u8>, DecompressError>)
    ensures
        input@.len() < 4 ==> res == Err::<Vec<u8>, DecompressError>(DecompressError::ExpectedAnotherByte),
        input@.len() >= 4 ==> decoded_vec(res, lz4_decode(input@.skip(4), Seq::empty(), le_u32(input@) as usize)),
{
    let (size, rest) = uncompressed_size(input)?;
    decompress(rest, size)
}

/// A block decompressor seeded with an external dictionary.
///
/// When no dictionary is needed, use the free functions [`decompress`] or
/// [`decompress_into`] instead.
#[derive(Debug)]
pub struct Decompressor {
    dict: Vec<u8>,
}

impl Decompressor {
    /// The dictionary that precedes every decompressed block.
    pub closed spec fn dict(&self) -> Seq<u8> {
        self.dict@
    }

    /// Create a decompressor seeded with an external dictionary.
    pub fn with_dict(dict: &[u8]) -> (d: Self)
        ensures
            d.dict() == dict@,
    {
        Decompressor { dict: vstd::slice::slice_to_vec(dict) }
    }

    /// Create a decompressor seeded with an external dictionary; the same as
    /// [`Decompressor::with_dict`].
    pub fn new(dict: &[u8]) -> (d: Self)
        ensures
            d.dict() == dict@,
    {
        Self::with_dict(dict)
    }

    /// Decompress `input` into a new `Vec<u8>`.
    ///
    /// `uncompressed_size` must be >= the actual decompressed size.
    pub fn decompress(&self, input: &[u8], uncompressed_size: usize) -> (res: Result<Vec<u8>, DecompressError>)
        ensures
            decoded_vec(res, lz4_decode(input@, self.dict(), uncompressed_size)),
    {
        decompress_to_vec(input, uncompressed_size, true, self.dict.as_slice())
    }

    /// Decompress `input` into `output`, returning the number of bytes written.
    pub fn decompress_into(&self, input: &[u8], output: &mut [u8]) -> (res: Result<usize, DecompressError>)
        ensures
            final(output)@.len() == old(output)@.len(),
            decoded_into(res, lz4_decode(input@, self.dict(), old(output)@.len() as usize), 0, final(output)@),
    {
        proof {
            assert(old(output)@.take(0) =~= Seq::<u8>::empty());
        }
        decompress_core(input, output, 0, true, self.dict.as_slice())
    }

    /// Decompress `input` whose first four bytes are the little-endian
    /// uncompressed size.
    pub fn decompress_size_prepended(&self, input: &[u8]) -> (res: Result<Vec<u8>, DecompressError>)
        ensures
            input@.len() < 4 ==> res == Err::<Vec<u8>, DecompressError>(DecompressError::ExpectedAnotherByte),
            input@.len() >= 4 ==> decoded_vec(res, lz4_decode(input@.skip(4), self.dict(), le_u32(input@) as usize)),
    {
        let (size, rest) = uncompressed_size(input)?;
        self.decompress(rest, size)
    }
}

/// Checks that a decompressed `output` has exactly the expected
/// `uncompressed_size`: gives it back when it has, and otherwise the length
/// it has.
pub fn validate_exact_size(output: Vec<u8>, uncompressed_size: usize) -> (r: Result<Vec<u8>, usize>)
    ensures
        r is Ok <==> output@.len() == uncompressed_size,
        r matches Ok(v) ==> v@ == output@,
        r matches Err(n) ==> n == output@.len(),
{
    if output.len() == uncompressed_size {
        Ok(output)
    } else {
        Err(output.len())
    }
}

} // verus!
