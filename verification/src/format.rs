//! A mathematical model of the LZ4 block format: what a block decodes to.
//!
//! A block is a series of sequences. Each sequence is a token byte whose high
//! nibble is the literal length and whose low nibble is the match length minus
//! four, optional length extensions, the literals, a little-endian 16-bit match
//! offset and an optional match-length extension. The last sequence carries
//! literals only. Matches copy bytes from the history that precedes the
//! current position: the external dictionary followed by everything written so
//! far, one byte at a time, so overlapping copies repeat a pattern.
use vstd::prelude::*;
use crate::error::DecompressError;

verus! {

/// `a + b`, clamped to `usize::MAX`.
pub open spec fn sat_add(a: int, b: int) -> usize {
    if a + b <= usize::MAX {
        (a + b) as usize
    } else {
        usize::MAX
    }
}

/// The variable-length integer that starts at `ip`, added to `acc`: bytes of
/// value 255 continue it, any other byte ends it. Returns the sum and the
/// index just past the last byte read.
pub open spec fn read_int_from(input: Seq<u8>, ip: int, acc: int) -> Result<(int, int), DecompressError>
    decreases input.len() - ip,
{
    if ip < 0 || ip >= input.len() {
        Err(DecompressError::ExpectedAnotherByte)
    } else if acc + input[ip] > usize::MAX {
        Err(DecompressError::LiteralOutOfBounds)
    } else if input[ip] != 255 {
        Ok((acc + input[ip], ip + 1))
    } else {
        read_int_from(input, ip + 1, acc + input[ip])
    }
}

/// The literal length that a token announces, reading its extension at `ip`.
pub open spec fn literal_length(input: Seq<u8>, ip: int, token: u8) -> Result<(int, int), DecompressError> {
    let nib = token / 16;
    if nib == 15 {
        match read_int_from(input, ip, 0) {
            Ok((n, next)) => if 15 + n > usize::MAX {
                Err(DecompressError::LiteralOutOfBounds)
            } else {
                Ok((15 + n, next))
            },
            Err(e) => Err(e),
        }
    } else {
        Ok((nib as int, ip))
    }
}

/// The match length that a token announces, reading its extension at `ip`.
pub open spec fn match_length(input: Seq<u8>, ip: int, token: u8) -> Result<(int, int), DecompressError> {
    let nib = token % 16;
    if nib == 15 {
        match read_int_from(input, ip, 0) {
            Ok((n, next)) => if 19 + n > usize::MAX {
                Err(DecompressError::LiteralOutOfBounds)
            } else {
                Ok((19 + n, next))
            },
            Err(e) => Err(e),
        }
    } else {
        Ok((4 + nib, ip))
    }
}

/// The window `w` extended by a match of `len` bytes at distance `offset`:
/// each new byte repeats the byte `offset` positions before it.
pub open spec fn copy_match(w: Seq<u8>, offset: int, len: nat) -> Seq<u8>
    decreases len,
{
    if len == 0 {
        w
    } else {
        let c = copy_match(w, offset, (len - 1) as nat);
        c.push(c[c.len() - offset])
    }
}

/// The output `hist` extended by a match, where the window is `dict` followed by `hist`.
pub open spec fn extend_match(dict: Seq<u8>, hist: Seq<u8>, offset: int, len: nat) -> Seq<u8> {
    copy_match(dict + hist, offset, len).skip(dict.len() as int)
}

/// The 16-bit little-endian match offset stored at `ip`.
pub open spec fn offset_at(input: Seq<u8>, ip: int) -> int {
    input[ip] + 256 * input[ip + 1]
}

/// The literals of a sequence whose token is `token` and whose literal-length
/// extension starts at `ip`: the output extended by them and the index past them.
pub open spec fn after_literals(input: Seq<u8>, cap: usize, hist: Seq<u8>, token: u8, ip: int)
    -> Result<(Seq<u8>, int), DecompressError>
{
    match literal_length(input, ip, token) {
        Err(e) => Err(e),
        Ok((lit, ip2)) => {
            if lit > input.len() - ip2 {
                Err(DecompressError::LiteralOutOfBounds)
            } else if lit > cap - hist.len() {
                Err(DecompressError::OutputTooSmall { expected: sat_add(hist.len() as int, lit), actual: cap })
            } else {
                Ok((hist + input.subrange(ip2, ip2 + lit), ip2 + lit))
            }
        },
    }
}

/// The match of a sequence whose token is `token` and whose offset starts at
/// `ip`: the output extended by it and the index past its length extension.
pub open spec fn after_match(input: Seq<u8>, dict: Seq<u8>, cap: usize, hist: Seq<u8>, token: u8, ip: int)
    -> Result<(Seq<u8>, int), DecompressError>
{
    if offset_at(input, ip) == 0 {
        Err(DecompressError::OffsetZero)
    } else {
        match match_length(input, ip + 2, token) {
            Err(e) => Err(e),
            Ok((ml, next)) => {
                if ml > cap - hist.len() {
                    Err(DecompressError::OutputTooSmall { expected: sat_add(hist.len() as int, ml), actual: cap })
                } else if offset_at(input, ip) > hist.len() + dict.len() {
                    Err(DecompressError::OffsetOutOfBounds)
                } else {
                    Ok((extend_match(dict, hist, offset_at(input, ip), ml as nat), next))
                }
            },
        }
    }
}

/// Decodes the sequences of `input` from index `ip` on, appending to `hist`,
/// into an output of capacity `cap`, with `dict` as the history before the output.
pub open spec fn decode_from(input: Seq<u8>, dict: Seq<u8>, cap: usize, hist: Seq<u8>, ip: int) -> Result<Seq<u8>, DecompressError>
    decreases input.len() - ip,
{
    if ip < 0 || ip >= input.len() {
        Err(DecompressError::ExpectedAnotherByte)
    } else {
        let token = input[ip];
        match after_literals(input, cap, hist, token, ip + 1) {
            Err(e) => Err(e),
            Ok((hist2, ip3)) => {
                if ip3 >= input.len() {
                    Ok(hist2)
                } else if ip3 + 2 > input.len() {
                    Err(DecompressError::ExpectedAnotherByte)
                } else {
                    match after_match(input, dict, cap, hist2, token, ip3) {
                        Err(e) => Err(e),
                        Ok((hist3, ip4)) => {
                            proof {
                                lemma_literal_length_bounds(input, ip + 1, token);
                                lemma_match_length_bounds(input, ip3 + 2, token);
                            }
                            decode_from(input, dict, cap, hist3, ip4)
                        },
                    }
                }
            },
        }
    }
}

/// What a whole block decodes to, into an output of capacity `cap`.
pub open spec fn lz4_decode(input: Seq<u8>, dict: Seq<u8>, cap: usize) -> Result<Seq<u8>, DecompressError> {
    decode_from(input, dict, cap, Seq::empty(), 0)
}

/// A variable-length integer ends past its start and within the input.
pub proof fn lemma_read_int_bounds(input: Seq<u8>, ip: int, acc: int)
    requires
        0 <= acc,
    ensures
        read_int_from(input, ip, acc) matches Ok((n, next)) ==> ip < next <= input.len() && acc <= n <= usize::MAX,
    decreases input.len() - ip,
{
    if 0 <= ip < input.len() && acc + input[ip] <= usize::MAX && input[ip] == 255 {
        lemma_read_int_bounds(input, ip + 1, acc + input[ip]);
    }
}

/// The match length and the index past its extension are within bounds.
pub proof fn lemma_match_length_bounds(input: Seq<u8>, ip: int, token: u8)
    requires
        0 <= ip <= input.len(),
    ensures
        match_length(input, ip, token) matches Ok((ml, next)) ==> ip <= next <= input.len() && 4 <= ml <= usize::MAX,
{
    lemma_read_int_bounds(input, ip, 0);
}

/// The literal length and the index past its extension are within bounds.
pub proof fn lemma_literal_length_bounds(input: Seq<u8>, ip: int, token: u8)
    requires
        0 <= ip <= input.len(),
    ensures
        literal_length(input, ip, token) matches Ok((lit, next)) ==> ip <= next <= input.len() && 0 <= lit <= usize::MAX,
{
    lemma_read_int_bounds(input, ip, 0);
}

/// A match extends the window by exactly its length and keeps the window.
pub proof fn lemma_copy_match_len(w: Seq<u8>, offset: int, len: nat)
    ensures
        copy_match(w, offset, len).len() == w.len() + len,
        copy_match(w, offset, len).take(w.len() as int) == w,
    decreases len,
{
    if len > 0 {
        lemma_copy_match_len(w, offset, (len - 1) as nat);
        let c = copy_match(w, offset, (len - 1) as nat);
        assert(c.push(c[c.len() - offset]).take(w.len() as int) =~= c.take(w.len() as int));
    }
}

} // verus!

verus! {

/// A match of `a + b` bytes is a match of `a` bytes followed by one of `b` bytes.
pub proof fn lemma_copy_match_add(w: Seq<u8>, offset: int, a: nat, b: nat)
    ensures
        copy_match(w, offset, a + b) == copy_match(copy_match(w, offset, a), offset, b),
    decreases b,
{
    if b > 0 {
        lemma_copy_match_add(w, offset, a, (b - 1) as nat);
        assert((a + b - 1) as nat == a + (b - 1) as nat);
    }
}

/// Bytes in front of the window do not matter to a match that stays within it.
pub proof fn lemma_copy_match_prefix(p: Seq<u8>, w: Seq<u8>, offset: int, len: nat)
    requires
        1 <= offset <= w.len(),
    ensures
        copy_match(p + w, offset, len) == p + copy_match(w, offset, len),
    decreases len,
{
    if len > 0 {
        lemma_copy_match_prefix(p, w, offset, (len - 1) as nat);
        lemma_copy_match_len(w, offset, (len - 1) as nat);
        let c = copy_match(w, offset, (len - 1) as nat);
        assert((p + c)[(p + c).len() - offset] == c[c.len() - offset]);
        assert((p + c).push(c[c.len() - offset]) =~= p + c.push(c[c.len() - offset]));
    }
}

/// A match no longer than its offset copies a stretch of the existing window.
pub proof fn lemma_copy_match_from_window(w: Seq<u8>, offset: int, len: nat)
    requires
        len <= offset <= w.len(),
    ensures
        copy_match(w, offset, len) == w + w.subrange(w.len() - offset, w.len() - offset + len),
    decreases len,
{
    if len > 0 {
        lemma_copy_match_from_window(w, offset, (len - 1) as nat);
        let c = copy_match(w, offset, (len - 1) as nat);
        assert(c.push(c[c.len() - offset]) =~= w + w.subrange(w.len() - offset, w.len() - offset + len));
    }
}

/// Extending the output by a match when a dictionary precedes it, in two parts.
pub proof fn lemma_extend_match_add(dict: Seq<u8>, hist: Seq<u8>, offset: int, a: nat, b: nat)
    ensures
        extend_match(dict, hist, offset, a + b) == extend_match(dict, extend_match(dict, hist, offset, a), offset, b),
{
    lemma_copy_match_add(dict + hist, offset, a, b);
    let c = copy_match(dict + hist, offset, a);
    lemma_copy_match_len(dict + hist, offset, a);
    assert forall|i: int| 0 <= i < dict.len() implies c[i] == dict[i] by {
        assert(c.take((dict + hist).len() as int)[i] == (dict + hist)[i]);
    }
    assert(dict + c.skip(dict.len() as int) =~= c);
}

} // verus!

verus! {

/// A successful decode extends the history it started from and fits the capacity.
pub proof fn lemma_decode_extends(input: Seq<u8>, dict: Seq<u8>, cap: usize, hist: Seq<u8>, ip: int)
    requires
        hist.len() <= cap,
    ensures
        decode_from(input, dict, cap, hist, ip) matches Ok(h) ==> hist.len() <= h.len() <= cap && h.take(hist.len() as int) == hist,
    decreases input.len() - ip,
{
    if 0 <= ip < input.len() {
        let token = input[ip];
        lemma_literal_length_bounds(input, ip + 1, token);
        if let Ok((hist2, ip3)) = after_literals(input, cap, hist, token, ip + 1) {
            assert(hist2.take(hist.len() as int) =~= hist);
            if ip3 < input.len() && ip3 + 2 <= input.len() {
                lemma_match_length_bounds(input, ip3 + 2, token);
                if let Ok((hist3, ip4)) = after_match(input, dict, cap, hist2, token, ip3) {
                    let ml = match_length(input, ip3 + 2, token)->Ok_0.0;
                    lemma_copy_match_len(dict + hist2, offset_at(input, ip3), ml as nat);
                    assert forall|i: int| 0 <= i < hist.len() implies hist3[i] == hist[i] by {
                        let c = copy_match(dict + hist2, offset_at(input, ip3), ml as nat);
                        assert(c.take((dict + hist2).len() as int)[dict.len() + i] == (dict + hist2)[dict.len() + i]);
                    }
                    lemma_decode_extends(input, dict, cap, hist3, ip4);
                    if let Ok(h) = decode_from(input, dict, cap, hist3, ip4) {
                        assert(h.take(hist.len() as int) =~= hist) by {
                            assert forall|i: int| 0 <= i < hist.len() implies h[i] == hist[i] by {
                                assert(h.take(hist3.len() as int)[i] == hist3[i]);
                            }
                        }
                    }
                }
            }
        }
    }
}

} // verus!

verus! {

/// The LZ4 encoding of a length extension: a byte of 255 for every 255 in
/// `n`, then the remainder.
pub open spec fn encode_int(n: nat) -> Seq<u8>
    decreases n,
{
    if n < 255 {
        seq![n as u8]
    } else {
        seq![255u8] + encode_int((n - 255) as nat)
    }
}

/// The token nibble for a length: the length itself below 15, else 15.
pub open spec fn nibble(n: nat) -> nat {
    if n < 15 {
        n
    } else {
        15
    }
}

/// The extension bytes that follow a nibble of 15.
pub open spec fn length_ext(n: nat) -> Seq<u8> {
    if n >= 15 {
        encode_int((n - 15) as nat)
    } else {
        Seq::empty()
    }
}

/// The encoding of a sequence: literals `lits`, then a match of
/// `dup + 4` bytes at distance `offset`.
pub open spec fn encode_sequence(lits: Seq<u8>, offset: nat, dup: nat) -> Seq<u8> {
    seq![(nibble(lits.len()) * 16 + nibble(dup)) as u8] + length_ext(lits.len()) + lits
        + seq![(offset % 256) as u8, (offset / 256) as u8] + length_ext(dup)
}

/// The encoding of the last sequence of a block: literals only.
pub open spec fn encode_last(lits: Seq<u8>) -> Seq<u8> {
    seq![(nibble(lits.len()) * 16) as u8] + length_ext(lits.len()) + lits
}

/// A length extension takes one byte per 255 plus one.
pub proof fn lemma_encode_int_len(n: nat)
    ensures
        encode_int(n).len() == n / 255 + 1,
    decreases n,
{
    if n >= 255 {
        lemma_encode_int_len((n - 255) as nat);
    }
}

/// Reading an encoded length extension gives back the length.
pub proof fn lemma_read_encoded_int(b: Seq<u8>, ip: int, n: nat, acc: int)
    requires
        0 <= ip,
        0 <= acc,
        acc + n <= usize::MAX,
        ip + encode_int(n).len() <= b.len(),
        b.subrange(ip, ip + encode_int(n).len()) == encode_int(n),
    ensures
        read_int_from(b, ip, acc) == Ok::<(int, int), DecompressError>((acc + n, ip + encode_int(n).len())),
    decreases n,
{
    let e = encode_int(n);
    assert(b[ip] == b.subrange(ip, ip + e.len())[0]);
    if n >= 255 {
        let rest = encode_int((n - 255) as nat);
        assert(b.subrange(ip + 1, ip + 1 + rest.len()) =~= rest) by {
            assert forall|i: int| 0 <= i < rest.len() implies b[ip + 1 + i] == rest[i] by {
                assert(b.subrange(ip, ip + e.len())[1 + i] == e[1 + i]);
            }
        }
        lemma_read_encoded_int(b, ip + 1, (n - 255) as nat, acc + 255);
    }
}

/// A piece of a subrange of `b` is a subrange of `b`.
pub proof fn lemma_subrange_piece(b: Seq<u8>, ip: int, s: Seq<u8>, a: int, piece: Seq<u8>)
    requires
        0 <= ip,
        ip + s.len() <= b.len(),
        b.subrange(ip, ip + s.len()) == s,
        0 <= a,
        a + piece.len() <= s.len(),
        s.subrange(a, a + piece.len()) == piece,
    ensures
        b.subrange(ip + a, ip + a + piece.len()) == piece,
{
    assert forall|i: int| 0 <= i < piece.len() implies b[ip + a + i] == piece[i] by {
        assert(b.subrange(ip, ip + s.len())[a + i] == s[a + i]);
        assert(s.subrange(a, a + piece.len())[i] == s[a + i]);
    }
    assert(b.subrange(ip + a, ip + a + piece.len()) =~= piece);
}

/// Decoding a length nibble and its extension gives back the length.
pub proof fn lemma_read_length(b: Seq<u8>, ip: int, n: nat, base: int)
    requires
        0 <= ip,
        ip + length_ext(n).len() <= b.len(),
        b.subrange(ip, ip + length_ext(n).len()) == length_ext(n),
        base + n <= usize::MAX,
        0 <= base,
    ensures
        n >= 15 ==> read_int_from(b, ip, 0) == Ok::<(int, int), DecompressError>(((n - 15) as int, ip + length_ext(n).len())),
{
    if n >= 15 {
        lemma_read_encoded_int(b, ip, (n - 15) as nat, 0);
    }
}

/// A sequence encoded at `ip` decodes to its literals followed by its match.
pub proof fn lemma_decode_sequence(
    b: Seq<u8>,
    dict: Seq<u8>,
    cap: usize,
    hist: Seq<u8>,
    ip: int,
    lits: Seq<u8>,
    offset: nat,
    dup: nat,
)
    requires
        0 <= ip,
        ip + encode_sequence(lits, offset, dup).len() <= b.len(),
        b.subrange(ip, ip + encode_sequence(lits, offset, dup).len()) == encode_sequence(lits, offset, dup),
        1 <= offset <= 65535,
        offset <= dict.len() + hist.len() + lits.len(),
        hist.len() + lits.len() + dup + 4 <= cap,
    ensures
        decode_from(b, dict, cap, hist, ip) == decode_from(
            b,
            dict,
            cap,
            extend_match(dict, hist + lits, offset as int, dup + 4),
            ip + encode_sequence(lits, offset, dup).len(),
        ),
{
    let s = encode_sequence(lits, offset, dup);
    let tok = seq![(nibble(lits.len()) * 16 + nibble(dup)) as u8];
    let le = length_ext(lits.len());
    let off = seq![(offset % 256) as u8, (offset / 256) as u8];
    let me = length_ext(dup);
    assert(s =~= tok + le + lits + off + me);
    let a1: int = 1;
    let a2: int = a1 + le.len();
    let a3: int = a2 + lits.len();
    let a4: int = a3 + 2;
    assert(s.subrange(a1, a2) =~= le);
    assert(s.subrange(a2, a3) =~= lits);
    assert(s.subrange(a4, a4 + me.len()) =~= me);
    lemma_subrange_piece(b, ip, s, a1, le);
    lemma_subrange_piece(b, ip, s, a2, lits);
    lemma_subrange_piece(b, ip, s, a4, me);
    lemma_read_length(b, ip + a1, lits.len(), 0);
    lemma_read_length(b, ip + a4, dup, 4);
    let token = b[ip];
    assert(token == s[0]) by {
        assert(b.subrange(ip, ip + s.len())[0] == s[0]);
    }
    assert(token / 16 == nibble(lits.len()));
    assert(token % 16 == nibble(dup));
    assert(b[ip + a3] == s[a3]) by {
        assert(b.subrange(ip, ip + s.len())[a3] == s[a3]);
    }
    assert(b[ip + a3 + 1] == s[a3 + 1]) by {
        assert(b.subrange(ip, ip + s.len())[a3 + 1] == s[a3 + 1]);
    }
    assert(offset_at(b, ip + a3) == offset);
    assert(b.subrange(ip + a2, ip + a3) == lits);
    assert(after_literals(b, cap, hist, token, ip + a1) == Ok::<(Seq<u8>, int), DecompressError>((hist + lits, ip + a3)));
    assert(match_length(b, ip + a4, token) == Ok::<(int, int), DecompressError>(((dup + 4) as int, ip + a4 + me.len())));
    assert(after_match(b, dict, cap, hist + lits, token, ip + a3)
        == Ok::<(Seq<u8>, int), DecompressError>((extend_match(dict, hist + lits, offset as int, dup + 4), ip + a4 + me.len())));
    assert(a4 + me.len() == s.len());
}

/// The last sequence, at the very end of the block, decodes to its literals.
pub proof fn lemma_decode_last(b: Seq<u8>, dict: Seq<u8>, cap: usize, hist: Seq<u8>, ip: int, lits: Seq<u8>)
    requires
        0 <= ip,
        ip + encode_last(lits).len() == b.len(),
        b.subrange(ip, b.len() as int) == encode_last(lits),
        hist.len() + lits.len() <= cap,
    ensures
        decode_from(b, dict, cap, hist, ip) == Ok::<Seq<u8>, DecompressError>(hist + lits),
{
    let s = encode_last(lits);
    let tok = seq![(nibble(lits.len()) * 16) as u8];
    let le = length_ext(lits.len());
    assert(s =~= tok + le + lits);
    let a1: int = 1;
    let a2: int = a1 + le.len();
    let a3: int = a2 + lits.len();
    assert(s.subrange(a1, a2) =~= le);
    assert(s.subrange(a2, a3) =~= lits);
    lemma_subrange_piece(b, ip, s, a1, le);
    lemma_subrange_piece(b, ip, s, a2, lits);
    lemma_read_length(b, ip + a1, lits.len(), 0);
    let token = b[ip];
    assert(token == s[0]) by {
        assert(b.subrange(ip, ip + s.len())[0] == s[0]);
    }
    assert(token / 16 == nibble(lits.len()));
    assert(after_literals(b, cap, hist, token, ip + a1) == Ok::<(Seq<u8>, int), DecompressError>((hist + lits, ip + a3)));
}

/// A match whose bytes `t` repeat the window `offset` positions back adds exactly `t`.
pub proof fn lemma_match_is_copy(dict: Seq<u8>, hist: Seq<u8>, t: Seq<u8>, offset: int)
    requires
        1 <= offset <= dict.len() + hist.len(),
        forall|i: int| 0 <= i < t.len() ==> #[trigger] t[i] == (dict + hist + t)[dict.len() + hist.len() - offset + i],
    ensures
        extend_match(dict, hist, offset, t.len()) == hist + t,
{
    let w = dict + hist;
    assert forall|k: nat| k <= t.len() implies #[trigger] copy_match(w, offset, k) == w + t.take(k as int) by {
        lemma_copy_match_is_copy_prefix(w, t, offset, k);
    }
    assert(t.take(t.len() as int) =~= t);
    assert((w + t).skip(dict.len() as int) =~= hist + t);
}

proof fn lemma_copy_match_is_copy_prefix(w: Seq<u8>, t: Seq<u8>, offset: int, k: nat)
    requires
        1 <= offset <= w.len(),
        k <= t.len(),
        forall|i: int| 0 <= i < t.len() ==> #[trigger] t[i] == (w + t)[w.len() - offset + i],
    ensures
        copy_match(w, offset, k) == w + t.take(k as int),
    decreases k,
{
    if k > 0 {
        lemma_copy_match_is_copy_prefix(w, t, offset, (k - 1) as nat);
        let c = w + t.take(k - 1);
        assert(t[k - 1] == (w + t)[w.len() - offset + k - 1]);
        assert(c[c.len() - offset] == (w + t)[w.len() - offset + k - 1]);
        assert(c.push(c[c.len() - offset]) =~= w + t.take(k as int));
    }
}

/// Every block that starts with `p`, decoded into an output that already
/// holds `h0`, decodes as if `hist` had been decoded from `p`.
pub open spec fn encodes_prefix(h0: Seq<u8>, p: Seq<u8>, dict: Seq<u8>, cap: usize, hist: Seq<u8>) -> bool {
    forall|b: Seq<u8>|
        #![trigger decode_from(b, dict, cap, h0, 0)]
        p.len() <= b.len() && b.take(p.len() as int) == p ==> decode_from(b, dict, cap, h0, 0) == decode_from(b, dict, cap, hist, p.len() as int)
}

/// The empty prefix decodes to the history the output already holds.
pub proof fn lemma_encodes_prefix_empty(h0: Seq<u8>, dict: Seq<u8>, cap: usize)
    ensures
        encodes_prefix(h0, Seq::empty(), dict, cap, h0),
{
}

/// Appending an encoded sequence to a prefix appends its decoding to the history.
pub proof fn lemma_encodes_prefix_step(
    h0: Seq<u8>,
    p: Seq<u8>,
    dict: Seq<u8>,
    cap: usize,
    hist: Seq<u8>,
    lits: Seq<u8>,
    offset: nat,
    dup: nat,
)
    requires
        encodes_prefix(h0, p, dict, cap, hist),
        1 <= offset <= 65535,
        offset <= dict.len() + hist.len() + lits.len(),
        hist.len() + lits.len() + dup + 4 <= cap,
    ensures
        encodes_prefix(h0, p + encode_sequence(lits, offset, dup), dict, cap, extend_match(dict, hist + lits, offset as int, dup + 4)),
{
    let s = encode_sequence(lits, offset, dup);
    let p2 = p + s;
    assert forall|b: Seq<u8>|
        #![trigger decode_from(b, dict, cap, h0, 0)]
        p2.len() <= b.len() && b.take(p2.len() as int) == p2 implies decode_from(b, dict, cap, h0, 0) == decode_from(
            b,
            dict,
            cap,
            extend_match(dict, hist + lits, offset as int, dup + 4),
            p2.len() as int,
        ) by {
        assert(b.take(p.len() as int) =~= p) by {
            assert forall|i: int| 0 <= i < p.len() implies b[i] == p[i] by {
                assert(b.take(p2.len() as int)[i] == p2[i]);
            }
        }
        assert(b.subrange(p.len() as int, (p.len() + s.len()) as int) =~= s) by {
            assert forall|i: int| 0 <= i < s.len() implies b[p.len() + i] == s[i] by {
                assert(b.take(p2.len() as int)[p.len() + i] == p2[p.len() + i]);
            }
        }
        lemma_decode_sequence(b, dict, cap, hist, p.len() as int, lits, offset, dup);
    }
}

/// A prefix followed by the last sequence decodes to the history followed by its literals.
pub proof fn lemma_encodes_prefix_finish(h0: Seq<u8>, p: Seq<u8>, dict: Seq<u8>, cap: usize, hist: Seq<u8>, lits: Seq<u8>)
    requires
        encodes_prefix(h0, p, dict, cap, hist),
        hist.len() + lits.len() <= cap,
    ensures
        decode_from(p + encode_last(lits), dict, cap, h0, 0) == Ok::<Seq<u8>, DecompressError>(hist + lits),
{
    let b = p + encode_last(lits);
    assert(b.take(p.len() as int) =~= p);
    assert(b.subrange(p.len() as int, b.len() as int) =~= encode_last(lits));
    lemma_decode_last(b, dict, cap, hist, p.len() as int, lits);
}

} // verus!

verus! {

/// A decoding stays the same, shifted by `q`, when `q` moves from the end of
/// the dictionary to the front of the output, when more dictionary `x` is put
/// in front, and when the capacity grows to cover `q`.
pub proof fn lemma_decode_embed(
    b: Seq<u8>,
    p: Seq<u8>,
    q: Seq<u8>,
    cap: usize,
    h: Seq<u8>,
    ip: int,
    x: Seq<u8>,
    capx: usize,
)
    requires
        decode_from(b, p + q, cap, h, ip) is Ok,
        capx >= cap + q.len(),
    ensures
        decode_from(b, x + p, capx, q + h, ip) == Ok::<Seq<u8>, DecompressError>(q + decode_from(b, p + q, cap, h, ip)->Ok_0),
    decreases b.len() - ip,
{
    let d = p + q;
    let dx = x + p;
    let token = b[ip];
    lemma_literal_length_bounds(b, ip + 1, token);
    let (h2, ip3) = after_literals(b, cap, h, token, ip + 1)->Ok_0;
    let (lit, ip2) = literal_length(b, ip + 1, token)->Ok_0;
    assert(after_literals(b, capx, q + h, token, ip + 1) == Ok::<(Seq<u8>, int), DecompressError>((q + h2, ip3))) by {
        assert((q + h) + b.subrange(ip2, ip2 + lit) =~= q + (h + b.subrange(ip2, ip2 + lit)));
    }
    if ip3 >= b.len() {
    } else {
        lemma_match_length_bounds(b, ip3 + 2, token);
        let (h3, ip4) = after_match(b, d, cap, h2, token, ip3)->Ok_0;
        let (ml, next) = match_length(b, ip3 + 2, token)->Ok_0;
        let off = offset_at(b, ip3);
        let w = d + h2;
        let c = copy_match(w, off, ml as nat);
        lemma_copy_match_prefix(x, w, off, ml as nat);
        lemma_copy_match_len(w, off, ml as nat);
        assert(dx + (q + h2) =~= x + w);
        assert(extend_match(dx, q + h2, off, ml as nat) == q + h3) by {
            assert((x + c).skip(dx.len() as int) =~= c.skip(p.len() as int));
            assert forall|i: int| 0 <= i < q.len() implies c.skip(p.len() as int)[i] == q[i] by {
                assert(c.take(w.len() as int)[p.len() + i] == w[p.len() + i]);
            }
            assert(c.skip(p.len() as int) =~= q + c.skip(d.len() as int));
        }
        assert(after_match(b, dx, capx, q + h2, token, ip3) == Ok::<(Seq<u8>, int), DecompressError>((q + h3, ip4)));
        lemma_decode_embed(b, p, q, cap, h3, ip4, x, capx);
    }
}

} // verus!

verus! {

/// The encodings of `seqs`, each a sequence of literals, match offset and
/// match length minus four, one after the other.
pub open spec fn encode_all(seqs: Seq<(Seq<u8>, nat, nat)>) -> Seq<u8>
    decreases seqs.len(),
{
    if seqs.len() == 0 {
        Seq::empty()
    } else {
        encode_all(seqs.drop_last()) + encode_sequence(seqs.last().0, seqs.last().1, seqs.last().2)
    }
}

/// How many bytes of output `seqs` decode to: their literals and matches.
pub open spec fn covered(seqs: Seq<(Seq<u8>, nat, nat)>) -> int
    decreases seqs.len(),
{
    if seqs.len() == 0 {
        0
    } else {
        covered(seqs.drop_last()) + seqs.last().0.len() + seqs.last().2 + 4
    }
}

/// Every match of `seqs` starts at least 12 bytes (`MFLIMIT`) before the end
/// of an output of `n` bytes and ends at least 5 bytes (`LAST_LITERALS`)
/// before it.
pub open spec fn well_placed(seqs: Seq<(Seq<u8>, nat, nat)>, n: int) -> bool {
    forall|i: int|
        0 <= i < seqs.len() ==> {
            &&& covered(#[trigger] seqs.take(i)) + seqs[i].0.len() + 12 <= n
            &&& covered(seqs.take(i + 1)) + 5 <= n
        }
}

/// `p` is a run of sequences that decodes to `len` bytes, with every match
/// placed as a block of `n` bytes requires.
pub open spec fn shaped(p: Seq<u8>, len: int, n: int) -> bool {
    exists|seqs: Seq<(Seq<u8>, nat, nat)>| #[trigger] encode_all(seqs) == p && covered(seqs) == len && well_placed(seqs, n)
}

/// `b` is an LZ4 block of `n` bytes as the format specifies it: sequences
/// whose matches start at least 12 bytes before the end and end at least 5
/// bytes before it, then a last sequence of literals only, at least 5 of
/// them when there is a match.
pub open spec fn conformant(b: Seq<u8>, n: int) -> bool {
    exists|seqs: Seq<(Seq<u8>, nat, nat)>, last: Seq<u8>|
        #![trigger encode_all(seqs), encode_last(last)]
        {
            &&& b == encode_all(seqs) + encode_last(last)
            &&& covered(seqs) + last.len() == n
            &&& well_placed(seqs, n)
            &&& (seqs.len() > 0 ==> last.len() >= 5)
        }
}

/// Nothing has been written: the empty run of sequences.
pub proof fn lemma_shaped_empty(n: int)
    ensures
        shaped(Seq::empty(), 0, n),
{
    let s = Seq::<(Seq<u8>, nat, nat)>::empty();
    assert(encode_all(s) == Seq::<u8>::empty());
    assert(covered(s) == 0);
}

/// A well-placed sequence extends a shaped run.
pub proof fn lemma_shaped_step(p: Seq<u8>, len: int, n: int, lits: Seq<u8>, offset: nat, dup: nat)
    requires
        shaped(p, len, n),
        len + lits.len() + 12 <= n,
        len + lits.len() + dup + 4 + 5 <= n,
    ensures
        shaped(p + encode_sequence(lits, offset, dup), len + lits.len() + dup + 4, n),
{
    let seqs = choose|seqs: Seq<(Seq<u8>, nat, nat)>| #[trigger] encode_all(seqs) == p && covered(seqs) == len && well_placed(seqs, n);
    let s2 = seqs.push((lits, offset, dup));
    assert(s2.drop_last() =~= seqs);
    assert(encode_all(s2) == p + encode_sequence(lits, offset, dup));
    assert(covered(s2) == len + lits.len() + dup + 4);
    assert forall|i: int| 0 <= i < s2.len() implies {
        &&& covered(#[trigger] s2.take(i)) + s2[i].0.len() + 12 <= n
        &&& covered(s2.take(i + 1)) + 5 <= n
    } by {
        if i < seqs.len() {
            assert(s2.take(i) =~= seqs.take(i));
            assert(s2.take(i + 1) =~= seqs.take(i + 1));
            assert(s2[i] == seqs[i]);
        } else {
            assert(s2.take(i) =~= seqs);
            assert(s2.take(i + 1) =~= s2);
        }
    }
}

/// A shaped run that ends at least 5 bytes before the end, followed by the
/// remaining literals, is a conformant block.
pub proof fn lemma_shaped_finish(p: Seq<u8>, len: int, n: int, last: Seq<u8>)
    requires
        shaped(p, len, n),
        len + last.len() == n,
        len == 0 || last.len() >= 5,
    ensures
        conformant(p + encode_last(last), n),
{
    let seqs = choose|seqs: Seq<(Seq<u8>, nat, nat)>| #[trigger] encode_all(seqs) == p && covered(seqs) == len && well_placed(seqs, n);
    if seqs.len() > 0 {
        assert(seqs.take(seqs.len() as int) =~= seqs);
        let i = seqs.len() - 1;
        assert(covered(seqs.take(i + 1)) + 5 <= n);
        lemma_covered_nonneg(seqs.drop_last());
        assert(len >= 4);
    }
    assert(encode_all(seqs) + encode_last(last) == p + encode_last(last));
}

/// The output of a run of sequences is never negative.
pub proof fn lemma_covered_nonneg(seqs: Seq<(Seq<u8>, nat, nat)>)
    ensures
        covered(seqs) >= 0,
    decreases seqs.len(),
{
    if seqs.len() > 0 {
        lemma_covered_nonneg(seqs.drop_last());
    }
}

} // verus!
