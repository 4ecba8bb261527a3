//! Bounds-checked copy primitives shared by the encoder and the decoder.
use vstd::prelude::*;
use crate::format::{copy_match, lemma_copy_match_len};

verus! {

/// Copies `len` bytes from `src[src_pos..]` to `dst[*dst_pos..]` and advances `dst_pos`.
pub fn copy_from_src(src: &[u8], src_pos: usize, dst: &mut [u8], dst_pos: &mut usize, len: usize)
    requires
        src_pos + len <= src.len(),
        *old(dst_pos) + len <= old(dst).len(),
    ensures
        final(dst)@.len() == old(dst)@.len(),
        *final(dst_pos) == *old(dst_pos) + len,
        final(dst)@.take(*final(dst_pos) as int) == old(dst)@.take(*old(dst_pos) as int) + src@.subrange(src_pos as int, src_pos + len),
        final(dst)@.skip(*final(dst_pos) as int) == old(dst)@.skip(*final(dst_pos) as int),
{
    let start = *dst_pos;
    let mut i: usize = 0;
    while i < len
        invariant
            i <= len,
            start == *old(dst_pos),
            *dst_pos == start,
            start + len <= dst.len(),
            src_pos + len <= src.len(),
            dst@.len() == old(dst)@.len(),
            dst@.take(start + i) == old(dst)@.take(start as int) + src@.subrange(src_pos as int, src_pos + i),
            dst@.skip(start + len) == old(dst)@.skip(start + len),
        decreases len - i,
    {
        let ghost prev = dst@;
        let v = src[src_pos + i];
        dst[start + i] = v;
        assert(dst@.take(start + i) =~= prev.take(start + i));
        assert(dst@.skip(start + len) =~= prev.skip(start + len));
        assert(dst@.take(start + i + 1) =~= dst@.take(start + i).push(v));
        assert(src@.subrange(src_pos as int, src_pos + i + 1) =~= src@.subrange(src_pos as int, src_pos + i).push(v));
        i = i + 1;
    }
    *dst_pos = start + len;
}

/// Copies a match of `match_len` bytes that starts `offset` bytes back, one
/// byte at a time so that overlapping copies repeat the pattern.
pub fn copy_within_overlapping(buf: &mut [u8], start: usize, dst_pos: &mut usize, match_len: usize, offset: usize)
    requires
        1 <= offset,
        start + offset == *old(dst_pos),
        *old(dst_pos) + match_len <= old(buf).len(),
    ensures
        final(buf)@.len() == old(buf)@.len(),
        *final(dst_pos) == *old(dst_pos) + match_len,
        final(buf)@.take(*final(dst_pos) as int) == copy_match(old(buf)@.take(*old(dst_pos) as int), offset as int, match_len as nat),
        final(buf)@.skip(*final(dst_pos) as int) == old(buf)@.skip(*final(dst_pos) as int),
{
    let dst = *dst_pos;
    let mut i: usize = 0;
    while i < match_len
        invariant
            i <= match_len,
            dst == *old(dst_pos),
            1 <= offset,
            start + offset == dst,
            dst + match_len <= buf.len(),
            buf@.len() == old(buf)@.len(),
            buf@.take(dst + i) == copy_match(old(buf)@.take(dst as int), offset as int, i as nat),
            buf@.skip(dst + match_len) == old(buf)@.skip(dst + match_len),
        decreases match_len - i,
    {
        proof {
            lemma_copy_match_len(old(buf)@.take(dst as int), offset as int, i as nat);
        }
        let ghost prev = buf@;
        let ghost c = copy_match(old(buf)@.take(dst as int), offset as int, i as nat);
        let b = buf[start + i];
        assert(start + i < dst + i);
        assert(dst + i <= prev.len());
        assert(c.len() == dst + i);
        assert(prev.take(dst + i)[start + i] == prev[start + i]);
        assert(c[c.len() - offset] == b);
        buf[dst + i] = b;
        assert(buf@.take(dst + i) =~= prev.take(dst + i));
        assert(buf@.skip(dst + match_len) =~= prev.skip(dst + match_len));
        assert(buf@.take(dst + i + 1) =~= c.push(b));
        i = i + 1;
    }
    *dst_pos = dst + match_len;
}

} // verus!
