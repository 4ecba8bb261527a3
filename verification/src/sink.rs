//! Output buffers that compression and decompression write into.
use vstd::prelude::*;
use crate::format::copy_match;
use crate::primitives::{copy_from_src, copy_within_overlapping};

verus! {

/// `buf` with `data` written at `pos`.
pub open spec fn written_at(buf: Seq<u8>, pos: int, data: Seq<u8>) -> Seq<u8> {
    buf.take(pos) + data + buf.skip(pos + data.len())
}

/// Trait for output buffers used during compression and decompression.
///
/// A sink is a buffer of fixed capacity, `buffer()`, with a write position,
/// `position()`; the bytes before the position are the output so far.
pub trait Sink {
    /// The whole underlying buffer.
    spec fn buffer(&self) -> Seq<u8>;

    /// The current write position.
    spec fn position(&self) -> nat;

    /// Pushes a byte to the end of the Sink.
    fn push(&mut self, byte: u8)
        requires
            old(self).position() < old(self).buffer().len(),
        ensures
            final(self).buffer() == old(self).buffer().update(old(self).position() as int, byte),
            final(self).position() == old(self).position() + 1;

    /// Current write position.
    fn pos(&self) -> (p: usize)
        ensures
            p == self.position();

    /// Total capacity of the underlying buffer.
    fn capacity(&self) -> (c: usize)
        ensures
            c == self.buffer().len();

    /// Extends the Sink with `data`.
    fn extend_from_slice(&mut self, data: &[u8])
        requires
            old(self).position() + data@.len() <= old(self).buffer().len(),
        ensures
            final(self).buffer() == written_at(old(self).buffer(), old(self).position() as int, data@),
            final(self).position() == old(self).position() + data@.len();

    /// Extends the Sink with `data`, but only advances the position by `copy_len`.
    fn extend_from_slice_wild(&mut self, data: &[u8], copy_len: usize)
        requires
            copy_len <= data@.len(),
            old(self).position() + data@.len() <= old(self).buffer().len(),
        ensures
            final(self).buffer() == written_at(old(self).buffer(), old(self).position() as int, data@),
            final(self).position() == old(self).position() + copy_len;

    /// Copies `num_bytes` from `start` within the output buffer, handling
    /// overlapping (periodic) patterns byte by byte.
    fn extend_from_within_overlapping(&mut self, start: usize, num_bytes: usize)
        requires
            start < old(self).position(),
            old(self).position() + num_bytes <= old(self).buffer().len(),
        ensures
            final(self).buffer().len() == old(self).buffer().len(),
            final(self).buffer().take(final(self).position() as int)
                == copy_match(old(self).buffer().take(old(self).position() as int), old(self).position() - start, num_bytes as nat),
            final(self).buffer().skip(final(self).position() as int) == old(self).buffer().skip(final(self).position() as int),
            final(self).position() == old(self).position() + num_bytes;

    /// Returns the underlying buffer and a mutable reference to the position.
    fn output_mut_with_pos(&mut self) -> (r: (&mut [u8], &mut usize))
        ensures
            r.0@ == old(self).buffer(),
            *r.1 == old(self).position(),
            final(self).buffer() == final(r.0)@,
            final(self).position() == *final(r.1);
}

/// SliceSink writes into a preallocated `&mut [u8]`.
///
/// # Invariants
///   - Bytes `[..pos()]` are always initialized.
pub struct SliceSink<'a> {
    output: &'a mut [u8],
    pos: usize,
}

impl<'a> SliceSink<'a> {
    /// Creates a `Sink` backed by the given byte slice.
    /// `pos` defines the initial output position in the Sink.
    pub fn new(output: &'a mut [u8], pos: usize) -> (s: Self)
        requires
            pos <= old(output)@.len(),
        ensures
            s.buffer() == old(output)@,
            s.position() == pos,
    {
        SliceSink { output, pos }
    }
}

impl<'a> Sink for SliceSink<'a> {
    closed spec fn buffer(&self) -> Seq<u8> {
        self.output@
    }

    closed spec fn position(&self) -> nat {
        self.pos as nat
    }

    fn push(&mut self, byte: u8) {
        self.output[self.pos] = byte;
        self.pos = self.pos + 1;
    }

    fn pos(&self) -> (p: usize) {
        self.pos
    }

    fn capacity(&self) -> (c: usize) {
        self.output.len()
    }

    fn extend_from_slice(&mut self, data: &[u8]) {
        self.extend_from_slice_wild(data, data.len())
    }

    fn extend_from_slice_wild(&mut self, data: &[u8], copy_len: usize) {
        let ghost before = self.output@;
        let mut end = self.pos;
        copy_from_src(data, 0, self.output, &mut end, data.len());
        proof {
            let after = self.output@;
            assert(data@.subrange(0, data@.len() as int) =~= data@);
            assert(after.skip(self.pos + data@.len()) =~= before.skip(self.pos + data@.len()));
            assert(after =~= after.take(self.pos + data@.len()) + after.skip(self.pos + data@.len()));
        }
        self.pos = self.pos + copy_len;
    }

    fn extend_from_within_overlapping(&mut self, start: usize, num_bytes: usize) {
        let offset = self.pos - start;
        let mut end = self.pos;
        let ghost before = self.output@;
        copy_within_overlapping(self.output, start, &mut end, num_bytes, offset);
        self.pos = end;
        assert(self.output@.skip(end as int) =~= before.skip(end as int));
    }

    fn output_mut_with_pos(&mut self) -> (r: (&mut [u8], &mut usize)) {
        (&mut *self.output, &mut self.pos)
    }
}

} // verus!
