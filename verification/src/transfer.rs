use vstd::prelude::*;

verus! {

/// Progress of copying a file's bytes through a buffer of fixed size: how
/// many bytes are still to be read.
pub struct ChunkedCopy {
    total: u64,
    remaining: u64,
    buffer_len: usize,
}

/// The mathematical content of a [`ChunkedCopy`].
pub struct ChunkedCopyView {
    pub total: nat,
    pub remaining: nat,
    pub buffer_len: nat,
}

impl View for ChunkedCopy {
    type V = ChunkedCopyView;

    closed spec fn view(&self) -> ChunkedCopyView {
        ChunkedCopyView {
            total: self.total as nat,
            remaining: self.remaining as nat,
            buffer_len: self.buffer_len as nat,
        }
    }
}

impl ChunkedCopy {
    /// A copy's state is consistent: no more than the total remains.
    pub closed spec fn wf(&self) -> bool {
        self.remaining <= self.total
    }

    /// Starts copying `total` bytes through a buffer of `buffer_len` bytes.
    pub fn new(total: u64, buffer_len: usize) -> (r: ChunkedCopy)
        ensures
            r.wf(),
            r@ == (ChunkedCopyView { total: total as nat, remaining: total as nat, buffer_len: buffer_len as nat }),
    {
        ChunkedCopy { total, remaining: total, buffer_len }
    }

    /// How many bytes the next read asks for: what remains, at most a buffer.
    pub fn next_read_len(&self) -> (r: usize)
        ensures
            r as nat == if self@.remaining < self@.buffer_len { self@.remaining } else { self@.buffer_len },
    {
        if self.remaining < self.buffer_len as u64 {
            self.remaining as usize
        } else {
            self.buffer_len
        }
    }

    /// Records that a read gave `bytes_read` bytes (which were written out);
    /// true when nothing remains to be read.
    pub fn record_read(&mut self, bytes_read: usize) -> (done: bool)
        requires
            old(self).wf(),
            bytes_read <= old(self)@.remaining,
            bytes_read <= old(self)@.buffer_len,
        ensures
            final(self).wf(),
            final(self)@ == (ChunkedCopyView { remaining: (old(self)@.remaining - bytes_read) as nat, ..old(self)@ }),
            done == (final(self)@.remaining == 0),
    {
        self.remaining = self.remaining - bytes_read as u64;
        self.remaining == 0
    }

    /// The number of bytes copied so far.
    pub fn copied(&self) -> (r: u64)
        requires
            self.wf(),
        ensures
            r == self@.total - self@.remaining,
    {
        self.total - self.remaining
    }
}

} // verus!
