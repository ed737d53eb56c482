//! A node of a chain: a window into a block of storage.

use crate::layout::{Segment, zeros};
use crate::storage::{DataHolder, ImmutableDataHolder, MemoryBuffer, MutableDataHolder};
use vstd::prelude::*;

verus! {

/// A window, from `start` to `end`, into a block of storage. A clone is a
/// second window into the same block.
pub struct Node<'src> {
    dh: DataHolder<'src>,
    start: usize,
    end: usize,
}

impl<'src> View for Node<'src> {
    type V = Segment;

    closed spec fn view(&self) -> Segment {
        Segment {
            backing: self.dh.content(),
            start: self.start as int,
            end: self.end as int,
            writable: self.dh.is_writable(),
        }
    }
}

impl<'src> Node<'src> {
    /// The window lies inside the block.
    pub open spec fn wf(&self) -> bool {
        self@.wf()
    }

    /// An empty window at the start of a new buffer of `size` zero bytes.
    pub fn with_size(size: usize) -> (r: Node<'src>)
        ensures
            r@ == (Segment { backing: zeros(size as int), start: 0, end: 0, writable: true }),
            r.wf(),
    {
        Node::with_data_holder(MemoryBuffer::new(size))
    }

    /// An empty window at the end of a new buffer of `size` zero bytes, so
    /// that all of the buffer is room in front of the window.
    pub fn with_size_at_end(size: usize) -> (r: Node<'src>)
        ensures
            r@ == (Segment {
                backing: zeros(size as int),
                start: size as int,
                end: size as int,
                writable: true,
            }),
            r.wf(),
    {
        let mut node = Node::with_size(size);
        let r = node.room();
        node.start = r;
        node.end = r;
        node
    }

    /// An empty window at the start of the block `dh`.
    pub fn with_data_holder(dh: DataHolder<'src>) -> (r: Node<'src>)
        ensures
            r@ == (Segment {
                backing: dh.content(),
                start: 0,
                end: 0,
                writable: dh.is_writable(),
            }),
            r.wf(),
    {
        // Reading the size shows that it is one a `usize` can hold.
        let _capacity = dh.size();
        Node { dh: dh, start: 0, end: 0 }
    }

    /// Whether the window lies inside the block.
    pub fn is_wf(&self) -> (r: bool)
        ensures
            r == self.wf(),
    {
        let capacity = self.dh.size();
        self.start <= self.end && self.end <= capacity
    }

    /// Number of bytes in the window.
    pub fn size(&self) -> (r: usize)
        requires
            self.wf(),
        ensures
            r == self@.size(),
    {
        self.end - self.start
    }

    /// Number of bytes of the block behind the window.
    pub fn room(&self) -> (r: usize)
        requires
            self.wf(),
        ensures
            r == self@.room(),
    {
        self.dh.size() - self.end
    }

    /// Number of bytes of the block in front of the window.
    pub fn headroom(&self) -> (r: usize)
        ensures
            r == self@.start,
    {
        self.start
    }

    /// Whether the block is an owned buffer, which may be written to.
    pub fn holds_buffer(&self) -> (r: bool)
        ensures
            r == self@.writable,
    {
        self.dh.holds_buffer()
    }

    /// Whether the block must not be written to in place: it is a borrowed
    /// slice, or a buffer that another node shares at the moment.
    pub fn holds_readonly(&self) -> (r: bool)
        ensures
            !self@.writable ==> r,
    {
        self.dh.is_readonly()
    }

    /// The first `size` bytes of the window.
    pub fn get_data_from_start(&self, size: usize) -> (r: &[u8])
        requires
            self.wf(),
            size <= self@.size(),
        ensures
            r@ == self@.bytes().take(size as int),
    {
        let r = self.dh.get_data(self.start, size);
        r
    }

    /// The `size` bytes of the window from offset `offs` on.
    pub fn get_data_from(&self, offs: usize, size: usize) -> (r: &[u8])
        requires
            self.wf(),
            offs + size <= self@.size(),
        ensures
            r@ == self@.bytes().subrange(offs as int, offs + size),
    {
        let r = self.dh.get_data(self.start + offs, size);
        r
    }

    /// Drops the first `n` bytes from the window.
    pub fn advance(&mut self, n: usize)
        requires
            old(self).wf(),
            n <= old(self)@.size(),
        ensures
            final(self)@ == old(self)@.advanced(n as int),
            final(self).wf(),
    {
        self.start += n;
    }

    /// Cuts the window down to its first `n` bytes.
    pub fn truncate(&mut self, n: usize)
        requires
            old(self).wf(),
            n <= old(self)@.size(),
        ensures
            final(self)@ == old(self)@.truncated(n as int),
            final(self).wf(),
    {
        self.end = self.start + n;
    }

    /// Grows the window by `n` bytes at its end, over what the block holds
    /// there.
    pub fn commit(&mut self, n: usize)
        requires
            old(self).wf(),
            n <= old(self)@.room(),
        ensures
            final(self)@ == old(self)@.committed(n as int),
            final(self).wf(),
    {
        self.end += n;
    }

    /// Copies `data` into the block behind the window and grows the window
    /// over it.
    pub fn fill_tail(&mut self, data: &[u8])
        requires
            old(self).wf(),
            old(self)@.writable,
            data@.len() <= old(self)@.room(),
        ensures
            final(self)@ == old(self)@.extended(data@),
            final(self).wf(),
    {
        let end = self.end;
        match self.dh.holder_mut() {
            Some(buffer) => {
                buffer.fill_from(end, data);
            },
            None => {},
        }
        self.end += data.len();
    }

    /// Copies `data` into the block in front of the window and grows the
    /// window over it.
    pub fn fill_head(&mut self, data: &[u8])
        requires
            old(self).wf(),
            old(self)@.writable,
            data@.len() <= old(self)@.start,
        ensures
            final(self)@ == old(self)@.fronted(data@),
            final(self).wf(),
    {
        let at = self.start - data.len();
        match self.dh.holder_mut() {
            Some(buffer) => {
                buffer.fill_from(at, data);
            },
            None => {},
        }
        self.start = at;
    }

    /// The `size` bytes of the block behind the window, to be written
    /// through. The window stays as it is.
    pub fn tail_mut(&mut self, size: usize) -> (r: &mut [u8])
        requires
            old(self).wf(),
            old(self)@.writable,
            size <= old(self)@.room(),
        ensures
            r@ == old(self)@.backing.subrange(old(self)@.end, old(self)@.end + size),
            final(r)@.len() == size,
            final(self)@ == old(self)@.overwritten(old(self)@.end, final(r)@),
            final(self).wf(),
    {
        let end = self.end;
        self.dh.holder_mut().unwrap().get_data_mut(end, size)
    }
}

impl<'src> Clone for Node<'src> {
    fn clone(&self) -> (r: Self)
        ensures
            r == *self,
    {
        Node { dh: self.dh.clone(), start: self.start, end: self.end }
    }
}

} // verus!
