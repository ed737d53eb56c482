//! Blocks of storage: an owned buffer that may be written to while nobody
//! shares it, and a borrowed slice that is only read.

use crate::layout::{overwrite, zeros};
use std::rc::Rc;
use vstd::prelude::*;

verus! {

/// `Rc::clone` on a shared byte vector: the new handle points at the same
/// vector, so it holds the same bytes.
#[verifier::external_body]
fn rc_clone(rc: &Rc<Vec<u8>>) -> (r: Rc<Vec<u8>>)
    ensures
        r == *rc,
{
    Rc::clone(rc)
}

/// `Rc::strong_count`: how many handles point at the vector now. The count
/// depends on what other holders have done, so nothing is claimed of it.
#[verifier::external_body]
fn rc_strong_count(rc: &Rc<Vec<u8>>) -> usize {
    Rc::strong_count(rc)
}

/// `Rc::make_mut`: a mutable reference to the vector behind the handle. If
/// other handles share the vector, the handle is first pointed at a copy of
/// it, so in either case the reference starts out with the same bytes and the
/// handle ends up with whatever is written through the reference.
#[verifier::external_body]
fn rc_make_mut(rc: &mut Rc<Vec<u8>>) -> (r: &mut Vec<u8>)
    ensures
        r@ == old(rc)@,
        final(rc)@ == final(r)@,
{
    Rc::make_mut(rc)
}

/// Mutable indexing of a vector by a range (`IndexMut<Range<usize>>`): the
/// bytes from `from` to `to`. A slice cannot change its length, and the rest
/// of the vector is out of the reference's reach.
#[verifier::external_body]
fn vec_window_mut(v: &mut Vec<u8>, from: usize, to: usize) -> (r: &mut [u8])
    requires
        from <= to <= old(v)@.len(),
    ensures
        r@ == old(v)@.subrange(from as int, to as int),
        final(r)@.len() == to - from,
        final(v)@ == overwrite(old(v)@, from as int, final(r)@),
{
    &mut v[from..to]
}

/// `<[T]>::copy_from_slice`: overwrites the slice with a copy of `src`; it
/// panics unless both have the same length.
pub assume_specification<T: Copy>[ <[T]>::copy_from_slice ](dst: &mut [T], src: &[T])
    requires
        old(dst)@.len() == src@.len(),
    ensures
        final(dst)@ == src@,
;

/// Storage that can be read.
pub trait ImmutableDataHolder {
    /// Everything the block holds.
    spec fn content(&self) -> Seq<u8>;

    /// The `size` bytes from `offset` on.
    fn get_data(&self, offset: usize, size: usize) -> (r: &[u8])
        requires
            offset + size <= self.content().len(),
        ensures
            r@ == self.content().subrange(offset as int, offset + size),
    ;

    /// The block's size, which never changes.
    fn size(&self) -> (r: usize)
        ensures
            r == self.content().len(),
    ;
}

/// Storage that can also be written to.
pub trait MutableDataHolder: ImmutableDataHolder {
    /// Copies `src` into the block from offset `dst_offs` on.
    fn fill_from(&mut self, dst_offs: usize, src: &[u8])
        requires
            dst_offs + src@.len() <= old(self).content().len(),
        ensures
            final(self).content() == overwrite(old(self).content(), dst_offs as int, src@),
    ;

    /// The `size` bytes from `offset` on, to be written through.
    fn get_data_mut(&mut self, offset: usize, size: usize) -> (r: &mut [u8])
        requires
            offset + size <= old(self).content().len(),
        ensures
            r@ == old(self).content().subrange(offset as int, offset + size),
            final(r)@.len() == size,
            final(self).content() == overwrite(old(self).content(), offset as int, final(r)@),
    ;
}

/// A heap buffer of fixed size. Clones share the buffer; writing through one
/// of them never shows through another.
pub struct MemoryBuffer {
    data: Rc<Vec<u8>>,
}

impl MemoryBuffer {
    /// A buffer of `size` zero bytes.
    pub fn new<'src>(size: usize) -> (r: DataHolder<'src>)
        ensures
            r.content() == zeros(size as int),
            r.is_writable(),
    {
        let data: Vec<u8> = vec![0u8; size];
        DataHolder::Mutable(MemoryBuffer { data: Rc::new(data) })
    }

    /// Whether another handle points at the same buffer now. While one does,
    /// a write goes to a copy.
    pub fn is_shared(&self) -> bool {
        rc_strong_count(&self.data) != 1
    }
}

impl ImmutableDataHolder for MemoryBuffer {
    closed spec fn content(&self) -> Seq<u8> {
        self.data@
    }

    fn get_data(&self, offset: usize, size: usize) -> (r: &[u8]) {
        let v: &Vec<u8> = &**(&self.data);
        assert(offset + size <= v.len());
        &v[offset..offset + size]
    }

    fn size(&self) -> (r: usize) {
        let v: &Vec<u8> = &**(&self.data);
        v.len()
    }
}

impl MutableDataHolder for MemoryBuffer {
    fn fill_from(&mut self, dst_offs: usize, src: &[u8]) {
        let window = self.get_data_mut(dst_offs, src.len());
        window.copy_from_slice(src);
    }

    fn get_data_mut(&mut self, offset: usize, size: usize) -> (r: &mut [u8]) {
        let v = rc_make_mut(&mut self.data);
        assert(offset + size <= v.len());
        vec_window_mut(v, offset, offset + size)
    }
}

impl Clone for MemoryBuffer {
    fn clone(&self) -> (r: Self)
        ensures
            r == *self,
    {
        MemoryBuffer { data: rc_clone(&self.data) }
    }
}

/// A slice owned by somebody else, read in place.
#[derive(Clone, Copy)]
pub struct MemoryWrapper<'a> {
    data: &'a [u8],
}

impl<'a> MemoryWrapper<'a> {
    /// A block that is `data` itself; nothing is copied.
    pub fn new<'src>(data: &'src [u8]) -> (r: DataHolder<'src>)
        ensures
            r.content() == data@,
            !r.is_writable(),
    {
        DataHolder::Immutable(MemoryWrapper { data })
    }
}

impl<'a> ImmutableDataHolder for MemoryWrapper<'a> {
    closed spec fn content(&self) -> Seq<u8> {
        self.data@
    }

    fn get_data(&self, offset: usize, size: usize) -> (r: &[u8]) {
        let whole: &[u8] = self.data;
        assert(offset + size <= whole.len());
        &whole[offset..offset + size]
    }

    fn size(&self) -> (r: usize) {
        self.data.len()
    }
}

/// A block of storage of either kind.
pub enum DataHolder<'src> {
    /// An owned buffer.
    Mutable(MemoryBuffer),
    /// A borrowed slice.
    Immutable(MemoryWrapper<'src>),
}

impl<'src> DataHolder<'src> {
    /// Whether the block is an owned buffer.
    pub open spec fn is_writable(&self) -> bool {
        self is Mutable
    }

    /// Whether the block is an owned buffer.
    pub fn holds_buffer(&self) -> (r: bool)
        ensures
            r == self.is_writable(),
    {
        match self {
            DataHolder::Mutable(_) => true,
            DataHolder::Immutable(_) => false,
        }
    }

    /// The buffer to write to, if the block is one.
    pub fn holder_mut(&mut self) -> (r: Option<&mut MemoryBuffer>)
        ensures
            r is Some <==> old(self).is_writable(),
            final(self).is_writable() == old(self).is_writable(),
            match r {
                Some(b) => {
                    &&& b.content() == old(self).content()
                    &&& final(self).content() == final(b).content()
                },
                None => *final(self) == *old(self),
            },
    {
        match self {
            DataHolder::Mutable(b) => Some(b),
            DataHolder::Immutable(_) => None,
        }
    }

    /// Whether writing to the block in place is ruled out: always for a
    /// borrowed slice, and for an owned buffer while it is shared.
    pub fn is_readonly(&self) -> (r: bool)
        ensures
            !self.is_writable() ==> r,
    {
        match self {
            DataHolder::Mutable(b) => b.is_shared(),
            DataHolder::Immutable(_) => true,
        }
    }
}

impl<'src> ImmutableDataHolder for DataHolder<'src> {
    open spec fn content(&self) -> Seq<u8> {
        match self {
            DataHolder::Mutable(b) => b.content(),
            DataHolder::Immutable(w) => w.content(),
        }
    }

    fn get_data(&self, offset: usize, size: usize) -> (r: &[u8]) {
        match self {
            DataHolder::Mutable(b) => b.get_data(offset, size),
            DataHolder::Immutable(w) => w.get_data(offset, size),
        }
    }

    fn size(&self) -> (r: usize) {
        match self {
            DataHolder::Mutable(b) => b.size(),
            DataHolder::Immutable(w) => w.size(),
        }
    }
}

impl<'src> Clone for DataHolder<'src> {
    fn clone(&self) -> (r: Self)
        ensures
            r == *self,
    {
        match self {
            DataHolder::Mutable(b) => DataHolder::Mutable(b.clone()),
            DataHolder::Immutable(w) => DataHolder::Immutable(*w),
        }
    }
}

} // verus!
