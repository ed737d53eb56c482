//! A chained buffer whose nodes each own their block of storage.
//!
//! Nothing is shared here, so every block can be written to in place.

use crate::chainbuf::deque_back_mut;
use crate::layout::{
    CHB_MIN_SIZE, Segment, all_wf, coalesced, drained, flat, fresh_capacity, head_extended,
    head_has_room, lemma_drained, lemma_flat_cons, lemma_flat_push, lemma_fresh,
    lemma_head_extended, lemma_pulled_up, lemma_tail_extended, pulled_up, tail_extended,
    tail_has_room, with_fresh_head, with_fresh_tail, zeros,
};
use std::collections::VecDeque;
use vstd::prelude::*;

verus! {

/// Copies `len` items of `src`, from `src_ofs` on, over those of `dst` from
/// `dst_ofs` on.
pub fn blit<Item: Copy>(
    src: &[Item],
    src_ofs: usize,
    dst: &mut [Item],
    dst_ofs: usize,
    len: usize,
)
    requires
        src_ofs + len <= src@.len(),
        dst_ofs + len <= old(dst)@.len(),
    ensures
        final(dst)@ == old(dst)@.subrange(0, dst_ofs as int) + src@.subrange(
            src_ofs as int,
            src_ofs + len,
        ) + old(dst)@.subrange(dst_ofs + len, old(dst)@.len() as int),
{
    let mut i: usize = 0;
    while i < len
        invariant
            i <= len,
            src_ofs + len <= src.len(),
            dst_ofs + len <= dst.len(),
            dst@.len() == old(dst)@.len(),
            dst@ == old(dst)@.subrange(0, dst_ofs as int) + src@.subrange(
                src_ofs as int,
                src_ofs + i,
            ) + old(dst)@.subrange(dst_ofs + i, old(dst)@.len() as int),
        decreases len - i,
    {
        dst[dst_ofs + i] = src[src_ofs + i];
        i += 1;
    }
}

/// A heap buffer of fixed size.
pub struct ChbDataHolder {
    size: usize,
    data: Vec<u8>,
}

impl View for ChbDataHolder {
    type V = Seq<u8>;

    closed spec fn view(&self) -> Seq<u8> {
        self.data@
    }
}

impl ChbDataHolder {
    /// The size on record is the buffer's.
    pub closed spec fn wf(&self) -> bool {
        self.size == self.data@.len()
    }

    /// A buffer of `size` zero bytes.
    pub fn new(size: usize) -> (r: Box<ChbDataHolder>)
        ensures
            r@ == zeros(size as int),
            r.wf(),
    {
        let data: Vec<u8> = vec![0u8; size];
        Box::new(ChbDataHolder { size: size, data: data })
    }
}

/// A window, from `start` to `end`, into a buffer of its own.
pub struct ChbNode {
    dh: Box<ChbDataHolder>,
    start: usize,
    end: usize,
}

impl View for ChbNode {
    type V = Segment;

    closed spec fn view(&self) -> Segment {
        Segment {
            backing: self.dh@,
            start: self.start as int,
            end: self.end as int,
            writable: true,
        }
    }
}

impl ChbNode {
    /// The window lies inside the buffer.
    pub closed spec fn wf(&self) -> bool {
        self@.wf() && self.dh.wf()
    }

    /// An empty window at the start of `dh`.
    pub fn new(dh: Box<ChbDataHolder>) -> (r: Box<ChbNode>)
        requires
            dh.wf(),
        ensures
            r@ == (Segment { backing: dh@, start: 0, end: 0, writable: true }),
            r.wf(),
    {
        Box::new(ChbNode { dh: dh, start: 0, end: 0 })
    }

    /// Number of bytes in the window.
    pub fn size(&self) -> (r: usize)
        requires
            self.wf(),
        ensures
            r == self@.size(),
    {
        self.end - self.start
    }

    /// Number of bytes of the buffer behind the window.
    pub fn room(&self) -> (r: usize)
        requires
            self.wf(),
        ensures
            r == self@.room(),
    {
        self.dh.size - self.end
    }
}

/// A buffer of bytes held as a list of nodes, each with a buffer of its own.
///
/// `chain@` is the bytes it holds, in order; `chain.segments()` is the
/// windows that hold them.
pub struct ChbChain {
    head: VecDeque<Box<ChbNode>>,
    length: usize,
}

impl View for ChbChain {
    type V = Seq<u8>;

    open spec fn view(&self) -> Seq<u8> {
        flat(self.segments())
    }
}

impl ChbChain {
    /// The windows of the chain's nodes, first to last.
    pub closed spec fn segments(&self) -> Seq<Segment> {
        self.head@.map_values(|n: Box<ChbNode>| n@)
    }

    /// Every window lies inside its buffer, and the length on record is the
    /// number of bytes in the windows.
    pub closed spec fn wf(&self) -> bool {
        &&& forall|i: int| 0 <= i < self.head@.len() ==> (#[trigger] self.head@[i]).wf()
        &&& self.length == flat(self.segments()).len()
    }

    /// In a well-formed chain every window lies inside its buffer, and every
    /// buffer may be written to.
    pub proof fn lemma_wf(&self)
        requires
            self.wf(),
        ensures
            all_wf(self.segments()),
            forall|i: int|
                0 <= i < self.segments().len() ==> (#[trigger] self.segments()[i]).writable,
            self@.len() <= usize::MAX,
    {
    }

    /// An empty chain.
    pub fn new() -> (r: ChbChain)
        ensures
            r.wf(),
            r.segments() == Seq::<Segment>::empty(),
            r@ == Seq::<u8>::empty(),
    {
        ChbChain { head: VecDeque::new(), length: 0 }
    }

    /// Number of bytes in the chain.
    pub fn size(&self) -> (r: usize)
        requires
            self.wf(),
        ensures
            r == self@.len(),
    {
        self.length
    }

    /// Copies `data` to the end of the chain: behind the window of the last
    /// node where that node has the room, else into a new node, whose buffer
    /// is twice the size of `data` where `data` is shorter than
    /// `CHB_MIN_SIZE`.
    pub fn append_bytes(&mut self, data: &[u8])
        requires
            old(self).wf(),
            old(self)@.len() + data@.len() <= usize::MAX,
        ensures
            final(self).wf(),
            final(self)@ == old(self)@ + data@,
            final(self).segments() == if tail_has_room(old(self).segments(), data@.len() as int) {
                tail_extended(old(self).segments(), data@)
            } else {
                tail_extended(with_fresh_tail(old(self).segments(), data@.len() as int), data@)
            },
    {
        let size = data.len();
        let count = self.head.len();
        proof {
            lemma_fresh(self.segments(), size as int);
        }
        let should_create = if count == 0 {
            true
        } else {
            self.head[count - 1].room() < size
        };
        if should_create {
            self.create_node_tail(size);
        }
        let ghost base = self.segments();
        proof {
            lemma_tail_extended(base, data@);
        }
        let node = deque_back_mut(&mut self.head).unwrap();
        let end = node.end;
        blit(data, 0, node.dh.data.as_mut_slice(), end, size);
        node.end += size;
        self.length += size;
        proof {
            assert(data@.subrange(0, size as int) =~= data@);
            assert(self.segments() =~= tail_extended(base, data@));
        }
    }

    /// Copies `data` to the front of the chain: in front of the window of
    /// the first node where that node has the room, else into a new node,
    /// sized as in `append_bytes`, whose window starts out at the end of its
    /// buffer.
    pub fn prepend_bytes(&mut self, data: &[u8])
        requires
            old(self).wf(),
            old(self)@.len() + data@.len() <= usize::MAX,
        ensures
            final(self).wf(),
            final(self)@ == data@ + old(self)@,
            final(self).segments() == if head_has_room(old(self).segments(), data@.len() as int) {
                head_extended(old(self).segments(), data@)
            } else {
                head_extended(with_fresh_head(old(self).segments(), data@.len() as int), data@)
            },
    {
        let size = data.len();
        proof {
            lemma_fresh(self.segments(), size as int);
        }
        let should_create = if self.head.len() == 0 {
            true
        } else {
            size > self.head[0].start
        };
        if should_create {
            self.create_node_head(size);
        }
        let ghost base = self.segments();
        proof {
            lemma_head_extended(base, data@);
        }
        let mut node = self.head.pop_front().unwrap();
        let start = node.start;
        blit(data, 0, node.dh.data.as_mut_slice(), start - size, size);
        node.start -= size;
        self.head.push_front(node);
        self.length += size;
        proof {
            assert(data@.subrange(0, size as int) =~= data@);
            assert(self.segments() =~= head_extended(base, data@));
        }
    }

    /// The first `size` bytes of the chain as one slice, or `None` where
    /// `size` is zero or more than the chain holds.
    ///
    /// Where the first node does not hold that many bytes, they are copied
    /// into a new node, which takes the place of the nodes that held them.
    pub fn pullup(&mut self, size: usize) -> (r: Option<&[u8]>)
        requires
            old(self).wf(),
        ensures
            final(self).wf(),
            final(self)@ == old(self)@,
            final(self).segments() == pulled_up(old(self).segments(), size as int),
            r is Some <==> 0 < size <= old(self)@.len(),
            r matches Some(s) ==> s@ == old(self)@.take(size as int),
    {
        let ghost before = self.segments();
        proof {
            lemma_pulled_up(before, size as int);
        }
        if size == 0 || size > self.length {
            return None;
        }
        if self.head[0].size() < size {
            self.coalesce(size);
        }
        let node = &self.head[0];
        let s = vstd::slice::slice_subrange(node.dh.data.as_slice(), node.start, node.start + size);
        Some(s)
    }

    /// Replaces the nodes that hold the first `size` bytes by one new node
    /// that holds them all.
    fn coalesce(&mut self, size: usize)
        requires
            old(self).wf(),
            0 < size <= old(self)@.len(),
        ensures
            final(self).wf(),
            final(self).segments() == seq![coalesced(old(self)@.take(size as int))] + drained(
                old(self).segments(),
                size as int,
            ),
    {
        let ghost before = self.segments();
        let ghost target = self@.take(size as int);
        let mut newn = ChbNode::new(ChbDataHolder::new(size));
        let mut msize = size;
        while msize > 0
            invariant
                forall|i: int| 0 <= i < self.head@.len() ==> (#[trigger] self.head@[i]).wf(),
                all_wf(self.segments()),
                self.length == flat(self.segments()).len(),
                0 <= msize <= flat(self.segments()).len(),
                msize <= size,
                drained(self.segments(), msize as int) == drained(before, size as int),
                newn.wf(),
                newn@.start == 0,
                newn@.end == size - msize,
                newn@.backing.len() == size,
                newn@.bytes() + flat(self.segments()).take(msize as int) == target,
            decreases msize, self.segments().len(),
        {
            let ghost cur = self.segments();
            let mut node = self.head.pop_front().unwrap();
            assert(self.segments() =~= cur.drop_first());
            let front_size = node.size();
            let csize = if front_size < msize {
                front_size
            } else {
                msize
            };
            let end = newn.end;
            blit(node.dh.data.as_slice(), node.start, newn.dh.data.as_mut_slice(), end, csize);
            newn.end += csize;
            if front_size > msize {
                node.start += msize;
                let ghost adv = node@;
                self.head.push_front(node);
                self.length -= msize;
                proof {
                    assert(self.segments() =~= seq![adv] + cur.drop_first());
                    lemma_flat_cons(adv, cur.drop_first());
                }
                msize = 0;
            } else {
                self.length -= front_size;
                msize -= front_size;
            }
        }
        proof {
            assert(newn@.backing =~= target);
            lemma_drained(before, size as int);
        }
        self.add_node_head(newn);
    }

    fn add_node_tail(&mut self, node: Box<ChbNode>)
        requires
            old(self).wf(),
            node.wf(),
            old(self)@.len() + node@.size() <= usize::MAX,
        ensures
            final(self).wf(),
            final(self).segments() == old(self).segments().push(node@),
    {
        proof {
            lemma_flat_push(self.segments(), node@);
        }
        self.length += node.size();
        self.head.push_back(node);
        assert(self.segments() =~= old(self).segments().push(node@));
    }

    fn add_node_head(&mut self, node: Box<ChbNode>)
        requires
            forall|i: int| 0 <= i < old(self).head@.len() ==> (#[trigger] old(self).head@[i]).wf(),
            old(self).length == flat(old(self).segments()).len(),
            node.wf(),
            old(self).length + node@.size() <= usize::MAX,
        ensures
            final(self).wf(),
            final(self).segments() == seq![node@] + old(self).segments(),
    {
        proof {
            lemma_flat_cons(node@, self.segments());
        }
        self.length += node.size();
        self.head.push_front(node);
        assert(self.segments() =~= seq![node@] + old(self).segments());
    }

    fn create_node_tail(&mut self, size: usize)
        requires
            old(self).wf(),
            fresh_capacity(size as int) <= usize::MAX,
        ensures
            final(self).wf(),
            final(self).segments() == with_fresh_tail(old(self).segments(), size as int),
    {
        let nsize = if size < CHB_MIN_SIZE {
            2 * size
        } else {
            size
        };
        let node = ChbNode::new(ChbDataHolder::new(nsize));
        self.add_node_tail(node);
    }

    fn create_node_head(&mut self, size: usize)
        requires
            old(self).wf(),
            fresh_capacity(size as int) <= usize::MAX,
        ensures
            final(self).wf(),
            final(self).segments() == with_fresh_head(old(self).segments(), size as int),
    {
        let nsize = if size < CHB_MIN_SIZE {
            2 * size
        } else {
            size
        };
        let mut node = ChbNode::new(ChbDataHolder::new(nsize));
        let r = node.room();
        node.start = r;
        node.end = r;
        self.add_node_head(node);
    }
}

} // verus!
