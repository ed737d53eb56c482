//! The chained buffer.

use crate::layout::{
    CHB_MIN_SIZE, Segment, all_wf, appended, coalesced, drained, flat, fresh_capacity,
    gather_count, head_extended, head_has_room, left_behind, lemma_drained, lemma_flat_concat,
    lemma_flat_cons, lemma_flat_push, lemma_flat_split, lemma_fresh, lemma_head_extended,
    lemma_locate, lemma_locate_unique, lemma_offsets, lemma_pulled_up, lemma_split,
    lemma_tail_committed, lemma_tail_extended, locate, moved_out, offset_of, on_boundary,
    prepended, pulled_up, pulled_up_from, tail_committed, tail_extended, tail_has_room,
    tail_overwritten, tail_room, with_fresh_head, with_fresh_tail,
};
use crate::node::Node;
use crate::search::{
    failure_table, first_match, first_occurrence, longest_overlap, matches_at, no_match_ends_by,
    scan, table_ok,
};
use crate::storage::MemoryWrapper;
use std::collections::VecDeque;
use std::str::Utf8Error;
use vstd::prelude::*;
use vstd::string::StringSliceAdditionalSpecFns;
use vstd::utf8::valid_utf8;

verus! {

/// `VecDeque::back_mut`: a mutable reference to the last item, or `None`
/// where there is none. What is written through the reference is written to
/// that item and to no other.
#[verifier::external_body]
pub(crate) fn deque_back_mut<Item>(v: &mut VecDeque<Item>) -> (r: Option<&mut Item>)
    ensures
        match r {
            Some(x) => {
                &&& old(v)@.len() > 0
                &&& *x == old(v)@.last()
                &&& final(v)@ == old(v)@.update(old(v)@.len() - 1, *final(x))
            },
            None => {
                &&& old(v)@.len() == 0
                &&& final(v)@ == old(v)@
            },
        },
{
    v.back_mut()
}

/// The error of `std::str::from_utf8`. Nothing is read from it.
#[verifier::external_type_specification]
#[verifier::external_body]
pub struct ExUtf8Error(Utf8Error);

/// `std::str::from_utf8`: the string whose bytes are `bytes`, where these are
/// valid UTF-8, and an error where they are not.
#[verifier::external_body]
fn str_from_utf8<'a>(bytes: &'a [u8]) -> (r: Result<&'a str, Utf8Error>)
    ensures
        r is Ok <==> valid_utf8(bytes@),
        r matches Ok(s) ==> s.spec_bytes() == bytes@,
{
    std::str::from_utf8(bytes)
}

/// The bytes of a chain are not valid UTF-8.
#[derive(Debug, Clone, Copy)]
pub struct InvalidUtf8;

/// The size of the buffer allocated to take `size` new bytes.
fn fresh_size(size: usize) -> (r: usize)
    ensures
        r == fresh_capacity(size as int),
{
    if size < CHB_MIN_SIZE {
        2 * size
    } else {
        size
    }
}

/// Whether two slices hold the same bytes.
fn same_bytes(a: &[u8], b: &[u8]) -> (r: bool)
    requires
        a@.len() == b@.len(),
    ensures
        r == (a@ == b@),
{
    let mut j: usize = 0;
    while j < a.len()
        invariant
            a@.len() == b@.len(),
            j <= a@.len(),
            a@.take(j as int) == b@.take(j as int),
        decreases a@.len() - j,
    {
        if a[j] != b[j] {
            return false;
        }
        j += 1;
    }
    assert(a@.take(a@.len() as int) =~= a@);
    assert(b@.take(b@.len() as int) =~= b@);
    true
}

/// Moves at most `n` items from the front of `src` to the back of `dst`.
pub fn move_n<Item>(src: &mut VecDeque<Item>, dst: &mut VecDeque<Item>, n: usize)
    ensures
        n <= old(src)@.len() ==> {
            &&& final(dst)@ == old(dst)@ + old(src)@.take(n as int)
            &&& final(src)@ == old(src)@.skip(n as int)
        },
        n > old(src)@.len() ==> {
            &&& final(dst)@ == old(dst)@ + old(src)@
            &&& final(src)@ == Seq::<Item>::empty()
        },
{
    let mut nc = n;
    while nc > 0 && src.len() > 0
        invariant
            nc <= n,
            n - nc <= old(src)@.len(),
            dst@ == old(dst)@ + old(src)@.take(n - nc),
            src@ == old(src)@.skip(n - nc),
        decreases nc,
    {
        let el = src.pop_front().unwrap();
        dst.push_back(el);
        nc -= 1;
    }
}

/// Where a byte of a chain lies.
pub struct NodeAtPosInfo {
    /// Index of the node that holds the byte.
    pub pos: usize,
    /// Offset of the byte within that node's window.
    pub offset: usize,
}

/// A buffer of bytes held as a list of nodes.
///
/// `chain@` is the bytes it holds, in order; `chain.segments()` is the
/// windows that hold them. Nodes of different chains may share a block of
/// storage; a chain writes to a block in place only while no other node
/// shares it, so what one chain does never changes the bytes of another.
pub struct Chain<'src> {
    head: VecDeque<Node<'src>>,
    length: usize,
}

impl<'src> View for Chain<'src> {
    type V = Seq<u8>;

    open spec fn view(&self) -> Seq<u8> {
        flat(self.segments())
    }
}

impl<'src> Chain<'src> {
    /// The windows of the chain's nodes, first to last.
    pub closed spec fn segments(&self) -> Seq<Segment> {
        self.head@.map_values(|n: Node<'src>| n@)
    }

    /// The number of bytes that the chain holds on record.
    pub closed spec fn spec_len(&self) -> usize {
        self.length
    }

    /// Every window lies inside its block, and the length on record is the
    /// number of bytes in the windows.
    pub open spec fn wf(&self) -> bool {
        &&& all_wf(self.segments())
        &&& self.spec_len() == self@.len()
    }

    /// An empty chain. No storage is allocated until bytes arrive.
    pub fn new() -> (r: Chain<'src>)
        ensures
            r.wf(),
            r.segments() == Seq::<Segment>::empty(),
            r@ == Seq::<u8>::empty(),
    {
        Chain { head: VecDeque::new(), length: 0 }
    }

    /// Number of bytes in the chain.
    #[verifier::when_used_as_spec(spec_len)]
    pub fn len(&self) -> (r: usize)
        ensures
            r == self.spec_len(),
            self.wf() ==> r == self@.len(),
    {
        self.length
    }

    /// Number of nodes in the chain.
    pub fn node_count(&self) -> (r: usize)
        ensures
            r == self.segments().len(),
    {
        self.head.len()
    }

    /// Whether the buffer of the last node must not be written to in place
    /// at the moment: always where the chain has no node or the node's block
    /// is a borrowed slice, and for a buffer while another node shares it.
    pub fn tail_is_readonly(&self) -> (r: bool)
        ensures
            self.segments().len() == 0 || !self.segments().last().writable ==> r,
    {
        let count = self.head.len();
        if count == 0 {
            true
        } else {
            self.head[count - 1].holds_readonly()
        }
    }

    /// Whether the buffer of the first node must not be written to in place
    /// at the moment; see `tail_is_readonly`.
    pub fn head_is_readonly(&self) -> (r: bool)
        ensures
            self.segments().len() == 0 || !self.segments().first().writable ==> r,
    {
        if self.head.len() == 0 {
            true
        } else {
            self.head[0].holds_readonly()
        }
    }

    /// Copies `data` to the end of the chain.
    ///
    /// The bytes go behind the window of the last node where that node has
    /// the room and its buffer is shared with no other node; else into a new
    /// node, whose buffer is twice the size of `data` where `data` is shorter
    /// than `CHB_MIN_SIZE`.
    pub fn append_bytes(&mut self, data: &[u8])
        requires
            old(self).wf(),
            old(self)@.len() + data@.len() <= usize::MAX,
        ensures
            final(self).wf(),
            final(self)@ == old(self)@ + data@,
            appended(old(self).segments(), final(self).segments(), data@),
    {
        let readonly = self.tail_is_readonly();
        self.append_bytes_with(data, readonly);
    }

    /// Copies `data` to the end of the chain, given whether the buffer of
    /// the last node is to be left alone: behind the window of the last node
    /// where `readonly` is false and that node is writable and has the room,
    /// else into a new node.
    pub fn append_bytes_with(&mut self, data: &[u8], readonly: bool)
        requires
            old(self).wf(),
            old(self)@.len() + data@.len() <= usize::MAX,
        ensures
            final(self).wf(),
            final(self)@ == old(self)@ + data@,
            final(self).segments() == if !readonly && tail_has_room(
                old(self).segments(),
                data@.len() as int,
            ) {
                tail_extended(old(self).segments(), data@)
            } else {
                tail_extended(with_fresh_tail(old(self).segments(), data@.len() as int), data@)
            },
    {
        let size = data.len();
        let count = self.head.len();
        let should_create = if readonly || count == 0 {
            true
        } else {
            assert(self.segments().last() == self.head@[count - 1]@);
            self.head[count - 1].room() < size || !self.head[count - 1].holds_buffer()
        };
        if should_create {
            let node = Node::with_size(fresh_size(size));
            self.add_node_tail(node);
        }
        let ghost base = self.segments();
        proof {
            lemma_tail_extended(base, data@);
        }
        let node = deque_back_mut(&mut self.head).unwrap();
        node.fill_tail(data);
        self.length += size;
        assert(self.segments() =~= tail_extended(base, data@));
    }

    /// Copies `data` to the front of the chain.
    ///
    /// The bytes go in front of the window of the first node where that node
    /// has the room and its buffer is shared with no other node; else into a
    /// new node, sized as in `append_bytes`, whose window starts out at the
    /// end of its buffer.
    pub fn prepend_bytes(&mut self, data: &[u8])
        requires
            old(self).wf(),
            old(self)@.len() + data@.len() <= usize::MAX,
        ensures
            final(self).wf(),
            final(self)@ == data@ + old(self)@,
            prepended(old(self).segments(), final(self).segments(), data@),
    {
        let readonly = self.head_is_readonly();
        self.prepend_bytes_with(data, readonly);
    }

    /// Copies `data` to the front of the chain, given whether the buffer of
    /// the first node is to be left alone: in front of the window of the
    /// first node where `readonly` is false and that node is writable and
    /// has the room, else into a new node.
    pub fn prepend_bytes_with(&mut self, data: &[u8], readonly: bool)
        requires
            old(self).wf(),
            old(self)@.len() + data@.len() <= usize::MAX,
        ensures
            final(self).wf(),
            final(self)@ == data@ + old(self)@,
            final(self).segments() == if !readonly && head_has_room(
                old(self).segments(),
                data@.len() as int,
            ) {
                head_extended(old(self).segments(), data@)
            } else {
                head_extended(with_fresh_head(old(self).segments(), data@.len() as int), data@)
            },
    {
        let size = data.len();
        let ghost before = self.segments();
        let should_create = if readonly || self.head.len() == 0 {
            true
        } else {
            size > self.head[0].headroom() || !self.head[0].holds_buffer()
        };
        proof {
            lemma_fresh(before, size as int);
        }
        let mut node = if should_create {
            Node::with_size_at_end(fresh_size(size))
        } else {
            self.head.pop_front().unwrap()
        };
        let ghost rest = self.segments();
        let ghost empty = node@;
        let ghost base = seq![empty] + rest;
        proof {
            if !should_create {
                assert(base =~= before);
            }
            lemma_head_extended(base, data@);
        }
        node.fill_head(data);
        self.head.push_front(node);
        self.length += size;
        assert(self.segments() =~= head_extended(base, data@));
    }

    /// Adds `data` to the end of the chain without copying it: the chain
    /// gets a new node whose block is `data` itself.
    pub fn append_slice(&mut self, data: &'src [u8])
        requires
            old(self).wf(),
            old(self)@.len() + data@.len() <= usize::MAX,
        ensures
            final(self).wf(),
            final(self)@ == old(self)@ + data@,
            final(self).segments() == old(self).segments().push(
                Segment { backing: data@, start: 0, end: data@.len() as int, writable: false },
            ),
    {
        let mut node = Node::with_data_holder(MemoryWrapper::new(data));
        let room = node.room();
        node.commit(room);
        self.add_node_tail(node);
    }

    /// Room for `size` bytes behind the last window, to be written through;
    /// `written` then adds to the chain what was written.
    ///
    /// The room is that of the last node where that node has it and its
    /// buffer is shared with no other node; else that of a new, empty node,
    /// sized as in `append_bytes`. The chain's bytes stay as they are.
    pub fn reserve(&mut self, size: usize) -> (r: &mut [u8])
        requires
            old(self).wf(),
        ensures
            final(self).wf(),
            final(self)@ == old(self)@,
            final(r)@.len() == size,
            ({
                let before = old(self).segments();
                let roomy = with_fresh_tail(before, size as int);
                ||| {
                    &&& r@ == tail_room(roomy, size as int)
                    &&& final(self).segments() == tail_overwritten(roomy, final(r)@)
                }
                ||| {
                    &&& tail_has_room(before, size as int)
                    &&& r@ == tail_room(before, size as int)
                    &&& final(self).segments() == tail_overwritten(before, final(r)@)
                }
            }),
            tail_has_room(final(self).segments(), size as int),
            tail_room(final(self).segments(), size as int) == final(r)@,
    {
        let readonly = self.tail_is_readonly();
        self.reserve_with(size, readonly)
    }

    /// Room for `size` bytes behind the last window, given whether the
    /// buffer of the last node is to be left alone: the room of the last
    /// node where `readonly` is false and that node is writable and has it,
    /// else that of a new, empty node.
    pub fn reserve_with(&mut self, size: usize, readonly: bool) -> (r: &mut [u8])
        requires
            old(self).wf(),
        ensures
            final(self).wf(),
            final(self)@ == old(self)@,
            final(r)@.len() == size,
            ({
                let before = old(self).segments();
                let base = if !readonly && tail_has_room(before, size as int) {
                    before
                } else {
                    with_fresh_tail(before, size as int)
                };
                &&& r@ == tail_room(base, size as int)
                &&& final(self).segments() == tail_overwritten(base, final(r)@)
            }),
            tail_has_room(final(self).segments(), size as int),
            tail_room(final(self).segments(), size as int) == final(r)@,
    {
        let count = self.head.len();
        let should_create = if readonly || count == 0 {
            true
        } else {
            assert(self.segments().last() == self.head@[count - 1]@);
            self.head[count - 1].room() < size || !self.head[count - 1].holds_buffer()
        };
        if should_create {
            let node = Node::with_size(fresh_size(size));
            self.add_node_tail(node);
        }
        let ghost base = self.segments();
        let ghost nodes = self.head@;
        proof {
            assert forall|x: Node<'src>|
                (#[trigger] nodes.update(nodes.len() - 1, x)).map_values(|n: Node<'src>| n@)
                    == base.update(base.len() - 1, x@) by {
                assert(nodes.update(nodes.len() - 1, x).map_values(|n: Node<'src>| n@)
                    =~= base.update(base.len() - 1, x@));
            }
            assert forall|w: Seq<u8>|
                #![trigger base.last().overwritten(base.last().end, w)]
                w.len() == size implies {
                &&& all_wf(tail_overwritten(base, w))
                &&& flat(tail_overwritten(base, w)) == flat(base)
                &&& tail_room(tail_overwritten(base, w), size as int) == w
                &&& tail_overwritten(base, w).last().room() == base.last().room()
            } by {
                lemma_tail_extended(base, w);
            }
        }
        let node = deque_back_mut(&mut self.head).unwrap();
        node.tail_mut(size)
    }

    /// Adds to the chain the `size` bytes that lie behind the window of its
    /// last node, where `reserve` made room for them.
    pub fn written(&mut self, size: usize)
        requires
            old(self).wf(),
            old(self).segments().len() > 0,
            size <= old(self).segments().last().room(),
            old(self)@.len() + size <= usize::MAX,
        ensures
            final(self).wf(),
            final(self).segments() == tail_committed(old(self).segments(), size as int),
            final(self)@ == old(self)@ + tail_room(old(self).segments(), size as int),
    {
        let ghost base = self.segments();
        proof {
            lemma_tail_committed(base, size as int);
        }
        let node = deque_back_mut(&mut self.head).unwrap();
        node.commit(size);
        self.length += size;
        assert(self.segments() =~= tail_committed(base, size as int));
    }

    /// Does what `written` does where the chain has a last node with `size`
    /// bytes of room behind its window and can count that many bytes more;
    /// else leaves the chain as it is and returns `false`.
    pub fn try_written(&mut self, size: usize) -> (ok: bool)
        requires
            old(self).wf(),
        ensures
            final(self).wf(),
            ok <==> {
                &&& old(self).segments().len() > 0
                &&& size <= old(self).segments().last().room()
                &&& old(self)@.len() + size <= usize::MAX
            },
            ok ==> final(self).segments() == tail_committed(old(self).segments(), size as int),
            ok ==> final(self)@ == old(self)@ + tail_room(old(self).segments(), size as int),
            !ok ==> final(self).segments() == old(self).segments(),
    {
        let count = self.head.len();
        if count == 0 {
            return false;
        }
        assert(self.segments().last() == self.head@[count - 1]@);
        if size > self.head[count - 1].room() || size > usize::MAX - self.length {
            return false;
        }
        self.written(size);
        true
    }

    /// Drops the first `size` bytes of the chain, or all of them where it
    /// holds fewer. Nodes that lie wholly within those bytes are removed; the
    /// node that holds more than is left to drop only has its window moved.
    pub fn drain(&mut self, size: usize)
        requires
            old(self).wf(),
        ensures
            final(self).wf(),
            final(self).segments() == drained(old(self).segments(), size as int),
            size <= old(self)@.len() ==> final(self)@ == old(self)@.skip(size as int),
            size >= old(self)@.len() ==> final(self)@ == Seq::<u8>::empty(),
            final(self).segments().len() <= old(self).segments().len(),
            old(self).segments().len() > 0 && 0 < size < old(self).segments().first().size()
                ==> final(self).segments() == old(self).segments().update(
                0,
                old(self).segments().first().advanced(size as int),
            ),
    {
        let ghost before = self.segments();
        proof {
            lemma_drained(before, size as int);
        }
        let mut msize = size;
        while msize > 0 && self.head.len() > 0
            invariant
                self.wf(),
                drained(self.segments(), msize as int) == drained(before, size as int),
            decreases self.segments().len(), msize,
        {
            let ghost cur = self.segments();
            let front_size = self.head[0].size();
            let mut node = self.head.pop_front().unwrap();
            assert(self.segments() =~= cur.drop_first());
            if front_size > msize {
                node.advance(msize);
                let ghost adv = node@;
                self.head.push_front(node);
                self.length -= msize;
                proof {
                    assert(self.segments() =~= seq![adv] + cur.drop_first());
                    lemma_flat_cons(adv, cur.drop_first());
                }
                msize = 0;
            } else {
                self.length -= front_size;
                msize -= front_size;
            }
        }
    }

    /// The first `size` bytes of the chain as one slice, or `None` where
    /// `size` is zero or more than the chain holds.
    ///
    /// Where the first node does not hold that many bytes, they are copied
    /// into a new node, which takes the place of the nodes that held them.
    pub fn pullup(&mut self, size: usize) -> (r: Option<&[u8]>)
        requires
            old(self).wf(),
        ensures
            final(self).wf(),
            final(self)@ == old(self)@,
            final(self).segments() == pulled_up(old(self).segments(), size as int),
            r is Some <==> 0 < size <= old(self)@.len(),
            r matches Some(s) ==> s@ == old(self)@.take(size as int),
    {
        let ghost before = self.segments();
        let ghost target = self@.take(size as int);
        proof {
            lemma_pulled_up(before, size as int);
        }
        if size == 0 || size > self.length {
            return None;
        }
        if self.head[0].size() >= size {
            return Some(self.head[0].get_data_from_start(size));
        }
        let mut newn = Node::with_size(size);
        let mut msize = size;
        while msize > 0
            invariant
                all_wf(self.segments()),
                self.length == flat(self.segments()).len(),
                0 <= msize <= flat(self.segments()).len(),
                msize <= size,
                drained(self.segments(), msize as int) == drained(before, size as int),
                newn.wf(),
                newn@.writable,
                newn@.start == 0,
                newn@.end == size - msize,
                newn@.backing.len() == size,
                newn@.bytes() + flat(self.segments()).take(msize as int) == target,
            decreases msize, self.segments().len(),
        {
            let ghost cur = self.segments();
            let front_size = self.head[0].size();
            let csize = if front_size < msize {
                front_size
            } else {
                msize
            };
            newn.fill_tail(self.head[0].get_data_from_start(csize));
            let mut node = self.head.pop_front().unwrap();
            assert(self.segments() =~= cur.drop_first());
            if front_size > msize {
                node.advance(msize);
                let ghost adv = node@;
                self.head.push_front(node);
                self.length -= msize;
                proof {
                    assert(self.segments() =~= seq![adv] + cur.drop_first());
                    lemma_flat_cons(adv, cur.drop_first());
                }
                msize = 0;
            } else {
                self.length -= front_size;
                msize -= front_size;
            }
        }
        proof {
            assert(newn@.backing =~= target);
            lemma_drained(before, size as int);
        }
        let ghost rest = self.segments();
        self.head.push_front(newn);
        self.length += size;
        assert(self.segments() =~= seq![coalesced(target)] + rest);
        Some(self.head[0].get_data_from_start(size))
    }

    /// A chain that takes over everything `src` holds.
    pub fn from_foreign(src: Chain<'src>) -> (r: Chain<'src>)
        requires
            src.wf(),
        ensures
            r.wf(),
            r.segments() == src.segments(),
            r@ == src@,
    {
        let mut ch = Chain::new();
        ch.concat(src);
        ch
    }

    /// Takes over the nodes of `src`, behind the chain's own. No byte is
    /// copied.
    pub fn concat(&mut self, src: Chain<'src>)
        requires
            old(self).wf(),
            src.wf(),
            old(self)@.len() + src@.len() <= usize::MAX,
        ensures
            final(self).wf(),
            final(self).segments() == old(self).segments() + src.segments(),
            final(self)@ == old(self)@ + src@,
    {
        let mut src = src;
        let ghost taken = src.segments();
        proof {
            lemma_flat_concat(self.segments(), taken);
        }
        self.length += src.length;
        self.head.append(&mut src.head);
        assert(self.segments() =~= old(self).segments() + taken);
    }

    /// Drops every node, leaving the chain empty.
    pub fn reset(&mut self)
        ensures
            final(self).wf(),
            final(self).segments() == Seq::<Segment>::empty(),
            final(self)@ == Seq::<u8>::empty(),
    {
        self.head = VecDeque::new();
        self.length = 0;
    }

    /// Adds a window into each block of `src`, in order, behind the chain's
    /// own nodes. The blocks are shared, not copied, and `src` stays as it is.
    pub fn append(&mut self, src: &Chain<'src>)
        requires
            old(self).wf(),
            src.wf(),
            old(self)@.len() + src@.len() <= usize::MAX,
        ensures
            final(self).wf(),
            final(self).segments() == old(self).segments() + src.segments(),
            final(self)@ == old(self)@ + src@,
    {
        let n = src.head.len();
        let mut i: usize = 0;
        proof {
            lemma_flat_concat(self.segments(), src.segments());
        }
        while i < n
            invariant
                n == src.head@.len(),
                i <= n,
                src.wf(),
                old(self).wf(),
                old(self)@.len() + src@.len() <= usize::MAX,
                self.segments() == old(self).segments() + src.segments().take(i as int),
                self.wf(),
            decreases n - i,
        {
            proof {
                lemma_flat_split(src.segments(), i as int);
                lemma_flat_concat(old(self).segments(), src.segments().take(i as int));
            }
            let node = src.head[i].clone();
            self.add_node_tail(node);
            i += 1;
        }
    }

    /// Moves at most `size` bytes from the front of `src` to the back of the
    /// chain and returns how many were moved. Nodes are handed over whole;
    /// where `size` falls inside a node, that node is split in two windows
    /// into the same block. No byte is copied.
    pub fn move_from(&mut self, src: &mut Chain<'src>, size: usize) -> (moved: usize)
        requires
            old(self).wf(),
            old(src).wf(),
            old(self)@.len() + size <= usize::MAX || old(self)@.len() + old(src)@.len()
                <= usize::MAX,
        ensures
            final(self).wf(),
            final(src).wf(),
            moved == if size <= old(src)@.len() {
                size as int
            } else {
                old(src)@.len() as int
            },
            final(self).segments() == old(self).segments() + moved_out(
                old(src).segments(),
                size as int,
            ),
            final(src).segments() == left_behind(old(src).segments(), size as int),
            final(self)@ == old(self)@ + old(src)@.take(moved as int),
            final(src)@ == old(src)@.skip(moved as int),
            final(self).segments().len() + final(src).segments().len()
                <= old(self).segments().len() + old(src).segments().len() + 1,
            on_boundary(old(src).segments(), size as int) ==> final(self).segments()
                + final(src).segments() == old(self).segments() + old(src).segments(),
    {
        let ghost ours = self.segments();
        let ghost theirs = src.segments();
        proof {
            lemma_split(theirs, size as int);
            lemma_flat_concat(ours, moved_out(theirs, size as int));
        }
        if size == 0 {
            return 0;
        }
        if size >= src.len() {
            let sz = src.len();
            self.move_all_from(src);
            return sz;
        }
        let info = src.node_at_pos(size).unwrap();
        proof {
            lemma_locate(theirs, size as int);
        }
        move_n(&mut src.head, &mut self.head, info.pos);
        assert(self.segments() =~= ours + theirs.take(info.pos as int));
        assert(src.segments() =~= theirs.skip(info.pos as int));
        if info.offset != 0 {
            let mut node = src.head.pop_front().unwrap();
            let mut rest = node.clone();
            rest.advance(info.offset);
            node.truncate(info.offset);
            self.head.push_back(node);
            src.head.push_front(rest);
            assert(self.segments() =~= ours + moved_out(theirs, size as int));
            assert(src.segments() =~= left_behind(theirs, size as int));
        }
        self.length += size;
        src.length -= size;
        size
    }

    /// Moves every node of `src` to the back of the chain and leaves `src`
    /// empty. No byte is copied: where the chain has no node of its own the
    /// two lists of nodes change places, else the nodes are handed over one
    /// by one.
    pub fn move_all_from(&mut self, src: &mut Chain<'src>)
        requires
            old(self).wf(),
            old(src).wf(),
            old(self)@.len() + old(src)@.len() <= usize::MAX,
        ensures
            final(self).wf(),
            final(src).wf(),
            final(self).segments() == old(self).segments() + old(src).segments(),
            final(src).segments() == Seq::<Segment>::empty(),
            final(self)@ == old(self)@ + old(src)@,
            final(src)@ == Seq::<u8>::empty(),
    {
        proof {
            lemma_flat_concat(self.segments(), src.segments());
        }
        self.length += src.length;
        if self.head.len() == 0 {
            std::mem::swap(&mut self.head, &mut src.head);
        } else {
            self.head.append(&mut src.head);
        }
        src.length = 0;
        assert(self.segments() =~= old(self).segments() + old(src).segments());
    }

    /// The node that holds the byte at offset `pos`, and the byte's offset in
    /// that node's window; `None` where the chain has no such byte.
    ///
    /// The nodes are walked from the front where `pos` lies in the first half
    /// of the chain, and from the back otherwise.
    pub fn node_at_pos(&self, pos: usize) -> (r: Option<NodeAtPosInfo>)
        requires
            self.wf(),
        ensures
            r is Some <==> pos < self@.len(),
            r matches Some(info) ==> (info.pos as int, info.offset as int) == locate(
                self.segments(),
                pos as int,
            ),
    {
        if pos >= self.length {
            return None;
        }
        let ghost segs = self.segments();
        let count = self.head.len();
        if pos > self.length - pos {
            let mut toff = self.length;
            let mut i = count;
            assert(segs.take(count as int) =~= segs);
            while i > 0
                invariant
                    self.wf(),
                    segs == self.segments(),
                    count == self.head@.len(),
                    i <= count,
                    toff == offset_of(segs, i as int),
                    pos < toff,
                decreases i,
            {
                proof {
                    lemma_offsets(segs, i - 1);
                }
                let nsize = self.head[i - 1].size();
                if toff - pos <= nsize {
                    proof {
                        lemma_locate_unique(segs, pos as int, i - 1);
                    }
                    return Some(NodeAtPosInfo { pos: i - 1, offset: nsize - (toff - pos) });
                }
                toff -= nsize;
                i -= 1;
            }
            None
        } else {
            let mut hoff: usize = 0;
            let mut i: usize = 0;
            while i < count
                invariant
                    self.wf(),
                    segs == self.segments(),
                    count == self.head@.len(),
                    i <= count,
                    hoff == offset_of(segs, i as int),
                    hoff <= pos < self.length,
                decreases count - i,
            {
                proof {
                    lemma_offsets(segs, i as int);
                }
                let nsize = self.head[i].size();
                if pos - hoff < nsize {
                    proof {
                        lemma_locate_unique(segs, pos as int, i as int);
                    }
                    return Some(NodeAtPosInfo { pos: i, offset: pos - hoff });
                }
                hoff += nsize;
                i += 1;
            }
            assert(segs.take(count as int) =~= segs);
            None
        }
    }

    /// The `size` bytes from offset `offs` on as one slice, or `None` where
    /// `size` is zero or the chain does not hold that many bytes from there.
    ///
    /// Where no single node holds them, the chain is split at `offs` and the
    /// bytes are pulled up at the head of its second part.
    pub fn pullup_from(&mut self, offs: usize, size: usize) -> (r: Option<&[u8]>)
        requires
            old(self).wf(),
        ensures
            final(self).wf(),
            final(self)@ == old(self)@,
            final(self).segments() == pulled_up_from(
                old(self).segments(),
                offs as int,
                size as int,
            ),
            r is Some <==> size > 0 && offs + size <= old(self)@.len(),
            r matches Some(s) ==> s@ == old(self)@.subrange(offs as int, offs + size),
    {
        let ghost before = self.segments();
        if size == 0 || offs >= self.length || size > self.length - offs {
            return None;
        }
        let info = self.node_at_pos(offs).unwrap();
        proof {
            lemma_locate(before, offs as int);
            lemma_offsets(before, info.pos as int);
        }
        if size <= self.head[info.pos].size() - info.offset {
            return Some(self.head[info.pos].get_data_from(info.offset, size));
        }
        let mut tmp = Chain::new();
        tmp.move_from(self, offs);
        let index = tmp.node_count();
        let _ = self.pullup(size);
        let ghost pulled = self.segments();
        tmp.move_all_from(self);
        self.concat(tmp);
        assert(self.segments()[index as int] == pulled.first());
        Some(self.head[index].get_data_from_start(size))
    }

    /// The bytes from the start of the chain to the end of the first
    /// occurrence of `needle`, as one slice; `None` where `needle` does not
    /// occur or is empty.
    pub fn pullup_to(&mut self, needle: &[u8]) -> (r: Option<&[u8]>)
        requires
            old(self).wf(),
        ensures
            final(self).wf(),
            final(self)@ == old(self)@,
            r is Some <==> first_occurrence(old(self)@, needle@) is Some && needle@.len() > 0,
            r matches Some(s) ==> s@ == old(self)@.take(
                first_occurrence(old(self)@, needle@).unwrap() + needle@.len(),
            ),
            final(self).segments() == match first_occurrence(old(self)@, needle@) {
                Some(offset) => pulled_up(old(self).segments(), offset + needle@.len()),
                None => old(self).segments(),
            },
    {
        match self.find(needle) {
            Some(offset) => {
                proof {
                    if needle@.len() == 0 {
                        assert(self@.subrange(0, 0) =~= needle@);
                        assert(matches_at(self@, needle@, 0));
                    }
                }
                self.pullup(offset + needle.len())
            },
            None => None,
        }
    }

    /// All bytes of the chain as one slice; `None` where the chain is empty.
    pub fn pullup_all(&mut self) -> (r: Option<&[u8]>)
        requires
            old(self).wf(),
        ensures
            final(self).wf(),
            final(self)@ == old(self)@,
            final(self).segments() == pulled_up(old(self).segments(), old(self)@.len() as int),
            r is Some <==> old(self)@.len() > 0,
            r matches Some(s) ==> s@ == old(self)@,
    {
        let l = self.len();
        self.pullup(l)
    }

    /// All bytes of the chain as a string: `None` where the chain is empty,
    /// an error where its bytes are not valid UTF-8.
    pub fn to_utf8_str(&mut self) -> (r: Option<Result<&str, InvalidUtf8>>)
        requires
            old(self).wf(),
        ensures
            final(self).wf(),
            final(self)@ == old(self)@,
            final(self).segments() == pulled_up(old(self).segments(), old(self)@.len() as int),
            r is None <==> old(self)@.len() == 0,
            r matches Some(Ok(s)) ==> valid_utf8(old(self)@) && s.spec_bytes() == old(self)@,
            r matches Some(Err(_)) ==> !valid_utf8(old(self)@),
    {
        match self.pullup_all() {
            Some(bytes) => match str_from_utf8(bytes) {
                Ok(s) => Some(Ok(s)),
                Err(_) => Some(Err(InvalidUtf8)),
            },
            None => None,
        }
    }

    /// The bytes to hand to one vectored write, one slice for each node from
    /// the first on: nodes are taken until they hold `size` bytes or more
    /// (all bytes of the chain where `size` is `None`), and `nodes` of them at
    /// most (all nodes where `nodes` is `None`). Nothing is copied. Once the
    /// write has reported how many bytes it took, `drain_written` drops them.
    pub fn gather(&self, size: Option<usize>, nodes: Option<usize>) -> (v: Vec<&[u8]>)
        requires
            self.wf(),
        ensures
            v@.len() == gather_count(
                self.segments(),
                match size {
                    Some(s) => s as int,
                    None => self@.len() as int,
                },
                match nodes {
                    Some(n) => n as int,
                    None => self.segments().len() as int,
                },
            ),
            v@.len() <= self.segments().len(),
            forall|i: int| 0 <= i < v@.len() ==> (#[trigger] v@[i])@ == self.segments()[i].bytes(),
    {
        let count = self.head.len();
        let max_size = match size {
            Some(s) => s,
            None => self.length,
        };
        let max_nodes = match nodes {
            Some(n) => n,
            None => count,
        };
        let ghost segs = self.segments();
        let mut v: Vec<&[u8]> = Vec::new();
        let mut towrite: usize = 0;
        let mut i: usize = 0;
        let mut done = false;
        assert(segs.skip(0) =~= segs);
        while i < count && i < max_nodes && !done
            invariant
                self.wf(),
                segs == self.segments(),
                count == self.head@.len(),
                i <= count,
                i <= max_nodes,
                towrite == offset_of(segs, i as int),
                !done ==> towrite <= max_size,
                !done ==> gather_count(segs, max_size as int, max_nodes as int) == i
                    + gather_count(segs.skip(i as int), max_size - towrite, max_nodes - i),
                done ==> gather_count(segs, max_size as int, max_nodes as int) == i,
                v@.len() == i,
                forall|j: int| 0 <= j < i ==> (#[trigger] v@[j])@ == segs[j].bytes(),
            decreases count - i,
        {
            proof {
                lemma_offsets(segs, i as int);
                assert(segs.skip(i as int).drop_first() =~= segs.skip(i + 1));
            }
            let ns = self.head[i].size();
            let d = self.head[i].get_data_from_start(ns);
            v.push(d);
            towrite += ns;
            i += 1;
            if towrite >= max_size {
                done = true;
            }
        }
        v
    }

    /// Takes note of what a write of the slices of `gather` reported: the
    /// bytes reported as written are drained from the chain, and an error
    /// leaves the chain as it is. Returns the report.
    pub fn drain_written<Failure>(&mut self, report: Result<usize, Failure>) -> (r: Result<
        usize,
        Failure,
    >)
        requires
            old(self).wf(),
        ensures
            final(self).wf(),
            r == report,
            final(self).segments() == match report {
                Ok(written) => drained(old(self).segments(), written as int),
                Err(_) => old(self).segments(),
            },
    {
        match report {
            Ok(written) => {
                self.drain(written);
                Ok(written)
            },
            Err(e) => Err(e),
        }
    }

    /// The offset of the first occurrence of `needle` in the chain, or
    /// `None` where it does not occur. The empty needle occurs at offset 0.
    ///
    /// The nodes are read one after the other; an occurrence may lie across
    /// any number of them.
    pub fn find(&self, needle: &[u8]) -> (r: Option<usize>)
        requires
            self.wf(),
        ensures
            first_match(self@, needle@, r),
            r matches Some(i) ==> first_occurrence(self@, needle@) == Some(i as int),
            r is None ==> first_occurrence(self@, needle@) is None,
    {
        let n = needle.len();
        if n == 0 {
            assert(self@.subrange(0, 0) =~= needle@);
            return Some(0);
        }
        let table = failure_table(needle);
        let ghost segs = self.segments();
        let count = self.head.len();
        let mut matched: usize = 0;
        let mut msum: usize = 0;
        let mut i: usize = 0;
        assert(self@.subrange(0, 0) =~= needle@.take(0));
        while i < count
            invariant
                self.wf(),
                segs == self.segments(),
                count == self.head@.len(),
                n == needle@.len(),
                n > 0,
                table_ok(needle@, table@, n as int),
                i <= count,
                msum == offset_of(segs, i as int),
                longest_overlap(self@, needle@, msum as int, matched as int, n - 1),
                no_match_ends_by(self@, needle@, msum as int),
            decreases count - i,
        {
            proof {
                lemma_offsets(segs, i as int);
            }
            let size = self.head[i].size();
            let data = self.head[i].get_data_from_start(size);
            assert(data@ =~= self@.subrange(msum as int, msum + size));
            match scan(needle, &table, matched, data, Ghost(self@), Ghost(msum as int)) {
                Ok(at) => {
                    return Some(msum + at - (n - 1));
                },
                Err(state) => {
                    matched = state;
                },
            }
            msum += size;
            i += 1;
        }
        assert(segs.take(count as int) =~= segs);
        None
    }

    /// Whether the chain is well formed.
    pub fn is_wf(&self) -> (r: bool)
        ensures
            r == self.wf(),
    {
        let ghost segs = self.segments();
        let count = self.head.len();
        let mut total: usize = 0;
        let mut i: usize = 0;
        while i < count
            invariant
                segs == self.segments(),
                count == self.head@.len(),
                i <= count,
                all_wf(segs.take(i as int)),
                total == offset_of(segs, i as int),
            decreases count - i,
        {
            assert(segs[i as int] == self.head@[i as int]@);
            if !self.head[i].is_wf() {
                return false;
            }
            let size = self.head[i].size();
            proof {
                assert(segs.take(i + 1) =~= segs.take(i as int).push(segs[i as int]));
                lemma_flat_push(segs.take(i as int), segs[i as int]);
            }
            if size > usize::MAX - total {
                proof {
                    lemma_flat_split(segs, i + 1);
                }
                return false;
            }
            total += size;
            i += 1;
        }
        assert(segs.take(count as int) =~= segs);
        total == self.length
    }

    /// Whether two chains hold the same bytes, however each is laid out.
    pub fn eq(&self, other: &Chain<'src>) -> (r: bool)
        requires
            self.wf(),
            other.wf(),
        ensures
            r == (self@ == other@),
    {
        if self.length != other.length {
            return false;
        }
        let ghost ours = self.segments();
        let ghost theirs = other.segments();
        let count1 = self.head.len();
        let count2 = other.head.len();
        let mut n1: usize = 0;
        let mut n2: usize = 0;
        let mut ofs1: usize = 0;
        let mut ofs2: usize = 0;
        let ghost mut pos: int = 0;
        while n1 < count1 && n2 < count2
            invariant
                self.wf(),
                other.wf(),
                ours == self.segments(),
                theirs == other.segments(),
                count1 == self.head@.len(),
                count2 == other.head@.len(),
                self@.len() == other@.len(),
                n1 <= count1,
                n2 <= count2,
                n1 < count1 ==> ofs1 <= ours[n1 as int].size(),
                n2 < count2 ==> ofs2 <= theirs[n2 as int].size(),
                n1 == count1 ==> ofs1 == 0,
                n2 == count2 ==> ofs2 == 0,
                pos == offset_of(ours, n1 as int) + ofs1,
                pos == offset_of(theirs, n2 as int) + ofs2,
                self@.take(pos) == other@.take(pos),
            decreases (count1 - n1) + (count2 - n2),
        {
            proof {
                lemma_offsets(ours, n1 as int);
                lemma_offsets(theirs, n2 as int);
            }
            let size1 = self.head[n1].size();
            let size2 = other.head[n2].size();
            let rest1 = size1 - ofs1;
            let rest2 = size2 - ofs2;
            let k = if rest1 < rest2 {
                rest1
            } else {
                rest2
            };
            let d1 = self.head[n1].get_data_from(ofs1, k);
            let d2 = other.head[n2].get_data_from(ofs2, k);
            proof {
                assert(d1@ =~= self@.subrange(pos, pos + k));
                assert(d2@ =~= other@.subrange(pos, pos + k));
            }
            if !same_bytes(d1, d2) {
                return false;
            }
            proof {
                assert(self@.take(pos + k) =~= self@.take(pos) + self@.subrange(pos, pos + k));
                pos = pos + k;
            }
            ofs1 += k;
            ofs2 += k;
            if ofs1 >= size1 {
                n1 += 1;
                ofs1 = 0;
            }
            if ofs2 >= size2 {
                n2 += 1;
                ofs2 = 0;
            }
        }
        proof {
            assert(ours.take(count1 as int) =~= ours);
            assert(theirs.take(count2 as int) =~= theirs);
            assert(self@.take(pos) =~= self@);
            assert(other@.take(pos) =~= other@);
        }
        true
    }

    /// A copy of the `size` bytes from offset `offs` on, or of as many as the
    /// chain holds from there; none where `offs` is past the end.
    pub fn copy_bytes_from(&self, offs: usize, size: usize) -> (r: Vec<u8>)
        requires
            self.wf(),
        ensures
            offs >= self@.len() ==> r@ == Seq::<u8>::empty(),
            offs < self@.len() && offs + size <= self@.len() ==> r@ == self@.subrange(
                offs as int,
                offs + size,
            ),
            offs < self@.len() && offs + size > self@.len() ==> r@ == self@.skip(offs as int),
    {
        if offs >= self.length {
            return Vec::new();
        }
        let avail = self.length - offs;
        let buf_size = if size < avail {
            size
        } else {
            avail
        };
        let ghost segs = self.segments();
        let count = self.head.len();
        let mut buf: Vec<u8> = Vec::with_capacity(buf_size);
        let info = self.node_at_pos(offs).unwrap();
        let mut idx = info.pos;
        let mut moffs = info.offset;
        let mut msize = buf_size;
        proof {
            lemma_locate(segs, offs as int);
            assert(segs.take(count as int) =~= segs);
        }
        while msize > 0
            invariant
                self.wf(),
                segs == self.segments(),
                count == self.head@.len(),
                offset_of(segs, count as int) == self@.len(),
                msize <= buf_size,
                offs + buf_size <= self@.len(),
                buf@ == self@.subrange(offs as int, offs + buf_size - msize),
                msize > 0 ==> {
                    &&& idx < count
                    &&& moffs <= segs[idx as int].size()
                    &&& offset_of(segs, idx as int) + moffs == offs + buf_size - msize
                },
            decreases msize, count - idx,
        {
            proof {
                lemma_offsets(segs, idx as int);
            }
            let left = self.head[idx].size() - moffs;
            let tocopy = if left < msize {
                left
            } else {
                msize
            };
            let d = self.head[idx].get_data_from(moffs, tocopy);
            buf.extend_from_slice(d);
            msize -= tocopy;
            moffs = 0;
            idx += 1;
        }
        buf
    }

    fn add_node_tail(&mut self, node: Node<'src>)
        requires
            old(self).wf(),
            node.wf(),
            old(self)@.len() + node@.size() <= usize::MAX,
        ensures
            final(self).wf(),
            final(self).segments() == old(self).segments().push(node@),
            final(self)@ == old(self)@ + node@.bytes(),
    {
        proof {
            lemma_flat_push(self.segments(), node@);
        }
        self.length += node.size();
        self.head.push_back(node);
        assert(self.segments() =~= old(self).segments().push(node@));
    }

    fn add_node_head(&mut self, node: Node<'src>)
        requires
            old(self).wf(),
            node.wf(),
            old(self)@.len() + node@.size() <= usize::MAX,
        ensures
            final(self).wf(),
            final(self).segments() == seq![node@] + old(self).segments(),
            final(self)@ == node@.bytes() + old(self)@,
    {
        proof {
            lemma_flat_cons(node@, self.segments());
        }
        self.length += node.size();
        self.head.push_front(node);
        assert(self.segments() =~= seq![node@] + old(self).segments());
    }
}

/// Two chains are equal where they hold the same bytes, however each is
/// laid out. The operator finds out for itself whether the chains are well
/// formed; one that is not equals nothing.
impl<'src> PartialEq for Chain<'src> {
    fn eq(&self, other: &Chain<'src>) -> (r: bool) {
        self.is_wf() && other.is_wf() && Chain::eq(self, other)
    }
}

impl<'src> vstd::std_specs::cmp::PartialEqSpecImpl for Chain<'src> {
    open spec fn obeys_eq_spec() -> bool {
        true
    }

    open spec fn eq_spec(&self, other: &Chain<'src>) -> bool {
        self.wf() && other.wf() && self@ == other@
    }
}

} // verus!
