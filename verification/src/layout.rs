//! The mathematical model of a chain: a sequence of segments, each a window
//! into a block of storage, and the operations on such sequences that the
//! contracts of the executable code speak of.

use vstd::prelude::*;

verus! {

/// Blocks smaller than this are allocated at twice the size asked for.
pub const CHB_MIN_SIZE: usize = 32;

/// A window into a block of storage: the model of one node of a chain.
pub struct Segment {
    /// Everything the block holds, inside and outside the window.
    pub backing: Seq<u8>,
    /// Offset of the first byte of the window.
    pub start: int,
    /// Offset one past the last byte of the window.
    pub end: int,
    /// Whether the block is of the kind that may be written to.
    pub writable: bool,
}

/// `block` with the bytes from offset `at` on replaced by `data`.
pub open spec fn overwrite(block: Seq<u8>, at: int, data: Seq<u8>) -> Seq<u8> {
    block.subrange(0, at) + data + block.subrange(at + data.len(), block.len() as int)
}

impl Segment {
    /// The window lies inside the block, and the block's size is one that a
    /// machine can hold.
    pub open spec fn wf(self) -> bool {
        0 <= self.start <= self.end <= self.backing.len() <= usize::MAX
    }

    /// The bytes in the window.
    pub open spec fn bytes(self) -> Seq<u8> {
        self.backing.subrange(self.start, self.end)
    }

    /// Number of bytes in the window.
    pub open spec fn size(self) -> int {
        self.end - self.start
    }

    /// Number of bytes of the block behind the window.
    pub open spec fn room(self) -> int {
        self.backing.len() - self.end
    }

    /// The block's size.
    pub open spec fn capacity(self) -> int {
        self.backing.len() as int
    }

    /// The same window without its first `n` bytes.
    pub open spec fn advanced(self, n: int) -> Segment {
        Segment { start: self.start + n, ..self }
    }

    /// The same window cut down to its first `n` bytes.
    pub open spec fn truncated(self, n: int) -> Segment {
        Segment { end: self.start + n, ..self }
    }

    /// The window grown by `n` bytes at its end, over what the block holds there.
    pub open spec fn committed(self, n: int) -> Segment {
        Segment { end: self.end + n, ..self }
    }

    /// The block with `data` written at offset `at`, the window unchanged.
    pub open spec fn overwritten(self, at: int, data: Seq<u8>) -> Segment {
        Segment { backing: overwrite(self.backing, at, data), ..self }
    }

    /// `data` written behind the window, and the window grown over it.
    pub open spec fn extended(self, data: Seq<u8>) -> Segment {
        self.overwritten(self.end, data).committed(data.len() as int)
    }

    /// `data` written in front of the window, and the window grown over it.
    pub open spec fn fronted(self, data: Seq<u8>) -> Segment {
        Segment {
            start: self.start - data.len(),
            ..self.overwritten(self.start - data.len(), data)
        }
    }
}

/// The size of the block allocated to take `size` new bytes.
pub open spec fn fresh_capacity(size: int) -> int {
    if size < CHB_MIN_SIZE {
        2 * size
    } else {
        size
    }
}

/// A block of `capacity` zero bytes.
pub open spec fn zeros(capacity: int) -> Seq<u8> {
    Seq::new(capacity as nat, |i: int| 0u8)
}

/// Every window lies inside its block.
pub open spec fn all_wf(segs: Seq<Segment>) -> bool {
    forall|i: int| 0 <= i < segs.len() ==> (#[trigger] segs[i]).wf()
}

/// The bytes of a sequence of segments, in order.
pub open spec fn flat(segs: Seq<Segment>) -> Seq<u8>
    decreases segs.len(),
{
    if segs.len() == 0 {
        Seq::empty()
    } else {
        segs.first().bytes() + flat(segs.drop_first())
    }
}

/// Offset, among the bytes of `segs`, of the first byte of segment `i`.
pub open spec fn offset_of(segs: Seq<Segment>, i: int) -> int {
    flat(segs.take(i)).len() as int
}

/// One segment holds the bytes of its window.
pub proof fn lemma_flat_one(s: Segment)
    ensures
        flat(seq![s]) == s.bytes(),
{
    assert(flat(seq![s].drop_first()) =~= Seq::<u8>::empty());
}

/// The bytes of two layouts joined are the bytes of the one, then those of the other.
pub proof fn lemma_flat_concat(a: Seq<Segment>, b: Seq<Segment>)
    ensures
        flat(a + b) == flat(a) + flat(b),
    decreases a.len(),
{
    if a.len() > 0 {
        assert((a + b).drop_first() =~= a.drop_first() + b);
        lemma_flat_concat(a.drop_first(), b);
    }
}

/// A segment added at the end adds the bytes of its window at the end.
pub proof fn lemma_flat_push(segs: Seq<Segment>, s: Segment)
    ensures
        flat(segs.push(s)) == flat(segs) + s.bytes(),
{
    assert(segs.push(s) =~= segs + seq![s]);
    lemma_flat_concat(segs, seq![s]);
    lemma_flat_one(s);
}

/// A segment added in front adds the bytes of its window in front.
pub proof fn lemma_flat_cons(s: Segment, rest: Seq<Segment>)
    ensures
        flat(seq![s] + rest) == s.bytes() + flat(rest),
{
    lemma_flat_concat(seq![s], rest);
    lemma_flat_one(s);
}

/// Splitting a sequence of segments at `i` splits its bytes at `offset_of(segs, i)`.
pub proof fn lemma_flat_split(segs: Seq<Segment>, i: int)
    requires
        0 <= i <= segs.len(),
    ensures
        flat(segs) == flat(segs.take(i)) + flat(segs.skip(i)),
        offset_of(segs, i) <= flat(segs).len(),
        flat(segs).take(offset_of(segs, i)) == flat(segs.take(i)),
        flat(segs).skip(offset_of(segs, i)) == flat(segs.skip(i)),
{
    assert(segs =~= segs.take(i) + segs.skip(i));
    lemma_flat_concat(segs.take(i), segs.skip(i));
}

/// Replacing segment `i` replaces its bytes and no others.
pub proof fn lemma_flat_update(segs: Seq<Segment>, i: int, s: Segment)
    requires
        0 <= i < segs.len(),
    ensures
        flat(segs.update(i, s)) == flat(segs.take(i)) + s.bytes() + flat(segs.skip(i + 1)),
        flat(segs) == flat(segs.take(i)) + segs[i].bytes() + flat(segs.skip(i + 1)),
{
    let u = segs.update(i, s);
    assert(u =~= segs.take(i) + (seq![s] + segs.skip(i + 1)));
    lemma_flat_concat(segs.take(i), seq![s] + segs.skip(i + 1));
    lemma_flat_cons(s, segs.skip(i + 1));
    assert(segs =~= segs.take(i) + (seq![segs[i]] + segs.skip(i + 1)));
    lemma_flat_concat(segs.take(i), seq![segs[i]] + segs.skip(i + 1));
    lemma_flat_cons(segs[i], segs.skip(i + 1));
}

/// Where segment `i` lies among the bytes of `segs`.
pub proof fn lemma_offsets(segs: Seq<Segment>, i: int)
    requires
        all_wf(segs),
        0 <= i < segs.len(),
    ensures
        offset_of(segs, i + 1) == offset_of(segs, i) + segs[i].size(),
        offset_of(segs, i + 1) <= flat(segs).len(),
        offset_of(segs, 0) == 0,
        offset_of(segs, segs.len() as int) == flat(segs).len(),
        flat(segs).subrange(offset_of(segs, i), offset_of(segs, i + 1)) == segs[i].bytes(),
{
    assert(segs.take(i + 1) =~= segs.take(i).push(segs[i]));
    lemma_flat_push(segs.take(i), segs[i]);
    lemma_flat_split(segs, i + 1);
    assert(segs.take(segs.len() as int) =~= segs);
}

/// Offsets grow with the index.
pub proof fn lemma_offsets_monotone(segs: Seq<Segment>, i: int, j: int)
    requires
        all_wf(segs),
        0 <= i <= j <= segs.len(),
    ensures
        offset_of(segs, i) <= offset_of(segs, j),
    decreases j - i,
{
    if i < j {
        lemma_offsets_monotone(segs, i, j - 1);
        lemma_offsets(segs, j - 1);
    }
}

/// What is left of `segs` once its first `n` bytes are dropped: the segments
/// that lie wholly within those bytes are removed, and the one that holds
/// more than what is still to drop loses its first bytes.
pub open spec fn drained(segs: Seq<Segment>, n: int) -> Seq<Segment>
    decreases segs.len(),
{
    if n <= 0 || segs.len() == 0 {
        segs
    } else if segs.first().size() > n {
        segs.update(0, segs.first().advanced(n))
    } else {
        drained(segs.drop_first(), n - segs.first().size())
    }
}

/// A new buffer that holds exactly `data`, all of it in the window.
pub open spec fn coalesced(data: Seq<u8>) -> Segment {
    Segment { backing: data, start: 0, end: data.len() as int, writable: true }
}

/// The layout after the first `n` bytes of `segs` are made contiguous:
/// unchanged where the first segment already holds them (or where `n` is
/// zero or more than there is), else one new segment with those bytes in
/// front of what draining them leaves.
pub open spec fn pulled_up(segs: Seq<Segment>, n: int) -> Seq<Segment> {
    if n <= 0 || n > flat(segs).len() || segs.first().size() >= n {
        segs
    } else {
        seq![coalesced(flat(segs).take(n))] + drained(segs, n)
    }
}

/// Draining drops the first `n` bytes, or all of them where there are fewer.
pub proof fn lemma_drained(segs: Seq<Segment>, n: int)
    requires
        all_wf(segs),
        0 <= n,
    ensures
        all_wf(drained(segs, n)),
        n <= flat(segs).len() ==> flat(drained(segs, n)) == flat(segs).skip(n),
        n >= flat(segs).len() ==> flat(drained(segs, n)) == Seq::<u8>::empty(),
        drained(segs, n).len() <= segs.len(),
    decreases segs.len(),
{
    if n > 0 && segs.len() > 0 {
        let first = segs.first();
        let rest = segs.drop_first();
        if first.size() > n {
            let adv = first.advanced(n);
            assert(segs.update(0, adv) =~= seq![adv] + rest);
            lemma_flat_cons(adv, rest);
        } else {
            lemma_drained(rest, n - first.size());
        }
    }
}

/// Making bytes contiguous changes the layout and not the bytes.
pub proof fn lemma_pulled_up(segs: Seq<Segment>, n: int)
    requires
        all_wf(segs),
        flat(segs).len() <= usize::MAX,
    ensures
        all_wf(pulled_up(segs, n)),
        flat(pulled_up(segs, n)) == flat(segs),
        0 < n <= flat(segs).len() ==> pulled_up(segs, n).len() > 0 && pulled_up(
            segs,
            n,
        ).first().size() >= n,
{
    if 0 < n <= flat(segs).len() && segs.first().size() < n {
        let c = coalesced(flat(segs).take(n));
        lemma_drained(segs, n);
        lemma_flat_cons(c, drained(segs, n));
    }
}

/// The segment that holds the byte at offset `pos`, and the byte's offset
/// within that segment's window.
pub open spec fn locate(segs: Seq<Segment>, pos: int) -> (int, int)
    decreases segs.len(),
{
    if segs.len() == 0 || pos < segs.first().size() {
        (0, pos)
    } else {
        let (i, off) = locate(segs.drop_first(), pos - segs.first().size());
        (i + 1, off)
    }
}

/// `locate` finds the one segment whose window covers `pos`.
pub proof fn lemma_locate(segs: Seq<Segment>, pos: int)
    requires
        all_wf(segs),
        0 <= pos < flat(segs).len(),
    ensures
        0 <= locate(segs, pos).0 < segs.len(),
        0 <= locate(segs, pos).1 < segs[locate(segs, pos).0].size(),
        offset_of(segs, locate(segs, pos).0) + locate(segs, pos).1 == pos,
    decreases segs.len(),
{
    if pos >= segs.first().size() {
        let rest = segs.drop_first();
        let q = pos - segs.first().size();
        lemma_locate(rest, q);
        let (i, off) = locate(rest, q);
        assert(segs.take(i + 1) =~= seq![segs.first()] + rest.take(i));
        lemma_flat_cons(segs.first(), rest.take(i));
    }
}

/// A segment whose window covers `pos` is the one that `locate` finds.
pub proof fn lemma_locate_unique(segs: Seq<Segment>, pos: int, i: int)
    requires
        all_wf(segs),
        0 <= i < segs.len(),
        offset_of(segs, i) <= pos < offset_of(segs, i) + segs[i].size(),
    ensures
        locate(segs, pos) == (i, pos - offset_of(segs, i)),
        pos < flat(segs).len(),
    decreases segs.len(),
{
    if i > 0 {
        let rest = segs.drop_first();
        assert(segs.take(i) =~= seq![segs.first()] + rest.take(i - 1));
        lemma_flat_cons(segs.first(), rest.take(i - 1));
        lemma_locate_unique(rest, pos - segs.first().size(), i - 1);
    }
}

/// The segments that hold the first `n` bytes of `segs`, where the segment
/// that `n` falls into, if it falls into one, is cut down to its part.
pub open spec fn moved_out(segs: Seq<Segment>, n: int) -> Seq<Segment> {
    let (i, off) = locate(segs, n);
    if n <= 0 {
        Seq::empty()
    } else if n >= flat(segs).len() {
        segs
    } else if off == 0 {
        segs.take(i)
    } else {
        segs.take(i).push(segs[i].truncated(off))
    }
}

/// The segments that hold what follows the first `n` bytes of `segs`, where
/// the segment that `n` falls into, if it falls into one, is cut down to its
/// part.
pub open spec fn left_behind(segs: Seq<Segment>, n: int) -> Seq<Segment> {
    let (i, off) = locate(segs, n);
    if n <= 0 {
        segs
    } else if n >= flat(segs).len() {
        Seq::empty()
    } else if off == 0 {
        segs.skip(i)
    } else {
        seq![segs[i].advanced(off)] + segs.skip(i + 1)
    }
}

/// Whether offset `n` is where a segment of `segs` starts, or the end of the
/// last one.
pub open spec fn on_boundary(segs: Seq<Segment>, n: int) -> bool {
    exists|i: int| 0 <= i <= segs.len() && #[trigger] offset_of(segs, i) == n
}

/// Splitting a layout at `n` splits its bytes there, and cuts a segment in
/// two only where `n` falls inside one.
pub proof fn lemma_split(segs: Seq<Segment>, n: int)
    requires
        all_wf(segs),
    ensures
        all_wf(moved_out(segs, n)),
        all_wf(left_behind(segs, n)),
        flat(moved_out(segs, n)) + flat(left_behind(segs, n)) == flat(segs),
        0 <= n <= flat(segs).len() ==> flat(moved_out(segs, n)) == flat(segs).take(n),
        0 <= n <= flat(segs).len() ==> flat(left_behind(segs, n)) == flat(segs).skip(n),
        moved_out(segs, n).len() + left_behind(segs, n).len() <= segs.len() + 1,
        on_boundary(segs, n) ==> moved_out(segs, n) + left_behind(segs, n) == segs,
{
    let (i, off) = locate(segs, n);
    if 0 < n < flat(segs).len() {
        lemma_locate(segs, n);
        lemma_flat_split(segs, i);
        lemma_offsets(segs, i);
        if off != 0 {
            let head = segs[i].truncated(off);
            let tail = segs[i].advanced(off);
            lemma_flat_push(segs.take(i), head);
            lemma_flat_cons(tail, segs.skip(i + 1));
            lemma_flat_update(segs, i, segs[i]);
            if on_boundary(segs, n) {
                let j = choose|j: int| 0 <= j <= segs.len() && #[trigger] offset_of(segs, j) == n;
                if j <= i {
                    lemma_offsets_monotone(segs, j, i);
                } else {
                    lemma_offsets_monotone(segs, i + 1, j);
                }
            }
        }
    }
}

/// An empty window at the start of a new buffer sized to take `n` bytes.
pub open spec fn fresh_tail(n: int) -> Segment {
    Segment { backing: zeros(fresh_capacity(n)), start: 0, end: 0, writable: true }
}

/// An empty window at the end of a new buffer sized to take `n` bytes.
pub open spec fn fresh_head(n: int) -> Segment {
    Segment {
        backing: zeros(fresh_capacity(n)),
        start: fresh_capacity(n),
        end: fresh_capacity(n),
        writable: true,
    }
}

/// Whether the last segment could take `n` more bytes behind its window.
pub open spec fn tail_has_room(segs: Seq<Segment>, n: int) -> bool {
    segs.len() > 0 && segs.last().writable && segs.last().room() >= n
}

/// Whether the first segment could take `n` more bytes in front of its window.
pub open spec fn head_has_room(segs: Seq<Segment>, n: int) -> bool {
    segs.len() > 0 && segs.first().writable && segs.first().start >= n
}

/// `segs` with a new, empty segment behind it that has room for `n` bytes.
pub open spec fn with_fresh_tail(segs: Seq<Segment>, n: int) -> Seq<Segment> {
    segs.push(fresh_tail(n))
}

/// `segs` with a new, empty segment in front of it that has room for `n` bytes.
pub open spec fn with_fresh_head(segs: Seq<Segment>, n: int) -> Seq<Segment> {
    seq![fresh_head(n)] + segs
}

/// `segs` with `data` written behind the window of its last segment.
pub open spec fn tail_extended(segs: Seq<Segment>, data: Seq<u8>) -> Seq<Segment> {
    segs.update(segs.len() - 1, segs.last().extended(data))
}

/// `segs` with `data` written in front of the window of its first segment.
pub open spec fn head_extended(segs: Seq<Segment>, data: Seq<u8>) -> Seq<Segment> {
    segs.update(0, segs.first().fronted(data))
}

/// `after` is `before` with `data` appended: in the last segment, which is
/// possible only where that segment has the room and is writable, or else in
/// a new segment behind it.
pub open spec fn appended(before: Seq<Segment>, after: Seq<Segment>, data: Seq<u8>) -> bool {
    ||| after == tail_extended(with_fresh_tail(before, data.len() as int), data)
    ||| tail_has_room(before, data.len() as int) && after == tail_extended(before, data)
}

/// `after` is `before` with `data` prepended: in the first segment, which is
/// possible only where that segment has the room and is writable, or else in
/// a new segment in front of it.
pub open spec fn prepended(before: Seq<Segment>, after: Seq<Segment>, data: Seq<u8>) -> bool {
    ||| after == head_extended(with_fresh_head(before, data.len() as int), data)
    ||| head_has_room(before, data.len() as int) && after == head_extended(before, data)
}

/// The `n` bytes behind the window of the last segment.
pub open spec fn tail_room(segs: Seq<Segment>, n: int) -> Seq<u8> {
    segs.last().backing.subrange(segs.last().end, segs.last().end + n)
}

/// `segs` with `data` written behind the window of its last segment, the
/// window left as it is.
pub open spec fn tail_overwritten(segs: Seq<Segment>, data: Seq<u8>) -> Seq<Segment> {
    segs.update(segs.len() - 1, segs.last().overwritten(segs.last().end, data))
}

/// `segs` with the window of its last segment grown by `n` bytes.
pub open spec fn tail_committed(segs: Seq<Segment>, n: int) -> Seq<Segment> {
    segs.update(segs.len() - 1, segs.last().committed(n))
}

/// Writing behind the last window, then growing the window over what was
/// written, appends it.
pub proof fn lemma_tail_extended(segs: Seq<Segment>, data: Seq<u8>)
    requires
        all_wf(segs),
        segs.len() > 0,
        data.len() <= segs.last().room(),
    ensures
        all_wf(tail_extended(segs, data)),
        flat(tail_extended(segs, data)) == flat(segs) + data,
        tail_extended(segs, data) == tail_committed(
            tail_overwritten(segs, data),
            data.len() as int,
        ),
        all_wf(tail_overwritten(segs, data)),
        flat(tail_overwritten(segs, data)) == flat(segs),
        tail_room(tail_overwritten(segs, data), data.len() as int) == data,
        tail_overwritten(segs, data).last().room() == segs.last().room(),
{
    let last = segs.len() - 1;
    let e = segs.last().extended(data);
    let o = segs.last().overwritten(segs.last().end, data);
    lemma_flat_update(segs, last, e);
    lemma_flat_update(segs, last, o);
}

/// Growing the last window appends the bytes that lay behind it.
pub proof fn lemma_tail_committed(segs: Seq<Segment>, n: int)
    requires
        all_wf(segs),
        segs.len() > 0,
        0 <= n <= segs.last().room(),
    ensures
        all_wf(tail_committed(segs, n)),
        flat(tail_committed(segs, n)) == flat(segs) + tail_room(segs, n),
{
    let last = segs.len() - 1;
    let c = segs.last().committed(n);
    lemma_flat_update(segs, last, c);
}

/// Writing in front of the first window, and growing the window over what
/// was written, prepends it.
pub proof fn lemma_head_extended(segs: Seq<Segment>, data: Seq<u8>)
    requires
        all_wf(segs),
        segs.len() > 0,
        data.len() <= segs.first().start,
    ensures
        all_wf(head_extended(segs, data)),
        flat(head_extended(segs, data)) == data + flat(segs),
{
    let f = segs.first().fronted(data);
    lemma_flat_update(segs, 0, f);
}

/// A new, empty segment adds no byte, and has the room it was made for.
pub proof fn lemma_fresh(segs: Seq<Segment>, n: int)
    requires
        all_wf(segs),
        0 <= n,
        fresh_capacity(n) <= usize::MAX,
    ensures
        all_wf(with_fresh_tail(segs, n)),
        all_wf(with_fresh_head(segs, n)),
        flat(with_fresh_tail(segs, n)) == flat(segs),
        flat(with_fresh_head(segs, n)) == flat(segs),
        tail_has_room(with_fresh_tail(segs, n), n),
        head_has_room(with_fresh_head(segs, n), n),
{
    lemma_flat_push(segs, fresh_tail(n));
    lemma_flat_cons(fresh_head(n), segs);
}

/// Appending adds the bytes at the end, whichever segment takes them.
pub proof fn lemma_appended(before: Seq<Segment>, after: Seq<Segment>, data: Seq<u8>)
    requires
        all_wf(before),
        appended(before, after, data),
        fresh_capacity(data.len() as int) <= usize::MAX,
    ensures
        all_wf(after),
        flat(after) == flat(before) + data,
        before.len() <= after.len() <= before.len() + 1,
{
    let n = data.len() as int;
    lemma_fresh(before, n);
    if after == tail_extended(with_fresh_tail(before, n), data) {
        lemma_tail_extended(with_fresh_tail(before, n), data);
    } else {
        lemma_tail_extended(before, data);
    }
}

/// The layout after the `size` bytes from offset `offs` on are made
/// contiguous: unchanged where one segment already holds them (or where
/// `segs` has no such bytes), else the layout split at `offs` with the second
/// part pulled up.
pub open spec fn pulled_up_from(segs: Seq<Segment>, offs: int, size: int) -> Seq<Segment> {
    let (i, off) = locate(segs, offs);
    if size <= 0 || offs < 0 || offs + size > flat(segs).len() || size <= segs[i].size() - off {
        segs
    } else {
        moved_out(segs, offs) + pulled_up(left_behind(segs, offs), size)
    }
}

/// How many segments, from the first on, go into one write: segments are
/// taken until they hold `max_size` bytes or more, and `max_nodes` at most.
pub open spec fn gather_count(segs: Seq<Segment>, max_size: int, max_nodes: int) -> int
    decreases segs.len(),
{
    if segs.len() == 0 || max_nodes <= 0 {
        0
    } else if segs.first().size() >= max_size {
        1
    } else {
        1 + gather_count(segs.drop_first(), max_size - segs.first().size(), max_nodes - 1)
    }
}

/// At most `max_nodes` segments are taken, and no more than there are.
pub proof fn lemma_gather_count(segs: Seq<Segment>, max_size: int, max_nodes: int)
    ensures
        0 <= gather_count(segs, max_size, max_nodes) <= segs.len(),
        max_nodes >= 0 ==> gather_count(segs, max_size, max_nodes) <= max_nodes,
    decreases segs.len(),
{
    if segs.len() > 0 && max_nodes > 0 && segs.first().size() < max_size {
        lemma_gather_count(segs.drop_first(), max_size - segs.first().size(), max_nodes - 1);
    }
}

} // verus!
