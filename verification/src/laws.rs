//! What holds of the operations on chains taken together, proved from the
//! layouts that their contracts speak of.

use crate::layout::{
    Segment, all_wf, appended, drained, flat, fresh_capacity, head_extended, left_behind,
    lemma_appended, lemma_drained, lemma_flat_concat, lemma_fresh, lemma_head_extended,
    lemma_pulled_up, lemma_split, locate, moved_out, on_boundary, prepended, pulled_up,
    pulled_up_from, with_fresh_head,
};
use vstd::prelude::*;

verus! {

/// The chunks of `chunks` one after the other.
pub open spec fn joined(chunks: Seq<Seq<u8>>) -> Seq<u8>
    decreases chunks.len(),
{
    if chunks.len() == 0 {
        Seq::empty()
    } else {
        joined(chunks.drop_last()) + chunks.last()
    }
}

/// `layouts` are the layouts of a chain to which the chunks of `chunks` are
/// appended one by one: the first is the layout before, and each next one
/// the layout after one more chunk.
pub open spec fn appended_each(layouts: Seq<Seq<Segment>>, chunks: Seq<Seq<u8>>) -> bool {
    &&& layouts.len() == chunks.len() + 1
    &&& forall|i: int|
        0 <= i < chunks.len() ==> {
            &&& (#[trigger] chunks[i]).len() <= usize::MAX
            &&& appended(layouts[i], layouts[i + 1], chunks[i])
        }
}

/// Bytes appended to an empty chain are the bytes that pulling up as many
/// returns: the chain then holds them and nothing else, and they are the
/// window of its first segment.
pub proof fn lemma_round_trip(before: Seq<Segment>, after: Seq<Segment>, data: Seq<u8>)
    requires
        all_wf(before),
        flat(before).len() == 0,
        data.len() <= usize::MAX,
        appended(before, after, data),
    ensures
        flat(after) == data,
        flat(after).take(data.len() as int) == data,
        flat(pulled_up(after, data.len() as int)) == data,
        data.len() > 0 ==> pulled_up(after, data.len() as int).first().bytes().take(
            data.len() as int,
        ) == data,
{
    lemma_appended(before, after, data);
    lemma_first_holds(after, data.len() as int);
}

/// After the first `n` bytes are pulled up, the first segment holds them.
pub proof fn lemma_first_holds(segs: Seq<Segment>, n: int)
    requires
        all_wf(segs),
        flat(segs).len() <= usize::MAX,
    ensures
        all_wf(pulled_up(segs, n)),
        flat(pulled_up(segs, n)) == flat(segs),
        0 < n <= flat(segs).len() ==> pulled_up(segs, n).len() > 0 && pulled_up(
            segs,
            n,
        ).first().bytes().take(n) == flat(segs).take(n),
{
    lemma_pulled_up(segs, n);
}

/// Pulling up the same number of bytes a second time changes nothing.
pub proof fn lemma_pulled_up_twice(segs: Seq<Segment>, n: int)
    requires
        all_wf(segs),
        flat(segs).len() <= usize::MAX,
    ensures
        pulled_up(pulled_up(segs, n), n) == pulled_up(segs, n),
{
}

/// Appending chunk after chunk adds the chunks' bytes in order.
pub proof fn lemma_appended_each(layouts: Seq<Seq<Segment>>, chunks: Seq<Seq<u8>>)
    requires
        appended_each(layouts, chunks),
        all_wf(layouts.first()),
    ensures
        all_wf(layouts.last()),
        flat(layouts.last()) == flat(layouts.first()) + joined(chunks),
    decreases chunks.len(),
{
    if chunks.len() > 0 {
        let fewer = chunks.drop_last();
        let earlier = layouts.drop_last();
        lemma_appended_each(earlier, fewer);
        let last = chunks.len() - 1;
        lemma_appended(layouts[last], layouts[last + 1], chunks[last]);
    }
}

/// However a chain was filled chunk by chunk, pulling up all of it returns
/// the chunks' bytes in order, leaves the chain's bytes as they are, and
/// leaves a layout that pulling up again does not change.
pub proof fn lemma_coalescing(layouts: Seq<Seq<Segment>>, chunks: Seq<Seq<u8>>)
    requires
        appended_each(layouts, chunks),
        all_wf(layouts.first()),
        flat(layouts.first()).len() == 0,
        joined(chunks).len() <= usize::MAX,
    ensures
        flat(layouts.last()) == joined(chunks),
        flat(pulled_up(layouts.last(), joined(chunks).len() as int)) == joined(chunks),
        joined(chunks).len() > 0 ==> pulled_up(
            layouts.last(),
            joined(chunks).len() as int,
        ).first().bytes().take(joined(chunks).len() as int) == joined(chunks),
        pulled_up(
            pulled_up(layouts.last(), joined(chunks).len() as int),
            joined(chunks).len() as int,
        ) == pulled_up(layouts.last(), joined(chunks).len() as int),
{
    lemma_appended_each(layouts, chunks);
    let all = joined(chunks);
    lemma_first_holds(layouts.last(), all.len() as int);
}

/// Moving `n` bytes, with `0 < n` and fewer than the source holds, gives the
/// taker the first `n` bytes of the source and leaves the source the rest, in
/// order; a segment is split only where `n` falls inside one.
pub proof fn lemma_move(dst: Seq<Segment>, src: Seq<Segment>, n: int)
    requires
        all_wf(dst),
        all_wf(src),
        0 < n < flat(src).len(),
    ensures
        flat(dst + moved_out(src, n)) == flat(dst) + flat(src).take(n),
        flat(dst + moved_out(src, n)).len() == flat(dst).len() + n,
        flat(left_behind(src, n)).len() == flat(src).len() - n,
        flat(moved_out(src, n)) + flat(left_behind(src, n)) == flat(src),
        on_boundary(src, n) ==> moved_out(src, n) + left_behind(src, n) == src,
        on_boundary(src, n) ==> (dst + moved_out(src, n)).len() + left_behind(src, n).len()
            == dst.len() + src.len(),
{
    lemma_split(src, n);
    lemma_flat_concat(dst, moved_out(src, n));
}

/// A chain that took windows into the blocks of another holds what those
/// windows held when it took them: where the source then grows, the source
/// gets the new bytes and the taker none.
pub proof fn lemma_shared_then_grown(
    dst: Seq<Segment>,
    src: Seq<Segment>,
    grown: Seq<Segment>,
    data: Seq<u8>,
)
    requires
        all_wf(dst),
        all_wf(src),
        data.len() <= usize::MAX,
        appended(src, grown, data),
    ensures
        flat(dst + src) == flat(dst) + flat(src),
        flat(grown) == flat(src) + data,
        flat(dst + src) == flat(dst) + flat(grown).take(flat(src).len() as int),
{
    lemma_flat_concat(dst, src);
    lemma_appended(src, grown, data);
}

/// Draining `n` bytes shortens the chain by `n`, or empties it where it
/// holds fewer, and never adds a segment.
pub proof fn lemma_drain(segs: Seq<Segment>, n: int)
    requires
        all_wf(segs),
        0 <= n,
    ensures
        n <= flat(segs).len() ==> flat(drained(segs, n)).len() == flat(segs).len()
            - n,
        n >= flat(segs).len() ==> flat(drained(segs, n)).len() == 0,
        drained(segs, n).len() <= segs.len(),
        segs.len() > 0 && 0 < n < segs.first().size() ==> drained(segs, n)
            == segs.update(0, segs.first().advanced(n)),
{
    lemma_drained(segs, n);
}

/// Prepending adds the bytes at the front, whichever segment takes them.
pub proof fn lemma_prepended(before: Seq<Segment>, after: Seq<Segment>, data: Seq<u8>)
    requires
        all_wf(before),
        prepended(before, after, data),
        fresh_capacity(data.len() as int) <= usize::MAX,
    ensures
        all_wf(after),
        flat(after) == data + flat(before),
        before.len() <= after.len() <= before.len() + 1,
{
    let n = data.len() as int;
    lemma_fresh(before, n);
    if after == head_extended(with_fresh_head(before, n), data) {
        lemma_head_extended(with_fresh_head(before, n), data);
    } else {
        lemma_head_extended(before, data);
    }
}

/// Making bytes in the middle contiguous changes the layout and not the bytes.
pub proof fn lemma_pulled_up_from(segs: Seq<Segment>, offs: int, size: int)
    requires
        all_wf(segs),
        flat(segs).len() <= usize::MAX,
    ensures
        all_wf(pulled_up_from(segs, offs, size)),
        flat(pulled_up_from(segs, offs, size)) == flat(segs),
{
    let (i, off) = locate(segs, offs);
    if pulled_up_from(segs, offs, size) != segs {
        lemma_split(segs, offs);
        lemma_pulled_up(left_behind(segs, offs), size);
        lemma_flat_concat(moved_out(segs, offs), pulled_up(left_behind(segs, offs), size));
    }
}

} // verus!
