//! Substring search that carries its state from one slice to the next, so
//! that a text can be searched piece by piece.
//!
//! The state is the length of the longest start of the needle that the text
//! read so far ends with. A table, built once from the needle, says what
//! that length falls back to when the next byte does not go on with the
//! needle.

use vstd::prelude::*;

verus! {

/// `needle` occurs in `hay` at offset `i`.
pub open spec fn matches_at(hay: Seq<u8>, needle: Seq<u8>, i: int) -> bool {
    0 <= i && i + needle.len() <= hay.len() && hay.subrange(i, i + needle.len()) == needle
}

/// `r` is the offset of the first occurrence of `needle` in `hay`, or `None`
/// where there is no occurrence.
pub open spec fn first_match(hay: Seq<u8>, needle: Seq<u8>, r: Option<usize>) -> bool {
    match r {
        Some(i) => {
            &&& matches_at(hay, needle, i as int)
            &&& forall|j: int| 0 <= j < i ==> !matches_at(hay, needle, j)
        },
        None => forall|j: int| !matches_at(hay, needle, j),
    }
}

/// The offset of the first occurrence of `needle` in `hay`, if there is one.
pub open spec fn first_occurrence(hay: Seq<u8>, needle: Seq<u8>) -> Option<int> {
    if exists|i: int| matches_at(hay, needle, i) {
        Some(
            choose|i: int|
                matches_at(hay, needle, i) && forall|j: int|
                    0 <= j < i ==> !matches_at(hay, needle, j),
        )
    } else {
        None
    }
}

/// What `first_match` holds of is the first occurrence.
pub proof fn lemma_first_match(hay: Seq<u8>, needle: Seq<u8>, r: Option<usize>)
    requires
        first_match(hay, needle, r),
    ensures
        r matches Some(i) ==> first_occurrence(hay, needle) == Some(i as int),
        r is None ==> first_occurrence(hay, needle) is None,
{
    if let Some(i) = r {
        let c = first_occurrence(hay, needle).unwrap();
        assert(!(c < i) && !(i < c));
    }
}

/// The `k` bytes of `hay` before offset `end` are the first `k` of `needle`.
pub open spec fn overlap_at(hay: Seq<u8>, needle: Seq<u8>, end: int, k: int) -> bool {
    &&& 0 <= k <= end <= hay.len()
    &&& k <= needle.len()
    &&& hay.subrange(end - k, end) == needle.take(k)
}

/// `k` is the greatest length up to `limit` with `overlap_at`.
pub open spec fn longest_overlap(
    hay: Seq<u8>,
    needle: Seq<u8>,
    end: int,
    k: int,
    limit: int,
) -> bool {
    &&& k <= limit
    &&& overlap_at(hay, needle, end, k)
    &&& forall|j: int| k < j <= limit ==> !overlap_at(hay, needle, end, j)
}

/// The first `upto` entries of `table` are right: entry `i` is the length of
/// the longest start of `needle`, other than the whole, that the first
/// `i + 1` bytes of `needle` end with.
pub open spec fn table_ok(needle: Seq<u8>, table: Seq<usize>, upto: int) -> bool {
    &&& upto <= table.len()
    &&& forall|i: int|
        0 <= i < upto ==> longest_overlap(needle, needle, i + 1, #[trigger] table[i] as int, i)
}

/// No occurrence of `needle` in `hay` ends at or before offset `end`.
pub open spec fn no_match_ends_by(hay: Seq<u8>, needle: Seq<u8>, end: int) -> bool {
    forall|i: int| i + needle.len() <= end ==> !matches_at(hay, needle, i)
}

/// The text ends with `j + 1` bytes of the needle after one more byte exactly
/// where it ended with `j` of them before and the byte is the needle's next.
pub proof fn lemma_overlap_step(hay: Seq<u8>, needle: Seq<u8>, end: int, j: int)
    requires
        0 <= end < hay.len(),
        0 <= j,
    ensures
        overlap_at(hay, needle, end + 1, j + 1) <==> (overlap_at(hay, needle, end, j) && j
            < needle.len() && needle[j] == hay[end]),
{
    let long_text = hay.subrange(end - j, end + 1);
    let long_start = needle.take(j + 1);
    let short_text = hay.subrange(end - j, end);
    let short_start = needle.take(j);
    if overlap_at(hay, needle, end + 1, j + 1) {
        assert(long_text[j] == long_start[j]);
        assert(short_text =~= short_start);
    }
    if overlap_at(hay, needle, end, j) && j < needle.len() && needle[j] == hay[end] {
        assert(long_text =~= long_start);
    }
}

/// Below an overlap of `k` bytes, the text's overlaps are those of the first
/// `k` bytes of the needle with the needle itself.
pub proof fn lemma_overlap_within(hay: Seq<u8>, needle: Seq<u8>, end: int, k: int, j: int)
    requires
        overlap_at(hay, needle, end, k),
        0 <= j <= k,
    ensures
        overlap_at(hay, needle, end, j) <==> overlap_at(needle, needle, k, j),
{
    let text_k = hay.subrange(end - k, end);
    let start_k = needle.take(k);
    let text_j = hay.subrange(end - j, end);
    let inner_j = needle.subrange(k - j, k);
    assert forall|i: int| 0 <= i < j implies #[trigger] text_j[i] == inner_j[i] by {
        assert(text_k[k - j + i] == start_k[k - j + i]);
    }
    assert(text_j =~= inner_j);
}

/// An occurrence is an overlap of the whole needle.
pub proof fn lemma_match_is_overlap(hay: Seq<u8>, needle: Seq<u8>, i: int)
    ensures
        matches_at(hay, needle, i) <==> (0 <= i && overlap_at(
            hay,
            needle,
            i + needle.len(),
            needle.len() as int,
        )),
{
    assert(needle.take(needle.len() as int) =~= needle);
}

/// The state after one more byte of the text: the length of the longest
/// start of `needle` that the text ends with once `c` is added to it.
fn advance(
    needle: &[u8],
    table: &Vec<usize>,
    matched: usize,
    c: u8,
    Ghost(hay): Ghost<Seq<u8>>,
    Ghost(end): Ghost<int>,
    Ghost(limit): Ghost<int>,
) -> (r: usize)
    requires
        matched < needle@.len(),
        table_ok(needle@, table@, matched as int),
        0 <= end < hay.len(),
        hay[end] == c,
        longest_overlap(hay, needle@, end, matched as int, limit),
    ensures
        longest_overlap(hay, needle@, end + 1, r as int, limit + 1),
        r <= matched + 1,
{
    let mut k = matched;
    while k > 0 && needle[k] != c
        invariant
            k <= matched < needle@.len(),
            table_ok(needle@, table@, matched as int),
            0 <= end < hay.len(),
            hay[end] == c,
            k <= limit,
            overlap_at(hay, needle@, end, k as int),
            forall|j: int|
                k < j <= limit && overlap_at(hay, needle@, end, j) ==> (j >= needle@.len()
                    || needle@[j] != c),
        decreases k,
    {
        let next = table[k - 1];
        proof {
            lemma_overlap_within(hay, needle@, end, k as int, next as int);
            assert forall|j: int|
                next < j <= limit && overlap_at(hay, needle@, end, j) implies (j
                >= needle@.len() || needle@[j] != c) by {
                if j < k {
                    lemma_overlap_within(hay, needle@, end, k as int, j);
                }
            }
        }
        k = next;
    }
    if needle[k] == c {
        proof {
            lemma_overlap_step(hay, needle@, end, k as int);
            let after = end + 1;
            assert forall|j: int| k + 1 < j <= limit + 1 implies !overlap_at(
                hay,
                needle@,
                after,
                j,
            ) by {
                lemma_overlap_step(hay, needle@, end, j - 1);
            }
        }
        k + 1
    } else {
        proof {
            assert(needle@.take(0) =~= hay.subrange(end + 1, end + 1));
            let after = end + 1;
            assert forall|j: int| 0 < j <= limit + 1 implies !overlap_at(
                hay,
                needle@,
                after,
                j,
            ) by {
                lemma_overlap_step(hay, needle@, end, j - 1);
            }
        }
        0
    }
}

/// The fall-back table of `needle`.
pub fn failure_table(needle: &[u8]) -> (table: Vec<usize>)
    ensures
        table@.len() == needle@.len(),
        table_ok(needle@, table@, needle@.len() as int),
{
    let n = needle.len();
    let mut table: Vec<usize> = Vec::new();
    if n == 0 {
        return table;
    }
    table.push(0);
    assert(needle@.subrange(1, 1) =~= needle@.take(0));
    let mut i: usize = 1;
    while i < n
        invariant
            n == needle@.len(),
            1 <= i <= n,
            table@.len() == i,
            table_ok(needle@, table@, i as int),
        decreases n - i,
    {
        let prev = table[i - 1];
        let k = advance(
            needle,
            &table,
            prev,
            needle[i],
            Ghost(needle@),
            Ghost(i as int),
            Ghost(i - 1),
        );
        table.push(k);
        i += 1;
    }
    table
}

/// Reads `data`, the part of `hay` from offset `base` on, with `matched` as
/// the state so far. Returns the offset in `data` of the byte that completes
/// the first occurrence of `needle` in `hay`, or else the state after `data`.
pub(crate) fn scan(
    needle: &[u8],
    table: &Vec<usize>,
    matched: usize,
    data: &[u8],
    Ghost(hay): Ghost<Seq<u8>>,
    Ghost(base): Ghost<int>,
) -> (r: Result<usize, usize>)
    requires
        needle@.len() > 0,
        table_ok(needle@, table@, needle@.len() as int),
        0 <= base,
        base + data@.len() <= hay.len(),
        hay.subrange(base, base + data@.len()) == data@,
        longest_overlap(hay, needle@, base, matched as int, needle@.len() - 1),
        no_match_ends_by(hay, needle@, base),
    ensures
        match r {
            Ok(at) => {
                &&& at < data@.len()
                &&& matches_at(hay, needle@, base + at + 1 - needle@.len())
                &&& no_match_ends_by(hay, needle@, base + at)
            },
            Err(state) => {
                &&& longest_overlap(
                    hay,
                    needle@,
                    base + data@.len(),
                    state as int,
                    needle@.len() - 1,
                )
                &&& no_match_ends_by(hay, needle@, base + data@.len())
            },
        },
{
    let n = needle.len();
    let mut k = matched;
    let mut j: usize = 0;
    while j < data.len()
        invariant
            n == needle@.len(),
            n > 0,
            table_ok(needle@, table@, n as int),
            0 <= base,
            j <= data@.len(),
            base + data@.len() <= hay.len(),
            hay.subrange(base, base + data@.len()) == data@,
            longest_overlap(hay, needle@, base + j, k as int, n - 1),
            no_match_ends_by(hay, needle@, base + j),
        decreases data@.len() - j,
    {
        let next = advance(
            needle,
            table,
            k,
            data[j],
            Ghost(hay),
            Ghost(base + j),
            Ghost(n - 1),
        );
        proof {
            assert forall|i: int| i + n <= base + j + 1 && next < n implies !matches_at(
                hay,
                needle@,
                i,
            ) by {
                lemma_match_is_overlap(hay, needle@, i);
            }
        }
        if next == n {
            proof {
                lemma_match_is_overlap(hay, needle@, base + j + 1 - n);
            }
            return Ok(j);
        }
        k = next;
        j += 1;
    }
    Err(k)
}

/// The offset of the first occurrence of `needle` in `haystack`.
pub fn find_bytes(haystack: &[u8], needle: &[u8]) -> (r: Option<usize>)
    ensures
        first_match(haystack@, needle@, r),
{
    let n = needle.len();
    if n == 0 {
        assert(haystack@.subrange(0, 0) =~= needle@);
        return Some(0);
    }
    let table = failure_table(needle);
    proof {
        assert(haystack@.subrange(0, 0) =~= needle@.take(0));
        assert(haystack@.subrange(0, haystack@.len() as int) =~= haystack@);
    }
    match scan(needle, &table, 0, haystack, Ghost(haystack@), Ghost(0)) {
        Ok(at) => Some(at - (n - 1)),
        Err(_) => None,
    }
}

} // verus!
