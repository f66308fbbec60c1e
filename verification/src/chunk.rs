//! The chunk reader: splitting a byte stream into record-aligned chunks.
//!
//! A chunk is a contiguous byte range that ends exactly at a line separator
//! (or at end of input), so no record is ever split across two chunks.  The
//! boundary rule reads a target number of bytes and then advances forward to
//! the next separator; it never scans backward.  [`chunks_from`] is the
//! mathematical chunking; [`lemma_chunks_from_props`] shows that the chunks
//! concatenate back to the input and are separator-aligned, which together
//! with the record-concatenation lemmas makes chunked aggregation exact.

use vstd::prelude::*;
use vstd::slice::{slice_subrange, slice_to_vec};

use crate::records::SEP_LINE;

verus! {

/// First position `>= p` that lies just after a line separator, or the end
/// of the stream.
pub open spec fn scan_boundary(data: Seq<u8>, p: int) -> int
    decreases data.len() - p,
{
    if p >= data.len() {
        data.len() as int
    } else if p >= 1 && data[p - 1] == SEP_LINE {
        p
    } else {
        scan_boundary(data, p + 1)
    }
}

/// Where the chunk that begins at `start` ends: `target` bytes, extended
/// forward to the next separator; near end of input, whatever remains.
pub open spec fn chunk_end(data: Seq<u8>, start: int, target: int) -> int {
    if start + target >= data.len() {
        data.len() as int
    } else {
        scan_boundary(data, start + target)
    }
}

/// The scan lands between its origin and the end of the stream.
pub proof fn lemma_scan_bounds(data: Seq<u8>, p: int)
    requires
        p <= data.len(),
    ensures
        p <= scan_boundary(data, p) <= data.len(),
    decreases data.len() - p,
{
    if p < data.len() && !(p >= 1 && data[p - 1] == SEP_LINE) {
        lemma_scan_bounds(data, p + 1);
    }
}

/// The chunks of `data` from `start` on, produced in stream order.
pub open spec fn chunks_from(data: Seq<u8>, start: int, target: int) -> Seq<Seq<u8>>
    decreases data.len() - start,
    via chunks_from_decreases
{
    if start < 0 || target < 1 || start >= data.len() {
        Seq::empty()
    } else {
        seq![data.subrange(start, chunk_end(data, start, target))] + chunks_from(
            data,
            chunk_end(data, start, target),
            target,
        )
    }
}

#[via_fn]
proof fn chunks_from_decreases(data: Seq<u8>, start: int, target: int) {
    if !(start < 0 || target < 1 || start >= data.len()) {
        if start + target >= data.len() {
        } else {
            lemma_scan_bounds(data, start + target);
        }
    }
}

/// Concatenation of a list of byte ranges, in order.
pub open spec fn concat_of(cs: Seq<Seq<u8>>) -> Seq<u8>
    decreases cs.len(),
{
    if cs.len() == 0 {
        Seq::empty()
    } else {
        cs.first() + concat_of(cs.drop_first())
    }
}

/// The chunking is faithful: the chunks are non-empty, concatenate back to
/// the remainder of the stream, and every chunk but the last ends exactly at
/// a line separator — no record is ever split across chunks.
pub proof fn lemma_chunks_from_props(data: Seq<u8>, start: int, target: int)
    requires
        0 <= start <= data.len(),
        target >= 1,
    ensures
        concat_of(chunks_from(data, start, target)) =~= data.skip(start),
        forall|i: int|
            0 <= i < chunks_from(data, start, target).len() ==> (#[trigger] chunks_from(
                data,
                start,
                target,
            )[i]).len() > 0,
        forall|i: int|
            0 <= i < chunks_from(data, start, target).len() - 1 ==> (#[trigger] chunks_from(
                data,
                start,
                target,
            )[i]).last() == SEP_LINE,
    decreases data.len() - start,
{
    let cs = chunks_from(data, start, target);
    if start >= data.len() {
        assert(data.skip(start) =~= Seq::<u8>::empty());
    } else {
        let e = chunk_end(data, start, target);
        if start + target < data.len() {
            lemma_scan_bounds(data, start + target);
        }
        assert(start < e <= data.len());
        lemma_chunks_from_props(data, e, target);
        let head = data.subrange(start, e);
        let rest = chunks_from(data, e, target);
        assert(cs.first() == head);
        assert(cs.drop_first() =~= rest);
        assert(concat_of(cs) =~= head + concat_of(rest));
        assert(head + data.skip(e) =~= data.skip(start));
        assert forall|i: int| 0 <= i < cs.len() - 1 implies (#[trigger] cs[i]).last()
            == SEP_LINE by {
            if i == 0 {
                assert(e < data.len());
                lemma_boundary_after_sep(data, start + target);
                assert(head.last() == data[e - 1]);
            } else {
                assert(cs[i] == rest[i - 1]);
            }
        }
        assert forall|i: int| 0 <= i < cs.len() implies (#[trigger] cs[i]).len() > 0 by {
            if i > 0 {
                assert(cs[i] == rest[i - 1]);
            }
        }
    }
}

/// When the scan stops before the end of the stream, it stopped just after a
/// line separator.
pub proof fn lemma_boundary_after_sep(data: Seq<u8>, p: int)
    requires
        p <= data.len(),
        scan_boundary(data, p) < data.len(),
    ensures
        data[scan_boundary(data, p) - 1] == SEP_LINE,
    decreases data.len() - p,
{
    if p < data.len() && !(p >= 1 && data[p - 1] == SEP_LINE) {
        lemma_boundary_after_sep(data, p + 1);
    }
}

/// Where the chunk that begins at `start` ends, computed by reading forward:
/// `target` bytes, then on to the next line separator or the end of input.
pub fn next_chunk_end(data: &[u8], start: usize, target: usize) -> (e: usize)
    requires
        start < data@.len(),
        target >= 1,
    ensures
        e == chunk_end(data@, start as int, target as int),
        start < e <= data@.len(),
{
    let n = data.len();
    proof {
        if start + target < data@.len() {
            lemma_scan_bounds(data@, start as int + target as int);
        }
    }
    if target >= n - start {
        return n;
    }
    let mut e: usize = start + target;
    while e < n && data[e - 1] != SEP_LINE
        invariant
            n == data@.len(),
            1 <= e <= n,
            scan_boundary(data@, e as int) == scan_boundary(data@, start as int + target as int),
            scan_boundary(data@, start as int + target as int) >= start + target,
        decreases n - e,
    {
        e = e + 1;
    }
    proof {
        if e < n {
            assert(data@[e - 1] == SEP_LINE);
            assert(scan_boundary(data@, e as int) == e);
        } else {
            assert(scan_boundary(data@, e as int) == n);
        }
    }
    e
}

/// Splits the whole stream into record-aligned chunks of roughly `target`
/// bytes, exactly as [`chunks_from`] describes.
pub fn split_into_chunks(data: &[u8], target: usize) -> (chunks: Vec<Vec<u8>>)
    requires
        target >= 1,
    ensures
        chunks@.map_values(|c: Vec<u8>| c@) == chunks_from(data@, 0, target as int),
{
    let n = data.len();
    let mut chunks: Vec<Vec<u8>> = Vec::new();
    let mut start: usize = 0;
    proof {
        assert(chunks@.map_values(|c: Vec<u8>| c@) =~= Seq::<Seq<u8>>::empty());
    }
    while start < n
        invariant
            n == data@.len(),
            target >= 1,
            start <= n,
            chunks_from(data@, 0, target as int) =~= chunks@.map_values(|c: Vec<u8>| c@)
                + chunks_from(data@, start as int, target as int),
        decreases n - start,
    {
        let e = next_chunk_end(data, start, target);
        let piece = slice_to_vec(slice_subrange(data, start, e));
        let ghost pre = chunks@;
        chunks.push(piece);
        proof {
            assert(chunks@ == pre.push(piece));
            assert(chunks@.map_values(|c: Vec<u8>| c@) =~= pre.map_values(|c: Vec<u8>| c@).push(
                piece@,
            ));
            assert(chunks_from(data@, start as int, target as int) == seq![
                data@.subrange(start as int, e as int),
            ] + chunks_from(data@, e as int, target as int));
            assert(chunks_from(data@, 0, target as int) =~= chunks@.map_values(|c: Vec<u8>| c@)
                + chunks_from(data@, e as int, target as int));
        }
        start = e;
    }
    proof {
        assert(chunks_from(data@, start as int, target as int) =~= Seq::<Seq<u8>>::empty());
        assert(chunks@.map_values(|c: Vec<u8>| c@) + Seq::<Seq<u8>>::empty() =~= chunks@.map_values(
            |c: Vec<u8>| c@,
        ));
    }
    chunks
}

} // verus!
