//! Byte ranges that tile a span of text, and moving them inside a larger text.

use std::ops::Range;
use vstd::prelude::*;

verus! {

/// `rs` splits `lo..hi` into non-empty ranges that follow one another in
/// order without gap; there are none exactly when the span is empty.
pub open spec fn tiles(rs: Seq<Range<usize>>, lo: int, hi: int) -> bool {
    &&& rs.len() == 0 <==> lo == hi
    &&& rs.len() > 0 ==> rs[0].start == lo && rs.last().end == hi
    &&& forall|k: int| 0 <= k < rs.len() ==> (#[trigger] rs[k]).start < rs[k].end
    &&& forall|k: int| 0 <= k < rs.len() - 1 ==> (#[trigger] rs[k]).end == rs[k + 1].start
}

/// The range `r` moved `start` bytes further into the text.
pub open spec fn shifted(r: Range<usize>, start: usize) -> Range<usize> {
    Range { start: (start + r.start) as usize, end: (start + r.end) as usize }
}

/// Moving ranges that tile `0..n` by `start` gives ranges that tile
/// `start..start + n`.
pub proof fn lemma_shifted_tiles(rs: Seq<Range<usize>>, start: usize, n: int)
    requires
        tiles(rs, 0, n),
        start + n <= usize::MAX,
    ensures
        tiles(rs.map_values(|r: Range<usize>| shifted(r, start)), start as int, start + n),
{
    let out = rs.map_values(|r: Range<usize>| shifted(r, start));
    if rs.len() > 0 {
        assert forall|k: int| 0 <= k < rs.len() implies rs[k].start < rs[k].end && rs[k].end <= n by {
            lemma_tile_bounds(rs, n, k);
        }
        assert(out.last() == out[rs.len() - 1]);
    }
    assert forall|k: int| 0 <= k < out.len() - 1 implies (#[trigger] out[k]).end
        == out[k + 1].start by {
        lemma_tile_bounds(rs, n, k);
        lemma_tile_bounds(rs, n, k + 1);
    }
    assert forall|k: int| 0 <= k < out.len() implies (#[trigger] out[k]).start < out[k].end by {
        lemma_tile_bounds(rs, n, k);
    }
}

/// Each range of a tiling of `0..n` lies inside `0..n`.
pub proof fn lemma_tile_bounds(rs: Seq<Range<usize>>, n: int, k: int)
    requires
        tiles(rs, 0, n),
        0 <= k < rs.len(),
    ensures
        0 <= rs[k].start < rs[k].end <= n,
    decreases rs.len() - k,
{
    if k < rs.len() - 1 {
        lemma_tile_bounds(rs, n, k + 1);
        assert(rs[k].end == rs[k + 1].start);
    } else {
        assert(rs.last() == rs[k]);
    }
}

/// The ranges of `ranges`, found in a piece of text that starts `start`
/// bytes into a larger text, as ranges of the larger text.
pub fn fragment_text_ranges(start: usize, ranges: &Vec<Range<usize>>) -> (r: Vec<Range<usize>>)
    requires
        forall|k: int| 0 <= k < ranges@.len() ==> start + (#[trigger] ranges@[k]).start <= usize::MAX
            && start + ranges@[k].end <= usize::MAX,
    ensures
        r@ == ranges@.map_values(|x: Range<usize>| shifted(x, start)),
{
    let mut out: Vec<Range<usize>> = Vec::new();
    let mut i: usize = 0;
    while i < ranges.len()
        invariant
            0 <= i <= ranges@.len(),
            out@.len() == i,
            forall|k: int|
                0 <= k < ranges@.len() ==> start + (#[trigger] ranges@[k]).start <= usize::MAX
                    && start + ranges@[k].end <= usize::MAX,
            forall|k: int| 0 <= k < i ==> #[trigger] out@[k] == shifted(ranges@[k], start),
        decreases ranges@.len() - i,
    {
        let s = start + ranges[i].start;
        let e = start + ranges[i].end;
        out.push(Range { start: s, end: e });
        i = i + 1;
    }
    assert(out@ =~= ranges@.map_values(|x: Range<usize>| shifted(x, start)));
    out
}

} // verus!
