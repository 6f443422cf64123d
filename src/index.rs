//! Sequences of indices into a line, and the points they pick out.
use crate::geometry::Point;
use vstd::prelude::*;

verus! {

/// The view of a sequence of indices as integers.
pub open spec fn idx_view(v: Seq<usize>) -> Seq<int> {
    v.map_values(|i: usize| i as int)
}

/// The integers from `lo` up to, but not including, `hi`.
pub open spec fn int_range(lo: int, hi: int) -> Seq<int> {
    Seq::new(if hi > lo { (hi - lo) as nat } else { 0 }, |i: int| lo + i)
}

/// Each element of `s` is greater than the one before.
pub open spec fn strictly_ascending(s: Seq<int>) -> bool {
    forall|i: int, j: int| 0 <= i < j < s.len() ==> s[i] < s[j]
}

/// The points at the given indices, in order.
pub open spec fn pick<const D: usize>(line: Seq<Point<D>>, idx: Seq<int>) -> Seq<Point<D>> {
    idx.map_values(|i: int| line[i])
}

/// The points of `line` at the indices `idx`, in order.
pub fn points_at<const D: usize>(line: &[Point<D>], idx: &Vec<usize>) -> (r: Vec<Point<D>>)
    requires
        forall|i: int| 0 <= i < idx@.len() ==> 0 <= #[trigger] idx_view(idx@)[i] < line@.len(),
    ensures
        r@ == pick(line@, idx_view(idx@)),
{
    let mut out: Vec<Point<D>> = Vec::with_capacity(idx.len());
    let mut k: usize = 0;
    while k < idx.len()
        invariant
            k <= idx@.len(),
            forall|i: int| 0 <= i < idx@.len() ==> 0 <= #[trigger] idx_view(idx@)[i] < line@.len(),
            out@ == pick(line@, idx_view(idx@).take(k as int)),
        decreases idx@.len() - k,
    {
        assert(idx_view(idx@)[k as int] == idx@[k as int] as int);
        out.push(line[idx[k]]);
        assert(idx_view(idx@).take(k + 1) =~= idx_view(idx@).take(k as int).push(
            idx@[k as int] as int,
        ));
        assert(out@ =~= pick(line@, idx_view(idx@).take(k + 1)));
        k = k + 1;
    }
    assert(idx_view(idx@).take(k as int) =~= idx_view(idx@));
    out
}

} // verus!
