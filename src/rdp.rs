//! Ramer–Douglas–Peucker simplification.
//!
//! A stretch of the line between two kept points is replaced by the segment
//! joining them unless some point of the stretch lies farther than epsilon
//! from that segment; then the farthest point (the first of them, on a tie)
//! is kept and both halves are treated the same way.
use crate::geometry::{
    colinear, distance_squared, lemma_colinear_on_line, lemma_dot_bound, lemma_on_segment,
    lemma_sq_dist_nonneg, line_ok, point_ok, proj_dist2, seg_den, seg_num, sq_dist, Point,
    MAX_SQ_DIST,
};
use crate::index::{idx_view, int_range, pick, points_at, strictly_ascending};
use vstd::prelude::*;

verus! {

/// How far `line[j]` lies from the segment from `line[lo]` to `line[hi]`,
/// as the numerator over `seg_den(line[lo], line[hi])`.
pub open spec fn deviation<const D: usize>(line: Seq<Point<D>>, lo: int, hi: int, j: int) -> int {
    seg_num(line[lo], line[hi], line[j])
}

/// The first index among `lo + 1 ..= j` whose deviation from the segment
/// `lo`–`hi` is the greatest among them.
pub open spec fn first_max<const D: usize>(line: Seq<Point<D>>, lo: int, hi: int, j: int) -> int
    decreases j - lo,
{
    if j <= lo + 1 {
        lo + 1
    } else {
        let b = first_max(line, lo, hi, j - 1);
        if deviation(line, lo, hi, j) > deviation(line, lo, hi, b) {
            j
        } else {
            b
        }
    }
}

/// The interior indices of `lo`–`hi` that RDP keeps, in ascending order,
/// when the squared tolerance is `eps2`.
pub open spec fn rdp_kept<const D: usize>(line: Seq<Point<D>>, eps2: int, lo: int, hi: int) -> Seq<
    int,
>
    decreases hi - lo,
    via rdp_kept_decreases::<D>
{
    if hi - lo < 2 {
        seq![]
    } else {
        let m = first_max(line, lo, hi, hi - 1);
        if deviation(line, lo, hi, m) > eps2 * seg_den(line[lo], line[hi]) {
            rdp_kept(line, eps2, lo, m) + seq![m] + rdp_kept(line, eps2, m, hi)
        } else {
            seq![]
        }
    }
}

#[via_fn]
proof fn rdp_kept_decreases<const D: usize>(line: Seq<Point<D>>, eps2: int, lo: int, hi: int) {
    if hi - lo >= 2 {
        lemma_first_max(line, lo, hi, hi - 1);
    }
}

/// The indices of `line` that RDP with tolerance `epsilon` keeps.
///
/// A line of at most two points is kept whole; otherwise both end points are
/// kept, with what the recursion keeps between them.
pub open spec fn rdp_indices<const D: usize>(line: Seq<Point<D>>, epsilon: int) -> Seq<int> {
    let n = line.len() as int;
    if n <= 2 {
        int_range(0, n)
    } else {
        seq![0int] + rdp_kept(line, epsilon * epsilon, 0, n - 1) + seq![n - 1]
    }
}

/// `first_max` lies in range, has the greatest deviation, and no earlier
/// index matches it.
pub proof fn lemma_first_max<const D: usize>(line: Seq<Point<D>>, lo: int, hi: int, j: int)
    requires
        lo + 1 <= j,
    ensures
        lo < first_max(line, lo, hi, j) <= j,
        forall|k: int|
            lo < k <= j ==> #[trigger] deviation(line, lo, hi, k) <= deviation(
                line,
                lo,
                hi,
                first_max(line, lo, hi, j),
            ),
        forall|k: int|
            lo < k < first_max(line, lo, hi, j) ==> #[trigger] deviation(line, lo, hi, k) < deviation(
                line,
                lo,
                hi,
                first_max(line, lo, hi, j),
            ),
    decreases j - lo,
{
    if j > lo + 1 {
        lemma_first_max(line, lo, hi, j - 1);
    }
}

/// Finds the kept interior indices of `lo`–`hi` and appends them to `out`.
fn rdp_keep_inner<const D: usize>(
    line: &[Point<D>],
    epsilon_sq: i128,
    lo: usize,
    hi: usize,
    out: &mut Vec<usize>,
)
    requires
        line_ok(line@),
        lo < hi < line@.len(),
        0 <= epsilon_sq <= 0xffff_ffff_ffff_ffff,
    ensures
        idx_view(final(out)@) == idx_view(old(out)@) + rdp_kept(
            line@,
            epsilon_sq as int,
            lo as int,
            hi as int,
        ),
    decreases hi - lo,
{
    if hi - lo < 2 {
        assert(idx_view(out@) =~= idx_view(out@) + Seq::<int>::empty());
        return;
    }
    let ghost s = line@;
    let first = &line[lo];
    let last = &line[hi];
    let length_sq = distance_squared(first, last);
    let mut best: usize = lo + 1;
    let mut best_d: i128 = proj_dist2(first, last, &line[lo + 1], length_sq);
    let mut j: usize = lo + 2;
    while j < hi
        invariant
            line_ok(s),
            s == line@,
            lo + 2 <= j <= hi < s.len(),
            *first == s[lo as int],
            *last == s[hi as int],
            length_sq == crate::geometry::sq_dist(*first, *last),
            best == first_max(s, lo as int, hi as int, j - 1),
            best_d == deviation(s, lo as int, hi as int, best as int),
        decreases hi - j,
    {
        let d = proj_dist2(first, last, &line[j], length_sq);
        if d > best_d {
            best = j;
            best_d = d;
        }
        j = j + 1;
    }
    proof {
        lemma_first_max(s, lo as int, hi as int, hi - 1);
        lemma_sq_dist_nonneg(*first, *last, D as int);
    }
    let den: i128 = if length_sq == 0 {
        1
    } else {
        length_sq
    };
    proof {
        vstd::arithmetic::mul::lemma_mul_upper_bound(
            epsilon_sq as int,
            0xffff_ffff_ffff_ffff,
            den as int,
            MAX_SQ_DIST as int,
        );
    }
    if best_d > epsilon_sq * den {
        let ghost before = idx_view(out@);
        rdp_keep_inner(line, epsilon_sq, lo, best, out);
        let ghost mid = idx_view(out@);
        out.push(best);
        assert(idx_view(out@) =~= mid.push(best as int));
        rdp_keep_inner(line, epsilon_sq, best, hi, out);
        assert(idx_view(out@) =~= before + rdp_kept(
            s,
            epsilon_sq as int,
            lo as int,
            hi as int,
        ));
    } else {
        assert(idx_view(out@) =~= idx_view(out@) + Seq::<int>::empty());
    }
}

/// Returns the indices of the points of `line` that RDP with tolerance
/// `epsilon` keeps, in ascending order.
pub fn rdp_keep<const D: usize>(line: &[Point<D>], epsilon: u32) -> (r: Vec<usize>)
    requires
        line_ok(line@),
    ensures
        idx_view(r@) == rdp_indices(line@, epsilon as int),
{
    let n = line.len();
    let mut out: Vec<usize> = Vec::with_capacity(n);
    if n <= 2 {
        let mut i: usize = 0;
        while i < n
            invariant
                i <= n == line@.len() <= 2,
                idx_view(out@) == int_range(0, i as int),
            decreases n - i,
        {
            let ghost prev = idx_view(out@);
            out.push(i);
            assert(idx_view(out@) =~= prev.push(i as int));
            assert(idx_view(out@) =~= int_range(0, i + 1));
            i = i + 1;
        }
        return out;
    }
    out.push(0);
    assert(idx_view(out@) =~= seq![0int]);
    let eps: i128 = epsilon as i128;
    assert(eps * eps <= 0xffff_ffff_ffff_ffff) by (nonlinear_arith)
        requires
            0 <= eps <= 0xffff_ffff,
    ;
    assert(0 <= eps * eps) by (nonlinear_arith);
    rdp_keep_inner(line, eps * eps, 0, n - 1, &mut out);
    let ghost prev = idx_view(out@);
    out.push(n - 1);
    assert(idx_view(out@) =~= prev.push(n - 1));
    assert(idx_view(out@) =~= rdp_indices(line@, epsilon as int));
    out
}

/// Returns the points of `line` that RDP with tolerance `epsilon` keeps.
pub fn rdp_reduce<const D: usize>(line: &[Point<D>], epsilon: u32) -> (r: Vec<Point<D>>)
    requires
        line_ok(line@),
    ensures
        r@ == pick(line@, rdp_indices(line@, epsilon as int)),
{
    let kept = rdp_keep(line, epsilon);
    proof {
        lemma_rdp_indices_shape(line@, epsilon as int);
    }
    points_at(line, &kept)
}

/// What RDP keeps strictly inside `lo`–`hi` lies strictly inside it, in
/// ascending order.
pub proof fn lemma_rdp_kept_inside<const D: usize>(
    line: Seq<Point<D>>,
    eps2: int,
    lo: int,
    hi: int,
)
    ensures
        strictly_ascending(rdp_kept(line, eps2, lo, hi)),
        forall|i: int|
            0 <= i < rdp_kept(line, eps2, lo, hi).len() ==> lo < #[trigger] rdp_kept(
                line,
                eps2,
                lo,
                hi,
            )[i] < hi,
    decreases hi - lo,
{
    if hi - lo >= 2 {
        let m = first_max(line, lo, hi, hi - 1);
        lemma_first_max(line, lo, hi, hi - 1);
        if deviation(line, lo, hi, m) > eps2 * seg_den(line[lo], line[hi]) {
            lemma_rdp_kept_inside(line, eps2, lo, m);
            lemma_rdp_kept_inside(line, eps2, m, hi);
            let a = rdp_kept(line, eps2, lo, m);
            let b = rdp_kept(line, eps2, m, hi);
            let all = a + seq![m] + b;
            assert(all == rdp_kept(line, eps2, lo, hi));
            assert forall|i: int| 0 <= i < all.len() implies lo < #[trigger] all[i] < hi by {
                if i < a.len() {
                    assert(all[i] == a[i]);
                } else if i > a.len() {
                    assert(all[i] == b[i - a.len() - 1]);
                }
            }
            assert forall|i: int, j: int| 0 <= i < j < all.len() implies all[i] < all[j] by {
                if j < a.len() {
                    assert(all[i] == a[i] && all[j] == a[j]);
                } else if i > a.len() {
                    assert(all[i] == b[i - a.len() - 1] && all[j] == b[j - a.len() - 1]);
                } else if i < a.len() {
                    assert(all[i] == a[i]);
                    if j > a.len() {
                        assert(all[j] == b[j - a.len() - 1]);
                    }
                } else {
                    assert(all[j] == b[j - a.len() - 1]);
                }
            }
        }
    }
}

/// The first and last indices of a line of at least two points are always
/// kept, and the kept indices ascend strictly and lie in the line.
pub proof fn lemma_rdp_indices_shape<const D: usize>(line: Seq<Point<D>>, epsilon: int)
    ensures
        strictly_ascending(rdp_indices(line, epsilon)),
        forall|i: int|
            0 <= i < rdp_indices(line, epsilon).len() ==> 0 <= #[trigger] rdp_indices(
                line,
                epsilon,
            )[i] < line.len(),
        line.len() >= 1 ==> rdp_indices(line, epsilon)[0] == 0,
        line.len() >= 1 ==> rdp_indices(line, epsilon).last() == line.len() - 1,
{
    let n = line.len() as int;
    if n > 2 {
        let k = rdp_kept(line, epsilon * epsilon, 0, n - 1);
        lemma_rdp_kept_inside(line, epsilon * epsilon, 0, n - 1);
        let all = seq![0int] + k + seq![n - 1];
        assert(all == rdp_indices(line, epsilon));
        assert forall|i: int| 0 <= i < all.len() implies 0 <= #[trigger] all[i] < n by {
            if 0 < i < all.len() - 1 {
                assert(all[i] == k[i - 1]);
            }
        }
        assert forall|i: int, j: int| 0 <= i < j < all.len() implies all[i] < all[j] by {
            if 0 < i {
                assert(all[i] == k[i - 1]);
            }
            if j < all.len() - 1 {
                assert(all[j] == k[j - 1]);
            }
        }
    }
}

proof fn lemma_rdp_kept_len_mono<const D: usize>(
    line: Seq<Point<D>>,
    e1: int,
    e2: int,
    lo: int,
    hi: int,
)
    requires
        0 <= e1 <= e2,
    ensures
        rdp_kept(line, e2, lo, hi).len() <= rdp_kept(line, e1, lo, hi).len(),
    decreases hi - lo,
{
    if hi - lo >= 2 {
        let m = first_max(line, lo, hi, hi - 1);
        lemma_first_max(line, lo, hi, hi - 1);
        lemma_sq_dist_nonneg(line[lo], line[hi], D as int);
        let den = seg_den(line[lo], line[hi]);
        assert(e1 * den <= e2 * den) by (nonlinear_arith)
            requires
                e1 <= e2,
                den >= 1,
        ;
        lemma_rdp_kept_len_mono(line, e1, e2, lo, m);
        lemma_rdp_kept_len_mono(line, e1, e2, m, hi);
    }
}

/// A larger tolerance never keeps more points.
pub proof fn lemma_rdp_count_monotone<const D: usize>(line: Seq<Point<D>>, e1: int, e2: int)
    requires
        0 <= e1 <= e2,
    ensures
        rdp_indices(line, e2).len() <= rdp_indices(line, e1).len(),
{
    let n = line.len() as int;
    if n > 2 {
        assert(e1 * e1 <= e2 * e2) by (nonlinear_arith)
            requires
                0 <= e1 <= e2,
        ;
        assert(0 <= e1 * e1) by (nonlinear_arith);
        lemma_rdp_kept_len_mono(line, e1 * e1, e2 * e2, 0, n - 1);
    }
}

/// No point lies farther from a segment than `MAX_SQ_DIST` allows.
pub proof fn lemma_seg_num_bound<const D: usize>(s: Point<D>, e: Point<D>, p: Point<D>)
    requires
        point_ok(s),
        point_ok(e),
        point_ok(p),
        D <= crate::geometry::MAX_DIM,
    ensures
        seg_num(s, e, p) <= seg_den(s, e) * MAX_SQ_DIST,
{
    lemma_dot_bound(s, e, s, e);
    lemma_dot_bound(p, s, p, s);
    lemma_dot_bound(p, e, p, e);
    lemma_sq_dist_nonneg(s, e, D as int);
    let len2 = sq_dist(s, e);
    let along = crate::geometry::dot(p, s, e, s);
    let m = MAX_SQ_DIST as int;
    if len2 != 0 {
        vstd::arithmetic::mul::lemma_mul_inequality(sq_dist(p, s), m, len2);
        vstd::arithmetic::mul::lemma_mul_inequality(sq_dist(p, e), m, len2);
        assert(along * along >= 0) by (nonlinear_arith);
        assert(len2 * sq_dist(p, s) == sq_dist(p, s) * len2) by (nonlinear_arith);
        assert(len2 * sq_dist(p, e) == sq_dist(p, e) * len2) by (nonlinear_arith);
        assert(len2 * m == m * len2) by (nonlinear_arith);
    }
}

/// With a tolerance at least as long as any distance on the grid, only the
/// two end points of a line of at least two points are kept.
pub proof fn lemma_rdp_large_epsilon<const D: usize>(line: Seq<Point<D>>, epsilon: int)
    requires
        line_ok(line),
        line.len() >= 2,
        epsilon * epsilon >= MAX_SQ_DIST,
    ensures
        rdp_indices(line, epsilon) == seq![0int, line.len() - 1],
{
    let n = line.len() as int;
    if n > 2 {
        let lo = 0int;
        let hi = n - 1;
        let m = first_max(line, lo, hi, hi - 1);
        lemma_first_max(line, lo, hi, hi - 1);
        lemma_seg_num_bound(line[lo], line[hi], line[m]);
        lemma_sq_dist_nonneg(line[lo], line[hi], D as int);
        let den = seg_den(line[lo], line[hi]);
        vstd::arithmetic::mul::lemma_mul_inequality(MAX_SQ_DIST as int, epsilon * epsilon, den);
        assert(den * (MAX_SQ_DIST as int) == (MAX_SQ_DIST as int) * den) by (nonlinear_arith);
        assert(epsilon * epsilon * den == (epsilon * epsilon) * den);
        assert(rdp_kept(line, epsilon * epsilon, lo, hi) =~= Seq::<int>::empty());
        assert(rdp_indices(line, epsilon) =~= seq![0int, n - 1]);
    } else {
        assert(rdp_indices(line, epsilon) =~= seq![0int, n - 1]);
    }
}

/// `c` is `first_max` as soon as it has the greatest deviation and no
/// earlier index matches it.
proof fn lemma_first_max_unique<const D: usize>(line: Seq<Point<D>>, lo: int, hi: int, c: int)
    requires
        lo < c <= hi - 1,
        forall|k: int| lo < k <= hi - 1 ==> #[trigger] deviation(line, lo, hi, k) <= deviation(line, lo, hi, c),
        forall|k: int| lo < k < c ==> #[trigger] deviation(line, lo, hi, k) < deviation(line, lo, hi, c),
    ensures
        first_max(line, lo, hi, hi - 1) == c,
{
    lemma_first_max(line, lo, hi, hi - 1);
    let f = first_max(line, lo, hi, hi - 1);
    if f < c {
        assert(deviation(line, lo, hi, f) < deviation(line, lo, hi, c));
    } else if f > c {
        assert(deviation(line, lo, hi, c) < deviation(line, lo, hi, f));
    }
}

/// Running RDP over the points it kept from `lo`–`hi` keeps all of them:
/// `red` holds the points of `line` at the ascending indices `pos`, and
/// between its positions `a` and `b` exactly those that were kept.
proof fn lemma_rdp_kept_stable<const D: usize>(
    line: Seq<Point<D>>,
    eps2: int,
    lo: int,
    hi: int,
    red: Seq<Point<D>>,
    pos: Seq<int>,
    a: int,
    b: int,
)
    requires
        red.len() == pos.len(),
        strictly_ascending(pos),
        forall|k: int| 0 <= k < red.len() ==> #[trigger] red[k] == line[pos[k]],
        0 <= a < b < red.len(),
        pos[a] == lo,
        pos[b] == hi,
        pos.subrange(a + 1, b) == rdp_kept(line, eps2, lo, hi),
    ensures
        rdp_kept(red, eps2, a, b) == int_range(a + 1, b),
    decreases hi - lo,
{
    let kept = rdp_kept(line, eps2, lo, hi);
    if kept.len() == 0 {
        assert(pos.subrange(a + 1, b).len() == 0);
        assert(int_range(a + 1, b) =~= Seq::<int>::empty());
        return;
    }
    let m = first_max(line, lo, hi, hi - 1);
    lemma_first_max(line, lo, hi, hi - 1);
    let k1 = rdp_kept(line, eps2, lo, m);
    let k2 = rdp_kept(line, eps2, m, hi);
    assert(kept == k1 + seq![m] + k2);
    let c = a + 1 + k1.len();
    assert(pos[c] == kept[k1.len() as int]);
    assert(pos[c] == m);
    assert(pos.subrange(a + 1, c) =~= k1) by {
        assert forall|i: int| 0 <= i < k1.len() implies pos.subrange(a + 1, c)[i] == k1[i] by {
            assert(pos[a + 1 + i] == pos.subrange(a + 1, b)[i]);
            assert(kept[i] == k1[i]);
        }
    }
    assert(pos.subrange(c + 1, b) =~= k2) by {
        assert forall|i: int| 0 <= i < k2.len() implies pos.subrange(c + 1, b)[i] == k2[i] by {
            assert(pos[c + 1 + i] == pos.subrange(a + 1, b)[c - a + i]);
            assert(kept[k1.len() + 1 + i] == k2[i]);
        }
    }
    assert(red[a] == line[lo] && red[b] == line[hi] && red[c] == line[m]);
    assert forall|k: int| a < k <= b - 1 implies #[trigger] deviation(red, a, b, k) <= deviation(red, a, b, c) by {
        assert(red[k] == line[pos[k]]);
        assert(pos[a] < pos[k] < pos[b]);
        assert(deviation(red, a, b, k) == deviation(line, lo, hi, pos[k]));
    }
    assert forall|k: int| a < k < c implies #[trigger] deviation(red, a, b, k) < deviation(red, a, b, c) by {
        assert(red[k] == line[pos[k]]);
        assert(pos[a] < pos[k] < pos[c]);
        assert(deviation(red, a, b, k) == deviation(line, lo, hi, pos[k]));
    }
    lemma_first_max_unique(red, a, b, c);
    lemma_rdp_kept_stable(line, eps2, lo, m, red, pos, a, c);
    lemma_rdp_kept_stable(line, eps2, m, hi, red, pos, c, b);
    assert(rdp_kept(red, eps2, a, b) == rdp_kept(red, eps2, a, c) + seq![c] + rdp_kept(red, eps2, c, b));
    assert(int_range(a + 1, c) + seq![c] + int_range(c + 1, b) =~= int_range(a + 1, b));
}

/// Reducing a line that RDP has already reduced, with the same tolerance,
/// changes nothing.
pub proof fn lemma_rdp_reduce_idempotent<const D: usize>(line: Seq<Point<D>>, epsilon: int)
    ensures
        pick(pick(line, rdp_indices(line, epsilon)), rdp_indices(
            pick(line, rdp_indices(line, epsilon)),
            epsilon,
        )) == pick(line, rdp_indices(line, epsilon)),
{
    let idx = rdp_indices(line, epsilon);
    let red = pick(line, idx);
    let n = line.len() as int;
    lemma_rdp_indices_shape(line, epsilon);
    let m = red.len() as int;
    if m > 2 {
        let kept = rdp_kept(line, epsilon * epsilon, 0, n - 1);
        assert(idx == seq![0int] + kept + seq![n - 1]);
        assert(idx.subrange(1, m - 1) =~= kept);
        lemma_rdp_kept_stable(line, epsilon * epsilon, 0, n - 1, red, idx, 0, m - 1);
        assert(rdp_indices(red, epsilon) =~= int_range(0, m));
    } else {
        assert(rdp_indices(red, epsilon) =~= int_range(0, m));
    }
    assert(pick(red, int_range(0, m)) =~= red);
}

/// A point that RDP with zero tolerance drops from `lo`–`hi` is colinear
/// with its two neighbours.
proof fn lemma_rdp_zero_drops_colinear<const D: usize>(
    line: Seq<Point<D>>,
    lo: int,
    hi: int,
    i: int,
)
    requires
        0 <= lo < i < hi < line.len(),
        !rdp_kept(line, 0, lo, hi).contains(i),
    ensures
        colinear(line[i - 1], line[i], line[i + 1]),
    decreases hi - lo,
{
    let m = first_max(line, lo, hi, hi - 1);
    lemma_first_max(line, lo, hi, hi - 1);
    let kept = rdp_kept(line, 0, lo, hi);
    if deviation(line, lo, hi, m) > 0 * seg_den(line[lo], line[hi]) {
        let k1 = rdp_kept(line, 0, lo, m);
        let k2 = rdp_kept(line, 0, m, hi);
        assert(kept == k1 + seq![m] + k2);
        if i == m {
            assert(kept[k1.len() as int] == m);
        } else if i < m {
            if k1.contains(i) {
                let p = choose|p: int| 0 <= p < k1.len() && k1[p] == i;
                assert(kept[p] == i);
            }
            lemma_rdp_zero_drops_colinear(line, lo, m, i);
        } else {
            if k2.contains(i) {
                let p = choose|p: int| 0 <= p < k2.len() && k2[p] == i;
                assert(kept[k1.len() + 1 + p] == i);
            }
            lemma_rdp_zero_drops_colinear(line, m, hi, i);
        }
    } else {
        let s = line[lo];
        let e = line[hi];
        assert(deviation(line, lo, hi, i) <= 0);
        if i - 1 > lo {
            assert(deviation(line, lo, hi, i - 1) <= 0);
        }
        if i + 1 < hi {
            assert(deviation(line, lo, hi, i + 1) <= 0);
        }
        let alpha = lemma_on_segment(s, e, line[i - 1]);
        let beta = lemma_on_segment(s, e, line[i]);
        let gamma = lemma_on_segment(s, e, line[i + 1]);
        lemma_colinear_on_line(s, e, line[i - 1], line[i], line[i + 1], alpha, beta, gamma);
    }
}

/// With a tolerance of zero, RDP keeps every point that is not colinear
/// with its two neighbours.
pub proof fn lemma_rdp_zero_keeps_corners<const D: usize>(line: Seq<Point<D>>, i: int)
    requires
        0 < i < line.len() - 1,
        !colinear(line[i - 1], line[i], line[i + 1]),
    ensures
        rdp_indices(line, 0).contains(i),
{
    let n = line.len() as int;
    let kept = rdp_kept(line, 0, 0, n - 1);
    if !kept.contains(i) {
        lemma_rdp_zero_drops_colinear(line, 0, n - 1, i);
    }
    let p = choose|p: int| 0 <= p < kept.len() && kept[p] == i;
    assert(rdp_indices(line, 0) == seq![0int] + kept + seq![n - 1]);
    assert(rdp_indices(line, 0)[p + 1] == i);
}

} // verus!
