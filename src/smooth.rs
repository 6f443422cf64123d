//! Smoothing: every point moves, none is added or removed.
use crate::geometry::{
    coord_ok, distance_squared, dot_upto, line_ok, point_near, point_ok, sq_dist, Point,
    COORD_LIMIT,
};
use crate::kernel::Kernel;
use std::collections::HashMap;
use vstd::arithmetic::div_mod::lemma_fundamental_div_mod;
use vstd::arithmetic::mul::lemma_mul_inequality;
use vstd::prelude::*;
use vstd::std_specs::hash::group_hash_axioms;

verus! {

broadcast use group_hash_axioms;

/// The sum of coordinate `k` over the points `lo..hi` of `line`.
pub open spec fn coord_sum<const D: usize>(line: Seq<Point<D>>, lo: int, hi: int, k: int) -> int
    decreases hi - lo,
{
    if hi <= lo {
        0
    } else {
        coord_sum(line, lo, hi - 1, k) + line[hi - 1][k]
    }
}

/// The mean of coordinate `k` over the points `lo..hi`, rounded to the
/// nearest integer, halves upward.
pub open spec fn mean_coord<const D: usize>(line: Seq<Point<D>>, lo: int, hi: int, k: int) -> int {
    (2 * coord_sum(line, lo, hi, k) + (hi - lo)) / (2 * (hi - lo))
}

/// How many points on each side of point `i` of a line of `n` points its
/// window takes: `width`, or fewer where an end of the line is nearer.
pub open spec fn half_width(n: int, width: int, i: int) -> int {
    let to_end = if i <= n - 1 - i { i } else { n - 1 - i };
    if width <= to_end { width } else { to_end }
}

/// Coordinate `k` of point `i` of the moving average of `line`.
pub open spec fn moving_average_coord<const D: usize>(
    line: Seq<Point<D>>,
    width: int,
    i: int,
    k: int,
) -> int {
    let h = half_width(line.len() as int, width, i);
    mean_coord(line, i - h, i + h + 1, k)
}

proof fn lemma_coord_sum_bound<const D: usize>(line: Seq<Point<D>>, lo: int, hi: int, k: int)
    requires
        line_ok(line),
        0 <= lo <= hi <= line.len(),
        0 <= k < D,
    ensures
        -(hi - lo) * COORD_LIMIT <= coord_sum(line, lo, hi, k) <= (hi - lo) * COORD_LIMIT,
    decreases hi - lo,
{
    if hi > lo {
        lemma_coord_sum_bound(line, lo, hi - 1, k);
        assert(point_ok(line[hi - 1]));
        assert(coord_ok(line[hi - 1][k]));
    }
}

/// The mean `s / c`, rounded to the nearest integer, of values within
/// `lim` stays within `lim`; adding `lim + 1` before dividing keeps the
/// dividend non-negative and shifts the quotient by just that much.
proof fn lemma_round_div(s: int, c: int, lim: int)
    requires
        c >= 1,
        lim >= 0,
        -c * lim <= s <= c * lim,
    ensures
        -lim <= (2 * s + c) / (2 * c) <= lim,
        (2 * s + c + 2 * c * (lim + 1)) / (2 * c) == (2 * s + c) / (2 * c) + lim + 1,
{
    let x = 2 * s + c;
    let d = 2 * c;
    let b = lim + 1;
    assert((-c) * lim == -(c * lim)) by (nonlinear_arith);
    lemma_fundamental_div_mod(x, d);
    let q = x / d;
    let r = x % d;
    assert(x + d * b == (q + b) * d + r) by (nonlinear_arith)
        requires
            x == d * q + r,
    ;
    vstd::arithmetic::div_mod::lemma_fundamental_div_mod_converse(x + d * b, d, q + b, r);
    if q > lim {
        lemma_mul_inequality(lim + 1, q, d);
        assert(d * q == q * d) by (nonlinear_arith);
        assert((lim + 1) * d == d * lim + d) by (nonlinear_arith);
        assert(c * lim * 2 == d * lim) by (nonlinear_arith)
            requires
                d == 2 * c,
        ;
    }
    if q < -lim {
        lemma_mul_inequality(q, -lim - 1, d);
        assert(d * q == q * d) by (nonlinear_arith);
        assert((-lim - 1) * d == -(d * lim) - d) by (nonlinear_arith);
        assert(c * lim * 2 == d * lim) by (nonlinear_arith)
            requires
                d == 2 * c,
        ;
    }
}

/// The mean of the points `lo..hi` of `line`, each coordinate rounded to
/// the nearest integer, halves upward.
fn mean<const D: usize>(line: &[Point<D>], lo: usize, hi: usize) -> (r: Point<D>)
    requires
        line_ok(line@),
        lo < hi <= line@.len(),
    ensures
        point_ok(r),
        forall|k: int| 0 <= k < D ==> #[trigger] r[k] == mean_coord(line@, lo as int, hi as int, k),
{
    let mut out: Point<D> = line[lo];
    let c: i128 = (hi - lo) as i128;
    let mut k: usize = 0;
    while k < D
        invariant
            line_ok(line@),
            lo < hi <= line@.len(),
            c == hi - lo,
            k <= D,
            forall|m: int| 0 <= m < k ==> #[trigger] out[m] == mean_coord(line@, lo as int, hi as int, m),
            forall|m: int| 0 <= m < D ==> coord_ok(#[trigger] out[m]),
        decreases D - k,
    {
        let mut s: i128 = 0;
        let mut j: usize = lo;
        while j < hi
            invariant
                line_ok(line@),
                lo <= j <= hi <= line@.len(),
                k < D,
                s == coord_sum(line@, lo as int, j as int, k as int),
            decreases hi - j,
        {
            proof {
                lemma_coord_sum_bound(line@, lo as int, j as int, k as int);
                assert(point_ok(line@[j as int]));
                assert(coord_ok(line@[j as int][k as int]));
            }
            s = s + line[j][k] as i128;
            j = j + 1;
        }
        proof {
            lemma_coord_sum_bound(line@, lo as int, hi as int, k as int);
            lemma_round_div(s as int, c as int, COORD_LIMIT as int);
        }
        let shift: i128 = 2 * c * (COORD_LIMIT as i128 + 1);
        let num: i128 = 2 * s + c + shift;
        let q: i128 = ((num as u128) / ((2 * c) as u128)) as i128;
        let v: i64 = (q - (COORD_LIMIT as i128 + 1)) as i64;
        out[k] = v;
        k = k + 1;
    }
    out
}

/// Smooths `line` with a moving average over `2 * width + 1` points centred
/// on each point; near the ends the window shrinks, evenly on both sides,
/// so the end points stay where they are.
///
/// A line of at most `max(2, width)` points is returned unchanged. The
/// smoothing is best suited to a line whose points are evenly spaced.
pub fn smooth_moving_average<const D: usize>(line: &[Point<D>], width: usize) -> (r: Vec<Point<D>>)
    requires
        line_ok(line@),
    ensures
        r@.len() == line@.len(),
        line_ok(r@),
        line@.len() <= 2 || line@.len() <= width ==> r@ == line@,
        line@.len() > 2 && line@.len() > width ==> forall|i: int, k: int|
            0 <= i < line@.len() && 0 <= k < D ==> #[trigger] r@[i][k] == moving_average_coord(
                line@,
                width as int,
                i,
                k,
            ),
{
    let n = line.len();
    if n <= 2 || n <= width {
        return vstd::slice::slice_to_vec(line);
    }
    let mut out: Vec<Point<D>> = Vec::with_capacity(n);
    let mut i: usize = 0;
    while i < n
        invariant
            line_ok(line@),
            n == line@.len(),
            i <= n,
            out@.len() == i,
            forall|j: int| 0 <= j < i ==> point_ok(#[trigger] out@[j]),
            forall|j: int, k: int|
                0 <= j < i && 0 <= k < D ==> #[trigger] out@[j][k] == moving_average_coord(
                    line@,
                    width as int,
                    j,
                    k,
                ),
        decreases n - i,
    {
        let to_end = if i <= n - 1 - i {
            i
        } else {
            n - 1 - i
        };
        let h = if width <= to_end {
            width
        } else {
            to_end
        };
        let p = mean(line, i - h, i + h + 1);
        out.push(p);
        assert(out@[i as int] == p);
        i = i + 1;
    }
    out
}

/// Coordinate `k` of the point at position `v` of `line` extended past both
/// ends by reflection: before the start, point `-v` mirrored across the
/// first point; past the end, point `2 * last - v` mirrored across the last.
pub open spec fn virt_coord<const D: usize>(line: Seq<Point<D>>, v: int, k: int) -> int {
    let last = line.len() - 1;
    if v < 0 {
        2 * line[0][k] - line[-v][k]
    } else if v > last {
        2 * line[last][k] - line[2 * last - v][k]
    } else {
        line[v][k] as int
    }
}

/// The squared distance over the first `n` coordinates from point `i` of
/// `line` to the point at position `v` of the extended line.
pub open spec fn virt_dist2_upto<const D: usize>(line: Seq<Point<D>>, i: int, v: int, n: int) -> int
    decreases n,
{
    if n <= 0 {
        0
    } else {
        virt_dist2_upto(line, i, v, n - 1) + (virt_coord(line, v, n - 1) - line[i][n - 1]) * (
        virt_coord(line, v, n - 1) - line[i][n - 1])
    }
}

/// The weight that the point at position `v` of the extended line has in
/// the smoothing of point `i`.
pub open spec fn virt_weight<K: Kernel, const D: usize>(
    line: Seq<Point<D>>,
    kernel: K,
    i: int,
    v: int,
) -> Option<u32> {
    kernel.spec_weigh_dist2(virt_dist2_upto(line, i, v, D as int))
}

/// The position `j` steps from point `i`, forward or backward.
pub open spec fn step(i: int, forward: bool, j: int) -> int {
    if forward {
        i + j
    } else {
        i - j
    }
}

/// The total weight of the points met walking from point `i` forward or
/// backward, from step `j` on: the walk goes on while the kernel gives a
/// weight, for at most `len - 1` steps.
pub open spec fn walk_weight<K: Kernel, const D: usize>(
    line: Seq<Point<D>>,
    kernel: K,
    i: int,
    forward: bool,
    j: int,
) -> int
    decreases line.len() - j,
{
    if j < 1 || j >= line.len() {
        0
    } else {
        match virt_weight(line, kernel, i, step(i, forward, j)) {
            None => 0,
            Some(w) => w + walk_weight(line, kernel, i, forward, j + 1),
        }
    }
}

/// The weighted sum of coordinate `k` over the same walk.
pub open spec fn walk_moment<K: Kernel, const D: usize>(
    line: Seq<Point<D>>,
    kernel: K,
    i: int,
    forward: bool,
    j: int,
    k: int,
) -> int
    decreases line.len() - j,
{
    if j < 1 || j >= line.len() {
        0
    } else {
        match virt_weight(line, kernel, i, step(i, forward, j)) {
            None => 0,
            Some(w) => w * virt_coord(line, step(i, forward, j), k) + walk_moment(
                line,
                kernel,
                i,
                forward,
                j + 1,
                k,
            ),
        }
    }
}

/// The total weight in the smoothing of point `i`: its own, and that of
/// the walks both ways.
pub open spec fn conv_weight<K: Kernel, const D: usize>(
    line: Seq<Point<D>>,
    kernel: K,
    i: int,
) -> int {
    kernel.spec_at_center() + walk_weight(line, kernel, i, true, 1) + walk_weight(
        line,
        kernel,
        i,
        false,
        1,
    )
}

/// The weighted sum of coordinate `k` in the smoothing of point `i`.
pub open spec fn conv_moment<K: Kernel, const D: usize>(
    line: Seq<Point<D>>,
    kernel: K,
    i: int,
    k: int,
) -> int {
    kernel.spec_at_center() * line[i][k] + walk_moment(line, kernel, i, true, 1, k) + walk_moment(
        line,
        kernel,
        i,
        false,
        1,
        k,
    )
}

/// Coordinate `k` of smoothed point `i`: the weighted mean, rounded to the
/// nearest integer, halves upward; a point whose weights are all zero stays.
pub open spec fn convolve_coord<K: Kernel, const D: usize>(
    line: Seq<Point<D>>,
    kernel: K,
    i: int,
    k: int,
) -> int {
    let w = conv_weight(line, kernel, i);
    if w == 0 {
        line[i][k] as int
    } else {
        (2 * conv_moment(line, kernel, i, k) + w) / (2 * w)
    }
}

/// The key under which the weight between points `a` and `b` is cached.
pub open spec fn pair_key(a: usize, b: usize) -> u128 {
    (a as int * 0x1_0000_0000_0000_0000 + b as int) as u128
}

proof fn lemma_pair_key_injective(a: usize, b: usize, c: usize, d: usize)
    requires
        a as int * 0x1_0000_0000_0000_0000 + b as int == c as int * 0x1_0000_0000_0000_0000 + d as int,
    ensures
        a == c,
        b == d,
{
    assert(a == c) by (nonlinear_arith)
        requires
            a as int * 0x1_0000_0000_0000_0000 + b as int == c as int * 0x1_0000_0000_0000_0000 + d as int,
            0 <= b < 0x1_0000_0000_0000_0000,
            0 <= d < 0x1_0000_0000_0000_0000,
    ;
}

/// Remembers the kernel's weight between pairs of points of a line, so that
/// each pair is weighed once, in whichever order it comes up.
pub struct WeightCache<'a, K: Kernel, const D: usize> {
    line: &'a [Point<D>],
    kernel: K,
    cache: HashMap<u128, Option<u32>>,
}

impl<'a, K: Kernel, const D: usize> WeightCache<'a, K, D> {
    pub closed spec fn line(&self) -> Seq<Point<D>> {
        self.line@
    }

    pub closed spec fn kernel(&self) -> K {
        self.kernel
    }

    /// The remembered weights, by `pair_key`.
    pub closed spec fn cached(&self) -> Map<u128, Option<u32>> {
        self.cache@
    }

    /// Every remembered weight is the kernel's.
    pub closed spec fn wf(&self) -> bool {
        &&& line_ok(self.line@)
        &&& forall|a: usize, b: usize|
            a < self.line@.len() && b < self.line@.len() && #[trigger] self.cache@.contains_key(
                pair_key(a, b),
            ) ==> self.cache@[pair_key(a, b)] == self.kernel.spec_weigh_dist2(
                sq_dist(self.line@[a as int], self.line@[b as int]),
            )
    }

    pub fn new(line: &'a [Point<D>], kernel: K) -> (r: Self)
        requires
            line_ok(line@),
        ensures
            r.wf(),
            r.line() == line@,
            r.kernel() == kernel,
            r.cached() == Map::<u128, Option<u32>>::empty(),
    {
        WeightCache { line, kernel, cache: HashMap::new() }
    }

    /// The weight between points `idx1` and `idx2`, remembered under the
    /// pair in the order given.
    pub fn get_weight_unchecked(&mut self, idx1: usize, idx2: usize) -> (r: Option<u32>)
        requires
            old(self).wf(),
            idx1 < old(self).line().len(),
            idx2 < old(self).line().len(),
        ensures
            final(self).wf(),
            final(self).line() == old(self).line(),
            final(self).kernel() == old(self).kernel(),
            r == old(self).kernel().spec_weigh_dist2(
                sq_dist(old(self).line()[idx1 as int], old(self).line()[idx2 as int]),
            ),
            final(self).cached() == old(self).cached().insert(pair_key(idx1, idx2), r),
    {
        let key: u128 = idx1 as u128 * 0x1_0000_0000_0000_0000 + idx2 as u128;
        assert(key == pair_key(idx1, idx2));
        match self.cache.get(&key) {
            Some(w) => {
                assert(self.cache@.insert(key, *w) =~= self.cache@);
                return *w;
            },
            None => {},
        }
        let w = self.kernel.weigh_dist2(
            distance_squared(&self.line[idx1], &self.line[idx2]) as u128,
        );
        let ghost before = self.cache@;
        self.cache.insert(key, w);
        proof {
            assert forall|a: usize, b: usize|
                a < self.line@.len() && b < self.line@.len() && #[trigger] self.cache@.contains_key(
                    pair_key(a, b),
                ) implies self.cache@[pair_key(a, b)] == self.kernel.spec_weigh_dist2(
                sq_dist(self.line@[a as int], self.line@[b as int]),
            ) by {
                if pair_key(a, b) == key {
                    lemma_pair_key_injective(a, b, idx1, idx2);
                } else {
                    assert(before.contains_key(pair_key(a, b)));
                }
            }
        }
        w
    }

    /// The weight between points `idx1` and `idx2`: the center weight when
    /// they are the same point, `None` when either is not in the line.
    pub fn get_weight(&mut self, idx1: usize, idx2: usize) -> (r: Option<u32>)
        requires
            old(self).wf(),
        ensures
            final(self).wf(),
            final(self).line() == old(self).line(),
            final(self).kernel() == old(self).kernel(),
            r == (if idx1 == idx2 {
                Some(old(self).kernel().spec_at_center())
            } else if idx1 >= old(self).line().len() || idx2 >= old(self).line().len() {
                None
            } else if idx1 < idx2 {
                old(self).kernel().spec_weigh_dist2(
                    sq_dist(old(self).line()[idx1 as int], old(self).line()[idx2 as int]),
                )
            } else {
                old(self).kernel().spec_weigh_dist2(
                    sq_dist(old(self).line()[idx2 as int], old(self).line()[idx1 as int]),
                )
            }),
            final(self).cached() == (if idx1 == idx2 || idx1 >= old(self).line().len() || idx2
                >= old(self).line().len() {
                old(self).cached()
            } else if idx1 < idx2 {
                old(self).cached().insert(pair_key(idx1, idx2), r)
            } else {
                old(self).cached().insert(pair_key(idx2, idx1), r)
            }),
    {
        if idx1 == idx2 {
            return Some(self.at_center());
        }
        let (lesser, greater) = if idx1 < idx2 {
            (idx1, idx2)
        } else {
            (idx2, idx1)
        };
        if greater >= self.line.len() {
            return None;
        }
        self.get_weight_unchecked(lesser, greater)
    }

    /// The weight of a point in its own smoothing.
    pub fn at_center(&self) -> (r: u32)
        ensures
            r == self.kernel().spec_at_center(),
    {
        self.kernel.at_center()
    }

    /// The kernel's weight for a squared distance.
    fn weigh_dist2(&self, dist2: u128) -> (r: Option<u32>)
        ensures
            r == self.kernel().spec_weigh_dist2(dist2 as int),
    {
        self.kernel.weigh_dist2(dist2)
    }
}

proof fn lemma_virt_dist2_reflected<const D: usize>(
    line: Seq<Point<D>>,
    i: int,
    v: int,
    q: Point<D>,
    n: int,
)
    requires
        0 <= n <= D,
        forall|k: int| 0 <= k < D ==> #[trigger] q[k] == virt_coord(line, v, k),
    ensures
        dot_upto(line[i], q, line[i], q, n) == virt_dist2_upto(line, i, v, n),
    decreases n,
{
    if n > 0 {
        lemma_virt_dist2_reflected(line, i, v, q, n - 1);
        let x = line[i][n - 1] - q[n - 1];
        assert(x * x == (-x) * (-x)) by (nonlinear_arith);
    }
}

proof fn lemma_virt_dist2_real<const D: usize>(line: Seq<Point<D>>, i: int, v: int, n: int)
    requires
        0 <= n <= D,
        0 <= v < line.len(),
    ensures
        dot_upto(line[i], line[v], line[i], line[v], n) == virt_dist2_upto(line, i, v, n),
        dot_upto(line[v], line[i], line[v], line[i], n) == virt_dist2_upto(line, i, v, n),
    decreases n,
{
    if n > 0 {
        lemma_virt_dist2_real(line, i, v, n - 1);
        let x = line[i][n - 1] - line[v][n - 1];
        assert(x * x == (-x) * (-x)) by (nonlinear_arith);
    }
}

/// `reflect` mirrored across `reflect_around`.
fn reflect_point<const D: usize>(reflect: &Point<D>, reflect_around: &Point<D>) -> (r: Point<D>)
    requires
        point_ok(*reflect),
        point_ok(*reflect_around),
    ensures
        within(r, 3 * COORD_LIMIT),
        forall|k: int| 0 <= k < D ==> #[trigger] r[k] == 2 * reflect_around[k] - reflect[k],
{
    let mut out: Point<D> = *reflect;
    let mut k: usize = 0;
    while k < D
        invariant
            k <= D,
            point_ok(*reflect),
            point_ok(*reflect_around),
            forall|m: int| 0 <= m < k ==> #[trigger] out[m] == 2 * reflect_around[m] - reflect[m],
            forall|m: int| k <= m < D ==> #[trigger] out[m] == reflect[m],
        decreases D - k,
    {
        assert(coord_ok(reflect[k as int]) && coord_ok(reflect_around[k as int]));
        out[k] = 2 * reflect_around[k] - reflect[k];
        k = k + 1;
    }
    assert forall|m: int| 0 <= m < D implies -3 * COORD_LIMIT <= #[trigger] out[m] <= 3
        * COORD_LIMIT by {
        assert(coord_ok(reflect[m]) && coord_ok(reflect_around[m]));
    }
    out
}

/// Every coordinate of `p` is within `lim`.
pub open spec fn within<const D: usize>(p: Point<D>, lim: int) -> bool {
    forall|k: int| 0 <= k < D ==> -lim <= #[trigger] p[k] <= lim
}

/// Walks from point `i` forward (towards the table of reflections past the
/// end) or backward (towards those before the start), adding the weight
/// and the weighted coordinates of each point met to `total` and `moments`.
fn walk<K: Kernel, const D: usize>(
    cache: &mut WeightCache<K, D>,
    reflected: &Vec<Point<D>>,
    i: usize,
    forward: bool,
    moments: &mut Vec<i128>,
    total: &mut i128,
    Ghost(base): Ghost<int>,
)
    requires
        old(cache).wf(),
        i < old(cache).line().len(),
        reflected@.len() == old(cache).line().len(),
        forall|m: int| 0 <= m < reflected@.len() ==> within(#[trigger] reflected@[m], 3 * COORD_LIMIT),
        forall|m: int, k: int|
            0 <= m < reflected@.len() && 0 <= k < D ==> #[trigger] reflected@[m][k] == virt_coord(
                old(cache).line(),
                if forward {
                    old(cache).line().len() - 1 + m
                } else {
                    -m
                },
                k,
            ),
        old(moments)@.len() == D,
        0 <= base <= old(cache).line().len() + 1,
        0 <= *old(total) <= base * 0x1_0000_0000,
        forall|k: int|
            0 <= k < D ==> -(*old(total) * 0x300_0000) <= #[trigger] old(moments)@[k] <= *old(total)
                * 0x300_0000,
    ensures
        final(cache).wf(),
        final(cache).line() == old(cache).line(),
        final(cache).kernel() == old(cache).kernel(),
        final(moments)@.len() == D,
        *final(total) == *old(total) + walk_weight(
            old(cache).line(),
            old(cache).kernel(),
            i as int,
            forward,
            1,
        ),
        0 <= *final(total) <= (base + old(cache).line().len()) * 0x1_0000_0000,
        forall|k: int|
            0 <= k < D ==> #[trigger] final(moments)@[k] == old(moments)@[k] + walk_moment(
                old(cache).line(),
                old(cache).kernel(),
                i as int,
                forward,
                1,
                k,
            ),
        forall|k: int|
            0 <= k < D ==> -(*final(total) * 0x300_0000) <= #[trigger] final(moments)@[k]
                <= *final(total) * 0x300_0000,
{
    let ghost line = cache.line();
    let ghost kernel = cache.kernel();
    let ghost total0 = *total;
    let ghost moments0 = moments@;
    let n = cache.line.len();
    let last = n - 1;
    let mut j: usize = 1;
    while j < n
        invariant
            cache.wf(),
            cache.line() == line,
            cache.kernel() == kernel,
            n == line.len(),
            last == n - 1,
            i < n,
            1 <= j <= n,
            reflected@.len() == n,
            forall|m: int| 0 <= m < reflected@.len() ==> within(#[trigger] reflected@[m], 3 * COORD_LIMIT),
            forall|m: int, k: int|
                0 <= m < reflected@.len() && 0 <= k < D ==> #[trigger] reflected@[m][k]
                    == virt_coord(
                    line,
                    if forward {
                        line.len() - 1 + m
                    } else {
                        -m
                    },
                    k,
                ),
            moments@.len() == D,
            walk_weight(line, kernel, i as int, forward, 1) == (*total - total0) + walk_weight(
                line,
                kernel,
                i as int,
                forward,
                j as int,
            ),
            forall|k: int|
                0 <= k < D ==> walk_moment(line, kernel, i as int, forward, 1, k) == (
                #[trigger] moments@[k] - moments0[k]) + walk_moment(
                    line,
                    kernel,
                    i as int,
                    forward,
                    j as int,
                    k,
                ),
            0 <= base <= n + 1,
            total0 <= *total <= total0 + (j - 1) * 0x1_0000_0000,
            0 <= total0 <= base * 0x1_0000_0000,
            forall|k: int|
                0 <= k < D ==> -(*total * 0x300_0000) <= #[trigger] moments@[k] <= *total
                    * 0x300_0000,
        ensures
            walk_weight(line, kernel, i as int, forward, 1) == (*total - total0),
            forall|k: int|
                0 <= k < D ==> walk_moment(line, kernel, i as int, forward, 1, k) == (
                #[trigger] moments@[k] - moments0[k]),
            moments@.len() == D,
            cache.wf(),
            cache.line() == line,
            cache.kernel() == kernel,
            total0 <= *total <= total0 + n * 0x1_0000_0000,
            forall|k: int|
                0 <= k < D ==> -(*total * 0x300_0000) <= #[trigger] moments@[k] <= *total
                    * 0x300_0000,
        decreases n - j,
    {
        let ghost v: int = step(i as int, forward, j as int);
        let (q, w) = if forward {
            if j < n - i {
                let w = cache.get_weight(i, i + j);
                proof {
                    lemma_virt_dist2_real(line, i as int, v, D as int);
                }
                (line_point(cache, i + j), w)
            } else {
                let q = reflected[j - (last - i)];
                proof {
                    assert forall|k: int| 0 <= k < D implies #[trigger] q[k] == virt_coord(line, v, k) by {
                        assert(reflected@[i + j - last][k] == virt_coord(
                            line,
                            line.len() - 1 + (i + j - last),
                            k,
                        ));
                    }
                    lemma_virt_dist2_reflected(line, i as int, v, q, D as int);
                }
                let d2 = distance_squared(&cache.line[i], &q);
                (q, cache.weigh_dist2(d2 as u128))
            }
        } else {
            if j <= i {
                let w = cache.get_weight(i, i - j);
                proof {
                    lemma_virt_dist2_real(line, i as int, v, D as int);
                }
                (line_point(cache, i - j), w)
            } else {
                let q = reflected[j - i];
                proof {
                    assert forall|k: int| 0 <= k < D implies #[trigger] q[k] == virt_coord(line, v, k) by {
                        assert(reflected@[j - i][k] == virt_coord(line, -(j - i), k));
                    }
                    lemma_virt_dist2_reflected(line, i as int, v, q, D as int);
                }
                let d2 = distance_squared(&cache.line[i], &q);
                (q, cache.weigh_dist2(d2 as u128))
            }
        };
        proof {
            if 0 <= v < n {
                assert forall|k: int| 0 <= k < D implies #[trigger] q[k] == virt_coord(line, v, k) by {
                    assert(q == line[v]);
                }
                assert forall|k: int| 0 <= k < D implies -3 * COORD_LIMIT <= #[trigger] q[k] <= 3
                    * COORD_LIMIT by {
                    assert(point_ok(line[v]));
                    assert(coord_ok(line[v][k]));
                }
            }
        }
        assert(w == virt_weight(line, kernel, i as int, v));
        match w {
            None => {
                break;
            },
            Some(w) => {
                let ghost before = moments@;
                let mut k: usize = 0;
                while k < D
                    invariant
                        k <= D,
                        moments@.len() == D,
                        before.len() == D,
                        forall|m: int| 0 <= m < D ==> -3 * COORD_LIMIT <= #[trigger] q[m] <= 3 * COORD_LIMIT,
                        forall|m: int| 0 <= m < k ==> #[trigger] moments@[m] == before[m] + w * q[m],
                        forall|m: int| k <= m < D ==> #[trigger] moments@[m] == before[m],
                        forall|m: int|
                            0 <= m < D ==> -(*total * 0x300_0000) <= #[trigger] before[m] <= *total
                                * 0x300_0000,
                        0 <= *total <= 0x1_0000_0000 * 0x1_0000_0000_0000_0000 * 2,
                    decreases D - k,
                {
                    proof {
                        lemma_weighted_coord(w as int, q[k as int] as int);
                    }
                    let x: i128 = w as i128 * q[k] as i128;
                    moments.set(k, moments[k] + x);
                    k = k + 1;
                }
                proof {
                    assert forall|m: int| 0 <= m < D implies -((*total + w) * 0x300_0000) <= #[trigger] moments@[m]
                        <= (*total + w) * 0x300_0000 by {
                        lemma_weighted_coord(w as int, q[m] as int);
                        assert((*total + w) * 0x300_0000 == *total * 0x300_0000 + w * 0x300_0000) by (nonlinear_arith);
                    }
                }
                *total = *total + w as i128;
            },
        }
        j = j + 1;
    }
}

/// `w * x` for a weight `w` and a coordinate `x` within three times
/// `COORD_LIMIT` is bounded by `w` times that.
proof fn lemma_weighted_coord(w: int, x: int)
    requires
        0 <= w < 0x1_0000_0000,
        -0x300_0000 <= x <= 0x300_0000,
    ensures
        -(w * 0x300_0000) <= w * x <= w * 0x300_0000,
{
    vstd::arithmetic::mul::lemma_mul_inequality(x, 0x300_0000, w);
    vstd::arithmetic::mul::lemma_mul_inequality(-0x300_0000, x, w);
    assert(x * w == w * x && 0x300_0000 * w == w * 0x300_0000 && (-0x300_0000) * w == -(w
        * 0x300_0000)) by (nonlinear_arith);
}

/// Point `idx` of the cache's line.
fn line_point<K: Kernel, const D: usize>(cache: &WeightCache<K, D>, idx: usize) -> (r: Point<D>)
    requires
        idx < cache.line().len(),
    ensures
        r == cache.line()[idx as int],
{
    cache.line[idx]
}

/// The weighted mean `moments / total` of points within three times
/// `COORD_LIMIT`, each coordinate rounded to the nearest integer, halves
/// upward; `p` itself when the total weight is zero.
fn weighted_mean<const D: usize>(p: &Point<D>, moments: &Vec<i128>, total: i128) -> (r: Point<D>)
    requires
        point_ok(*p),
        moments@.len() == D,
        0 <= total <= 0x4_0000_0000_0000_0000_0000_0000,
        forall|k: int|
            0 <= k < D ==> -(total * 0x300_0000) <= #[trigger] moments@[k] <= total * 0x300_0000,
    ensures
        within(r, 3 * COORD_LIMIT),
        forall|k: int|
            0 <= k < D ==> #[trigger] r[k] == (if total == 0 {
                p[k] as int
            } else {
                (2 * moments@[k] + total) / (2 * total)
            }),
{
    if total == 0 {
        assert forall|k: int| 0 <= k < D implies -3 * COORD_LIMIT <= #[trigger] p[k] <= 3
            * COORD_LIMIT by {
            assert(coord_ok(p[k]));
        }
        return *p;
    }
    let mut out: Point<D> = *p;
    let lim: i128 = 3 * COORD_LIMIT as i128;
    let mut k: usize = 0;
    while k < D
        invariant
            k <= D,
            moments@.len() == D,
            lim == 3 * COORD_LIMIT,
            1 <= total <= 0x4_0000_0000_0000_0000_0000_0000,
            forall|m: int|
                0 <= m < D ==> -(total * 0x300_0000) <= #[trigger] moments@[m] <= total * 0x300_0000,
            forall|m: int|
                0 <= m < k ==> #[trigger] out[m] == (2 * moments@[m] + total) / (2 * total),
            forall|m: int| 0 <= m < k ==> -lim <= #[trigger] out[m] <= lim,
        decreases D - k,
    {
        let m = moments[k];
        proof {
            assert(total * 0x300_0000 == total * lim);
            lemma_round_div(m as int, total as int, lim as int);
        }
        let num: i128 = 2 * m + total + 2 * total * (lim + 1);
        let q: i128 = ((num as u128) / ((2 * total) as u128)) as i128;
        out[k] = (q - (lim + 1)) as i64;
        k = k + 1;
    }
    out
}

/// Smooths `line` by convolution with `kernel`.
///
/// Each point becomes the weighted mean of itself (with the kernel's center
/// weight) and of the points met walking from it either way while the
/// kernel gives a weight. Past either end the walk goes on over the line
/// reflected across that end, so that the ends are not pulled inward.
pub fn smooth_convolve<K: Kernel, const D: usize>(line: &[Point<D>], kernel: K) -> (r: Vec<Point<D>>)
    requires
        line_ok(line@),
    ensures
        r@.len() == line@.len(),
        forall|i: int| 0 <= i < r@.len() ==> within(#[trigger] r@[i], 3 * COORD_LIMIT),
        forall|i: int, k: int|
            0 <= i < line@.len() && 0 <= k < D ==> #[trigger] r@[i][k] == convolve_coord(
                line@,
                kernel,
                i,
                k,
            ),
{
    let n = line.len();
    if n == 0 {
        return Vec::new();
    }
    let last = n - 1;
    let ghost ln = line@;
    let mut reflected_l: Vec<Point<D>> = Vec::with_capacity(n);
    let mut reflected_r: Vec<Point<D>> = Vec::with_capacity(n);
    let mut m: usize = 0;
    while m < n
        invariant
            line_ok(line@),
            ln == line@,
            n == line@.len(),
            last == n - 1,
            m <= n,
            reflected_l@.len() == m,
            reflected_r@.len() == m,
            forall|a: int| 0 <= a < m ==> within(#[trigger] reflected_l@[a], 3 * COORD_LIMIT),
            forall|a: int| 0 <= a < m ==> within(#[trigger] reflected_r@[a], 3 * COORD_LIMIT),
            forall|a: int, k: int|
                0 <= a < m && 0 <= k < D ==> #[trigger] reflected_l@[a][k] == virt_coord(ln, -a, k),
            forall|a: int, k: int|
                0 <= a < m && 0 <= k < D ==> #[trigger] reflected_r@[a][k] == virt_coord(
                    ln,
                    last + a,
                    k,
                ),
        decreases n - m,
    {
        let l = reflect_point(&line[m], &line[0]);
        let r = reflect_point(&line[last - m], &line[last]);
        reflected_l.push(l);
        reflected_r.push(r);
        assert(reflected_l@[m as int] == l && reflected_r@[m as int] == r);
        m = m + 1;
    }
    let mut cache = WeightCache::new(line, kernel);
    let mut smoothed: Vec<Point<D>> = Vec::with_capacity(n);
    let mut i: usize = 0;
    while i < n
        invariant
            cache.wf(),
            cache.line() == ln,
            cache.kernel() == kernel,
            line_ok(ln),
            ln == line@,
            n == ln.len(),
            last == n - 1,
            i <= n,
            reflected_l@.len() == n,
            reflected_r@.len() == n,
            forall|a: int| 0 <= a < n ==> within(#[trigger] reflected_l@[a], 3 * COORD_LIMIT),
            forall|a: int| 0 <= a < n ==> within(#[trigger] reflected_r@[a], 3 * COORD_LIMIT),
            forall|a: int, k: int|
                0 <= a < n && 0 <= k < D ==> #[trigger] reflected_l@[a][k] == virt_coord(ln, -a, k),
            forall|a: int, k: int|
                0 <= a < n && 0 <= k < D ==> #[trigger] reflected_r@[a][k] == virt_coord(
                    ln,
                    last + a,
                    k,
                ),
            smoothed@.len() == i,
            forall|a: int| 0 <= a < i ==> within(#[trigger] smoothed@[a], 3 * COORD_LIMIT),
            forall|a: int, k: int|
                0 <= a < i && 0 <= k < D ==> #[trigger] smoothed@[a][k] == convolve_coord(
                    ln,
                    kernel,
                    a,
                    k,
                ),
        decreases n - i,
    {
        let center = cache.at_center();
        let p = line[i];
        let mut moments: Vec<i128> = Vec::with_capacity(D);
        let mut k: usize = 0;
        while k < D
            invariant
                k <= D,
                moments@.len() == k,
                point_ok(p),
                forall|a: int| 0 <= a < k ==> #[trigger] moments@[a] == center * p[a],
                forall|a: int|
                    0 <= a < k ==> -(center * 0x300_0000) <= #[trigger] moments@[a] <= center
                        * 0x300_0000,
            decreases D - k,
        {
            proof {
                assert(coord_ok(p[k as int]));
                lemma_weighted_coord(center as int, p[k as int] as int);
            }
            moments.push(center as i128 * p[k] as i128);
            k = k + 1;
        }
        let mut total: i128 = center as i128;
        walk(&mut cache, &reflected_r, i, true, &mut moments, &mut total, Ghost(1));
        walk(&mut cache, &reflected_l, i, false, &mut moments, &mut total, Ghost(1 + n as int));
        let s = weighted_mean(&p, &moments, total);
        smoothed.push(s);
        proof {
            assert(total == conv_weight(ln, kernel, i as int));
            assert forall|k: int| 0 <= k < D implies #[trigger] smoothed@[i as int][k] == convolve_coord(ln, kernel, i as int, k) by {
                assert(moments@[k] == conv_moment(ln, kernel, i as int, k));
            }
        }
        i = i + 1;
    }
    smoothed
}

/// Consecutive points of `line` all differ by the same step: they lie evenly
/// spaced on a straight line, or all coincide.
pub open spec fn evenly_spaced<const D: usize>(line: Seq<Point<D>>) -> bool {
    forall|i: int, k: int|
        0 < i < line.len() && 0 <= k < D ==> #[trigger] line[i][k] - line[i - 1][k] == line[1][k]
            - line[0][k]
}

proof fn lemma_evenly_spaced_at<const D: usize>(line: Seq<Point<D>>, j: int, k: int)
    requires
        evenly_spaced(line),
        2 <= line.len(),
        0 <= j < line.len(),
        0 <= k < D,
    ensures
        line[j][k] == line[0][k] + j * (line[1][k] - line[0][k]),
    decreases j,
{
    let d = line[1][k] - line[0][k];
    if j > 0 {
        lemma_evenly_spaced_at(line, j - 1, k);
        assert(line[j][k] - line[j - 1][k] == d);
        assert(j * d == (j - 1) * d + d) by (nonlinear_arith);
    } else {
        assert(j * d == 0) by (nonlinear_arith)
            requires
                j == 0,
        ;
    }
}

/// On an evenly spaced line, the extended line goes on with the same step.
proof fn lemma_evenly_spaced_virt<const D: usize>(line: Seq<Point<D>>, v: int, k: int)
    requires
        evenly_spaced(line),
        2 <= line.len(),
        -(line.len() - 1) <= v <= 2 * (line.len() - 1),
        0 <= k < D,
    ensures
        virt_coord(line, v, k) == line[0][k] + v * (line[1][k] - line[0][k]),
{
    let last = line.len() - 1;
    let d = line[1][k] - line[0][k];
    let a = line[0][k] as int;
    if v < 0 {
        lemma_evenly_spaced_at(line, -v, k);
        assert(2 * a - (a + (-v) * d) == a + v * d) by (nonlinear_arith);
    } else if v > last {
        lemma_evenly_spaced_at(line, last, k);
        lemma_evenly_spaced_at(line, 2 * last - v, k);
        assert(2 * (a + last * d) - (a + (2 * last - v) * d) == a + v * d) by (nonlinear_arith);
    } else {
        lemma_evenly_spaced_at(line, v, k);
    }
}

proof fn lemma_mirror_dist2<const D: usize>(line: Seq<Point<D>>, i: int, j: int, n: int)
    requires
        evenly_spaced(line),
        2 <= line.len(),
        0 <= i < line.len(),
        1 <= j < line.len(),
        0 <= n <= D,
    ensures
        virt_dist2_upto(line, i, i + j, n) == virt_dist2_upto(line, i, i - j, n),
    decreases n,
{
    if n > 0 {
        lemma_mirror_dist2(line, i, j, n - 1);
        let k = n - 1;
        let d = line[1][k] - line[0][k];
        lemma_evenly_spaced_virt(line, i + j, k);
        lemma_evenly_spaced_virt(line, i - j, k);
        lemma_evenly_spaced_at(line, i, k);
        let a = line[0][k] as int;
        assert((a + (i + j) * d - (a + i * d)) * (a + (i + j) * d - (a + i * d)) == (a + (i - j) * d
            - (a + i * d)) * (a + (i - j) * d - (a + i * d))) by (nonlinear_arith);
    }
}

proof fn lemma_balance_step(w: int, a: int, d: int, i: int, j: int, p: int, rest: int)
    requires
        p == a + i * d,
    ensures
        w * (a + (i + j) * d) + w * (a + (i - j) * d) + 2 * p * rest == 2 * p * (w + rest),
{
    assert(w * (a + (i + j) * d) + w * (a + (i - j) * d) == 2 * (a + i * d) * w) by (nonlinear_arith);
    assert(2 * p * (w + rest) == 2 * p * w + 2 * p * rest) by (nonlinear_arith);
    assert(2 * (a + i * d) * w == 2 * p * w);
}

proof fn lemma_walk_weight_nonneg<K: Kernel, const D: usize>(
    line: Seq<Point<D>>,
    kernel: K,
    i: int,
    forward: bool,
    j: int,
)
    ensures
        walk_weight(line, kernel, i, forward, j) >= 0,
    decreases line.len() - j,
{
    if 1 <= j < line.len() {
        lemma_walk_weight_nonneg(line, kernel, i, forward, j + 1);
    }
}

/// On an evenly spaced line, the walks from a point both ways meet the same
/// weights, and the points they meet balance around it.
proof fn lemma_walks_balance<K: Kernel, const D: usize>(
    line: Seq<Point<D>>,
    kernel: K,
    i: int,
    j: int,
    k: int,
)
    requires
        evenly_spaced(line),
        2 <= line.len(),
        0 <= i < line.len(),
        1 <= j,
        0 <= k < D,
    ensures
        walk_weight(line, kernel, i, true, j) == walk_weight(line, kernel, i, false, j),
        walk_moment(line, kernel, i, true, j, k) + walk_moment(line, kernel, i, false, j, k) == 2
            * line[i][k] * walk_weight(line, kernel, i, true, j),
    decreases line.len() - j,
{
    if j < line.len() {
        lemma_walks_balance(line, kernel, i, j + 1, k);
        lemma_mirror_dist2(line, i, j, D as int);
        let wf = virt_weight(line, kernel, i, step(i, true, j));
        let wb = virt_weight(line, kernel, i, step(i, false, j));
        assert(wf == wb);
        if let Some(w) = wf {
            let d = line[1][k] - line[0][k];
            let a = line[0][k] as int;
            lemma_evenly_spaced_virt(line, i + j, k);
            lemma_evenly_spaced_virt(line, i - j, k);
            lemma_evenly_spaced_at(line, i, k);
            let p = line[i][k] as int;
            let rest = walk_weight(line, kernel, i, true, j + 1);
            lemma_balance_step(w as int, a, d, i, j, p, rest);
            assert(walk_weight(line, kernel, i, true, j) == w + rest);
            assert(walk_moment(line, kernel, i, true, j, k) == w * virt_coord(line, i + j, k)
                + walk_moment(line, kernel, i, true, j + 1, k));
            assert(walk_moment(line, kernel, i, false, j, k) == w * virt_coord(line, i - j, k)
                + walk_moment(line, kernel, i, false, j + 1, k));
        }
    }
}

/// Convolution leaves a line whose points are evenly spaced on a straight
/// line where it is, whatever the kernel; so too a line whose points all
/// coincide.
pub proof fn lemma_convolve_evenly_spaced_fixed<K: Kernel, const D: usize>(
    line: Seq<Point<D>>,
    kernel: K,
    i: int,
    k: int,
)
    requires
        evenly_spaced(line),
        0 <= i < line.len(),
        0 <= k < D,
    ensures
        convolve_coord(line, kernel, i, k) == line[i][k],
{
    let p = line[i][k] as int;
    let c = kernel.spec_at_center() as int;
    if line.len() >= 2 {
        lemma_walks_balance(line, kernel, i, 1, k);
    } else {
        assert(walk_weight(line, kernel, i, true, 1) == 0);
        assert(walk_weight(line, kernel, i, false, 1) == 0);
        assert(walk_moment(line, kernel, i, true, 1, k) == 0);
        assert(walk_moment(line, kernel, i, false, 1, k) == 0);
    }
    let w = walk_weight(line, kernel, i, true, 1);
    lemma_walk_weight_nonneg(line, kernel, i, true, 1);
    let t = conv_weight(line, kernel, i);
    assert(t == c + 2 * w);
    assert(conv_moment(line, kernel, i, k) == c * p + 2 * p * w);
    if t != 0 {
        assert(c * p + 2 * p * w == p * t) by (nonlinear_arith)
            requires
                t == c + 2 * w,
        ;
        assert(2 * (p * t) + t == p * (2 * t) + t) by (nonlinear_arith);
        vstd::arithmetic::div_mod::lemma_fundamental_div_mod_converse(2 * (p * t) + t, 2 * t, p, t);
    }
}

} // verus!
