//! Points on an integer grid, and the exact squared distances between them.
//!
//! Every quantity here is a polynomial in the coordinates, so it is computed
//! without rounding. The points of a line have coordinates within
//! `COORD_LIMIT`; the functions here measure any point within four times
//! that (a reflection of one point of a line across another stays within
//! three times), in at most `MAX_DIM` dimensions, which keeps every
//! polynomial of degree four inside 128 bits.
use vstd::arithmetic::mul::lemma_mul_upper_bound;
use vstd::prelude::*;

verus! {

/// A point with `D` integer coordinates.
pub type Point<const D: usize> = [i64; D];

/// Largest magnitude a coordinate of a line may have.
pub const COORD_LIMIT: i64 = 0x100_0000;

/// Largest magnitude a coordinate of a measured point may have.
pub const REACH_LIMIT: i64 = 0x400_0000;

/// Largest dimension a point may have.
pub const MAX_DIM: usize = 64;

/// Bound on any squared distance, and on any dot product of differences,
/// between points within `REACH_LIMIT` in at most `MAX_DIM` dimensions.
pub const MAX_SQ_DIST: u128 = 0x1000_0000_0000_0000;

pub open spec fn coord_ok(x: i64) -> bool {
    -COORD_LIMIT <= x <= COORD_LIMIT
}

/// Every coordinate of `p` is within `COORD_LIMIT`.
pub open spec fn point_ok<const D: usize>(p: Point<D>) -> bool {
    forall|k: int| 0 <= k < D ==> coord_ok(#[trigger] p[k])
}

/// Every coordinate of `p` is within `REACH_LIMIT`.
pub open spec fn point_near<const D: usize>(p: Point<D>) -> bool {
    forall|k: int| 0 <= k < D ==> -REACH_LIMIT <= #[trigger] p[k] <= REACH_LIMIT
}

/// The points may be handed to every function of this library.
pub open spec fn line_ok<const D: usize>(line: Seq<Point<D>>) -> bool {
    &&& D <= MAX_DIM
    &&& forall|i: int| 0 <= i < line.len() ==> point_ok(#[trigger] line[i])
}

/// Sum over the first `n` coordinates of `(p - s)·(q - t)`.
pub open spec fn dot_upto<const D: usize>(
    p: Point<D>,
    s: Point<D>,
    q: Point<D>,
    t: Point<D>,
    n: int,
) -> int
    decreases n,
{
    if n <= 0 {
        0
    } else {
        dot_upto(p, s, q, t, n - 1) + (p[n - 1] - s[n - 1]) * (q[n - 1] - t[n - 1])
    }
}

/// The dot product of the vectors `p - s` and `q - t`.
pub open spec fn dot<const D: usize>(p: Point<D>, s: Point<D>, q: Point<D>, t: Point<D>) -> int {
    dot_upto(p, s, q, t, D as int)
}

/// The squared euclidean distance between `a` and `b`.
pub open spec fn sq_dist<const D: usize>(a: Point<D>, b: Point<D>) -> int {
    dot(a, b, a, b)
}

/// The denominator under which `seg_num` measures the distance to the
/// segment from `s` to `e`: its squared length, or 1 when it has none.
pub open spec fn seg_den<const D: usize>(s: Point<D>, e: Point<D>) -> int {
    if sq_dist(s, e) == 0 {
        1
    } else {
        sq_dist(s, e)
    }
}

/// The squared distance from `p` to the closest point of the segment from
/// `s` to `e`, times `seg_den(s, e)`.
///
/// `p` is projected on the line through `s` and `e`; a projection before
/// `s` is clamped to `s`, one past `e` to `e`. A segment of length zero
/// measures the plain distance to `s`.
pub open spec fn seg_num<const D: usize>(s: Point<D>, e: Point<D>, p: Point<D>) -> int {
    let len2 = sq_dist(s, e);
    let along = dot(p, s, e, s);
    if len2 == 0 {
        sq_dist(p, s)
    } else if along <= 0 {
        len2 * sq_dist(p, s)
    } else if along >= len2 {
        len2 * sq_dist(p, e)
    } else {
        len2 * sq_dist(p, s) - along * along
    }
}

proof fn lemma_term_bound(x: int, y: int)
    requires
        -0x800_0000 <= x <= 0x800_0000,
        -0x800_0000 <= y <= 0x800_0000,
    ensures
        -0x40_0000_0000_0000 <= x * y <= 0x40_0000_0000_0000,
{
    let ax = if x < 0 { -x } else { x };
    let ay = if y < 0 { -y } else { y };
    lemma_mul_upper_bound(ax, 0x800_0000, ay, 0x800_0000);
    assert(x * y == ax * ay || x * y == -(ax * ay)) by (nonlinear_arith)
        requires
            ax == x || ax == -x,
            ay == y || ay == -y,
    ;
}

proof fn lemma_dot_upto_bound<const D: usize>(
    p: Point<D>,
    s: Point<D>,
    q: Point<D>,
    t: Point<D>,
    n: int,
)
    requires
        point_near(p),
        point_near(s),
        point_near(q),
        point_near(t),
        0 <= n <= D,
    ensures
        -n * 0x40_0000_0000_0000 <= dot_upto(p, s, q, t, n) <= n * 0x40_0000_0000_0000,
    decreases n,
{
    if n > 0 {
        lemma_dot_upto_bound(p, s, q, t, n - 1);
        let k = n - 1;
        assert(-REACH_LIMIT <= p[k] <= REACH_LIMIT && -REACH_LIMIT <= s[k] <= REACH_LIMIT);
        assert(-REACH_LIMIT <= q[k] <= REACH_LIMIT && -REACH_LIMIT <= t[k] <= REACH_LIMIT);
        lemma_term_bound(p[k] - s[k], q[k] - t[k]);
    }
}

/// Dot products of differences between valid points stay within `MAX_SQ_DIST`.
pub proof fn lemma_dot_bound<const D: usize>(p: Point<D>, s: Point<D>, q: Point<D>, t: Point<D>)
    requires
        point_near(p),
        point_near(s),
        point_near(q),
        point_near(t),
        D <= MAX_DIM,
    ensures
        -(MAX_SQ_DIST as int) <= dot(p, s, q, t) <= MAX_SQ_DIST,
{
    lemma_dot_upto_bound(p, s, q, t, D as int);
}

/// A squared distance is never negative.
pub proof fn lemma_sq_dist_nonneg<const D: usize>(a: Point<D>, b: Point<D>, n: int)
    requires
        0 <= n <= D,
    ensures
        dot_upto(a, b, a, b, n) >= 0,
    decreases n,
{
    if n > 0 {
        lemma_sq_dist_nonneg(a, b, n - 1);
        let x = a[n - 1] - b[n - 1];
        assert(x * x >= 0) by (nonlinear_arith);
    }
}

/// Computes `dot(*p, *s, *q, *t)`.
pub fn dot_diff<const D: usize>(p: &Point<D>, s: &Point<D>, q: &Point<D>, t: &Point<D>) -> (r: i128)
    requires
        point_near(*p),
        point_near(*s),
        point_near(*q),
        point_near(*t),
        D <= MAX_DIM,
    ensures
        r == dot(*p, *s, *q, *t),
{
    let mut acc: i128 = 0;
    let mut k: usize = 0;
    while k < D
        invariant
            k <= D <= MAX_DIM,
            point_near(*p),
            point_near(*s),
            point_near(*q),
            point_near(*t),
            acc == dot_upto(*p, *s, *q, *t, k as int),
        decreases D - k,
    {
        proof {
            lemma_dot_upto_bound(*p, *s, *q, *t, k as int);
            assert(-REACH_LIMIT <= p[k as int] <= REACH_LIMIT);
            assert(-REACH_LIMIT <= s[k as int] <= REACH_LIMIT);
            assert(-REACH_LIMIT <= q[k as int] <= REACH_LIMIT);
            assert(-REACH_LIMIT <= t[k as int] <= REACH_LIMIT);
        }
        let x: i128 = p[k] as i128 - s[k] as i128;
        let y: i128 = q[k] as i128 - t[k] as i128;
        proof {
            lemma_term_bound(x as int, y as int);
        }
        acc = acc + x * y;
        k = k + 1;
    }
    acc
}

/// The squared euclidean distance between two points.
pub fn distance_squared<const D: usize>(a: &Point<D>, b: &Point<D>) -> (r: i128)
    requires
        point_near(*a),
        point_near(*b),
        D <= MAX_DIM,
    ensures
        r == sq_dist(*a, *b),
        0 <= r <= MAX_SQ_DIST,
{
    proof {
        lemma_dot_bound(*a, *b, *a, *b);
        lemma_sq_dist_nonneg(*a, *b, D as int);
    }
    dot_diff(a, b, a, b)
}

/// The distance from `p` to the segment from `start` to `end`, as
/// `seg_num(start, end, p)`, given `length_sq`, the squared length of the
/// segment.
pub fn proj_dist2<const D: usize>(
    start: &Point<D>,
    end: &Point<D>,
    p: &Point<D>,
    length_sq: i128,
) -> (r: i128)
    requires
        point_near(*start),
        point_near(*end),
        point_near(*p),
        D <= MAX_DIM,
        length_sq == sq_dist(*start, *end),
    ensures
        r == seg_num(*start, *end, *p),
{
    proof {
        lemma_dot_bound(*start, *end, *start, *end);
        lemma_sq_dist_nonneg(*start, *end, D as int);
    }
    if length_sq == 0 {
        return distance_squared(p, start);
    }
    let along = dot_diff(p, start, end, start);
    if along <= 0 {
        let d2 = distance_squared(p, start);
        proof {
            lemma_mul_upper_bound(length_sq as int, MAX_SQ_DIST as int, d2 as int, MAX_SQ_DIST as int);
        }
        length_sq * d2
    } else if along >= length_sq {
        let d2 = distance_squared(p, end);
        proof {
            lemma_mul_upper_bound(length_sq as int, MAX_SQ_DIST as int, d2 as int, MAX_SQ_DIST as int);
        }
        length_sq * d2
    } else {
        let d2 = distance_squared(p, start);
        proof {
            lemma_mul_upper_bound(length_sq as int, MAX_SQ_DIST as int, d2 as int, MAX_SQ_DIST as int);
            lemma_mul_upper_bound(along as int, MAX_SQ_DIST as int, along as int, MAX_SQ_DIST as int);
            assert(0 <= along * along) by (nonlinear_arith) requires along > 0;
            assert(0 <= length_sq * d2) by (nonlinear_arith) requires length_sq > 0, d2 >= 0;
        }
        length_sq * d2 - along * along
    }
}

/// `a`, `b` and `c` lie on one straight line: the vectors from `a` to the
/// other two are parallel, that is, the Cauchy–Schwarz inequality between
/// them holds with equality.
pub open spec fn colinear<const D: usize>(a: Point<D>, b: Point<D>, c: Point<D>) -> bool {
    sq_dist(b, a) * sq_dist(c, a) == dot(b, a, c, a) * dot(b, a, c, a)
}

/// Sum over the first `n` coordinates of `(l·(p - s) - a·(e - s))²`.
pub open spec fn comb_upto<const D: usize>(
    p: Point<D>,
    s: Point<D>,
    e: Point<D>,
    l: int,
    a: int,
    n: int,
) -> int
    decreases n,
{
    if n <= 0 {
        0
    } else {
        let t = l * (p[n - 1] - s[n - 1]) - a * (e[n - 1] - s[n - 1]);
        comb_upto(p, s, e, l, a, n - 1) + t * t
    }
}

proof fn lemma_comb_expand<const D: usize>(
    p: Point<D>,
    s: Point<D>,
    e: Point<D>,
    l: int,
    a: int,
    n: int,
)
    requires
        0 <= n <= D,
    ensures
        comb_upto(p, s, e, l, a, n) == l * l * dot_upto(p, s, p, s, n) - 2 * l * a * dot_upto(
            p,
            s,
            e,
            s,
            n,
        ) + a * a * dot_upto(e, s, e, s, n),
        comb_upto(p, s, e, l, a, n) >= 0,
    decreases n,
{
    if n > 0 {
        lemma_comb_expand(p, s, e, l, a, n - 1);
        let u = p[n - 1] - s[n - 1];
        let v = e[n - 1] - s[n - 1];
        let t = l * u - a * v;
        let x = l * u;
        let y = a * v;
        assert(t * t == x * x - 2 * (x * y) + y * y) by (nonlinear_arith)
            requires
                t == x - y,
        ;
        assert(x * x == l * l * (u * u)) by (nonlinear_arith)
            requires
                x == l * u,
        ;
        assert(x * y == l * a * (u * v)) by (nonlinear_arith)
            requires
                x == l * u,
                y == a * v,
        ;
        assert(y * y == a * a * (v * v)) by (nonlinear_arith)
            requires
                y == a * v,
        ;
        assert(2 * l * a * (u * v) == 2 * (l * a * (u * v))) by (nonlinear_arith);
        assert(t * t >= 0) by (nonlinear_arith);
        let dx = dot_upto(p, s, p, s, n - 1);
        let dy = dot_upto(p, s, e, s, n - 1);
        let dz = dot_upto(e, s, e, s, n - 1);
        assert(l * l * (dx + u * u) == l * l * dx + l * l * (u * u)) by (nonlinear_arith);
        assert(2 * l * a * (dy + u * v) == 2 * l * a * dy + 2 * l * a * (u * v)) by (nonlinear_arith);
        assert(a * a * (dz + v * v) == a * a * dz + a * a * (v * v)) by (nonlinear_arith);
        assert(dot_upto(p, s, p, s, n) == dx + u * u);
        assert(dot_upto(p, s, e, s, n) == dy + u * v);
        assert(dot_upto(e, s, e, s, n) == dz + v * v);
        assert(comb_upto(p, s, e, l, a, n) == comb_upto(p, s, e, l, a, n - 1) + t * t);
    } else {
        assert(l * l * 0 - 2 * l * a * 0 + a * a * 0 == 0) by (nonlinear_arith);
    }
}

proof fn lemma_comb_plain<const D: usize>(p: Point<D>, s: Point<D>, e: Point<D>, n: int)
    ensures
        comb_upto(p, s, e, 1, 0, n) == dot_upto(p, s, p, s, n),
    decreases n,
{
    if n > 0 {
        lemma_comb_plain(p, s, e, n - 1);
        let u = p[n - 1] - s[n - 1];
        let v = e[n - 1] - s[n - 1];
        assert(1 * u - 0 * v == u);
    }
}

/// The squared distance is the same both ways.
pub proof fn lemma_sq_dist_sym<const D: usize>(a: Point<D>, b: Point<D>, n: int)
    ensures
        dot_upto(a, b, a, b, n) == dot_upto(b, a, b, a, n),
    decreases n,
{
    if n > 0 {
        lemma_sq_dist_sym(a, b, n - 1);
        let x = a[n - 1] - b[n - 1];
        assert(x * x == (-x) * (-x)) by (nonlinear_arith);
    }
}

proof fn lemma_comb_zero<const D: usize>(
    p: Point<D>,
    s: Point<D>,
    e: Point<D>,
    l: int,
    a: int,
    n: int,
)
    requires
        0 <= n <= D,
        comb_upto(p, s, e, l, a, n) == 0,
    ensures
        forall|k: int| 0 <= k < n ==> l * (#[trigger] p[k] - s[k]) == a * (e[k] - s[k]),
    decreases n,
{
    if n > 0 {
        lemma_comb_expand(p, s, e, l, a, n - 1);
        let t = l * (p[n - 1] - s[n - 1]) - a * (e[n - 1] - s[n - 1]);
        assert(t * t >= 0) by (nonlinear_arith);
        assert(t == 0) by (nonlinear_arith)
            requires
                t * t == 0,
        ;
        lemma_comb_zero(p, s, e, l, a, n - 1);
    }
}

/// A point whose distance to the segment from `s` to `e` is zero lies on
/// the line through them: it is `s` when the segment has no length, else
/// `s + (alpha / |e - s|²)·(e - s)`. Both ends are such points.
pub proof fn lemma_on_segment<const D: usize>(s: Point<D>, e: Point<D>, p: Point<D>) -> (alpha: int)
    requires
        seg_num(s, e, p) <= 0 || p == s || p == e,
    ensures
        sq_dist(s, e) == 0 ==> forall|k: int| 0 <= k < D ==> #[trigger] p[k] == s[k],
        sq_dist(s, e) != 0 ==> forall|k: int|
            0 <= k < D ==> sq_dist(s, e) * (#[trigger] p[k] - s[k]) == alpha * (e[k] - s[k]),
{
    let l = sq_dist(s, e);
    let d = D as int;
    lemma_sq_dist_nonneg(s, e, d);
    lemma_sq_dist_nonneg(p, s, d);
    lemma_sq_dist_nonneg(p, e, d);
    if p == s {
        assert forall|k: int| 0 <= k < D implies l * (#[trigger] p[k] - s[k]) == 0 * (e[k] - s[k]) by {}
        return 0;
    }
    lemma_sq_dist_sym(s, e, d);
    if p == e {
        assert forall|k: int| 0 <= k < D implies l * (#[trigger] p[k] - s[k]) == l * (e[k] - s[k]) by {}
        if l == 0 {
            lemma_comb_plain(s, e, s, d);
            lemma_comb_zero(s, e, s, 1, 0, d);
            assert forall|k: int| 0 <= k < D implies #[trigger] p[k] == s[k] by {
                assert(1 * (s[k] - e[k]) == 0 * (s[k] - s[k]));
            }
        }
        return l;
    }
    let along = dot(p, s, e, s);
    lemma_comb_plain(p, s, e, d);
    lemma_comb_plain(p, e, e, d);
    if l == 0 {
        lemma_comb_zero(p, s, e, 1, 0, d);
        assert forall|k: int| 0 <= k < D implies #[trigger] p[k] == s[k] by {
            assert(1 * (p[k] - s[k]) == 0 * (e[k] - s[k]));
        }
        return 0;
    }
    if along <= 0 {
        assert(sq_dist(p, s) == 0) by (nonlinear_arith)
            requires
                l * sq_dist(p, s) <= 0,
                l > 0,
                sq_dist(p, s) >= 0,
        ;
        lemma_comb_zero(p, s, e, 1, 0, d);
        assert forall|k: int| 0 <= k < D implies l * (#[trigger] p[k] - s[k]) == 0 * (e[k] - s[k]) by {
            assert(1 * (p[k] - s[k]) == 0 * (e[k] - s[k]));
        }
        return 0;
    }
    if along >= l {
        assert(sq_dist(p, e) == 0) by (nonlinear_arith)
            requires
                l * sq_dist(p, e) <= 0,
                l > 0,
                sq_dist(p, e) >= 0,
        ;
        lemma_comb_zero(p, e, e, 1, 0, d);
        assert forall|k: int| 0 <= k < D implies l * (#[trigger] p[k] - s[k]) == l * (e[k] - s[k]) by {
            assert(1 * (p[k] - e[k]) == 0 * (e[k] - e[k]));
        }
        return l;
    }
    lemma_comb_expand(p, s, e, l, along, d);
    assert(comb_upto(p, s, e, l, along, d) == l * (l * sq_dist(p, s) - along * along)) by (nonlinear_arith)
        requires
            comb_upto(p, s, e, l, along, d) == l * l * sq_dist(p, s) - 2 * l * along * along + along
                * along * l,
    ;
    assert(comb_upto(p, s, e, l, along, d) <= 0) by (nonlinear_arith)
        requires
            comb_upto(p, s, e, l, along, d) == l * (l * sq_dist(p, s) - along * along),
            l * sq_dist(p, s) - along * along <= 0,
            l > 0,
    ;
    lemma_comb_zero(p, s, e, l, along, d);
    along
}

proof fn lemma_scaled_dot<const D: usize>(
    x: Point<D>,
    y: Point<D>,
    z: Point<D>,
    w: Point<D>,
    s: Point<D>,
    e: Point<D>,
    l: int,
    pp: int,
    qq: int,
    n: int,
)
    requires
        0 <= n <= D,
        forall|k: int| 0 <= k < D ==> l * (#[trigger] x[k] - y[k]) == pp * (e[k] - s[k]),
        forall|k: int| 0 <= k < D ==> l * (#[trigger] z[k] - w[k]) == qq * (e[k] - s[k]),
    ensures
        l * l * dot_upto(x, y, z, w, n) == pp * qq * dot_upto(e, s, e, s, n),
    decreases n,
{
    if n > 0 {
        lemma_scaled_dot(x, y, z, w, s, e, l, pp, qq, n - 1);
        let k = n - 1;
        let a = x[k] - y[k];
        let b = z[k] - w[k];
        let v = e[k] - s[k];
        assert(l * a == pp * v && l * b == qq * v);
        assert(l * l * (a * b) == pp * qq * (v * v)) by (nonlinear_arith)
            requires
                l * a == pp * v,
                l * b == qq * v,
        ;
        let r = dot_upto(x, y, z, w, n - 1);
        let t = dot_upto(e, s, e, s, n - 1);
        assert(l * l * (r + a * b) == l * l * r + l * l * (a * b)) by (nonlinear_arith);
        assert(pp * qq * (t + v * v) == pp * qq * t + pp * qq * (v * v)) by (nonlinear_arith);
    }
}

/// Three points that each lie on the line through `s` and `e` are colinear.
pub proof fn lemma_colinear_on_line<const D: usize>(
    s: Point<D>,
    e: Point<D>,
    a: Point<D>,
    b: Point<D>,
    c: Point<D>,
    alpha: int,
    beta: int,
    gamma: int,
)
    requires
        sq_dist(s, e) == 0 ==> forall|k: int| 0 <= k < D ==> #[trigger] a[k] == s[k],
        sq_dist(s, e) == 0 ==> forall|k: int| 0 <= k < D ==> #[trigger] b[k] == s[k],
        sq_dist(s, e) == 0 ==> forall|k: int| 0 <= k < D ==> #[trigger] c[k] == s[k],
        sq_dist(s, e) != 0 ==> forall|k: int|
            0 <= k < D ==> sq_dist(s, e) * (#[trigger] a[k] - s[k]) == alpha * (e[k] - s[k]),
        sq_dist(s, e) != 0 ==> forall|k: int|
            0 <= k < D ==> sq_dist(s, e) * (#[trigger] b[k] - s[k]) == beta * (e[k] - s[k]),
        sq_dist(s, e) != 0 ==> forall|k: int|
            0 <= k < D ==> sq_dist(s, e) * (#[trigger] c[k] - s[k]) == gamma * (e[k] - s[k]),
    ensures
        colinear(a, b, c),
{
    let l = sq_dist(s, e);
    let d = D as int;
    lemma_sq_dist_sym(s, e, d);
    if l == 0 {
        assert forall|k: int| 0 <= k < D implies 1 * (#[trigger] b[k] - a[k]) == 0 * (e[k] - s[k]) by {
            assert(a[k] == s[k] && b[k] == s[k]);
        }
        assert forall|k: int| 0 <= k < D implies 1 * (#[trigger] c[k] - a[k]) == 0 * (e[k] - s[k]) by {
            assert(a[k] == s[k] && c[k] == s[k]);
        }
        lemma_scaled_dot(b, a, c, a, s, e, 1, 0, 0, d);
        lemma_scaled_dot(b, a, b, a, s, e, 1, 0, 0, d);
        let x = sq_dist(b, a);
        let z = dot(b, a, c, a);
        assert(x == 0 && z == 0) by (nonlinear_arith)
            requires
                1 * 1 * x == 0 * 0 * l,
                1 * 1 * z == 0 * 0 * l,
        ;
        assert(x * sq_dist(c, a) == z * z) by (nonlinear_arith)
            requires
                x == 0,
                z == 0,
        ;
    } else {
        let pp = beta - alpha;
        let qq = gamma - alpha;
        assert forall|k: int| 0 <= k < D implies l * (#[trigger] b[k] - a[k]) == pp * (e[k] - s[k]) by {
            assert(l * (a[k] - s[k]) == alpha * (e[k] - s[k]));
            assert(l * (b[k] - s[k]) == beta * (e[k] - s[k]));
            assert(l * (b[k] - a[k]) == l * (b[k] - s[k]) - l * (a[k] - s[k])) by (nonlinear_arith);
            assert(pp * (e[k] - s[k]) == beta * (e[k] - s[k]) - alpha * (e[k] - s[k])) by (nonlinear_arith)
                requires
                    pp == beta - alpha,
            ;
        }
        assert forall|k: int| 0 <= k < D implies l * (#[trigger] c[k] - a[k]) == qq * (e[k] - s[k]) by {
            assert(l * (a[k] - s[k]) == alpha * (e[k] - s[k]));
            assert(l * (c[k] - s[k]) == gamma * (e[k] - s[k]));
            assert(l * (c[k] - a[k]) == l * (c[k] - s[k]) - l * (a[k] - s[k])) by (nonlinear_arith);
            assert(qq * (e[k] - s[k]) == gamma * (e[k] - s[k]) - alpha * (e[k] - s[k])) by (nonlinear_arith)
                requires
                    qq == gamma - alpha,
            ;
        }
        lemma_scaled_dot(b, a, c, a, s, e, l, pp, qq, d);
        lemma_scaled_dot(b, a, b, a, s, e, l, pp, pp, d);
        lemma_scaled_dot(c, a, c, a, s, e, l, qq, qq, d);
        let x = sq_dist(b, a);
        let y = sq_dist(c, a);
        let z = dot(b, a, c, a);
        assert(x * y == z * z) by (nonlinear_arith)
            requires
                l * l * x == pp * pp * l,
                l * l * y == qq * qq * l,
                l * l * z == pp * qq * l,
                l != 0,
        ;
    }
}

} // verus!
