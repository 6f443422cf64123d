//! Visvalingam–Whyatt decimation.
//!
//! Each point that may be dropped is the center of a triangle with its
//! nearest kept neighbours; the point whose triangle has the least area is
//! dropped first. Triangles are not updated when a neighbour is dropped:
//! a stale one is rebuilt when it comes up, and put back.
//!
//! Areas are compared through sixteen times their square, which Heron's
//! formula gives exactly from the squared side lengths. The triangles wait
//! in a table indexed by their center, each center holding one; the least
//! is found by a scan, the first of equal ones winning.
use crate::geometry::{distance_squared, line_ok, sq_dist, Point, MAX_SQ_DIST};
use vstd::arithmetic::mul::lemma_mul_upper_bound;
use crate::index::{idx_view, int_range, pick, points_at, strictly_ascending};
use std::collections::HashSet;
use vstd::prelude::*;
use vstd::std_specs::hash::group_hash_axioms;

verus! {

broadcast use group_hash_axioms;

/// The first index not in `skipped` met when walking left from `i`,
/// wrapping from 0 to `len - 1` when `wrapping` holds, within `fuel` steps.
pub open spec fn scan_left(
    skipped: Set<usize>,
    i: usize,
    len: usize,
    wrapping: bool,
    fuel: nat,
) -> Option<usize>
    decreases fuel,
{
    if fuel == 0 {
        None
    } else if !skipped.contains(i) {
        Some(i)
    } else if i > 0 {
        scan_left(skipped, (i - 1) as usize, len, wrapping, (fuel - 1) as nat)
    } else if wrapping {
        scan_left(skipped, (len - 1) as usize, len, wrapping, (fuel - 1) as nat)
    } else {
        None
    }
}

/// The first index not in `skipped` met when walking right from `i`,
/// wrapping from `len - 1` to 0 when `wrapping` holds, within `fuel` steps.
pub open spec fn scan_right(
    skipped: Set<usize>,
    i: usize,
    len: usize,
    wrapping: bool,
    fuel: nat,
) -> Option<usize>
    decreases fuel,
{
    if fuel == 0 {
        None
    } else if !skipped.contains(i) {
        Some(i)
    } else if i + 1 < len {
        scan_right(skipped, (i + 1) as usize, len, wrapping, (fuel - 1) as nat)
    } else if wrapping {
        scan_right(skipped, 0, len, wrapping, (fuel - 1) as nat)
    } else {
        None
    }
}

/// What `neighbours_not_in` returns: nothing once `skipped` leaves at most
/// three indices of the line, else the two scans, when both succeed.
pub open spec fn neighbours_spec(
    left: usize,
    right: usize,
    skipped: Set<usize>,
    len: usize,
    wrapping: bool,
) -> Option<(usize, usize)> {
    if len <= 3 || skipped.len() >= len - 3 {
        None
    } else {
        match (
            scan_left(skipped, left, len, wrapping, len as nat),
            scan_right(skipped, right, len, wrapping, len as nat),
        ) {
            (Some(l), Some(r)) => Some((l, r)),
            _ => None,
        }
    }
}

/// Scans left from `left` and right from `right` for indices not in
/// `skipped`, wrapping around the line's ends when `wrapping` holds.
pub fn neighbours_not_in(
    left: usize,
    right: usize,
    skipped: &HashSet<usize>,
    len: usize,
    wrapping: bool,
) -> (r: Option<(usize, usize)>)
    requires
        left < len,
        right < len,
    ensures
        r == neighbours_spec(left, right, skipped@, len, wrapping),
{
    if len <= 3 || skipped.len() >= len - 3 {
        return None;
    }
    let ghost sk = skipped@;
    let mut l = left;
    let mut steps: usize = 0;
    loop
        invariant
            steps <= len,
            l < len,
            sk == skipped@,
            scan_left(sk, left, len, wrapping, len as nat) == scan_left(
                sk,
                l,
                len,
                wrapping,
                (len - steps) as nat,
            ),
        ensures
            steps < len,
            !sk.contains(l),
            l < len,
            scan_left(sk, left, len, wrapping, len as nat) == scan_left(
                sk,
                l,
                len,
                wrapping,
                (len - steps) as nat,
            ),
        decreases len - steps,
    {
        if steps == len {
            return None;
        }
        if !skipped.contains(&l) {
            break;
        }
        if l > 0 {
            l = l - 1;
        } else if wrapping {
            l = len - 1;
        } else {
            return None;
        }
        steps = steps + 1;
    }
    assert(scan_left(sk, l, len, wrapping, (len - steps) as nat) == Some(l));
    let mut r = right;
    steps = 0;
    loop
        invariant
            steps <= len,
            r < len,
            sk == skipped@,
            scan_left(sk, left, len, wrapping, len as nat) == Some(l),
            scan_right(sk, right, len, wrapping, len as nat) == scan_right(
                sk,
                r,
                len,
                wrapping,
                (len - steps) as nat,
            ),
        ensures
            steps < len,
            !sk.contains(r),
            r < len,
            scan_right(sk, right, len, wrapping, len as nat) == scan_right(
                sk,
                r,
                len,
                wrapping,
                (len - steps) as nat,
            ),
        decreases len - steps,
    {
        if steps == len {
            return None;
        }
        if !skipped.contains(&r) {
            break;
        }
        if r + 1 < len {
            r = r + 1;
        } else if wrapping {
            r = 0;
        } else {
            return None;
        }
        steps = steps + 1;
    }
    assert(scan_right(sk, r, len, wrapping, (len - steps) as nat) == Some(r));
    Some((l, r))
}

/// Sixteen times the squared area of a triangle whose sides have squared
/// lengths `a2`, `b2` and `c2` (Heron's formula).
pub open spec fn heron16(a2: int, b2: int, c2: int) -> int {
    2 * (a2 * b2 + b2 * c2 + c2 * a2) - (a2 * a2 + b2 * b2 + c2 * c2)
}

/// Sixteen times the squared area of the triangle `p1 p2 p3`: it orders
/// triangles as their areas do.
pub open spec fn tri_area_key<const D: usize>(p1: Point<D>, p2: Point<D>, p3: Point<D>) -> int {
    heron16(sq_dist(p1, p2), sq_dist(p2, p3), sq_dist(p3, p1))
}

/// Computes `tri_area_key(*p1, *p2, *p3)`.
fn tri_area<const D: usize>(p1: &Point<D>, p2: &Point<D>, p3: &Point<D>) -> (r: i128)
    requires
        crate::geometry::point_ok(*p1),
        crate::geometry::point_ok(*p2),
        crate::geometry::point_ok(*p3),
        D <= crate::geometry::MAX_DIM,
    ensures
        r == tri_area_key(*p1, *p2, *p3),
{
    let s1 = distance_squared(p1, p2);
    let s2 = distance_squared(p2, p3);
    let s3 = distance_squared(p3, p1);
    proof {
        let m = MAX_SQ_DIST as int;
        lemma_mul_upper_bound(s1 as int, m, s2 as int, m);
        lemma_mul_upper_bound(s2 as int, m, s3 as int, m);
        lemma_mul_upper_bound(s3 as int, m, s1 as int, m);
        lemma_mul_upper_bound(s1 as int, m, s1 as int, m);
        lemma_mul_upper_bound(s2 as int, m, s2 as int, m);
        lemma_mul_upper_bound(s3 as int, m, s3 as int, m);
        assert(0 <= s1 * s2 && 0 <= s2 * s3 && 0 <= s3 * s1) by (nonlinear_arith)
            requires
                0 <= s1,
                0 <= s2,
                0 <= s3,
        ;
        assert(m * m == 0x100_0000_0000_0000_0000_0000_0000_0000);
    }
    2 * (s1 * s2 + s2 * s3 + s3 * s1) - (s1 * s1 + s2 * s2 + s3 * s3)
}

/// A triangle whose corners are indices into a line, with the key of its
/// area.
#[derive(Clone, Copy)]
struct Triangle {
    indices: (usize, usize, usize),
    area: i128,
}

/// No corner of `t` is in `skipped`.
pub open spec fn corners_kept(indices: (usize, usize, usize), skipped: Set<usize>) -> bool {
    !skipped.contains(indices.0) && !skipped.contains(indices.1) && !skipped.contains(indices.2)
}

impl Triangle {
    spec fn built_on<const D: usize>(self, line: Seq<Point<D>>) -> bool {
        &&& self.indices.0 < line.len()
        &&& self.indices.1 < line.len()
        &&& self.indices.2 < line.len()
        &&& self.area == tri_area_key(
            line[self.indices.0 as int],
            line[self.indices.1 as int],
            line[self.indices.2 as int],
        )
    }

    fn from_indices<const D: usize>(all_points: &[Point<D>], indices: (usize, usize, usize)) -> (r:
        Self)
        requires
            line_ok(all_points@),
            indices.0 < all_points@.len(),
            indices.1 < all_points@.len(),
            indices.2 < all_points@.len(),
        ensures
            r.indices == indices,
            r.built_on(all_points@),
    {
        Triangle {
            indices,
            area: tri_area(&all_points[indices.0], &all_points[indices.1], &all_points[indices.2]),
        }
    }

    /// Whether no corner of the triangle is in `skipped`.
    fn is_valid(&self, skipped: &HashSet<usize>) -> (r: bool)
        ensures
            r == corners_kept(self.indices, skipped@),
    {
        let is_invalid = skipped.contains(&self.indices.0) || skipped.contains(&self.indices.1)
            || skipped.contains(&self.indices.2);
        !is_invalid
    }

    /// The triangle with the same center whose corners are the nearest
    /// indices outside `skipped`, the left one leftwards, the right one
    /// rightwards.
    fn get_replacement<const D: usize>(
        &self,
        points: &[Point<D>],
        skipped: &HashSet<usize>,
        wrapping: bool,
    ) -> (r: Option<Self>)
        requires
            line_ok(points@),
            self.built_on(points@),
        ensures
            match neighbours_spec(
                self.indices.0,
                self.indices.2,
                skipped@,
                points@.len() as usize,
                wrapping,
            ) {
                Some((l, rr)) => r matches Some(t) && t.indices == (l, self.indices.1, rr)
                    && t.built_on(points@) && !skipped@.contains(l) && !skipped@.contains(rr)
                    && (!wrapping ==> l <= self.indices.0 && rr >= self.indices.2),
                None => r is None,
            },
    {
        match neighbours_not_in(self.indices.0, self.indices.2, skipped, points.len(), wrapping) {
            Some((new_left, new_right)) => {
                proof {
                    lemma_scan_left_in_range(skipped@, self.indices.0, points@.len() as usize, wrapping, points@.len() as nat);
                    lemma_scan_right_in_range(skipped@, self.indices.2, points@.len() as usize, wrapping, points@.len() as nat);
                }
                Some(Self::from_indices(points, (new_left, self.indices.1, new_right)))
            },
            None => None,
        }
    }

    fn center_index(&self) -> (r: usize)
        ensures
            r == self.indices.1,
    {
        self.indices.1
    }
}

/// A left scan that finds an index finds one of the line outside `skipped`.
pub proof fn lemma_scan_left_in_range(
    skipped: Set<usize>,
    i: usize,
    len: usize,
    wrapping: bool,
    fuel: nat,
)
    requires
        i < len,
    ensures
        scan_left(skipped, i, len, wrapping, fuel) matches Some(x) ==> x < len && !skipped.contains(x)
            && (!wrapping ==> x <= i),
    decreases fuel,
{
    if fuel > 0 && skipped.contains(i) {
        if i > 0 {
            lemma_scan_left_in_range(skipped, (i - 1) as usize, len, wrapping, (fuel - 1) as nat);
        } else if wrapping {
            lemma_scan_left_in_range(skipped, (len - 1) as usize, len, wrapping, (fuel - 1) as nat);
        }
    }
}

/// A right scan that finds an index finds one of the line outside `skipped`.
pub proof fn lemma_scan_right_in_range(
    skipped: Set<usize>,
    i: usize,
    len: usize,
    wrapping: bool,
    fuel: nat,
)
    requires
        i < len,
    ensures
        scan_right(skipped, i, len, wrapping, fuel) matches Some(x) ==> x < len && !skipped.contains(x)
            && (!wrapping ==> x >= i),
    decreases fuel,
{
    if fuel > 0 && skipped.contains(i) {
        if i + 1 < len {
            lemma_scan_right_in_range(skipped, (i + 1) as usize, len, wrapping, (fuel - 1) as nat);
        } else if wrapping {
            lemma_scan_right_in_range(skipped, 0, len, wrapping, (fuel - 1) as nat);
        }
    }
}

/// On an open line the left scan finds an index whenever index 0 is kept.
proof fn lemma_scan_left_finds_open(skipped: Set<usize>, i: usize, len: usize, wrapping: bool, fuel: nat)
    requires
        i < len,
        !skipped.contains(0),
        fuel > i,
    ensures
        scan_left(skipped, i, len, wrapping, fuel) is Some,
    decreases i,
{
    if skipped.contains(i) {
        lemma_scan_left_finds_open(skipped, (i - 1) as usize, len, wrapping, (fuel - 1) as nat);
    }
}

/// On an open line the right scan finds an index whenever the last one is kept.
proof fn lemma_scan_right_finds_open(skipped: Set<usize>, i: usize, len: usize, wrapping: bool, fuel: nat)
    requires
        i < len,
        !skipped.contains((len - 1) as usize),
        fuel >= len - i,
    ensures
        scan_right(skipped, i, len, wrapping, fuel) is Some,
    decreases len - i,
{
    if skipped.contains(i) {
        lemma_scan_right_finds_open(skipped, (i + 1) as usize, len, wrapping, (fuel - 1) as nat);
    }
}

/// A wrapping left scan finds an index whenever one of the line is kept
/// within reach.
proof fn lemma_scan_left_finds_cyclic(skipped: Set<usize>, i: usize, len: usize, fuel: nat, x: usize)
    requires
        i < len,
        x < len,
        !skipped.contains(x),
        fuel > (if i >= x { i - x } else { i + len - x }),
    ensures
        scan_left(skipped, i, len, true, fuel) is Some,
    decreases fuel,
{
    if skipped.contains(i) {
        if i > 0 {
            lemma_scan_left_finds_cyclic(skipped, (i - 1) as usize, len, (fuel - 1) as nat, x);
        } else {
            lemma_scan_left_finds_cyclic(skipped, (len - 1) as usize, len, (fuel - 1) as nat, x);
        }
    }
}

/// A wrapping right scan finds an index whenever one of the line is kept
/// within reach.
proof fn lemma_scan_right_finds_cyclic(skipped: Set<usize>, i: usize, len: usize, fuel: nat, x: usize)
    requires
        i < len,
        x < len,
        !skipped.contains(x),
        fuel > (if x >= i { x - i } else { x + len - i }),
    ensures
        scan_right(skipped, i, len, true, fuel) is Some,
    decreases fuel,
{
    if skipped.contains(i) {
        if i + 1 < len {
            lemma_scan_right_finds_cyclic(skipped, (i + 1) as usize, len, (fuel - 1) as nat, x);
        } else {
            lemma_scan_right_finds_cyclic(skipped, 0, len, (fuel - 1) as nat, x);
        }
    }
}

/// The indices that may be dropped: on an open line every index but the
/// two ends, on a closed one every index.
pub open spec fn is_center(c: usize, n: usize, closed: bool) -> bool {
    if closed {
        c < n
    } else {
        1 <= c && c + 1 < n
    }
}

spec fn entry_ok<const D: usize>(line: Seq<Point<D>>, t: Triangle, c: int, closed: bool) -> bool {
    &&& t.indices.1 == c
    &&& t.built_on(line)
    &&& !closed ==> t.indices.0 < c < t.indices.2
}

/// The queue holds, at each index that may still be dropped, the one
/// triangle centred there.
spec fn queue_ok<const D: usize>(
    line: Seq<Point<D>>,
    q: Seq<Option<Triangle>>,
    drop: Set<usize>,
    closed: bool,
) -> bool {
    &&& q.len() == line.len()
    &&& forall|c: int|
        0 <= c < line.len() ==> (#[trigger] q[c] is Some <==> is_center(
            c as usize,
            line.len() as usize,
            closed,
        ) && !drop.contains(c as usize))
    &&& forall|c: int| 0 <= c < line.len() && #[trigger] q[c] is Some ==> entry_ok(line, q[c]->0, c, closed)
}

/// The centers whose triangle has a dropped corner.
spec fn stale(q: Seq<Option<Triangle>>, drop: Set<usize>) -> Set<usize> {
    Set::new(
        |c: usize|
            (c as int) < q.len() && q[c as int] is Some && !corners_kept(q[c as int]->0.indices, drop),
    )
}

/// Index of the triangle of least area in the queue, the first on a tie.
fn queue_min(q: &Vec<Option<Triangle>>) -> (r: Option<usize>)
    ensures
        r is None <==> forall|c: int| 0 <= c < q@.len() ==> #[trigger] q@[c] is None,
        r matches Some(c) ==> c < q@.len() && q@[c as int] is Some
            && (forall|d: int| 0 <= d < q@.len() && #[trigger] q@[d] is Some ==> q@[c as int]->0.area <= q@[d]->0.area)
            && (forall|d: int| 0 <= d < c && #[trigger] q@[d] is Some ==> q@[c as int]->0.area < q@[d]->0.area),
{
    let mut best: Option<usize> = None;
    let mut i: usize = 0;
    while i < q.len()
        invariant
            i <= q@.len(),
            best is None <==> forall|c: int| 0 <= c < i ==> #[trigger] q@[c] is None,
            best matches Some(c) ==> c < i && q@[c as int] is Some
                && (forall|d: int| 0 <= d < i && #[trigger] q@[d] is Some ==> q@[c as int]->0.area <= q@[d]->0.area)
                && (forall|d: int| 0 <= d < c && #[trigger] q@[d] is Some ==> q@[c as int]->0.area < q@[d]->0.area),
        decreases q@.len() - i,
    {
        if let Some(t) = &q[i] {
            match best {
                None => {
                    best = Some(i);
                },
                Some(b) => {
                    if let Some(bt) = &q[b] {
                        if t.area < bt.area {
                            best = Some(i);
                        }
                    }
                },
            }
        }
        i = i + 1;
    }
    best
}

/// The neighbours of `c` on a line of `n` points, wrapping at the ends.
pub open spec fn first_triangle(c: usize, n: usize) -> (usize, usize, usize) {
    (if c == 0 { (n - 1) as usize } else { (c - 1) as usize }, c, if c + 1 == n { 0 } else { (c + 1) as usize })
}

/// The key of the area of the triangle that `c` makes with its two
/// neighbours.
pub open spec fn first_area<const D: usize>(line: Seq<Point<D>>, c: usize) -> int {
    let t = first_triangle(c, line.len() as usize);
    tri_area_key(line[t.0 as int], line[t.1 as int], line[t.2 as int])
}

/// `c` makes the least triangle with its neighbours of all the indices that
/// may be dropped, and no earlier one makes one as small.
pub open spec fn is_first_least<const D: usize>(line: Seq<Point<D>>, closed: bool, c: usize) -> bool {
    let n = line.len() as usize;
    &&& is_center(c, n, closed)
    &&& forall|d: usize| is_center(d, n, closed) ==> first_area(line, c) <= #[trigger] first_area(line, d)
    &&& forall|d: usize| is_center(d, n, closed) && d < c ==> first_area(line, c) < #[trigger] first_area(line, d)
}

/// The key of the area of the triangle with corners at the indices `t`.
pub open spec fn tri_key<const D: usize>(line: Seq<Point<D>>, t: (usize, usize, usize)) -> int {
    tri_area_key(line[t.0 as int], line[t.1 as int], line[t.2 as int])
}

/// Entry `c` of the table `q` of waiting triangles (indexed by center) has
/// the least area, and no earlier entry has as little.
pub open spec fn is_least_entry<const D: usize>(
    line: Seq<Point<D>>,
    q: Seq<Option<(usize, usize, usize)>>,
    c: int,
) -> bool {
    &&& 0 <= c < q.len()
    &&& q[c] is Some
    &&& forall|d: int|
        0 <= d < q.len() && #[trigger] q[d] is Some ==> tri_key(line, q[c]->0) <= tri_key(line, q[d]->0)
    &&& forall|d: int|
        0 <= d < c && #[trigger] q[d] is Some ==> tri_key(line, q[c]->0) < tri_key(line, q[d]->0)
}

/// The entry of `q` that comes up next, if any is left.
pub open spec fn least_entry<const D: usize>(
    line: Seq<Point<D>>,
    q: Seq<Option<(usize, usize, usize)>>,
) -> Option<int> {
    if exists|c: int| is_least_entry(line, q, c) {
        Some(choose|c: int| is_least_entry(line, q, c))
    } else {
        None
    }
}

/// The table of triangles VW starts from: each index that may be dropped,
/// with its two neighbours.
pub open spec fn first_queue(n: usize, closed: bool) -> Seq<Option<(usize, usize, usize)>> {
    Seq::new(
        n as nat,
        |c: int|
            if is_center(c as usize, n, closed) {
                Some(first_triangle(c as usize, n))
            } else {
                None
            },
    )
}

/// VW from the table `q` and the dropped set `drop`, for at most `fuel`
/// steps: the dropped set it ends with, and whether it stopped because a
/// stale triangle could not be replaced.
///
/// Each step takes the least triangle of the table (the first of equal
/// ones). If none of its corners is dropped, its center is dropped;
/// otherwise it is replaced by the triangle on the same center whose
/// corners are the nearest indices not dropped (`neighbours_spec`), or the
/// run stops when there is none. The run ends once no more than `n_points`
/// indices are left.
pub open spec fn vw_run<const D: usize>(
    line: Seq<Point<D>>,
    n_points: int,
    closed: bool,
    q: Seq<Option<(usize, usize, usize)>>,
    drop: Set<usize>,
    fuel: nat,
) -> (Set<usize>, bool)
    decreases fuel,
{
    if fuel == 0 || line.len() - drop.len() <= n_points {
        (drop, false)
    } else {
        match least_entry(line, q) {
            None => (drop, false),
            Some(c) => {
                let t = q[c]->0;
                if corners_kept(t, drop) {
                    vw_run(line, n_points, closed, q.update(c, None), drop.insert(t.1), (fuel - 1) as nat)
                } else {
                    match neighbours_spec(t.0, t.2, drop, line.len() as usize, closed) {
                        Some((l, r)) => vw_run(
                            line,
                            n_points,
                            closed,
                            q.update(c, Some((l, t.1, r))),
                            drop,
                            (fuel - 1) as nat,
                        ),
                        None => (drop, true),
                    }
                }
            },
        }
    }
}

/// What VW does to `line` brought down to `n_points`: the indices it drops,
/// and whether it stopped early for want of a replacement triangle. A line
/// of at most two points, or already short enough, loses nothing. The run
/// is given more steps than it can take.
pub open spec fn vw_outcome<const D: usize>(line: Seq<Point<D>>, n_points: int, closed: bool) -> (
    Set<usize>,
    bool,
) {
    let n = line.len();
    if n <= 2 || n <= n_points {
        (Set::empty(), false)
    } else {
        vw_run(
            line,
            n_points,
            closed,
            first_queue(n as usize, closed),
            Set::empty(),
            ((n + 1) * (n + 1)) as nat,
        )
    }
}

spec fn queue_view(q: Seq<Option<Triangle>>) -> Seq<Option<(usize, usize, usize)>> {
    q.map_values(
        |o: Option<Triangle>|
            match o {
                Some(t) => Some(t.indices),
                None => None,
            },
    )
}

proof fn lemma_least_entry_unique<const D: usize>(
    line: Seq<Point<D>>,
    q: Seq<Option<(usize, usize, usize)>>,
    c: int,
)
    requires
        is_least_entry(line, q, c),
    ensures
        least_entry(line, q) == Some(c),
{
    let d = choose|d: int| is_least_entry(line, q, d);
    if d < c {
        assert(q[d] is Some);
    } else if d > c {
        assert(q[c] is Some);
    }
}

/// The queue's least entry, as `queue_min` finds it, is the table's.
proof fn lemma_queue_min_is_least<const D: usize>(
    line: Seq<Point<D>>,
    q: Seq<Option<Triangle>>,
    r: Option<usize>,
)
    requires
        forall|d: int| 0 <= d < q.len() && #[trigger] q[d] is Some ==> q[d]->0.built_on(line),
        r is None <==> forall|c: int| 0 <= c < q.len() ==> #[trigger] q[c] is None,
        r matches Some(c) ==> c < q.len() && q[c as int] is Some
            && (forall|d: int| 0 <= d < q.len() && #[trigger] q[d] is Some ==> q[c as int]->0.area <= q[d]->0.area)
            && (forall|d: int| 0 <= d < c && #[trigger] q[d] is Some ==> q[c as int]->0.area < q[d]->0.area),
    ensures
        least_entry(line, queue_view(q)) == (match r {
            Some(c) => Some(c as int),
            None => None::<int>,
        }),
{
    let v = queue_view(q);
    assert forall|d: int| 0 <= d < q.len() implies (#[trigger] v[d] is Some <==> q[d] is Some) && (q[d] is Some
        ==> v[d]->0 == q[d]->0.indices && tri_key(line, v[d]->0) == q[d]->0.area) by {}
    match r {
        Some(c) => {
            assert forall|d: int| 0 <= d < v.len() && #[trigger] v[d] is Some implies tri_key(line, v[c as int]->0)
                <= tri_key(line, v[d]->0) by {
                assert(q[d] is Some);
            }
            assert forall|d: int| 0 <= d < c && #[trigger] v[d] is Some implies tri_key(line, v[c as int]->0)
                < tri_key(line, v[d]->0) by {
                assert(q[d] is Some);
            }
            lemma_least_entry_unique(line, v, c as int);
        },
        None => {
            if exists|c: int| is_least_entry(line, v, c) {
                let c = choose|c: int| is_least_entry(line, v, c);
                assert(q[c] is None);
            }
        },
    }
}

/// The indices that VW drops from `line` to bring it down to `n_points`.
fn vw_drop<const D: usize>(line: &[Point<D>], n_points: usize, closed: bool) -> (drop: HashSet<usize>)
    requires
        line_ok(line@),
        n_points >= 2,
    ensures
        forall|x: usize| #[trigger] drop@.contains(x) ==> is_center(x, line@.len() as usize, closed),
        drop@.finite(),
        line@.len() <= n_points ==> drop@.is_empty(),
        line@.len() > n_points ==> n_points <= line@.len() - drop@.len() <= if n_points > 3 { n_points } else { 3 },
        line@.len() >= 3 && n_points + 1 == line@.len() ==> exists|c: usize|
            is_first_least(line@, closed, c) && drop@ == Set::<usize>::empty().insert(c),
        line@.len() >= 3 && n_points < line@.len() ==> exists|c: usize|
            is_first_least(line@, closed, c) && drop@.contains(c),
        drop@ == vw_outcome(line@, n_points as int, closed).0,
        line@.len() > n_points && !vw_outcome(line@, n_points as int, closed).1 ==> line@.len()
            - drop@.len() == n_points,
{
    let n = line.len();
    let mut drop: HashSet<usize> = HashSet::new();
    if n <= 2 || n <= n_points {
        return drop;
    }
    let mut queue: Vec<Option<Triangle>> = Vec::with_capacity(n);
    let mut c: usize = 0;
    while c < n
        invariant
            3 <= n == line@.len(),
            line_ok(line@),
            c <= n,
            drop@ == Set::<usize>::empty(),
            queue@.len() == c,
            forall|d: int| 0 <= d < c ==> (#[trigger] queue@[d] is Some <==> is_center(d as usize, n, closed)),
            forall|d: int| 0 <= d < c && #[trigger] queue@[d] is Some ==> entry_ok(line@, queue@[d]->0, d, closed)
                && corners_kept(queue@[d]->0.indices, drop@) && queue@[d]->0.indices == first_triangle(d as usize, n),
        decreases n - c,
    {
        if is_center_exec(c, n, closed) {
            let left = if c == 0 { n - 1 } else { c - 1 };
            let right = if c + 1 == n { 0 } else { c + 1 };
            queue.push(Some(Triangle::from_indices(line, (left, c, right))));
        } else {
            queue.push(None);
        }
        c = c + 1;
    }
    let ghost mut fuel: nat = ((n + 1) * (n + 1)) as nat;
    let ghost mut failed: bool = false;
    proof {
        assert(stale(queue@, drop@) =~= Set::<usize>::empty());
        assert(queue_view(queue@) =~= first_queue(n, closed));
        assert(fuel > n * (n + 1)) by (nonlinear_arith)
            requires
                fuel == (n + 1) * (n + 1),
                n >= 0,
        ;
    }
    while n - drop.len() > n_points
        invariant_except_break
            !failed,
        invariant
            3 <= n == line@.len(),
            line_ok(line@),
            2 <= n_points < n,
            queue_ok(line@, queue@, drop@, closed),
            forall|x: usize| #[trigger] drop@.contains(x) ==> is_center(x, n, closed),
            drop@.finite(),
            drop@.len() <= n,
            n - drop@.len() >= n_points,
            stale(queue@, drop@).finite(),
            drop@.is_empty() ==> forall|d: int|
                0 <= d < n && #[trigger] queue@[d] is Some ==> queue@[d]->0.indices == first_triangle(d as usize, n),
            n_points + 1 == n && !drop@.is_empty() ==> exists|c: usize|
                is_first_least(line@, closed, c) && drop@ == Set::<usize>::empty().insert(c),
            !drop@.is_empty() ==> exists|c: usize| is_first_least(line@, closed, c) && drop@.contains(c),
            vw_run(line@, n_points as int, closed, queue_view(queue@), drop@, fuel) == vw_outcome(
                line@,
                n_points as int,
                closed,
            ),
            fuel > (n - drop@.len()) * (n + 1) + stale(queue@, drop@).len(),
        ensures
            n - drop@.len() <= n_points || n - drop@.len() <= 3,
            !drop@.is_empty(),
            n_points + 1 == n ==> exists|c: usize|
                is_first_least(line@, closed, c) && drop@ == Set::<usize>::empty().insert(c),
            exists|c: usize| is_first_least(line@, closed, c) && drop@.contains(c),
            (drop@, failed) == vw_outcome(line@, n_points as int, closed),
            !failed ==> n - drop@.len() == n_points,
        decreases n - drop@.len(), stale(queue@, drop@).len(),
    {
        let best = queue_min(&queue);
        proof {
            lemma_queue_min_is_least(line@, queue@, best);
            lemma_stale_finite(queue@, drop@);
        }
        let c = match best {
            None => {
                proof { lemma_all_dropped(n, drop@, closed, queue@, line@); }
                break;
            },
            Some(c) => c,
        };
        let tri = queue[c].unwrap();
        let ghost old_q = queue_view(queue@);
        let ghost old_drop = drop@;
        let ghost old_stale_len = stale(queue@, drop@).len();
        assert(old_q[c as int] == Some(tri.indices));
        if tri.is_valid(&drop) {
            proof {
                if drop@.is_empty() {
                    lemma_first_pick(line@, queue@, closed, c);
                }
            }
            drop.insert(tri.center_index());
            queue.set(c, None);
            proof {
                if old_drop.is_empty() {
                    assert(is_first_least(line@, closed, c) && drop@.contains(c));
                } else {
                    let w = choose|w: usize| is_first_least(line@, closed, w) && old_drop.contains(w);
                    assert(drop@.contains(w));
                }
                lemma_drop_bound(n, drop@, closed);
                lemma_stale_finite(queue@, drop@);
                assert(queue_view(queue@) =~= old_q.update(c as int, None));
                let live = n - old_drop.len();
                let st = stale(queue@, drop@).len();
                assert((live - 1) * (n + 1) + st < live * (n + 1)) by (nonlinear_arith)
                    requires
                        st <= n,
                ;
                fuel = (fuel - 1) as nat;
            }
        } else {
            proof {
                if n - drop@.len() > 3 {
                    lemma_replacement_found(line@, tri, drop@, closed);
                }
            }
            match tri.get_replacement(line, &drop, closed) {
                Some(repl) => {
                    let ghost old_stale = stale(queue@, drop@);
                    queue.set(c, Some(repl));
                    proof {
                        assert(stale(queue@, drop@) =~= old_stale.remove(c));
                        lemma_stale_finite(queue@, drop@);
                        assert(queue_view(queue@) =~= old_q.update(c as int, Some(repl.indices)));
                        fuel = (fuel - 1) as nat;
                    }
                },
                None => {
                    proof {
                        failed = true;
                    }
                    break;
                },
            }
        }
    }
    drop
}

/// While nothing is dropped, the least entry of the queue is the first
/// least triangle of the line.
proof fn lemma_first_pick<const D: usize>(
    line: Seq<Point<D>>,
    q: Seq<Option<Triangle>>,
    closed: bool,
    c: usize,
)
    requires
        3 <= line.len() <= usize::MAX,
        queue_ok(line, q, Set::<usize>::empty(), closed),
        forall|d: int|
            0 <= d < line.len() && #[trigger] q[d] is Some ==> q[d]->0.indices == first_triangle(
                d as usize,
                line.len() as usize,
            ),
        c < q.len(),
        q[c as int] is Some,
        forall|d: int| 0 <= d < q.len() && #[trigger] q[d] is Some ==> q[c as int]->0.area <= q[d]->0.area,
        forall|d: int| 0 <= d < c && #[trigger] q[d] is Some ==> q[c as int]->0.area < q[d]->0.area,
    ensures
        is_first_least(line, closed, c),
{
    let n = line.len() as usize;
    assert forall|d: usize| is_center(d, n, closed) implies first_area(line, c) <= #[trigger] first_area(line, d) by {
        assert(q[d as int] is Some);
    }
    assert forall|d: usize| is_center(d, n, closed) && d < c implies first_area(line, c) < #[trigger] first_area(line, d) by {
        assert(q[d as int] is Some);
    }
}

fn is_center_exec(c: usize, n: usize, closed: bool) -> (r: bool)
    ensures
        r == is_center(c, n, closed),
{
    if closed {
        c < n
    } else {
        1 <= c && c < n && c + 1 < n
    }
}

proof fn lemma_stale_finite(q: Seq<Option<Triangle>>, drop: Set<usize>)
    requires
        q.len() <= usize::MAX,
    ensures
        stale(q, drop).finite(),
        stale(q, drop).len() <= q.len(),
{
    let r = Set::<usize>::range(0, q.len() as usize);
    vstd::set_lib::range_set_properties(0usize, q.len() as usize);
    vstd::set_lib::lemma_set_subset_finite(r, stale(q, drop));
    vstd::set_lib::lemma_len_subset(stale(q, drop), r);
}

/// The dropped indices are at most the centers, so fewer than the line has.
proof fn lemma_drop_bound(n: usize, drop: Set<usize>, closed: bool)
    requires
        forall|x: usize| #[trigger] drop.contains(x) ==> is_center(x, n, closed),
    ensures
        drop.finite(),
        drop.len() <= n,
{
    let r = Set::<usize>::range(0, n);
    vstd::set_lib::range_set_properties(0usize, n);
    assert(drop.subset_of(r));
    vstd::set_lib::lemma_len_subset(drop, r);
}

/// When the queue is empty every center has been dropped, which leaves at
/// most two indices.
proof fn lemma_all_dropped<const D: usize>(
    n: usize,
    drop: Set<usize>,
    closed: bool,
    q: Seq<Option<Triangle>>,
    line: Seq<Point<D>>,
)
    requires
        n == line.len() >= 3,
        queue_ok(line, q, drop, closed),
        drop.finite(),
        forall|c: int| 0 <= c < q.len() ==> #[trigger] q[c] is None,
    ensures
        n - drop.len() <= 2,
{
    let centers = if closed { Set::<usize>::range(0, n) } else { Set::<usize>::range(1, (n - 1) as usize) };
    vstd::set_lib::range_set_properties(0usize, n);
    vstd::set_lib::range_set_properties(1usize, (n - 1) as usize);
    assert forall|x: usize| #[trigger] centers.contains(x) implies drop.contains(x) by {
        assert(q[x as int] is None);
    }
    assert(centers.subset_of(drop));
    vstd::set_lib::lemma_len_subset(centers, drop);
}

/// While more than three indices are left, the replacement of a stale
/// triangle is always found.
proof fn lemma_replacement_found<const D: usize>(
    line: Seq<Point<D>>,
    t: Triangle,
    drop: Set<usize>,
    closed: bool,
)
    requires
        3 <= line.len() <= usize::MAX,
        t.built_on(line),
        !closed ==> t.indices.0 < t.indices.1 < t.indices.2,
        forall|x: usize| #[trigger] drop.contains(x) ==> is_center(x, line.len() as usize, closed),
        drop.finite(),
        line.len() - drop.len() > 3,
    ensures
        neighbours_spec(t.indices.0, t.indices.2, drop, line.len() as usize, closed) is Some,
{
    let n = line.len() as usize;
    if closed {
        let r = Set::<usize>::range(0, n);
        vstd::set_lib::range_set_properties(0usize, n);
        if forall|x: usize| x < n ==> #[trigger] drop.contains(x) {
            assert(r.subset_of(drop));
            vstd::set_lib::lemma_len_subset(r, drop);
        }
        let x = choose|x: usize| x < n && !#[trigger] drop.contains(x);
        lemma_scan_left_finds_cyclic(drop, t.indices.0, n, n as nat, x);
        lemma_scan_right_finds_cyclic(drop, t.indices.2, n, n as nat, x);
    } else {
        assert(!is_center(0, n, closed));
        assert(!is_center((n - 1) as usize, n, closed));
        lemma_scan_left_finds_open(drop, t.indices.0, n, closed, n as nat);
        lemma_scan_right_finds_open(drop, t.indices.2, n, closed, n as nat);
    }
}

/// What VW keeps of a line of `n` points brought down to `n_points`: the
/// indices ascend, include every index that may not be dropped (the ends
/// of an open line), and number `n_points`, or three where a target of two
/// found no more triangles; a line already short enough is kept whole.
pub open spec fn vw_indices_ok(n: nat, n_points: nat, closed: bool, idx: Seq<int>) -> bool {
    &&& strictly_ascending(idx)
    &&& forall|i: int| 0 <= i < idx.len() ==> 0 <= #[trigger] idx[i] < n
    &&& forall|i: int| 0 <= i < n && !is_center(i as usize, n as usize, closed) ==> #[trigger] idx.contains(i)
    &&& n <= n_points ==> idx == int_range(0, n as int)
    &&& n > n_points ==> n_points <= idx.len() <= if n_points > 3 { n_points } else { 3 }
}

/// What VW keeps of `line` brought down to `n_points` (`vw_indices_ok`);
/// where it is to drop a single point, it drops the one whose triangle with
/// its neighbours is least, the first of equal ones.
pub open spec fn vw_result_ok<const D: usize>(
    line: Seq<Point<D>>,
    n_points: nat,
    closed: bool,
    idx: Seq<int>,
) -> bool {
    &&& vw_indices_ok(line.len(), n_points, closed, idx)
    &&& line.len() >= 3 && n_points + 1 == line.len() ==> exists|c: usize|
        is_first_least(line, closed, c) && forall|i: int|
            0 <= i < line.len() ==> (#[trigger] idx.contains(i) <==> i != c)
    &&& line.len() >= 3 && n_points < line.len() ==> exists|c: usize|
        is_first_least(line, closed, c) && !idx.contains(c as int)
}

/// The indices below `k` that are not in `dropped`, in ascending order.
pub open spec fn kept_below(dropped: Set<usize>, k: int) -> Seq<int>
    decreases k,
{
    if k <= 0 {
        seq![]
    } else if dropped.contains((k - 1) as usize) {
        kept_below(dropped, k - 1)
    } else {
        kept_below(dropped, k - 1).push(k - 1)
    }
}

/// The indices of `line` that VW keeps when it brings the line down to
/// `n_points`: those that `vw_outcome` does not drop.
pub open spec fn vw_kept<const D: usize>(line: Seq<Point<D>>, n_points: int, closed: bool) -> Seq<
    int,
> {
    kept_below(vw_outcome(line, n_points, closed).0, line.len() as int)
}

/// Returns the indices of the points of `line` that VW keeps when it brings
/// the line down to `n_points`, in ascending order.
///
/// `closed` means the line is a polygon's ring, with an edge from its last
/// point back to its first.
pub fn vw_keep<const D: usize>(line: &[Point<D>], n_points: usize, closed: bool) -> (r: Vec<usize>)
    requires
        line_ok(line@),
        n_points >= 2,
    ensures
        idx_view(r@) == vw_kept(line@, n_points as int, closed),
        vw_result_ok(line@, n_points as nat, closed, idx_view(r@)),
        forall|x: usize|
            #[trigger] vw_outcome(line@, n_points as int, closed).0.contains(x) ==> is_center(
                x,
                line@.len() as usize,
                closed,
            ),
        line@.len() > n_points && !vw_outcome(line@, n_points as int, closed).1 ==> r@.len()
            == n_points,
{
    let drop = vw_drop(line, n_points, closed);
    let n = line.len();
    let ghost dropped = drop@;
    let mut out: Vec<usize> = Vec::with_capacity(n);
    let mut k: usize = 0;
    assert(Set::new(|x: usize| dropped.contains(x) && x < 0) =~= Set::<usize>::empty());
    while k < n
        invariant
            k <= n == line@.len(),
            dropped == drop@,
            dropped.finite(),
            forall|x: usize| #[trigger] dropped.contains(x) ==> x < n,
            strictly_ascending(idx_view(out@)),
            forall|i: int| 0 <= i < out@.len() ==> 0 <= #[trigger] idx_view(out@)[i] < k,
            forall|j: int|
                0 <= j < k && !dropped.contains(j as usize) ==> #[trigger] idx_view(out@).contains(j),
            forall|p: int| 0 <= p < out@.len() ==> !dropped.contains(#[trigger] out@[p]),
            out@.len() + Set::new(|x: usize| dropped.contains(x) && x < k).len() == k,
            Set::new(|x: usize| dropped.contains(x) && x < k).finite(),
            dropped.is_empty() ==> idx_view(out@) == int_range(0, k as int),
            idx_view(out@) == kept_below(dropped, k as int),
        decreases n - k,
    {
        let ghost before = Set::new(|x: usize| dropped.contains(x) && x < k);
        let ghost after = Set::new(|x: usize| dropped.contains(x) && x < k + 1);
        let ghost old_out = idx_view(out@);
        if !drop.contains(&k) {
            out.push(k);
            assert(idx_view(out@) =~= old_out.push(k as int));
            assert(after =~= before);
            assert forall|j: int|
                0 <= j < k + 1 && !dropped.contains(j as usize) implies #[trigger] idx_view(out@).contains(j) by {
                if j < k {
                    assert(old_out.contains(j));
                    let p = choose|p: int| 0 <= p < old_out.len() && old_out[p] == j;
                    assert(idx_view(out@)[p] == j);
                } else {
                    assert(idx_view(out@)[old_out.len() as int] == j);
                }
            }
        } else {
            assert(after =~= before.insert(k));
        }
        k = k + 1;
    }
    proof {
        assert(Set::new(|x: usize| dropped.contains(x) && x < k) =~= dropped);
        if n >= 3 && n_points + 1 == n {
            let c = choose|c: usize|
                is_first_least(line@, closed, c) && dropped == Set::<usize>::empty().insert(c);
            assert forall|i: int| 0 <= i < n implies (#[trigger] idx_view(out@).contains(i) <==> i != c) by {
                if idx_view(out@).contains(i) {
                    let p = choose|p: int| 0 <= p < idx_view(out@).len() && idx_view(out@)[p] == i;
                    assert(!dropped.contains(out@[p]));
                }
            }
        }
        if n >= 3 && n_points < n {
            let c = choose|c: usize| is_first_least(line@, closed, c) && dropped.contains(c);
            if idx_view(out@).contains(c as int) {
                let p = choose|p: int| 0 <= p < idx_view(out@).len() && idx_view(out@)[p] == c as int;
                assert(!dropped.contains(out@[p]));
            }
        }
    }
    out
}

/// Returns the points of `line` that VW keeps when it brings the line down
/// to `n_points`.
///
/// `closed` means the line is a polygon's ring, with an edge from its last
/// point back to its first.
pub fn vw_reduce<const D: usize>(line: &[Point<D>], n_points: usize, closed: bool) -> (r: Vec<
    Point<D>,
>)
    requires
        line_ok(line@),
        n_points >= 2,
    ensures
        r@ == pick(line@, vw_kept(line@, n_points as int, closed)),
{
    let kept = vw_keep(line, n_points, closed);
    points_at(line, &kept)
}

/// With a target of at least three points, what VW keeps of a longer line
/// numbers exactly the target, and an open line keeps its first and last
/// points.
pub proof fn lemma_vw_reaches_target(n: nat, n_points: nat, closed: bool, idx: Seq<int>)
    requires
        vw_indices_ok(n, n_points, closed, idx),
        n_points >= 3,
        n <= usize::MAX,
    ensures
        idx.len() == if n <= n_points { n } else { n_points },
        !closed && n >= 1 ==> idx[0] == 0 && idx.last() == n - 1,
{
    if !closed && n >= 1 {
        assert(!is_center(0, n as usize, closed));
        assert(!is_center((n - 1) as usize, n as usize, closed));
        assert(idx.contains(0));
        assert(idx.contains(n - 1));
        let p = choose|p: int| 0 <= p < idx.len() && idx[p] == 0;
        let q = choose|q: int| 0 <= q < idx.len() && idx[q] == n - 1;
        if p > 0 {
            assert(idx[0] < idx[p]);
        }
        if q < idx.len() - 1 {
            assert(idx[q] < idx[idx.len() - 1]);
        }
    }
}

} // verus!
