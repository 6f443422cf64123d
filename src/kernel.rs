//! Smoothing kernels: how much a neighbouring point counts, by its distance.
use vstd::prelude::*;

verus! {

/// A distance-to-weight function for convolution smoothing.
///
/// Weights need not sum to anything in particular: the smoothed point is
/// their weighted mean.
pub trait Kernel {
    /// The weight of a point at squared distance `dist2` from the point of
    /// interest, or `None` when it is too far to count.
    spec fn spec_weigh_dist2(&self, dist2: int) -> Option<u32>;

    /// The weight of the point of interest itself.
    spec fn spec_at_center(&self) -> u32;

    /// If the squared distance from the point of interest to another point
    /// is `dist2`, how much should its position count?
    fn weigh_dist2(&self, dist2: u128) -> (r: Option<u32>)
        ensures
            r == self.spec_weigh_dist2(dist2 as int),
    ;

    /// The weight of the point of interest.
    fn at_center(&self) -> (r: u32)
        ensures
            r == self.spec_at_center(),
    ;
}

/// `r` is the square root of `x`, rounded down.
pub open spec fn is_floor_sqrt(x: int, r: int) -> bool {
    0 <= r && r * r <= x < (r + 1) * (r + 1)
}

/// The square root of `x`, rounded down.
pub open spec fn floor_sqrt(x: int) -> int
    decreases x,
{
    if x <= 0 {
        0
    } else {
        let r = floor_sqrt(x - 1);
        if (r + 1) * (r + 1) <= x {
            r + 1
        } else {
            r
        }
    }
}

proof fn lemma_floor_sqrt(x: int)
    requires
        x >= 0,
    ensures
        is_floor_sqrt(x, floor_sqrt(x)),
    decreases x,
{
    if x > 0 {
        lemma_floor_sqrt(x - 1);
        let r = floor_sqrt(x - 1);
        assert((r + 2) * (r + 2) == (r + 1) * (r + 1) + 2 * r + 3) by (nonlinear_arith);
    }
}

proof fn lemma_floor_sqrt_unique(x: int, r: int)
    requires
        is_floor_sqrt(x, r),
    ensures
        r == floor_sqrt(x),
{
    lemma_floor_sqrt(x);
    let f = floor_sqrt(x);
    if r < f {
        assert((r + 1) * (r + 1) <= f * f) by (nonlinear_arith)
            requires
                0 <= r + 1 <= f,
        ;
    } else if r > f {
        assert((f + 1) * (f + 1) <= r * r) by (nonlinear_arith)
            requires
                0 <= f + 1 <= r,
        ;
    }
}

/// The square root of `x`, rounded down.
pub fn isqrt(x: u128) -> (r: u64)
    ensures
        r == floor_sqrt(x as int),
{
    let mut lo: u128 = 0;
    let mut hi: u128 = 0x1_0000_0000_0000_0000;
    assert(hi * hi > x) by (nonlinear_arith)
        requires
            hi == 0x1_0000_0000_0000_0000,
            x <= u128::MAX,
    ;
    while hi - lo > 1
        invariant
            lo < hi <= 0x1_0000_0000_0000_0000,
            lo * lo <= x,
            x < hi * hi,
        decreases hi - lo,
    {
        let mid = lo + (hi - lo) / 2;
        assert(mid * mid <= 0xffff_ffff_ffff_ffff * 0xffff_ffff_ffff_ffff) by (nonlinear_arith)
            requires
                0 <= mid <= 0xffff_ffff_ffff_ffff,
        ;
        if mid * mid <= x {
            lo = mid;
        } else {
            hi = mid;
        }
    }
    proof {
        assert(hi == lo + 1);
        lemma_floor_sqrt_unique(x as int, lo as int);
    }
    lo as u64
}

/// Weighs points by how far they are from the point of interest, falling
/// off linearly to nothing at `max_dist`.
#[derive(Clone, Copy)]
pub struct Linear {
    pub max_dist: u32,
}

impl Linear {
    pub fn new(max_dist: u32) -> (r: Self)
        ensures
            r.max_dist == max_dist,
    {
        Linear { max_dist }
    }

    /// `max_dist - dist`, or `None` beyond `max_dist`.
    pub fn weigh_dist(&self, dist: u64) -> (r: Option<u32>)
        ensures
            r == (if dist > self.max_dist { None } else { Some((self.max_dist - dist) as u32) }),
    {
        if dist > self.max_dist as u64 {
            return None;
        }
        Some(self.max_dist - dist as u32)
    }
}

impl Kernel for Linear {
    /// The distance is the square root of `dist2`, rounded down.
    open spec fn spec_weigh_dist2(&self, dist2: int) -> Option<u32> {
        let dist = floor_sqrt(dist2);
        if dist > self.max_dist {
            None
        } else {
            Some((self.max_dist - dist) as u32)
        }
    }

    open spec fn spec_at_center(&self) -> u32 {
        self.max_dist
    }

    fn weigh_dist2(&self, dist2: u128) -> (r: Option<u32>) {
        self.weigh_dist(isqrt(dist2))
    }

    fn at_center(&self) -> (r: u32) {
        self.max_dist
    }
}

/// Weighs points by a table indexed by their distance from the point of
/// interest, rounded down: a point at distance `d` weighs `weights[d]`, and
/// does not count once `d` runs past the table.
#[derive(Clone)]
pub struct Profile {
    weights: Vec<u32>,
}

impl Profile {
    pub closed spec fn weights(&self) -> Seq<u32> {
        self.weights@
    }

    pub fn new(weights: Vec<u32>) -> (r: Self)
        ensures
            r.weights() == weights@,
    {
        Profile { weights }
    }

    /// `weights[dist]`, or `None` past the table.
    pub fn weigh_dist(&self, dist: u64) -> (r: Option<u32>)
        ensures
            r == (if dist < self.weights().len() { Some(self.weights()[dist as int]) } else { None }),
    {
        if (dist as u128) < self.weights.len() as u128 {
            Some(self.weights[dist as usize])
        } else {
            None
        }
    }
}

impl Kernel for Profile {
    /// The distance is the square root of `dist2`, rounded down.
    open spec fn spec_weigh_dist2(&self, dist2: int) -> Option<u32> {
        let dist = floor_sqrt(dist2);
        if dist < self.weights().len() {
            Some(self.weights()[dist])
        } else {
            None
        }
    }

    /// The first weight of the table, or nothing for an empty one.
    open spec fn spec_at_center(&self) -> u32 {
        if self.weights().len() > 0 {
            self.weights()[0]
        } else {
            0
        }
    }

    fn weigh_dist2(&self, dist2: u128) -> (r: Option<u32>) {
        self.weigh_dist(isqrt(dist2))
    }

    fn at_center(&self) -> (r: u32) {
        if self.weights.len() > 0 {
            self.weights[0]
        } else {
            0
        }
    }
}

} // verus!
