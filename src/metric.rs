use vstd::prelude::*;

use core::cmp::Ordering;

use crate::grid::{GridIdx, MAX_EXTENT};
use crate::order::{
    lemma_cross_transitive, lemma_sq_dist_nonneg, lemma_sqrt_lt_irreflexive, lemma_sqrt_lt_transitive,
};
use crate::site::PlainSite;

verus! {

/// The square of the Euclidean distance from a site to a point.
pub open spec fn sq_dist(a: PlainSite, p: GridIdx) -> int {
    (a.0 - p.0) * (a.0 - p.0) + (a.1 - p.1) * (a.1 - p.1)
}

pub open spec fn abs(x: int) -> int {
    if x < 0 {
        -x
    } else {
        x
    }
}

/// The Manhattan distance from a site to a point.
pub open spec fn manhattan(a: PlainSite, p: GridIdx) -> int {
    abs(a.0 - p.0) + abs(a.1 - p.1)
}

/// The site and the point lie within one grid extent of each other on both axes.
pub open spec fn near(a: PlainSite, p: GridIdx) -> bool {
    &&& abs(a.0 - p.0) <= MAX_EXTENT
    &&& abs(a.1 - p.1) <= MAX_EXTENT
}

/// `sqrt(a) < sqrt(b) + d` for `a, b >= 0`, stated without square roots by
/// squaring both sides.
pub open spec fn sqrt_lt(a: int, b: int, d: int) -> bool {
    if d >= 0 {
        a - b - d * d < 0 || (a - b - d * d) * (a - b - d * d) < 4 * d * d * b
    } else {
        b - a - d * d > 0 && 4 * d * d * a < (b - a - d * d) * (b - a - d * d)
    }
}

/// A distance function between a site and a point, known through the order it
/// puts sites in.
pub trait Metric {
    /// The weights that this metric can measure with.
    spec fn admits(weight: int) -> bool;

    /// Site `a` is strictly closer to `p` than site `b` is.
    spec fn closer(a: PlainSite, b: PlainSite, p: GridIdx) -> bool;

    /// `closer` is a strict order on admitted sites, at every point.
    proof fn lemma_strict_order(a: PlainSite, b: PlainSite, c: PlainSite, p: GridIdx)
        requires
            Self::admits(a.2 as int),
            Self::admits(b.2 as int),
            Self::admits(c.2 as int),
        ensures
            !Self::closer(a, a, p),
            Self::closer(a, b, p) && Self::closer(b, c, p) ==> Self::closer(a, c, p),
    ;

    /// Orders the distances of `a` and `b` to `p`.
    fn compare_distances(a: &PlainSite, b: &PlainSite, p: &GridIdx) -> (r: Ordering)
        requires
            Self::admits(a.2 as int),
            Self::admits(b.2 as int),
            near(*a, *p),
            near(*b, *p),
        ensures
            (r == Ordering::Less) == Self::closer(*a, *b, *p),
            (r == Ordering::Greater) == Self::closer(*b, *a, *p),
    ;
}

/// Orders two integers.
fn order(x: i128, y: i128) -> (r: Ordering)
    ensures
        (r == Ordering::Less) == (x < y),
        (r == Ordering::Greater) == (x > y),
{
    if x < y {
        Ordering::Less
    } else if x > y {
        Ordering::Greater
    } else {
        Ordering::Equal
    }
}

/// `sqrt((sx-px)^2 + (sy-py)^2)`.
#[derive(Debug, Copy, Clone, PartialEq, Eq, Structural)]
pub struct Euclidean;

impl Euclidean {
    /// The squared Euclidean distance from a site to a point.
    pub fn magnitude(a: &PlainSite, b: &GridIdx) -> (r: i128)
        requires
            near(*a, *b),
        ensures
            r == sq_dist(*a, *b),
            0 <= r <= 0x2000_0000_0000_0000,
    {
        let dx = a.0 as i128 - b.0 as i128;
        let dy = a.1 as i128 - b.1 as i128;
        assert(0 <= dx * dx <= MAX_EXTENT * MAX_EXTENT) by (nonlinear_arith)
            requires -MAX_EXTENT <= dx <= MAX_EXTENT;
        assert(0 <= dy * dy <= MAX_EXTENT * MAX_EXTENT) by (nonlinear_arith)
            requires -MAX_EXTENT <= dy <= MAX_EXTENT;
        dx * dx + dy * dy
    }
}

impl Metric for Euclidean {
    open spec fn admits(weight: int) -> bool {
        true
    }

    open spec fn closer(a: PlainSite, b: PlainSite, p: GridIdx) -> bool {
        sq_dist(a, p) < sq_dist(b, p)
    }

    proof fn lemma_strict_order(a: PlainSite, b: PlainSite, c: PlainSite, p: GridIdx) {
    }

    fn compare_distances(a: &PlainSite, b: &PlainSite, p: &GridIdx) -> (r: Ordering) {
        order(Euclidean::magnitude(a, p), Euclidean::magnitude(b, p))
    }
}

/// `(1/weight) * sqrt((sx-px)^2 + (sy-py)^2)`, for positive weights.
#[derive(Debug, Copy, Clone, PartialEq, Eq, Structural)]
pub struct MultWeightedEuclidean;

impl Metric for MultWeightedEuclidean {
    open spec fn admits(weight: int) -> bool {
        weight > 0
    }

    /// `sqrt(sq_a) / w_a < sqrt(sq_b) / w_b`; with positive weights, squared and
    /// cross-multiplied: `sq_a * w_b^2 < sq_b * w_a^2`.
    open spec fn closer(a: PlainSite, b: PlainSite, p: GridIdx) -> bool {
        sq_dist(a, p) * (b.2 * b.2) < sq_dist(b, p) * (a.2 * a.2)
    }

    proof fn lemma_strict_order(a: PlainSite, b: PlainSite, c: PlainSite, p: GridIdx) {
        let (wa, wb, wc) = (a.2 as int, b.2 as int, c.2 as int);
        assert(wa * wa > 0 && wb * wb > 0 && wc * wc > 0) by (nonlinear_arith)
            requires wa > 0, wb > 0, wc > 0;
        if Self::closer(a, b, p) && Self::closer(b, c, p) {
            lemma_cross_transitive(sq_dist(a, p), sq_dist(b, p), sq_dist(c, p), wa * wa, wb * wb, wc * wc);
        }
    }

    fn compare_distances(a: &PlainSite, b: &PlainSite, p: &GridIdx) -> (r: Ordering) {
        let qa = Euclidean::magnitude(a, p);
        let qb = Euclidean::magnitude(b, p);
        let wa = a.2 as i128;
        let wb = b.2 as i128;
        let ghost m = MAX_EXTENT as int;
        assert(0 < wa * wa <= 0x4000_0000_0000_0000) by (nonlinear_arith)
            requires 0 < wa <= 0x7fff_ffff;
        assert(0 < wb * wb <= 0x4000_0000_0000_0000) by (nonlinear_arith)
            requires 0 < wb <= 0x7fff_ffff;
        let sa = wa * wa;
        let sb = wb * wb;
        assert(0 <= qa * sb <= 2 * m * m * 0x4000_0000_0000_0000) by (nonlinear_arith)
            requires 0 <= qa <= 2 * m * m, 0 < sb <= 0x4000_0000_0000_0000;
        assert(0 <= qb * sa <= 2 * m * m * 0x4000_0000_0000_0000) by (nonlinear_arith)
            requires 0 <= qb <= 2 * m * m, 0 < sa <= 0x4000_0000_0000_0000;
        order(qa * sb, qb * sa)
    }
}

/// `sqrt((sx-px)^2 + (sy-py)^2) - weight`.
#[derive(Debug, Copy, Clone, PartialEq, Eq, Structural)]
pub struct AdditiveWeightedEuclidean;

impl Metric for AdditiveWeightedEuclidean {
    open spec fn admits(weight: int) -> bool {
        true
    }

    /// `sqrt(sq_a) - w_a < sqrt(sq_b) - w_b`.
    open spec fn closer(a: PlainSite, b: PlainSite, p: GridIdx) -> bool {
        sqrt_lt(sq_dist(a, p), sq_dist(b, p), a.2 - b.2)
    }

    proof fn lemma_strict_order(a: PlainSite, b: PlainSite, c: PlainSite, p: GridIdx) {
        lemma_sq_dist_nonneg(a, p);
        lemma_sq_dist_nonneg(b, p);
        lemma_sq_dist_nonneg(c, p);
        lemma_sqrt_lt_irreflexive(sq_dist(a, p));
        if Self::closer(a, b, p) && Self::closer(b, c, p) {
            lemma_sqrt_lt_transitive(sq_dist(a, p), sq_dist(b, p), sq_dist(c, p), a.2 - b.2, b.2 - c.2);
            assert((a.2 - b.2) + (b.2 - c.2) == a.2 - c.2);
        }
    }

    fn compare_distances(a: &PlainSite, b: &PlainSite, p: &GridIdx) -> (r: Ordering) {
        let qa = Euclidean::magnitude(a, p);
        let qb = Euclidean::magnitude(b, p);
        let d = a.2 as i128 - b.2 as i128;
        proof {
            lemma_sqrt_lt_antisymmetric(qa as int, qb as int, d as int);
        }
        if sqrt_lt_exec(qa, qb, d) {
            Ordering::Less
        } else if sqrt_lt_exec(qb, qa, -d) {
            Ordering::Greater
        } else {
            Ordering::Equal
        }
    }
}

/// `sqrt(a) < sqrt(b) + d` and `sqrt(b) < sqrt(a) - d` exclude each other.
pub proof fn lemma_sqrt_lt_antisymmetric(a: int, b: int, d: int)
    ensures
        !(sqrt_lt(a, b, d) && sqrt_lt(b, a, -d)),
{
    let e = -d;
    let t = a - b - d * d;
    let u = b - a - d * d;
    assert(e * e == d * d) by (nonlinear_arith) requires e == -d;
    assert(4 * e * e * a == 4 * d * d * a) by (nonlinear_arith) requires e == -d;
    assert(4 * e * e * b == 4 * d * d * b) by (nonlinear_arith) requires e == -d;
    assert((a - b - e * e) * (a - b - e * e) == t * t) by (nonlinear_arith) requires e == -d, t == a - b - d * d;
    assert((b - a - e * e) * (b - a - e * e) == u * u) by (nonlinear_arith) requires e == -d, u == b - a - d * d;
    assert((a - b - d * d) * (a - b - d * d) == t * t);
    assert((b - a - d * d) * (b - a - d * d) == u * u);
    if d > 0 {
        assert(sqrt_lt(a, b, d) == (t < 0 || t * t < 4 * d * d * b));
        assert(sqrt_lt(b, a, e) == (t > 0 && 4 * d * d * b < t * t));
    } else if d < 0 {
        assert(sqrt_lt(a, b, d) == (u > 0 && 4 * d * d * a < u * u));
        assert(sqrt_lt(b, a, e) == (u < 0 || u * u < 4 * d * d * a));
    } else {
        assert(e == 0 && d * d == 0);
        assert(4 * d * d * b == 0) by (nonlinear_arith) requires d == 0;
        assert(4 * d * d * a == 0) by (nonlinear_arith) requires d == 0;
        assert(sqrt_lt(a, b, d) == (t < 0 || t * t < 4 * d * d * b));
        assert(sqrt_lt(b, a, e) == (u < 0 || u * u < 4 * d * d * a));
        assert(t * t >= 0) by (nonlinear_arith);
        assert(u * u >= 0) by (nonlinear_arith);
    }
}

/// Decides `sqrt_lt` on squared distances of a grid and weight differences.
fn sqrt_lt_exec(a: i128, b: i128, d: i128) -> (r: bool)
    requires
        0 <= a <= 0x2000_0000_0000_0000,
        0 <= b <= 0x2000_0000_0000_0000,
        -0x1_0000_0000 <= d <= 0x1_0000_0000,
    ensures
        r == sqrt_lt(a as int, b as int, d as int),
{
    assert(0 <= d * d <= 0x1_0000_0000_0000_0000) by (nonlinear_arith)
        requires -0x1_0000_0000 <= d <= 0x1_0000_0000;
    let dd = d * d;
    if d >= 0 {
        let t = a - b - dd;
        if t < 0 {
            true
        } else {
            assert(dd <= 0x2000_0000_0000_0000);
            assert(t * t <= 0x2000_0000_0000_0000 * 0x2000_0000_0000_0000) by (nonlinear_arith)
                requires 0 <= t <= 0x2000_0000_0000_0000;
            assert(4 * dd * b <= 4 * 0x2000_0000_0000_0000 * 0x2000_0000_0000_0000) by (nonlinear_arith)
                requires 0 <= dd <= 0x2000_0000_0000_0000, 0 <= b <= 0x2000_0000_0000_0000;
            assert(4 * dd * b == 4 * d * d * b) by (nonlinear_arith)
                requires dd == d * d;
            t * t < 4 * dd * b
        }
    } else {
        let u = b - a - dd;
        if u <= 0 {
            false
        } else {
            assert(dd <= 0x2000_0000_0000_0000);
            assert(u * u <= 0x2000_0000_0000_0000 * 0x2000_0000_0000_0000) by (nonlinear_arith)
                requires 0 <= u <= 0x2000_0000_0000_0000;
            assert(4 * dd * a <= 4 * 0x2000_0000_0000_0000 * 0x2000_0000_0000_0000) by (nonlinear_arith)
                requires 0 <= dd <= 0x2000_0000_0000_0000, 0 <= a <= 0x2000_0000_0000_0000;
            assert(4 * dd * a == 4 * d * d * a) by (nonlinear_arith)
                requires dd == d * d;
            4 * dd * a < u * u
        }
    }
}

/// `(sx-px)^2 + (sy-py)^2 - weight^2`.
#[derive(Debug, Copy, Clone, PartialEq, Eq, Structural)]
pub struct PowerEuclidean;

impl Metric for PowerEuclidean {
    open spec fn admits(weight: int) -> bool {
        true
    }

    open spec fn closer(a: PlainSite, b: PlainSite, p: GridIdx) -> bool {
        sq_dist(a, p) - a.2 * a.2 < sq_dist(b, p) - b.2 * b.2
    }

    proof fn lemma_strict_order(a: PlainSite, b: PlainSite, c: PlainSite, p: GridIdx) {
    }

    fn compare_distances(a: &PlainSite, b: &PlainSite, p: &GridIdx) -> (r: Ordering) {
        let qa = Euclidean::magnitude(a, p);
        let qb = Euclidean::magnitude(b, p);
        let wa = a.2 as i128;
        let wb = b.2 as i128;
        assert(0 <= wa * wa <= 0x4000_0000_0000_0000) by (nonlinear_arith)
            requires -0x8000_0000 <= wa <= 0x7fff_ffff;
        assert(0 <= wb * wb <= 0x4000_0000_0000_0000) by (nonlinear_arith)
            requires -0x8000_0000 <= wb <= 0x7fff_ffff;
        order(qa - wa * wa, qb - wb * wb)
    }
}

/// `|sx-px| + |sy-py|`.
#[derive(Debug, Copy, Clone, PartialEq, Eq, Structural)]
pub struct Manhattan;

impl Manhattan {
    /// The Manhattan distance from a site to a point.
    pub fn distance(a: &PlainSite, b: &GridIdx) -> (r: i128)
        ensures
            r == manhattan(*a, *b),
    {
        let dx = a.0 as i128 - b.0 as i128;
        let dy = a.1 as i128 - b.1 as i128;
        let mag_x = if dx < 0 { -dx } else { dx };
        let mag_y = if dy < 0 { -dy } else { dy };
        mag_x + mag_y
    }
}

impl Metric for Manhattan {
    open spec fn admits(weight: int) -> bool {
        true
    }

    open spec fn closer(a: PlainSite, b: PlainSite, p: GridIdx) -> bool {
        manhattan(a, p) < manhattan(b, p)
    }

    proof fn lemma_strict_order(a: PlainSite, b: PlainSite, c: PlainSite, p: GridIdx) {
    }

    fn compare_distances(a: &PlainSite, b: &PlainSite, p: &GridIdx) -> (r: Ordering) {
        order(Manhattan::distance(a, p), Manhattan::distance(b, p))
    }
}

} // verus!
