use vstd::prelude::*;

use crate::grid::GridIdx;
use crate::metric::{sq_dist, sqrt_lt};
use crate::site::PlainSite;

verus! {

/// Cross-multiplied comparisons with positive denominators are transitive.
pub proof fn lemma_cross_transitive(xa: int, xb: int, xc: int, a: int, b: int, c: int)
    requires
        a > 0,
        b > 0,
        c > 0,
        xa * b < xb * a,
        xb * c < xc * b,
    ensures
        xa * c < xc * a,
{
    assert(xa * b * c < xb * a * c) by (nonlinear_arith)
        requires xa * b < xb * a, c > 0;
    assert(xb * c * a < xc * b * a) by (nonlinear_arith)
        requires xb * c < xc * b, a > 0;
    assert(xa * c * b < xc * a * b) by (nonlinear_arith)
        requires xa * b * c < xb * a * c, xb * c * a < xc * b * a;
    assert(xa * c < xc * a) by (nonlinear_arith)
        requires xa * c * b < xc * a * b, b > 0;
}

pub proof fn lemma_sq_dist_nonneg(a: PlainSite, p: GridIdx)
    ensures
        sq_dist(a, p) >= 0,
{
    let dx = a.0 - p.0;
    let dy = a.1 - p.1;
    assert(dx * dx + dy * dy >= 0) by (nonlinear_arith);
}

/// `sqrt_lt` with real operands.
pub open spec fn sqrt_lt_real(a: real, b: real, d: real) -> bool {
    if d >= 0real {
        a - b - d * d < 0real || (a - b - d * d) * (a - b - d * d) < 4real * d * d * b
    } else {
        b - a - d * d > 0real && 4real * d * d * a < (b - a - d * d) * (b - a - d * d)
    }
}

proof fn lemma_sqrt_lt_pp(a: real, b: real, c: real, d1: real, d2: real)
    requires a >= 0real, b >= 0real, c >= 0real, d1 >= 0real, d2 >= 0real,
        a - b - d1 * d1 < 0real || (a - b - d1 * d1) * (a - b - d1 * d1) < 4real * d1 * d1 * b,
        b - c - d2 * d2 < 0real || (b - c - d2 * d2) * (b - c - d2 * d2) < 4real * d2 * d2 * c,
    ensures sqrt_lt_real(a, c, d1 + d2),
{
    assert(sqrt_lt_real(a, c, d1 + d2)) by (nonlinear_arith)
        requires a >= 0real, b >= 0real, c >= 0real, d1 >= 0real, d2 >= 0real,
        a - b - d1 * d1 < 0real || (a - b - d1 * d1) * (a - b - d1 * d1) < 4real * d1 * d1 * b,
        b - c - d2 * d2 < 0real || (b - c - d2 * d2) * (b - c - d2 * d2) < 4real * d2 * d2 * c;
}

proof fn lemma_sqrt_lt_pn(a: real, b: real, c: real, d1: real, d2: real)
    requires a >= 0real, b >= 0real, c >= 0real, d1 >= 0real, d2 < 0real,
        a - b - d1 * d1 < 0real || (a - b - d1 * d1) * (a - b - d1 * d1) < 4real * d1 * d1 * b,
        c - b - d2 * d2 > 0real && 4real * d2 * d2 * b < (c - b - d2 * d2) * (c - b - d2 * d2),
    ensures sqrt_lt_real(a, c, d1 + d2),
{
    assert(sqrt_lt_real(a, c, d1 + d2)) by (nonlinear_arith)
        requires a >= 0real, b >= 0real, c >= 0real, d1 >= 0real, d2 < 0real,
        a - b - d1 * d1 < 0real || (a - b - d1 * d1) * (a - b - d1 * d1) < 4real * d1 * d1 * b,
        c - b - d2 * d2 > 0real && 4real * d2 * d2 * b < (c - b - d2 * d2) * (c - b - d2 * d2),;
}

proof fn lemma_sqrt_lt_np(a: real, b: real, c: real, d1: real, d2: real)
    requires a >= 0real, b >= 0real, c >= 0real, d1 < 0real, d2 >= 0real,
        b - a - d1 * d1 > 0real && 4real * d1 * d1 * a < (b - a - d1 * d1) * (b - a - d1 * d1),
        b - c - d2 * d2 < 0real || (b - c - d2 * d2) * (b - c - d2 * d2) < 4real * d2 * d2 * c,
    ensures sqrt_lt_real(a, c, d1 + d2),
{
    assert(sqrt_lt_real(a, c, d1 + d2)) by (nonlinear_arith)
        requires a >= 0real, b >= 0real, c >= 0real, d1 < 0real, d2 >= 0real,
        b - a - d1 * d1 > 0real && 4real * d1 * d1 * a < (b - a - d1 * d1) * (b - a - d1 * d1),
        b - c - d2 * d2 < 0real || (b - c - d2 * d2) * (b - c - d2 * d2) < 4real * d2 * d2 * c,;
}

proof fn lemma_sqrt_lt_nn(a: real, b: real, c: real, d1: real, d2: real)
    requires a >= 0real, b >= 0real, c >= 0real, d1 < 0real, d2 < 0real,
        b - a - d1 * d1 > 0real && 4real * d1 * d1 * a < (b - a - d1 * d1) * (b - a - d1 * d1),
        c - b - d2 * d2 > 0real && 4real * d2 * d2 * b < (c - b - d2 * d2) * (c - b - d2 * d2),
    ensures sqrt_lt_real(a, c, d1 + d2),
{
    assert(sqrt_lt_real(a, c, d1 + d2)) by (nonlinear_arith)
        requires a >= 0real, b >= 0real, c >= 0real, d1 < 0real, d2 < 0real,
        b - a - d1 * d1 > 0real && 4real * d1 * d1 * a < (b - a - d1 * d1) * (b - a - d1 * d1),
        c - b - d2 * d2 > 0real && 4real * d2 * d2 * b < (c - b - d2 * d2) * (c - b - d2 * d2),;
}

/// Transitivity of `sqrt_lt_real`, by the signs of the two shifts.
proof fn lemma_sqrt_lt_real_transitive(a: real, b: real, c: real, d1: real, d2: real)
    requires
        a >= 0real,
        b >= 0real,
        c >= 0real,
        sqrt_lt_real(a, b, d1),
        sqrt_lt_real(b, c, d2),
    ensures
        sqrt_lt_real(a, c, d1 + d2),
{
    if d1 >= 0real {
        if d2 >= 0real { lemma_sqrt_lt_pp(a, b, c, d1, d2); } else { lemma_sqrt_lt_pn(a, b, c, d1, d2); }
    } else {
        if d2 >= 0real { lemma_sqrt_lt_np(a, b, c, d1, d2); } else { lemma_sqrt_lt_nn(a, b, c, d1, d2); }
    }
}

proof fn lemma_cast_mul(x: int, y: int)
    ensures
        (x * y) as real == (x as real) * (y as real),
{
    assert((x * y) as real == (x as real) * (y as real)) by (nonlinear_arith);
}

/// `sqrt_lt` on integers agrees with its real counterpart.
proof fn lemma_sqrt_lt_as_real(a: int, b: int, d: int)
    ensures
        sqrt_lt(a, b, d) == sqrt_lt_real(a as real, b as real, d as real),
{
    let t = a - b - d * d;
    let u = b - a - d * d;
    lemma_cast_mul(d, d);
    let (ar, br, dr) = (a as real, b as real, d as real);
    assert(t as real == ar - br - dr * dr);
    assert(u as real == br - ar - dr * dr);
    lemma_cast_mul(t, t);
    lemma_cast_mul(u, u);
    lemma_cast_mul(4, d);
    lemma_cast_mul(4 * d, d);
    lemma_cast_mul(4 * d * d, b);
    lemma_cast_mul(4 * d * d, a);
    assert((4 * d * d * b) as real == 4real * dr * dr * br);
    assert((4 * d * d * a) as real == 4real * dr * dr * ar);
    assert((d >= 0) == (dr >= 0real));
}

/// `sqrt(a) < sqrt(b) + d1` and `sqrt(b) < sqrt(c) + d2` give `sqrt(a) < sqrt(c) + d1 + d2`.
pub proof fn lemma_sqrt_lt_transitive(a: int, b: int, c: int, d1: int, d2: int)
    requires
        a >= 0,
        b >= 0,
        c >= 0,
        sqrt_lt(a, b, d1),
        sqrt_lt(b, c, d2),
    ensures
        sqrt_lt(a, c, d1 + d2),
{
    lemma_sqrt_lt_as_real(a, b, d1);
    lemma_sqrt_lt_as_real(b, c, d2);
    lemma_sqrt_lt_as_real(a, c, d1 + d2);
    assert((d1 + d2) as real == d1 as real + d2 as real);
    lemma_sqrt_lt_real_transitive(a as real, b as real, c as real, d1 as real, d2 as real);
}

pub proof fn lemma_sqrt_lt_irreflexive(a: int)
    ensures
        !sqrt_lt(a, a, 0),
{
    let d: int = 0;
    let z = a - a - d * d;
    assert(z == 0) by (nonlinear_arith) requires d == 0, z == a - a - d * d;
    assert(z * z == 0) by (nonlinear_arith) requires z == 0;
    assert(4 * d * d * a == 0) by (nonlinear_arith) requires d == 0;
}

} // verus!
