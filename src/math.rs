//! Linear and bilinear interpolation on fixed-point decimal quantities.
use vstd::prelude::*;
use vstd::arithmetic::div_mod::*;

verus! {

/// Number of units of a quantity in one whole: nine fraction digits.
pub const SCALE: i64 = 1_000_000_000;

/// Largest magnitude, in units, that a quantity may have.
pub const MAX_MAGNITUDE: i64 = 999_999_999_999_999_999;

/// A quantity lies in the range that every operation of the library accepts.
pub open spec fn in_bounds(v: int) -> bool {
    -MAX_MAGNITUDE <= v <= MAX_MAGNITUDE
}

/// A known value `.1` at a coordinate `.0`.
#[derive(Debug, Clone, Copy)]
pub struct Point2(pub i64, pub i64);

/// A known value `.2` at the coordinates `(.0, .1)`.
#[derive(Debug, Clone, Copy)]
pub struct Point3(pub i64, pub i64, pub i64);

/// Two-point linear interpolation `y0 + (x - x0) * (y1 - y0) / (x1 - x0)`, the
/// quotient rounded down (toward negative infinity).
pub open spec fn lerp(x: int, x0: int, y0: int, x1: int, y1: int) -> int {
    if x0 < x1 {
        y0 + ((x - x0) * (y1 - y0)) / (x1 - x0)
    } else {
        y0 + ((x0 - x) * (y1 - y0)) / (x0 - x1)
    }
}

/// Interpolation along the second axis at both first-axis values, then along
/// the first axis between the two intermediate values.
pub open spec fn bilerp(
    x: int,
    y: int,
    p00: (int, int, int),
    p01: (int, int, int),
    p10: (int, int, int),
    p11: (int, int, int),
) -> int {
    let v0 = lerp(y, p00.1, p00.2, p01.1, p01.2);
    let v1 = lerp(y, p10.1, p10.2, p11.1, p11.2);
    lerp(x, p00.0, v0, p10.0, v1)
}

pub open spec fn between(x: int, a: int, b: int) -> bool {
    (a <= x <= b) || (b <= x <= a)
}

/// At the first coordinate the interpolation gives the first value exactly.
pub proof fn lemma_lerp_at_start(x0: int, y0: int, x1: int, y1: int)
    requires
        x0 != x1,
    ensures
        lerp(x0, x0, y0, x1, y1) == y0,
{
}

/// At the second coordinate the interpolation gives the second value exactly.
pub proof fn lemma_lerp_at_end(x0: int, y0: int, x1: int, y1: int)
    requires
        x0 != x1,
    ensures
        lerp(x1, x0, y0, x1, y1) == y1,
{
    if x0 < x1 {
        lemma_div_multiples_vanish(y1 - y0, x1 - x0);
        assert((x1 - x0) * (y1 - y0) == (y1 - y0) * (x1 - x0)) by (nonlinear_arith);
    } else {
        lemma_div_multiples_vanish(y1 - y0, x0 - x1);
        assert((x0 - x1) * (y1 - y0) == (y1 - y0) * (x0 - x1)) by (nonlinear_arith);
    }
}

/// Between its two coordinates the interpolation stays between its two values.
pub proof fn lemma_lerp_between(x: int, x0: int, y0: int, x1: int, y1: int)
    requires
        x0 != x1,
        between(x, x0, x1),
    ensures
        between(lerp(x, x0, y0, x1, y1), y0, y1),
{
    let (n, d) = if x0 < x1 { (x - x0, x1 - x0) } else { (x0 - x, x0 - x1) };
    assert(0 <= n <= d);
    let q = (n * (y1 - y0)) / d;
    assert(q == lerp(x, x0, y0, x1, y1) - y0);
    if y1 >= y0 {
        assert(0 <= n * (y1 - y0) <= d * (y1 - y0)) by (nonlinear_arith)
            requires 0 <= n <= d, y1 >= y0;
        lemma_div_is_ordered(0, n * (y1 - y0), d);
        lemma_div_is_ordered(n * (y1 - y0), d * (y1 - y0), d);
        lemma_div_multiples_vanish(y1 - y0, d);
        assert(d * (y1 - y0) == (y1 - y0) * d) by (nonlinear_arith);
    } else {
        assert(d * (y1 - y0) <= n * (y1 - y0) <= 0) by (nonlinear_arith)
            requires 0 <= n <= d, y1 < y0;
        lemma_div_is_ordered(n * (y1 - y0), 0, d);
        lemma_div_is_ordered(d * (y1 - y0), n * (y1 - y0), d);
        lemma_div_multiples_vanish(y1 - y0, d);
        assert(d * (y1 - y0) == (y1 - y0) * d) by (nonlinear_arith);
    }
}

/// As the coordinate sweeps from the first tabulated coordinate toward the
/// second, the interpolated value never moves against the direction from the
/// first value to the second.
pub proof fn lemma_lerp_monotone(x: int, x_next: int, x0: int, y0: int, x1: int, y1: int)
    requires
        x0 < x1,
        x0 <= x <= x_next <= x1,
    ensures
        y0 <= y1 ==> lerp(x, x0, y0, x1, y1) <= lerp(x_next, x0, y0, x1, y1),
        y1 <= y0 ==> lerp(x_next, x0, y0, x1, y1) <= lerp(x, x0, y0, x1, y1),
{
    let d = x1 - x0;
    if y0 <= y1 {
        assert((x - x0) * (y1 - y0) <= (x_next - x0) * (y1 - y0)) by (nonlinear_arith)
            requires x <= x_next, y0 <= y1;
        lemma_div_is_ordered((x - x0) * (y1 - y0), (x_next - x0) * (y1 - y0), d);
    }
    if y1 <= y0 {
        assert((x_next - x0) * (y1 - y0) <= (x - x0) * (y1 - y0)) by (nonlinear_arith)
            requires x <= x_next, y1 <= y0;
        lemma_div_is_ordered((x_next - x0) * (y1 - y0), (x - x0) * (y1 - y0), d);
    }
}

/// Bilinear interpolation at a corner of the cell gives that corner's value
/// exactly.
pub proof fn lemma_bilerp_at_corners(
    p00: (int, int, int),
    p01: (int, int, int),
    p10: (int, int, int),
    p11: (int, int, int),
)
    requires
        p00.0 == p01.0,
        p10.0 == p11.0,
        p00.1 == p10.1,
        p01.1 == p11.1,
        p00.0 != p10.0,
        p00.1 != p01.1,
    ensures
        bilerp(p00.0, p00.1, p00, p01, p10, p11) == p00.2,
        bilerp(p01.0, p01.1, p00, p01, p10, p11) == p01.2,
        bilerp(p10.0, p10.1, p00, p01, p10, p11) == p10.2,
        bilerp(p11.0, p11.1, p00, p01, p10, p11) == p11.2,
{
    lemma_lerp_at_start(p00.1, p00.2, p01.1, p01.2);
    lemma_lerp_at_start(p10.1, p10.2, p11.1, p11.2);
    lemma_lerp_at_end(p00.1, p00.2, p01.1, p01.2);
    lemma_lerp_at_end(p10.1, p10.2, p11.1, p11.2);
    lemma_lerp_at_start(p00.0, p00.2, p10.0, p10.2);
    lemma_lerp_at_end(p00.0, p00.2, p10.0, p10.2);
    lemma_lerp_at_start(p00.0, p01.2, p10.0, p11.2);
    lemma_lerp_at_end(p00.0, p01.2, p10.0, p11.2);
}

/// Floor of `n / d` for a positive `d`.
fn floor_div(n: i128, d: i128) -> (q: i128)
    requires
        0 < d < 0x4000_0000_0000_0000_0000_0000_0000_0000,
        -0x4000_0000_0000_0000_0000_0000_0000_0000 < n < 0x4000_0000_0000_0000_0000_0000_0000_0000,
    ensures
        q == n / d,
{
    if n >= 0 {
        n / d
    } else {
        let m: i128 = -n;
        let q: i128 = (m + d - 1) / d;
        proof {
            let mi = m as int;
            let di = d as int;
            let ni = n as int;
            lemma_fundamental_div_mod(mi + di - 1, di);
            lemma_fundamental_div_mod(ni, di);
            let a = (mi + di - 1) / di;
            let b = ni / di;
            let ra = (mi + di - 1) % di;
            let rb = ni % di;
            assert(di * a + ra == mi + di - 1);
            assert(di * b + rb == ni);
            assert(di * (a + b) == di - 1 - ra - rb) by (nonlinear_arith)
                requires di * a + ra == mi + di - 1, di * b + rb == ni, mi == -ni;
            assert(a + b == 0) by (nonlinear_arith)
                requires
                    di * (a + b) == di - 1 - ra - rb,
                    0 <= ra < di,
                    0 <= rb < di,
                    di > 0,
            ;
        }
        -q
    }
}

/// Linear interpolation at `x` between two known points.
pub fn linear_interpolate(x: i64, point0: Point2, point1: Point2) -> (y: i64)
    requires
        point0.0 != point1.0,
        in_bounds(x as int),
        in_bounds(point0.0 as int),
        in_bounds(point0.1 as int),
        in_bounds(point1.0 as int),
        in_bounds(point1.1 as int),
        in_bounds(lerp(x as int, point0.0 as int, point0.1 as int, point1.0 as int, point1.1 as int)),
    ensures
        y == lerp(x as int, point0.0 as int, point0.1 as int, point1.0 as int, point1.1 as int),
{
    let (n, d) = if point0.0 < point1.0 {
        ((x as i128) - (point0.0 as i128), (point1.0 as i128) - (point0.0 as i128))
    } else {
        ((point0.0 as i128) - (x as i128), (point0.0 as i128) - (point1.0 as i128))
    };
    let dy: i128 = (point1.1 as i128) - (point0.1 as i128);
    proof {
        let b: int = 2 * MAX_MAGNITUDE;
        assert(-b <= n <= b && -b <= dy <= b);
        assert(-b * b <= n * dy <= b * b) by (nonlinear_arith)
            requires -b <= n <= b, -b <= dy <= b, b >= 0;
    }
    let q = floor_div(n * dy, d);
    (point0.1 as i128 + q) as i64
}

/// Bilinear interpolation at `(x, y)` over a cell whose corners are given by
/// their first-axis and second-axis buckets (`point_a_b`, 0 lower, 1 upper).
pub fn double_linear_interpolate(
    x: i64,
    y: i64,
    point_0_0: Point3,
    point_0_1: Point3,
    point_1_0: Point3,
    point_1_1: Point3,
) -> (u: i64)
    requires
        point_0_0.1 != point_0_1.1,
        point_1_0.1 != point_1_1.1,
        point_0_0.0 != point_1_0.0,
        in_bounds(x as int),
        in_bounds(y as int),
        in_bounds(point_0_0.0 as int), in_bounds(point_0_0.1 as int), in_bounds(point_0_0.2 as int),
        in_bounds(point_0_1.0 as int), in_bounds(point_0_1.1 as int), in_bounds(point_0_1.2 as int),
        in_bounds(point_1_0.0 as int), in_bounds(point_1_0.1 as int), in_bounds(point_1_0.2 as int),
        in_bounds(point_1_1.0 as int), in_bounds(point_1_1.1 as int), in_bounds(point_1_1.2 as int),
        in_bounds(lerp(y as int, point_0_0.1 as int, point_0_0.2 as int, point_0_1.1 as int, point_0_1.2 as int)),
        in_bounds(lerp(y as int, point_1_0.1 as int, point_1_0.2 as int, point_1_1.1 as int, point_1_1.2 as int)),
        in_bounds(bilerp(x as int, y as int, point3_view(point_0_0), point3_view(point_0_1),
            point3_view(point_1_0), point3_view(point_1_1))),
    ensures
        u == bilerp(x as int, y as int, point3_view(point_0_0), point3_view(point_0_1),
            point3_view(point_1_0), point3_view(point_1_1)),
{
    let point_0_y_value = linear_interpolate(
        y,
        Point2(point_0_0.1, point_0_0.2),
        Point2(point_0_1.1, point_0_1.2),
    );
    let point_1_y_value = linear_interpolate(
        y,
        Point2(point_1_0.1, point_1_0.2),
        Point2(point_1_1.1, point_1_1.2),
    );
    linear_interpolate(x, Point2(point_0_0.0, point_0_y_value), Point2(point_1_0.0, point_1_y_value))
}

pub open spec fn point3_view(p: Point3) -> (int, int, int) {
    (p.0 as int, p.1 as int, p.2 as int)
}

} // verus!
