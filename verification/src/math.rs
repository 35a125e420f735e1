use vstd::prelude::*;

use vstd::arithmetic::div_mod::{
    lemma_basic_div, lemma_div_is_ordered, lemma_fundamental_div_mod_converse,
};

use crate::geometry::{Line, Point, Triangle};

verus! {

/// Quotient `n / d` rounded to the nearest integer, halves away from zero.
/// Total in `d` for uniformity, but only meaningful for `d >= 1`.
pub open spec fn round_away(n: int, d: int) -> int {
    if n >= 0 {
        (2 * n + d) / (2 * d)
    } else {
        -((2 * (-n) + d) / (2 * d))
    }
}

/// Rounding to nearest is an odd function: negating the numerator
/// negates the result.
pub proof fn lemma_round_away_neg(n: int, d: int)
    requires
        d >= 1,
    ensures
        round_away(-n, d) == -round_away(n, d),
{
    if n == 0 {
        lemma_basic_div(d, 2 * d);
    }
}

/// A quotient bracketed between `lo` and `hi` stays bracketed after
/// rounding to the nearest integer.
pub proof fn lemma_round_away_bounds(n: int, d: int, lo: int, hi: int)
    requires
        d >= 1,
        lo * d <= n,
        n <= hi * d,
    ensures
        lo <= round_away(n, d),
        round_away(n, d) <= hi,
    decreases (if n < 0 { 1int } else { 0int }),
{
    if n >= 0 {
        let q = (2 * n + d) / (2 * d);
        assert(hi >= 0) by (nonlinear_arith)
            requires d >= 1 && n >= 0 && n <= hi * d;
        // upper bound: 2n + d <= (2d)*hi + d, whose quotient by 2d is hi
        assert(2 * n + d <= (2 * d) * hi + d) by (nonlinear_arith)
            requires n <= hi * d;
        lemma_fundamental_div_mod_converse((2 * d) * hi + d, 2 * d, hi, d);
        lemma_div_is_ordered(2 * n + d, (2 * d) * hi + d, 2 * d);
        // lower bound: (2d)*lo + d <= 2n + d, whose quotient by 2d is lo
        assert((2 * d) * lo + d <= 2 * n + d) by (nonlinear_arith)
            requires lo * d <= n;
        lemma_fundamental_div_mod_converse((2 * d) * lo + d, 2 * d, lo, d);
        lemma_div_is_ordered((2 * d) * lo + d, 2 * n + d, 2 * d);
    } else {
        assert((-hi) * d <= -n <= (-lo) * d) by (nonlinear_arith)
            requires lo * d <= n && n <= hi * d;
        lemma_round_away_bounds(-n, d, -hi, -lo);
        lemma_round_away_neg(-n, d);
    }
}

/// Executable rounding division; the wide bounds leave headroom for every
/// caller in this crate (coordinates and trigonometric products).
pub fn round_away128(n: i128, d: i128) -> (r: i128)
    requires
        1 <= d <= 0x1000_0000_0000_0000_0000_0000_0000_0000,
        -0x1000_0000_0000_0000_0000_0000_0000_0000 <= n <= 0x1000_0000_0000_0000_0000_0000_0000_0000,
    ensures
        r == round_away(n as int, d as int),
{
    let nn: u128 = if n >= 0 {
        n as u128
    } else {
        (-n) as u128
    };
    let q: u128 = (2 * nn + (d as u128)) / (2 * (d as u128));
    proof {
        let ni = nn as int;
        let di = d as int;
        assert(2 * ni + di <= (2 * di) * (ni + 1)) by (nonlinear_arith)
            requires di >= 1 && ni >= 0;
        lemma_fundamental_div_mod_converse((2 * di) * (ni + 1), 2 * di, ni + 1, 0);
        lemma_div_is_ordered(2 * ni + di, (2 * di) * (ni + 1), 2 * di);
        assert(q <= ni + 1);
    }
    if n >= 0 {
        q as i128
    } else {
        -(q as i128)
    }
}

/// Clamp a mathematical integer into the `i32` range.
pub open spec fn sat32(v: int) -> i32 {
    if v < i32::MIN {
        i32::MIN
    } else if v > i32::MAX {
        i32::MAX
    } else {
        v as i32
    }
}

/// Saturating addition of a bounded offset to an `i32` coordinate.
pub fn sat_add_i32(a: i32, b: i64) -> (r: i32)
    requires
        -0x100_0000_0000 <= b <= 0x100_0000_0000,
    ensures
        r == sat32(a + b),
{
    let s: i64 = a as i64 + b;
    if s < i32::MIN as i64 {
        i32::MIN
    } else if s > i32::MAX as i64 {
        i32::MAX
    } else {
        s as i32
    }
}

pub open spec fn abs_int(v: int) -> int {
    if v < 0 {
        -v
    } else {
        v
    }
}

pub open spec fn max_int(a: int, b: int) -> int {
    if a >= b {
        a
    } else {
        b
    }
}

pub open spec fn min_int(a: int, b: int) -> int {
    if a <= b {
        a
    } else {
        b
    }
}

/// Chebyshev length of a segment: whichever of |dx| and |dy| is longer.
pub open spec fn spec_diagonal_distance(from: Point, to: Point) -> int {
    max_int(abs_int(to.x - from.x), abs_int(to.y - from.y))
}

/// Get either width or height of the segment's bounding box, depending on
/// which is longer.
pub fn diagonal_distance(from: Point, to: Point) -> (r: u32)
    ensures
        r == spec_diagonal_distance(from, to),
{
    let dx: i64 = to.x as i64 - from.x as i64;
    let dy: i64 = to.y as i64 - from.y as i64;
    let ax: i64 = if dx < 0 {
        -dx
    } else {
        dx
    };
    let ay: i64 = if dy < 0 {
        -dy
    } else {
        dy
    };
    if ax >= ay {
        ax as u32
    } else {
        ay as u32
    }
}

/// The magnitude of a product is bounded by the product of the magnitudes.
pub proof fn lemma_product_bound(a: int, b: int, m: int)
    requires
        0 <= m,
        -m <= a <= m,
        -m <= b <= m,
    ensures
        -(m * m) <= a * b <= m * m,
{
    assert(-(m * m) <= a * b <= m * m) by (nonlinear_arith)
        requires 0 <= m && -m <= a <= m && -m <= b <= m;
}

/// The magnitude of a product is bounded by the product of the bounds on
/// each factor.
pub proof fn lemma_mul_bounds(a: int, b: int, ma: int, mb: int)
    requires
        0 <= ma,
        0 <= mb,
        -ma <= a <= ma,
        -mb <= b <= mb,
    ensures
        -(ma * mb) <= a * b <= ma * mb,
{
    assert(-(ma * mb) <= a * b <= ma * mb) by (nonlinear_arith)
        requires 0 <= ma && 0 <= mb && -ma <= a <= ma && -mb <= b <= mb;
}

/// The two-dimensional cross product that `side_of_the_plane` classifies:
/// its sign says on which side of the directed line `a -> b` the point lies.
pub open spec fn spec_cross(p: Point, a: Point, b: Point) -> int {
    (p.x - b.x) * (a.y - b.y) - (a.x - b.x) * (p.y - b.y)
}

pub open spec fn spec_side(p: Point, l: Line) -> bool {
    spec_cross(p, l.a, l.b) >= 0
}

/// A point is inside the triangle iff it is on the same side of all three
/// half planes defined by the directed edges a->b, b->c and c->a. The test
/// uses "is non-negative", so points exactly on an edge count as inside.
pub open spec fn spec_in_triangle(p: Point, t: Triangle) -> bool {
    let s1 = spec_side(p, Line { a: t.a, b: t.b });
    let s2 = spec_side(p, Line { a: t.b, b: t.c });
    let s3 = spec_side(p, Line { a: t.c, b: t.a });
    (s1 && s2 && s3) || (!s1 && !s2 && !s3)
}

fn side_of_the_plane(point: Point, line: Line) -> (r: bool)
    ensures
        r == spec_side(point, line),
{
    let Line { a, b } = line;
    let px: i128 = point.x as i128 - b.x as i128;
    let ay: i128 = a.y as i128 - b.y as i128;
    let ax: i128 = a.x as i128 - b.x as i128;
    let py: i128 = point.y as i128 - b.y as i128;
    proof {
        lemma_product_bound(px as int, ay as int, 0x1_0000_0000);
        lemma_product_bound(ax as int, py as int, 0x1_0000_0000);
    }
    let c: i128 = px * ay - ax * py;
    c >= 0
}

/// Determine if point is within the triangle: on the same side of each of
/// the half planes defined by the edges (boundary-inclusive).
pub fn point_is_in_triangle(point: Point, triangle: &Triangle) -> (r: bool)
    ensures
        r == spec_in_triangle(point, *triangle),
{
    let Triangle { a, b, c } = *triangle;
    let side1 = side_of_the_plane(point, Line { a, b });
    let side2 = side_of_the_plane(point, Line { a: b, b: c });
    let side3 = side_of_the_plane(point, Line { a: c, b: a });
    side1 && side2 && side3 || !side1 && !side2 && !side3
}

} // verus!
