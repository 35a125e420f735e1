use vstd::prelude::*;

use vstd::arithmetic::div_mod::{lemma_fundamental_div_mod, lemma_fundamental_div_mod_converse};

use crate::math::{
    abs_int, lemma_mul_bounds, lemma_product_bound, lemma_round_away_bounds, max_int, min_int, round_away,
    round_away128, sat32, sat_add_i32, spec_diagonal_distance, spec_in_triangle,
    diagonal_distance, point_is_in_triangle,
};

verus! {

/// A lattice point. All geometry in this crate is over integer pixel
/// coordinates.
#[derive(Clone, Copy, Debug, PartialEq, Eq, Structural, Hash)]
pub struct Point {
    pub x: i32,
    pub y: i32,
}

impl Point {
    pub fn new(x: i32, y: i32) -> (r: Point)
        ensures
            r == (Point { x, y }),
    {
        Point { x, y }
    }
}

#[derive(Clone, Copy, Debug, PartialEq, Eq, Structural)]
pub struct Size {
    pub width: u32,
    pub height: u32,
}

impl Size {
    pub fn new(width: u32, height: u32) -> (r: Size)
        ensures
            r == (Size { width, height }),
    {
        Size { width, height }
    }

    pub fn area(self) -> (r: u32)
        requires
            self.width * self.height <= u32::MAX,
        ensures
            r == self.width * self.height,
    {
        self.width * self.height
    }
}

/// A segment between two lattice points.
#[derive(Clone, Copy, Debug, PartialEq, Eq, Structural)]
pub struct Line {
    pub a: Point,
    pub b: Point,
}

/// One coordinate of a sampled segment point: start plus the rounded
/// fraction `num / den` of the way towards the end.
pub open spec fn interp_coord(s: int, e: int, num: int, den: int) -> int {
    s + round_away((e - s) * num, den)
}

pub open spec fn seg_point(a: Point, b: Point, num: int, den: int) -> Point {
    Point {
        x: interp_coord(a.x as int, b.x as int, num, den) as i32,
        y: interp_coord(a.y as int, b.y as int, num, den) as i32,
    }
}

/// The digital line from `a` to `b`: one rounded point per unit of
/// progress, both endpoints included. A degenerate segment yields its
/// single point.
pub open spec fn solid_points(a: Point, b: Point) -> Seq<Point> {
    let n: int = spec_diagonal_distance(a, b);
    if n == 0 {
        seq![a]
    } else {
        Seq::new((n + 1) as nat, |i: int| seg_point(a, b, i, n))
    }
}

/// The sparser digital line that advances `step` units of progress at a
/// time; the far endpoint is hit exactly when `step` divides the length.
pub open spec fn dotted_points(a: Point, b: Point, step: int) -> Seq<Point> {
    let n: int = spec_diagonal_distance(a, b);
    if n == 0 {
        seq![a]
    } else {
        Seq::new((n / step + 1) as nat, |i: int| seg_point(a, b, i * step, n))
    }
}

/// The unit-step sampling is exactly the solid line.
pub proof fn lemma_solid_is_unit_dotted(a: Point, b: Point)
    ensures
        solid_points(a, b) == dotted_points(a, b, 1),
{
    let n: int = spec_diagonal_distance(a, b);
    if n != 0 {
        assert(solid_points(a, b) =~= dotted_points(a, b, 1));
    }
}

/// An interpolated coordinate never leaves the interval spanned by the
/// two endpoints.
proof fn lemma_interp_in_range(s: int, e: int, num: int, den: int)
    requires
        den >= 1,
        0 <= num <= den,
    ensures
        min_int(s, e) <= interp_coord(s, e, num, den) <= max_int(s, e),
{
    let d: int = e - s;
    if d >= 0 {
        assert(0 <= d * num) by (nonlinear_arith)
            requires d >= 0 && num >= 0;
        assert(d * num <= d * den) by (nonlinear_arith)
            requires d >= 0 && num <= den;
        lemma_round_away_bounds(d * num, den, 0, d);
    } else {
        assert(d * den <= d * num) by (nonlinear_arith)
            requires d < 0 && num <= den;
        assert(d * num <= 0) by (nonlinear_arith)
            requires d < 0 && num >= 0;
        lemma_round_away_bounds(d * num, den, d, 0);
    }
}

/// Walk the segment in increments of `step` units of progress, rounding
/// each interpolated point to the nearest lattice point.
fn sample_segment(a: Point, b: Point, step: u32) -> (r: Vec<Point>)
    requires
        step >= 1,
    ensures
        r@ == dotted_points(a, b, step as int),
{
    let n: u32 = diagonal_distance(a, b);
    let mut r: Vec<Point> = Vec::new();
    if n == 0 {
        r.push(a);
        proof {
            assert(r@ =~= dotted_points(a, b, step as int));
        }
        return r;
    }
    let cnt: u64 = (n as u64) / (step as u64);
    let dx: i64 = b.x as i64 - a.x as i64;
    let dy: i64 = b.y as i64 - a.y as i64;
    let mut i: u64 = 0;
    while i <= cnt
        invariant
            step >= 1,
            1 <= n <= u32::MAX,
            n == spec_diagonal_distance(a, b),
            cnt == (n as int) / (step as int),
            dx == b.x - a.x,
            dy == b.y - a.y,
            i <= cnt + 1,
            r@.len() == i,
            forall|j: int|
                0 <= j < i ==> r@[j] == seg_point(a, b, j * (step as int), n as int),
        decreases cnt + 1 - i,
    {
        proof {
            lemma_fundamental_div_mod(n as int, step as int);
            assert((cnt as int) * (step as int) <= n) by (nonlinear_arith)
                requires
                    n == (step as int) * (cnt as int) + (n as int) % (step as int) && (n as int)
                        % (step as int) >= 0;
            assert((i as int) * (step as int) <= (cnt as int) * (step as int)) by (nonlinear_arith)
                requires i <= cnt && step >= 1;
        }
        let num: i64 = (i as i64) * (step as i64);
        proof {
            lemma_product_bound(dx as int, num as int, 0x1_0000_0000);
            lemma_product_bound(dy as int, num as int, 0x1_0000_0000);
            lemma_interp_in_range(a.x as int, b.x as int, num as int, n as int);
            lemma_interp_in_range(a.y as int, b.y as int, num as int, n as int);
        }
        let offx: i128 = round_away128((dx as i128) * (num as i128), n as i128);
        let offy: i128 = round_away128((dy as i128) * (num as i128), n as i128);
        let x: i32 = (a.x as i64 + offx as i64) as i32;
        let y: i32 = (a.y as i64 + offy as i64) as i32;
        r.push(Point { x, y });
        i = i + 1;
    }
    proof {
        assert(r@ =~= dotted_points(a, b, step as int));
    }
    r
}

impl Line {
    pub fn new(from: Point, to: Point) -> (r: Line)
        ensures
            r == (Line { a: from, b: to }),
    {
        Line { a: from, b: to }
    }

    /// Produce the finite ordered sequence of integer-rounded points
    /// approximating the segment, one per unit of progress along its
    /// longer axis, endpoints included.
    pub fn solid(&self) -> (r: Vec<Point>)
        ensures
            r@ == solid_points(self.a, self.b),
    {
        proof {
            lemma_solid_is_unit_dotted(self.a, self.b);
        }
        sample_segment(self.a, self.b, 1)
    }


    /// Orthogonal projection of `point` onto the infinite line through
    /// `a` and `b`, rounded to the nearest lattice point and clamped at
    /// the coordinate limits. When `a == b` the direction vector is
    /// zero-length and the division would be undefined: the defined
    /// fallback for that degenerate case is `a` itself.
    pub fn project(&self, point: Point) -> (r: Point)
        ensures
            r == spec_project(*self, point),
    {
        if self.a == self.b {
            return self.a;
        }
        let ux: i128 = point.x as i128 - self.a.x as i128;
        let uy: i128 = point.y as i128 - self.a.y as i128;
        let vx: i128 = self.b.x as i128 - self.a.x as i128;
        let vy: i128 = self.b.y as i128 - self.a.y as i128;
        proof {
            lemma_product_bound(ux as int, vx as int, 0x1_0000_0000);
            lemma_product_bound(uy as int, vy as int, 0x1_0000_0000);
            lemma_product_bound(vx as int, vx as int, 0x1_0000_0000);
            lemma_product_bound(vy as int, vy as int, 0x1_0000_0000);
        }
        let dot: i128 = ux * vx + uy * vy;
        let len2: i128 = vx * vx + vy * vy;
        proof {
            lemma_dot_le_len2(ux as int, uy as int, vx as int, vy as int);
            lemma_direction_dot_bound(ux as int, uy as int, vx as int, vy as int);
            lemma_direction_dot_bound(uy as int, ux as int, vy as int, vx as int);
            let m: int = abs_int(ux as int) + abs_int(uy as int);
            assert((-m) * (len2 as int) == -(m * (len2 as int))) by (nonlinear_arith);
            lemma_round_away_bounds((vx as int) * (dot as int), len2 as int, -m, m);
            lemma_round_away_bounds((vy as int) * (dot as int), len2 as int, -m, m);
            lemma_mul_bounds(vx as int, dot as int, 0x1_0000_0000, 0x2_0000_0000_0000_0000);
            lemma_mul_bounds(vy as int, dot as int, 0x1_0000_0000, 0x2_0000_0000_0000_0000);
        }
        let offx: i128 = round_away128(vx * dot, len2);
        let offy: i128 = round_away128(vy * dot, len2);
        Point {
            x: sat_add_i32(self.a.x, offx as i64),
            y: sat_add_i32(self.a.y, offy as i64),
        }
    }

    /// The non-negative fractional position along the segment of
    /// `point`'s projection, in millionths: sqrt(|a-proj|^2 / |a-b|^2)
    /// reduces exactly to |dot| / |a-b|^2. It is reported as a distance,
    /// so callers must not rely on a signed result for points whose
    /// projection lies behind `a`; a degenerate segment yields 0.
    pub fn interpolation_value(&self, point: Point) -> (r: u64)
        ensures
            r == spec_interpolation_value(*self, point),
    {
        if self.a == self.b {
            return 0;
        }
        let ux: i128 = point.x as i128 - self.a.x as i128;
        let uy: i128 = point.y as i128 - self.a.y as i128;
        let vx: i128 = self.b.x as i128 - self.a.x as i128;
        let vy: i128 = self.b.y as i128 - self.a.y as i128;
        proof {
            lemma_product_bound(ux as int, vx as int, 0x1_0000_0000);
            lemma_product_bound(uy as int, vy as int, 0x1_0000_0000);
            lemma_product_bound(vx as int, vx as int, 0x1_0000_0000);
            lemma_product_bound(vy as int, vy as int, 0x1_0000_0000);
        }
        let dot: i128 = ux * vx + uy * vy;
        let len2: i128 = vx * vx + vy * vy;
        let adot: i128 = if dot < 0 {
            -dot
        } else {
            dot
        };
        proof {
            lemma_dot_le_len2(ux as int, uy as int, vx as int, vy as int);
            let m: int = abs_int(ux as int) + abs_int(uy as int);
            assert((adot as int) * 1000000 <= (m * (len2 as int)) * 1000000) by (nonlinear_arith)
                requires adot <= m * len2 && len2 >= 0;
            assert((m * (len2 as int)) * 1000000 == (m * 1000000) * (len2 as int))
                by (nonlinear_arith);
            lemma_round_away_bounds((adot as int) * 1000000, len2 as int, 0, m * 1000000);
        }
        let scaled: i128 = adot * 1000000;
        round_away128(scaled, len2) as u64
    }

    /// Identical stepping logic, advancing `step` units of progress at a
    /// time, yielding a sparser point set.
    pub fn dotted(&self, step: u32) -> (r: Vec<Point>)
        requires
            step >= 1,
        ensures
            r@ == dotted_points(self.a, self.b, step as int),
    {
        sample_segment(self.a, self.b, step)
    }
}


/// The exact projection of `p` onto the line through `l.a` and `l.b`,
/// rounded to the nearest lattice point; `l.a` for a degenerate line.
pub open spec fn spec_project(l: Line, p: Point) -> Point {
    if l.a == l.b {
        l.a
    } else {
        let ux: int = p.x - l.a.x;
        let uy: int = p.y - l.a.y;
        let vx: int = l.b.x - l.a.x;
        let vy: int = l.b.y - l.a.y;
        let dot: int = ux * vx + uy * vy;
        let len2: int = vx * vx + vy * vy;
        Point {
            x: sat32(l.a.x + round_away(vx * dot, len2)),
            y: sat32(l.a.y + round_away(vy * dot, len2)),
        }
    }
}

/// The fraction |a - proj| / |a - b| of `p`'s projection along the
/// segment, in millionths; 0 for a degenerate segment.
pub open spec fn spec_interpolation_value(l: Line, p: Point) -> int {
    if l.a == l.b {
        0
    } else {
        let ux: int = p.x - l.a.x;
        let uy: int = p.y - l.a.y;
        let vx: int = l.b.x - l.a.x;
        let vy: int = l.b.y - l.a.y;
        let dot: int = ux * vx + uy * vy;
        let len2: int = vx * vx + vy * vy;
        round_away(abs_int(dot) * 1000000, len2)
    }
}

/// The per-axis projection offset is bounded by the taxicab length of
/// the vector from `a` to the projected point.
proof fn lemma_direction_dot_bound(ux: int, uy: int, vx: int, vy: int)
    ensures
        -((abs_int(ux) + abs_int(uy)) * (vx * vx + vy * vy)) <= vx * (ux * vx + uy * vy),
        vx * (ux * vx + uy * vy) <= (abs_int(ux) + abs_int(uy)) * (vx * vx + vy * vy),
{
    let ax: int = abs_int(ux);
    let ay: int = abs_int(uy);
    let len2: int = vx * vx + vy * vy;
    assert(vx * (ux * vx + uy * vy) == (vx * vx) * ux + (vx * vy) * uy) by (nonlinear_arith);
    assert((vx * vx) * ux <= len2 * ax && -(len2 * ax) <= (vx * vx) * ux) by (nonlinear_arith)
        requires len2 == vx * vx + vy * vy && -ax <= ux && ux <= ax;
    assert((vx * vy) * uy <= len2 * ay && -(len2 * ay) <= (vx * vy) * uy) by (nonlinear_arith)
        requires len2 == vx * vx + vy * vy && -ay <= uy && uy <= ay;
    assert(len2 * ax + len2 * ay == (ax + ay) * len2) by (nonlinear_arith);
    assert(-((ax + ay) * len2) == -(len2 * ax) + -(len2 * ay)) by (nonlinear_arith);
}

/// A dot product against a non-zero integer direction is at most the
/// taxicab length of the other vector times the squared direction length.
proof fn lemma_dot_le_len2(ux: int, uy: int, vx: int, vy: int)
    requires
        vx != 0 || vy != 0,
    ensures
        vx * vx + vy * vy >= 1,
        abs_int(ux * vx + uy * vy) <= (abs_int(ux) + abs_int(uy)) * (vx * vx + vy * vy),
{
    let ax: int = abs_int(ux);
    let ay: int = abs_int(uy);
    let len2: int = vx * vx + vy * vy;
    assert(len2 >= 1) by (nonlinear_arith)
        requires len2 == vx * vx + vy * vy && (vx != 0 || vy != 0);
    assert(ux * vx <= ax * len2 && -(ax * len2) <= ux * vx) by (nonlinear_arith)
        requires len2 == vx * vx + vy * vy && len2 >= 1 && -ax <= ux && ux <= ax;
    assert(uy * vy <= ay * len2 && -(ay * len2) <= uy * vy) by (nonlinear_arith)
        requires len2 == vx * vx + vy * vy && len2 >= 1 && -ay <= uy && uy <= ay;
    assert(ax * len2 + ay * len2 == (ax + ay) * len2) by (nonlinear_arith);
    assert(-((ax + ay) * len2) == -(ax * len2) + -(ay * len2)) by (nonlinear_arith);
}

/// Extrema of a non-empty point sequence, by structural recursion on the
/// last element.
pub open spec fn min_x_of(s: Seq<Point>) -> int
    decreases s.len(),
{
    if s.len() <= 1 {
        s[0].x as int
    } else {
        min_int(min_x_of(s.drop_last()), s.last().x as int)
    }
}

pub open spec fn max_x_of(s: Seq<Point>) -> int
    decreases s.len(),
{
    if s.len() <= 1 {
        s[0].x as int
    } else {
        max_int(max_x_of(s.drop_last()), s.last().x as int)
    }
}

pub open spec fn min_y_of(s: Seq<Point>) -> int
    decreases s.len(),
{
    if s.len() <= 1 {
        s[0].y as int
    } else {
        min_int(min_y_of(s.drop_last()), s.last().y as int)
    }
}

pub open spec fn max_y_of(s: Seq<Point>) -> int
    decreases s.len(),
{
    if s.len() <= 1 {
        s[0].y as int
    } else {
        max_int(max_y_of(s.drop_last()), s.last().y as int)
    }
}

/// Running extrema of a point set; `top` is the smallest y (screen
/// coordinates grow downwards).
#[derive(Clone, Copy, Debug, PartialEq, Eq, Structural)]
pub struct Bounds {
    pub top: i32,
    pub bottom: i32,
    pub left: i32,
    pub right: i32,
}

impl Bounds {
    /// The tightest bounds around a non-empty point set.
    pub fn wrap(points: &[Point]) -> (r: Bounds)
        requires
            points@.len() >= 1,
        ensures
            r.left == min_x_of(points@),
            r.right == max_x_of(points@),
            r.top == min_y_of(points@),
            r.bottom == max_y_of(points@),
    {
        let first: Point = points[0];
        let mut bounds: Bounds = Bounds {
            top: first.y,
            bottom: first.y,
            left: first.x,
            right: first.x,
        };
        let mut i: usize = 1;
        proof {
            assert(points@.take(1).drop_last() =~= Seq::<Point>::empty());
        }
        while i < points.len()
            invariant
                1 <= i <= points@.len(),
                bounds.left == min_x_of(points@.take(i as int)),
                bounds.right == max_x_of(points@.take(i as int)),
                bounds.top == min_y_of(points@.take(i as int)),
                bounds.bottom == max_y_of(points@.take(i as int)),
            decreases points@.len() - i,
        {
            proof {
                assert(points@.take(i as int + 1).drop_last() =~= points@.take(i as int));
            }
            bounds.wrap_point(points[i]);
            i = i + 1;
        }
        proof {
            assert(points@.take(points@.len() as int) =~= points@);
        }
        bounds
    }

    /// Widen the bounds just enough to cover one more point.
    pub fn wrap_point(&mut self, point: Point)
        ensures
            final(self).left == min_int(old(self).left as int, point.x as int),
            final(self).right == max_int(old(self).right as int, point.x as int),
            final(self).top == min_int(old(self).top as int, point.y as int),
            final(self).bottom == max_int(old(self).bottom as int, point.y as int),
    {
        let Point { x, y } = point;
        if x > self.right {
            self.right = x;
        }
        if x < self.left {
            self.left = x;
        }
        if y < self.top {
            self.top = y;
        }
        if y > self.bottom {
            self.bottom = y;
        }
    }
}

/// An axis-aligned rectangle: `origin` is the top-left corner.
#[derive(Clone, Copy, Debug, PartialEq, Eq, Structural)]
pub struct Rect {
    pub origin: Point,
    pub size: Size,
}

/// The bottom-right corner must be representable for the rectangle's
/// points to be enumerable.
pub open spec fn rect_in_range(r: Rect) -> bool {
    r.origin.x + r.size.width <= i32::MAX && r.origin.y + r.size.height <= i32::MAX
}

/// Every lattice point of the rectangle, inclusive of both edges, row by
/// row from the top, each row left to right.
pub open spec fn rect_points(r: Rect) -> Seq<Point> {
    let w: int = r.size.width + 1;
    Seq::new(
        (w * (r.size.height + 1)) as nat,
        |k: int|
            Point { x: (r.origin.x + k % w) as i32, y: (r.origin.y + k / w) as i32 },
    )
}

/// The four border segments, each drawn solid, in the order
/// top, right, bottom, left.
pub open spec fn rect_border_points(r: Rect) -> Seq<Point> {
    let tl: Point = r.origin;
    let tr: Point = (Point { x: (r.origin.x + r.size.width) as i32, y: r.origin.y });
    let br: Point = (Point {
        x: (r.origin.x + r.size.width) as i32,
        y: (r.origin.y + r.size.height) as i32,
    });
    let bl: Point = (Point { x: r.origin.x, y: (r.origin.y + r.size.height) as i32 });
    solid_points(tl, tr) + solid_points(tr, br) + solid_points(br, bl) + solid_points(bl, tl)
}

impl Rect {
    pub fn new(pos: Point, size: Size) -> (r: Rect)
        ensures
            r == (Rect { origin: pos, size }),
    {
        Rect { origin: pos, size }
    }

    /// The tightest axis-aligned rectangle covering a non-empty point set.
    pub fn bounding(points: &[Point]) -> (r: Rect)
        requires
            points@.len() >= 1,
        ensures
            r.origin.x == min_x_of(points@),
            r.origin.y == min_y_of(points@),
            r.size.width == max_x_of(points@) - min_x_of(points@),
            r.size.height == max_y_of(points@) - min_y_of(points@),
            rect_in_range(r),
    {
        let Bounds { top, bottom, left, right } = Bounds::wrap(points);
        proof {
            lemma_extrema_ordered(points@);
        }
        let width: u32 = (right as i64 - left as i64) as u32;
        let height: u32 = (bottom as i64 - top as i64) as u32;
        Rect { origin: Point { x: left, y: top }, size: Size { width, height } }
    }

    /// top_left, top_right, bottom_right, bottom_left
    pub fn corners(&self) -> (r: (Point, Point, Point, Point))
        requires
            rect_in_range(*self),
        ensures
            r.0 == self.origin,
            r.1 == (Point { x: (self.origin.x + self.size.width) as i32, y: self.origin.y }),
            r.2 == (Point {
                x: (self.origin.x + self.size.width) as i32,
                y: (self.origin.y + self.size.height) as i32,
            }),
            r.3 == (Point { x: self.origin.x, y: (self.origin.y + self.size.height) as i32 }),
    {
        let bottom_right: Point = self.bottom_right();
        let top_right: Point = Point { x: bottom_right.x, y: self.origin.y };
        let bottom_left: Point = Point { x: self.origin.x, y: bottom_right.y };
        (self.origin, top_right, bottom_right, bottom_left)
    }

    pub fn bottom_right(&self) -> (r: Point)
        requires
            rect_in_range(*self),
        ensures
            r == (Point {
                x: (self.origin.x + self.size.width) as i32,
                y: (self.origin.y + self.size.height) as i32,
            }),
    {
        Point {
            x: (self.origin.x as i64 + self.size.width as i64) as i32,
            y: (self.origin.y as i64 + self.size.height as i64) as i32,
        }
    }

    /// Enumerate every lattice point within the rectangle, inclusive of
    /// both edges.
    pub fn solid_color(&self) -> (r: Vec<Point>)
        requires
            rect_in_range(*self),
        ensures
            r@ == rect_points(*self),
    {
        let w: u64 = self.size.width as u64 + 1;
        let h: u64 = self.size.height as u64 + 1;
        let mut r: Vec<Point> = Vec::new();
        let mut y: u64 = 0;
        while y < h
            invariant
                w == self.size.width + 1,
                h == self.size.height + 1,
                rect_in_range(*self),
                y <= h,
                r@.len() == y * w,
                forall|k: int| 0 <= k < r@.len() ==> r@[k] == rect_points(*self)[k],
            decreases h - y,
        {
            let mut x: u64 = 0;
            while x < w
                invariant
                    w == self.size.width + 1,
                    h == self.size.height + 1,
                    rect_in_range(*self),
                    y < h,
                    x <= w,
                    r@.len() == y * w + x,
                    forall|k: int| 0 <= k < r@.len() ==> r@[k] == rect_points(*self)[k],
                decreases w - x,
            {
                proof {
                    lemma_fundamental_div_mod_converse(
                        (y * w + x) as int,
                        w as int,
                        y as int,
                        x as int,
                    );
                    assert((y as int) * (w as int) + x < (w as int) * (h as int))
                        by (nonlinear_arith)
                        requires y < h && x < w && w >= 1;
                }
                let px: i32 = (self.origin.x as i64 + x as i64) as i32;
                let py: i32 = (self.origin.y as i64 + y as i64) as i32;
                r.push(Point { x: px, y: py });
                x = x + 1;
            }
            proof {
                assert((y as int) * (w as int) + w == (y as int + 1) * (w as int))
                    by (nonlinear_arith);
            }
            y = y + 1;
        }
        proof {
            assert((h as int) * (w as int) == (w as int) * (h as int)) by (nonlinear_arith);
            assert(r@ =~= rect_points(*self));
        }
        r
    }

    /// The rectangle's outline: its four border segments drawn solid.
    pub fn empty(&self) -> (r: Vec<Point>)
        requires
            rect_in_range(*self),
        ensures
            r@ == rect_border_points(*self),
    {
        let (a, b, c, d) = self.corners();
        let mut rectangle: Vec<Point> = Line::new(a, b).solid();
        let mut side2: Vec<Point> = Line::new(b, c).solid();
        let mut side3: Vec<Point> = Line::new(c, d).solid();
        let mut side4: Vec<Point> = Line::new(d, a).solid();
        rectangle.append(&mut side2);
        rectangle.append(&mut side3);
        rectangle.append(&mut side4);
        rectangle
    }
}

/// In a non-empty point set the least coordinate is at most the greatest.
proof fn lemma_extrema_ordered(s: Seq<Point>)
    requires
        s.len() >= 1,
    ensures
        min_x_of(s) <= max_x_of(s),
        min_y_of(s) <= max_y_of(s),
        i32::MIN <= min_x_of(s) <= i32::MAX,
        i32::MIN <= max_x_of(s) <= i32::MAX,
        i32::MIN <= min_y_of(s) <= i32::MAX,
        i32::MIN <= max_y_of(s) <= i32::MAX,
    decreases s.len(),
{
    if s.len() > 1 {
        lemma_extrema_ordered(s.drop_last());
    }
}

#[derive(Clone, Copy, Debug, PartialEq, Eq, Structural)]
pub struct Triangle {
    pub a: Point,
    pub b: Point,
    pub c: Point,
}

/// The filled triangle: the lattice points of its bounding rectangle that
/// pass the inside test.
pub open spec fn triangle_points(t: Triangle) -> Seq<Point> {
    rect_points(triangle_bounding(t)).filter(|p: Point| spec_in_triangle(p, t))
}

pub open spec fn triangle_bounding(t: Triangle) -> Rect {
    let lx: int = min_int(min_int(t.a.x as int, t.b.x as int), t.c.x as int);
    let hx: int = max_int(max_int(t.a.x as int, t.b.x as int), t.c.x as int);
    let ly: int = min_int(min_int(t.a.y as int, t.b.y as int), t.c.y as int);
    let hy: int = max_int(max_int(t.a.y as int, t.b.y as int), t.c.y as int);
    Rect {
        origin: Point { x: lx as i32, y: ly as i32 },
        size: Size { width: (hx - lx) as u32, height: (hy - ly) as u32 },
    }
}

/// The triangle's outline: the segments a->b, b->c and a->c drawn solid.
pub open spec fn triangle_border_points(t: Triangle) -> Seq<Point> {
    solid_points(t.a, t.b) + solid_points(t.b, t.c) + solid_points(t.a, t.c)
}

impl Triangle {
    pub fn new(p0: Point, p1: Point, p2: Point) -> (r: Triangle)
        ensures
            r == (Triangle { a: p0, b: p1, c: p2 }),
    {
        Triangle { a: p0, b: p1, c: p2 }
    }

    /// Every lattice point of the bounding rectangle that lies inside the
    /// triangle (boundary-inclusive).
    pub fn solid_color(&self) -> (r: Vec<Point>)
        ensures
            r@ == triangle_points(*self),
    {
        let mut corners: Vec<Point> = Vec::new();
        corners.push(self.a);
        corners.push(self.b);
        corners.push(self.c);
        let rect: Rect = Rect::bounding(corners.as_slice());
        proof {
            lemma_bounding_of_three(corners@, *self);
            assert(rect == triangle_bounding(*self));
        }
        let rect_pts: Vec<Point> = rect.solid_color();
        let mut r: Vec<Point> = Vec::new();
        let mut i: usize = 0;
        proof {
            assert(rect_pts@.take(0) =~= Seq::<Point>::empty());
            reveal(Seq::filter);
        }
        while i < rect_pts.len()
            invariant
                i <= rect_pts@.len(),
                rect_pts@ == rect_points(triangle_bounding(*self)),
                r@ == rect_pts@.take(i as int).filter(|p: Point| spec_in_triangle(p, *self)),
            decreases rect_pts@.len() - i,
        {
            let p: Point = rect_pts[i];
            proof {
                reveal(Seq::filter);
                assert(rect_pts@.take(i as int + 1).drop_last() =~= rect_pts@.take(i as int));
            }
            if point_is_in_triangle(p, self) {
                r.push(p);
            }
            i = i + 1;
        }
        proof {
            assert(rect_pts@.take(rect_pts@.len() as int) =~= rect_pts@);
        }
        r
    }

    /// The triangle's outline: its three border segments drawn solid.
    pub fn empty(&self) -> (r: Vec<Point>)
        ensures
            r@ == triangle_border_points(*self),
    {
        let Triangle { a, b, c } = *self;
        let mut triangle: Vec<Point> = Line::new(a, b).solid();
        let mut side2: Vec<Point> = Line::new(b, c).solid();
        let mut side3: Vec<Point> = Line::new(a, c).solid();
        triangle.append(&mut side2);
        triangle.append(&mut side3);
        triangle
    }
}

/// The generic extrema of the three-element sequence of a triangle's
/// vertices coincide with its direct bounding rectangle.
proof fn lemma_bounding_of_three(s: Seq<Point>, t: Triangle)
    requires
        s =~= seq![t.a, t.b, t.c],
    ensures
        min_x_of(s) == min_int(min_int(t.a.x as int, t.b.x as int), t.c.x as int),
        max_x_of(s) == max_int(max_int(t.a.x as int, t.b.x as int), t.c.x as int),
        min_y_of(s) == min_int(min_int(t.a.y as int, t.b.y as int), t.c.y as int),
        max_y_of(s) == max_int(max_int(t.a.y as int, t.b.y as int), t.c.y as int),
{
    reveal_with_fuel(min_x_of, 4);
    reveal_with_fuel(max_x_of, 4);
    reveal_with_fuel(min_y_of, 4);
    reveal_with_fuel(max_y_of, 4);
    assert(s.drop_last() =~= seq![t.a, t.b]);
    assert(s.drop_last().drop_last() =~= seq![t.a]);
}

} // verus!
