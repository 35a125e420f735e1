use vstd::prelude::*;

use crate::geometry::{solid_points, Line, Point};
use crate::math::{lemma_product_bound, lemma_round_away_bounds, round_away, round_away128, sat32};
use crate::trig::{cos_deg, cos_lookup, lemma_cos_deg_bounds, lemma_sin_deg_bounds, sin_deg, sin_lookup, SCALE};

verus! {

/// Functions here produce pixels; analytical shapes are in `geometry`.
/// How many points a circle outline gets: the circumference `radius * tau`
/// rounded up, with tau approximated by the ratio 710/113.
pub open spec fn circle_count(radius: int) -> int {
    (radius * 710 + 112) / 113
}

/// One outline point: the angles are spread evenly over the circle,
/// quantized to whole degrees for the trigonometric tables.
pub open spec fn circle_point(origin: Point, radius: int, n: int, i: int) -> Point {
    let dg: int = round_away(360 * i, n);
    let d: int = if dg >= 360 {
        dg - 360
    } else {
        dg
    };
    Point {
        x: sat32(origin.x + round_away(radius * cos_deg(d), SCALE as int)),
        y: sat32(origin.y + round_away(radius * sin_deg(d), SCALE as int)),
    }
}

pub open spec fn circle_points(origin: Point, radius: int) -> Seq<Point> {
    Seq::new(circle_count(radius) as nat, |i: int| circle_point(origin, radius, circle_count(radius), i))
}

/// The circle's outline only, not filled: points evenly spaced by angle
/// at the given radius around `origin`.
pub fn circle(origin: Point, radius: u32) -> (r: Vec<Point>)
    ensures
        r@ == circle_points(origin, radius as int),
{
    let n: u64 = ((radius as u64) * 710 + 112) / 113;
    let mut r: Vec<Point> = Vec::new();
    let mut i: u64 = 0;
    while i < n
        invariant
            n == circle_count(radius as int),
            n <= 0x7_0000_0000,
            i <= n,
            r@.len() == i,
            forall|j: int|
                0 <= j < i ==> r@[j] == circle_point(origin, radius as int, n as int, j),
        decreases n - i,
    {
        proof {
            lemma_round_away_bounds(360 * (i as int), n as int, 0, 360);
        }
        let dg: i128 = round_away128(360 * (i as i128), n as i128);
        let d: u32 = if dg >= 360 {
            (dg - 360) as u32
        } else {
            dg as u32
        };
        let cv: i64 = cos_lookup(d);
        let sv: i64 = sin_lookup(d);
        proof {
            lemma_cos_deg_bounds(d as int);
            lemma_sin_deg_bounds(d as int);
            lemma_product_bound(radius as int, cv as int, 0x1_0000_0000);
            lemma_product_bound(radius as int, sv as int, 0x1_0000_0000);
            assert(-((radius as int) * 1000000) <= (radius as int) * (cv as int) <= (radius as int)
                * 1000000) by (nonlinear_arith)
                requires 0 <= radius && -1000000 <= cv <= 1000000;
            assert(-((radius as int) * 1000000) <= (radius as int) * (sv as int) <= (radius as int)
                * 1000000) by (nonlinear_arith)
                requires 0 <= radius && -1000000 <= sv <= 1000000;
            lemma_round_away_bounds(
                (radius as int) * (cv as int),
                SCALE as int,
                -(radius as int),
                radius as int,
            );
            lemma_round_away_bounds(
                (radius as int) * (sv as int),
                SCALE as int,
                -(radius as int),
                radius as int,
            );
        }
        let offx: i128 = round_away128((radius as i128) * (cv as i128), 1000000);
        let offy: i128 = round_away128((radius as i128) * (sv as i128), 1000000);
        let x: i32 = crate::math::sat_add_i32(origin.x, offx as i64);
        let y: i32 = crate::math::sat_add_i32(origin.y, offy as i64);
        r.push(Point { x, y });
        i = i + 1;
    }
    proof {
        assert(r@ =~= circle_points(origin, radius as int));
    }
    r
}

/// Draw the solid digital line between two points.
pub fn line(from: Point, to: Point) -> (r: Vec<Point>)
    ensures
        r@ == solid_points(from, to),
{
    Line::new(from, to).solid()
}

/// Where an in-frame point lands in a row-major `width x height` buffer.
/// A point outside the frame is dropped: `None`, never clamped or wrapped.
pub fn frame_index(p: Point, width: usize, height: usize) -> (r: Option<usize>)
    requires
        width * height <= usize::MAX,
    ensures
        (r is Some) <==> (0 <= p.x < width && 0 <= p.y < height),
        r is Some ==> r == Some(((p.y * width + p.x) as usize)),
{
    if p.x >= 0 && p.y >= 0 && (p.x as usize) < width && (p.y as usize) < height {
        proof {
            assert((p.y as int) * (width as int) + p.x < (width as int) * (height as int))
                by (nonlinear_arith)
                requires 0 <= p.x < width && 0 <= p.y < height;
        }
        Some((p.y as usize) * width + (p.x as usize))
    } else {
        None
    }
}

} // verus!
