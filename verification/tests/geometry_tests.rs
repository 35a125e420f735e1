use turtle::graphics;
use turtle::{circle, constrain, diagonal_distance, frame_index, point_is_in_triangle};
use turtle::{Bounds, Line, Point, Rect, Size, Triangle};

fn p(x: i32, y: i32) -> Point {
    Point::new(x, y)
}

#[test]
fn solid_horizontal_spans_the_segment() {
    // a horizontal segment from (0,0) to (10,0): 11 points (inclusive
    // endpoints), x = 0..=10 at y = 0, no gap over one unit
    let pts = Line::new(p(0, 0), p(10, 0)).solid();
    assert_eq!(pts.len(), 11);
    for (i, q) in pts.iter().enumerate() {
        assert_eq!(*q, p(i as i32, 0));
    }
    for w in pts.windows(2) {
        assert!((w[1].x - w[0].x).abs() <= 1 && (w[1].y - w[0].y).abs() <= 1);
    }
}

#[test]
fn solid_diagonal_rounds_to_nearest() {
    let pts = Line::new(p(0, 0), p(3, 4)).solid();
    // 4 steps: interpolation at i/4, rounded half away from zero
    assert_eq!(pts, vec![p(0, 0), p(1, 1), p(2, 2), p(2, 3), p(3, 4)]);
}

#[test]
fn solid_degenerate_segment_is_one_point() {
    let pts = Line::new(p(7, -3), p(7, -3)).solid();
    assert_eq!(pts, vec![p(7, -3)]);
}

#[test]
fn dotted_advances_by_step() {
    let pts = Line::new(p(0, 0), p(10, 0)).dotted(3);
    assert_eq!(pts, vec![p(0, 0), p(3, 0), p(6, 0), p(9, 0)]);
    // when the step divides the length, the far endpoint is reached
    let pts = Line::new(p(0, 0), p(10, 0)).dotted(5);
    assert_eq!(pts, vec![p(0, 0), p(5, 0), p(10, 0)]);
}

#[test]
fn graphics_line_matches_solid() {
    assert_eq!(graphics::line(p(0, 0), p(2, 2)), Line::new(p(0, 0), p(2, 2)).solid());
}

#[test]
fn bounding_of_three_points() {
    // origin is the smallest x and y; the size spans to the largest
    let r = Rect::bounding(&[p(0, 0), p(10, 5), p(3, -2)]);
    assert_eq!(r.origin, p(0, -2));
    assert_eq!(r.size.width, 10);
    assert_eq!(r.size.height, 7);
}

#[test]
fn bounds_wrap_point_widens() {
    let mut b = Bounds { top: 0, bottom: 0, left: 0, right: 0 };
    b.wrap_point(p(4, -3));
    assert_eq!((b.left, b.right, b.top, b.bottom), (0, 4, -3, 0));
    b.wrap_point(p(-2, 9));
    assert_eq!((b.left, b.right, b.top, b.bottom), (-2, 4, -3, 9));
}

#[test]
fn bounds_wrap_of_single_point() {
    let b = Bounds::wrap(&[p(5, 6)]);
    assert_eq!((b.left, b.right, b.top, b.bottom), (5, 5, 6, 6));
}

#[test]
fn rect_corners_and_bottom_right() {
    let r = Rect::new(p(1, 2), Size::new(3, 4));
    assert_eq!(r.bottom_right(), p(4, 6));
    let (a, b, c, d) = r.corners();
    assert_eq!(a, p(1, 2));
    assert_eq!(b, p(4, 2));
    assert_eq!(c, p(4, 6));
    assert_eq!(d, p(1, 6));
}

#[test]
fn rect_solid_color_enumerates_inclusively() {
    let pts = Rect::new(p(1, 1), Size::new(2, 1)).solid_color();
    assert_eq!(pts, vec![p(1, 1), p(2, 1), p(3, 1), p(1, 2), p(2, 2), p(3, 2)]);
}

#[test]
fn rect_empty_draws_four_borders() {
    let pts = Rect::new(p(0, 0), Size::new(2, 2)).empty();
    // four solid border segments of three points each, corners repeated
    assert_eq!(pts.len(), 12);
    assert!(pts.contains(&p(0, 0)) && pts.contains(&p(2, 2)));
    assert!(pts.contains(&p(1, 0)) && pts.contains(&p(0, 1)));
    assert!(!pts.contains(&p(1, 1)));
}

#[test]
fn size_area() {
    assert_eq!(Size::new(6, 7).area(), 42);
}

#[test]
fn triangle_inside_is_boundary_inclusive() {
    // all three vertices and all edge midpoints count as inside
    let t = Triangle::new(p(0, 0), p(10, 0), p(0, 10));
    for q in [p(0, 0), p(10, 0), p(0, 10), p(5, 0), p(5, 5), p(0, 5)] {
        assert!(point_is_in_triangle(q, &t));
    }
    // a point far outside the bounding box is outside
    assert!(!point_is_in_triangle(p(100, 100), &t));
    assert!(!point_is_in_triangle(p(-1, 0), &t));
}

#[test]
fn triangle_solid_color_filters_bounding_rect() {
    let t = Triangle::new(p(0, 0), p(2, 0), p(0, 2));
    let pts = t.solid_color();
    assert_eq!(pts, vec![p(0, 0), p(1, 0), p(2, 0), p(0, 1), p(1, 1), p(0, 2)]);
}

#[test]
fn triangle_empty_draws_three_borders() {
    let pts = Triangle::new(p(0, 0), p(2, 0), p(0, 2)).empty();
    assert_eq!(pts.len(), 9);
    assert!(pts.contains(&p(1, 1)));
}

#[test]
fn project_onto_axis() {
    let l = Line::new(p(0, 0), p(10, 0));
    assert_eq!(l.project(p(5, 5)), p(5, 0));
    let vertical = Line::new(p(0, 0), p(0, 10));
    assert_eq!(vertical.project(p(3, 4)), p(0, 4));
}

#[test]
fn project_degenerate_returns_start() {
    let l = Line::new(p(2, 3), p(2, 3));
    assert_eq!(l.project(p(100, 100)), p(2, 3));
}

#[test]
fn interpolation_value_in_millionths() {
    let l = Line::new(p(0, 0), p(10, 0));
    assert_eq!(l.interpolation_value(p(5, 0)), 500_000);
    assert_eq!(l.interpolation_value(p(10, 3)), 1_000_000);
    assert_eq!(l.interpolation_value(p(0, 0)), 0);
    // degenerate segment: the defined fallback is 0
    assert_eq!(Line::new(p(1, 1), p(1, 1)).interpolation_value(p(9, 9)), 0);
}

#[test]
fn diagonal_distance_is_chebyshev() {
    assert_eq!(diagonal_distance(p(0, 0), p(3, -7)), 7);
    assert_eq!(diagonal_distance(p(2, 2), p(2, 2)), 0);
}

#[test]
fn circle_point_count_is_ceil_tau_r() {
    assert_eq!(circle(p(0, 0), 0).len(), 0);
    assert_eq!(circle(p(0, 0), 1).len(), 7);
    assert_eq!(circle(p(0, 0), 10).len(), 63);
}

#[test]
fn circle_starts_on_the_positive_axis() {
    let pts = circle(p(0, 0), 5);
    assert_eq!(pts[0], p(5, 0));
    for q in pts {
        let d2 = (q.x as i64).pow(2) + (q.y as i64).pow(2);
        assert!(16 <= d2 && d2 <= 36, "outline point {:?} off the radius", q);
    }
}

#[test]
fn frame_index_drops_out_of_frame_points() {
    assert_eq!(frame_index(p(0, 0), 640, 360), Some(0));
    assert_eq!(frame_index(p(3, 2), 640, 360), Some(2 * 640 + 3));
    assert_eq!(frame_index(p(-1, 0), 640, 360), None);
    assert_eq!(frame_index(p(640, 0), 640, 360), None);
    assert_eq!(frame_index(p(0, 360), 640, 360), None);
}

#[test]
fn constrain_clamps() {
    assert_eq!(constrain(5, 0, 10), 5);
    assert_eq!(constrain(-5, 0, 10), 0);
    assert_eq!(constrain(15, 0, 10), 10);
}
