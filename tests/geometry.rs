use topo_contours::geometry::{
    distance, distance_point_to_polyline, distance_point_to_segment, dot_product, isqrt, magnitude,
    path_length, polyline_length, Point,
};

fn pt(x: i64, y: i64) -> Point {
    Point { x, y }
}

#[test]
fn isqrt_rounds_down() {
    assert_eq!(isqrt(0), 0);
    assert_eq!(isqrt(1), 1);
    assert_eq!(isqrt(24), 4);
    assert_eq!(isqrt(25), 5);
    assert_eq!(isqrt(u64::MAX), 4294967295);
}

#[test]
fn magnitude_of_pythagorean_triple() {
    assert_eq!(magnitude(3, 4), 5);
    assert_eq!(magnitude(-6, 8), 10);
    assert_eq!(magnitude(1, 1), 1);
}

#[test]
fn dot_product_exact() {
    assert_eq!(dot_product(2, 3, 4, -5), -7);
}

#[test]
fn distance_between_points() {
    assert_eq!(distance(&pt(0, 0), &pt(300, 400)), 500);
    assert_eq!(distance(&pt(-1073741824, -1073741824), &pt(1073741824, 1073741824)), 3037000499);
}

#[test]
fn segment_distance_before_first_end_is_distance_to_that_end() {
    // projection falls before `a`: the distance to `a`, exactly
    assert_eq!(distance_point_to_segment(&pt(-30, 40), pt(0, 0), pt(100, 0)), 50);
}

#[test]
fn segment_distance_past_second_end_is_distance_to_that_end() {
    assert_eq!(distance_point_to_segment(&pt(106, 8), pt(0, 0), pt(100, 0)), 10);
}

#[test]
fn segment_distance_above_midpoint_is_perpendicular() {
    assert_eq!(distance_point_to_segment(&pt(50, 37), pt(0, 0), pt(100, 0)), 37);
    // slanted segment: perpendicular distance 5 * sqrt(2) = 7.07..., rounded down
    assert_eq!(distance_point_to_segment(&pt(0, 10), pt(0, 0), pt(10, 10)), 7);
}

#[test]
fn segment_distance_on_degenerate_segment() {
    assert_eq!(distance_point_to_segment(&pt(3, 4), pt(0, 0), pt(0, 0)), 5);
}

#[test]
fn polyline_distance_takes_nearest_segment() {
    let line = vec![pt(0, 0), pt(100, 0), pt(100, 100)];
    assert_eq!(distance_point_to_polyline(&pt(130, 50), &line), 30);
    assert_eq!(distance_point_to_polyline(&pt(50, -20), &line), 20);
    assert_eq!(distance_point_to_polyline(&pt(3, 4), &vec![pt(0, 0)]), 5);
}

#[test]
fn polyline_length_sums_segments() {
    let line = vec![pt(0, 0), pt(300, 400), pt(300, 1000)];
    assert_eq!(polyline_length(&line), 1100);
    assert_eq!(path_length(&line, 1, 2), 600);
    assert_eq!(polyline_length(&vec![pt(5, 5)]), 0);
    assert_eq!(polyline_length(&vec![]), 0);
}
