use topo_contours::form_lines::{
    add_tails_to_tagged_form_line_polyline, extract_kept_segments,
    remove_gaps_from_tagged_form_line_polyline,
};
use topo_contours::geometry::Point;

fn line(n: i64, step: i64) -> Vec<Point> {
    (0..n).map(|i| Point { x: i * step, y: 0 }).collect()
}

#[test]
fn short_gap_is_bridged() {
    let pts = line(5, 100);
    let tags = vec![true, false, false, false, true];
    let out = remove_gaps_from_tagged_form_line_polyline(&tags, &pts, 500);
    assert_eq!(out, vec![true; 5]);
    let segments = extract_kept_segments(&out, &pts);
    assert_eq!(segments, vec![pts.clone()]);
}

#[test]
fn long_gap_is_kept_open() {
    let pts = line(5, 100);
    let tags = vec![true, false, false, false, true];
    let out = remove_gaps_from_tagged_form_line_polyline(&tags, &pts, 400);
    assert_eq!(out, tags);
    let segments = extract_kept_segments(&out, &pts);
    assert_eq!(segments, vec![vec![pts[0]], vec![pts[4]]]);
}

#[test]
fn lonely_kept_vertex_counts_as_gap() {
    let pts = line(7, 100);
    let tags = vec![true, true, false, true, false, true, true];
    // the gap runs from vertex 1 to vertex 5: 400 long
    let out = remove_gaps_from_tagged_form_line_polyline(&tags, &pts, 401);
    assert_eq!(out, vec![true; 7]);
    let out = remove_gaps_from_tagged_form_line_polyline(&tags, &pts, 400);
    assert_eq!(out, tags);
}

#[test]
fn gap_at_start_is_measured_from_first_vertex() {
    let pts = line(4, 100);
    let tags = vec![false, false, true, true];
    let out = remove_gaps_from_tagged_form_line_polyline(&tags, &pts, 201);
    assert_eq!(out, vec![true; 4]);
    let out = remove_gaps_from_tagged_form_line_polyline(&tags, &pts, 200);
    assert_eq!(out, tags);
}

#[test]
fn trailing_gap_is_never_bridged() {
    let pts = line(4, 1);
    let tags = vec![true, true, false, false];
    let out = remove_gaps_from_tagged_form_line_polyline(&tags, &pts, 1000);
    assert_eq!(out, tags);
}

#[test]
fn tails_extend_both_ends_of_a_run() {
    let pts = line(9, 100);
    let tags = vec![false, false, false, true, true, true, false, false, false];
    let out = add_tails_to_tagged_form_line_polyline(&tags, &pts, 150);
    assert_eq!(out, vec![false, true, true, true, true, true, true, true, false]);
    let out = add_tails_to_tagged_form_line_polyline(&tags, &pts, 100);
    assert_eq!(out, vec![false, true, true, true, true, true, true, true, false]);
    let out = add_tails_to_tagged_form_line_polyline(&tags, &pts, 99);
    assert_eq!(out, vec![false, false, true, true, true, true, true, false, false]);
    let out = add_tails_to_tagged_form_line_polyline(&tags, &pts, 0);
    assert_eq!(out, vec![false, false, true, true, true, true, true, false, false]);
}

#[test]
fn tails_never_reach_the_first_or_last_vertex() {
    let pts = line(7, 1);
    let tags = vec![false, false, true, true, true, false, false];
    let out = add_tails_to_tagged_form_line_polyline(&tags, &pts, 1000);
    assert_eq!(out, vec![false, true, true, true, true, true, false]);
}

#[test]
fn longer_tail_keeps_at_least_as_much() {
    let pts = line(12, 70);
    let tags = vec![false, false, false, false, true, true, false, false, true, true, false, false];
    let mut previous = add_tails_to_tagged_form_line_polyline(&tags, &pts, 0);
    for add in [10, 70, 100, 140, 200, 400] {
        let out = add_tails_to_tagged_form_line_polyline(&tags, &pts, add);
        for k in 0..out.len() {
            assert!(!previous[k] || out[k]);
        }
        previous = out;
    }
}

#[test]
fn segments_are_maximal_kept_runs() {
    let pts = line(7, 10);
    let tags = vec![true, true, false, true, false, true, true];
    let segments = extract_kept_segments(&tags, &pts);
    assert_eq!(
        segments,
        vec![vec![pts[0], pts[1]], vec![pts[3]], vec![pts[5], pts[6]]]
    );
    assert!(extract_kept_segments(&vec![false; 3], &line(3, 1)).is_empty());
    assert!(extract_kept_segments(&vec![], &vec![]).is_empty());
}
