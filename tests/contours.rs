use topo_contours::config::{
    default_dem_block_size, default_dpi_resolution, default_vegetation_block_size, FormLineConfig,
};
use topo_contours::contours::{
    classify_contour, keep_relevant_form_contours, should_keep_vertex, Contour, ContourIntervals, Tier,
};
use topo_contours::geometry::Point;

fn intervals() -> ContourIntervals {
    ContourIntervals { normal_interval: 500, master_interval: 2500 }
}

fn horizontal(elevation: i64, y: i64, from: i64, to: i64, step: i64) -> Contour {
    let mut polyline = Vec::new();
    let mut x = from;
    while x <= to {
        polyline.push(Point { x, y });
        x += step;
    }
    Contour { elevation, polyline }
}

#[test]
fn classification_of_sample_elevations() {
    let iv = intervals();
    for e in [0, 2500, -2500, 5000] {
        assert_eq!(classify_contour(e, &iv), Tier::Master);
    }
    for e in [500, 1000, 2000, -500] {
        assert_eq!(classify_contour(e, &iv), Tier::Normal);
    }
    for e in [250, 750, 1250, -250, 1] {
        assert_eq!(classify_contour(e, &iv), Tier::Form);
    }
}

#[test]
fn elevation_on_both_intervals_is_master() {
    assert_eq!(classify_contour(2500, &intervals()), Tier::Master);
    assert_eq!(classify_contour(-7500, &intervals()), Tier::Master);
}

#[test]
fn default_form_line_config() {
    let cfg = FormLineConfig::default();
    assert_eq!(cfg.threshold, 50);
    assert_eq!(cfg.min_distance_to_contour, 500);
    assert_eq!(cfg.max_distance_to_contour, 10000);
    assert_eq!(cfg.min_length, 1000);
    assert_eq!(cfg.min_gap_length, 5000);
    assert_eq!(cfg.additional_tail_length, 1500);
    assert_eq!(default_dem_block_size(), 1);
    assert_eq!(default_vegetation_block_size(), 1);
    assert_eq!(default_dpi_resolution(), 600);
}

#[test]
fn vertex_too_close_to_contour_above_is_discarded() {
    // 3 m above, 40 m below: the asymmetry does not count this close, and neither
    // neighbour is far enough for the flat-terrain escape
    let cfg = FormLineConfig::default();
    assert!(!should_keep_vertex(300, 4000, &cfg));
}

#[test]
fn vertex_decisions() {
    let cfg = FormLineConfig::default();
    // asymmetry 1/20 is not above the threshold, a little more is
    assert!(!should_keep_vertex(2000, 2100, &cfg));
    assert!(should_keep_vertex(2000, 2101, &cfg));
    assert!(!should_keep_vertex(2000, 2000, &cfg));
    // a far neighbour keeps the vertex whatever the rest
    assert!(should_keep_vertex(10001, 10001, &cfg));
    assert!(should_keep_vertex(0, 10001, &cfg));
    assert!(!should_keep_vertex(10000, 10000, &cfg));
    // a zero distance is below the minimum
    assert!(!should_keep_vertex(0, 600, &cfg));
}

#[test]
fn scenario_close_neighbour_discards_whole_form_line() {
    let cfg = FormLineConfig::default();
    let form = horizontal(1250, 0, 0, 2000, 100);
    let contours = vec![
        horizontal(1500, 300, -1000, 3000, 500),
        horizontal(1000, -4000, -1000, 3000, 500),
        horizontal(1250, 0, 0, 2000, 100),
    ];
    let segments = keep_relevant_form_contours(&form, &contours, &intervals(), &cfg);
    assert!(segments.is_empty());
}

#[test]
fn missing_neighbour_keeps_form_line_whole() {
    let cfg = FormLineConfig::default();
    let form = horizontal(1250, 0, 0, 2000, 100);
    let only_above = vec![horizontal(1500, 300, -1000, 3000, 500)];
    let segments = keep_relevant_form_contours(&form, &only_above, &intervals(), &cfg);
    assert_eq!(segments, vec![form.polyline.clone()]);
    let only_below = vec![horizontal(1000, -300, -1000, 3000, 500)];
    let segments = keep_relevant_form_contours(&form, &only_below, &intervals(), &cfg);
    assert_eq!(segments, vec![form.polyline.clone()]);
    let segments = keep_relevant_form_contours(&form, &vec![], &intervals(), &cfg);
    assert_eq!(segments, vec![form.polyline.clone()]);
}

#[test]
fn single_point_neighbour_does_not_count() {
    let cfg = FormLineConfig::default();
    let form = horizontal(1250, 0, 0, 2000, 100);
    let contours = vec![
        horizontal(1500, 300, -1000, 3000, 500),
        Contour { elevation: 1000, polyline: vec![Point { x: 0, y: -4000 }] },
    ];
    let segments = keep_relevant_form_contours(&form, &contours, &intervals(), &cfg);
    assert_eq!(segments, vec![form.polyline.clone()]);
}

#[test]
fn asymmetric_stretch_is_kept_with_tails() {
    let cfg = FormLineConfig::default();
    // the contour below bends away between x = 9000 and x = 11000
    let form = horizontal(1250, 0, 0, 20000, 500);
    let above = horizontal(1500, 1000, -1000, 21000, 500);
    let below = Contour {
        elevation: 1000,
        polyline: vec![
            Point { x: -1000, y: -1000 },
            Point { x: 8500, y: -1000 },
            Point { x: 9000, y: -3000 },
            Point { x: 11000, y: -3000 },
            Point { x: 11500, y: -1000 },
            Point { x: 21000, y: -1000 },
        ],
    };
    let contours = vec![above, below];
    let segments = keep_relevant_form_contours(&form, &contours, &intervals(), &cfg);
    assert_eq!(segments.len(), 1);
    let xs: Vec<i64> = segments[0].iter().map(|p| p.x).collect();
    // kept from 9000 to 11000, with tails of up to 15 m on both sides
    let expected: Vec<i64> = (14..=26).map(|i| i * 500).collect();
    assert_eq!(xs, expected);
}

#[test]
fn short_leading_gap_is_bridged_from_first_vertex() {
    let cfg = FormLineConfig::default();
    let form = horizontal(1250, 0, 0, 10000, 500);
    let above = horizontal(1500, 1000, -1000, 11000, 500);
    let below = Contour {
        elevation: 1000,
        polyline: vec![
            Point { x: -1000, y: -1000 },
            Point { x: 3500, y: -1000 },
            Point { x: 4000, y: -3000 },
            Point { x: 6000, y: -3000 },
            Point { x: 6500, y: -1000 },
            Point { x: 11000, y: -1000 },
        ],
    };
    let contours = vec![above, below];
    let segments = keep_relevant_form_contours(&form, &contours, &intervals(), &cfg);
    assert_eq!(segments.len(), 1);
    let xs: Vec<i64> = segments[0].iter().map(|p| p.x).collect();
    let expected: Vec<i64> = (0..=16).map(|i| i * 500).collect();
    assert_eq!(xs, expected);
}
