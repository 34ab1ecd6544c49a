use topo_contours::config::FormLineConfig;
use topo_contours::contours::{Contour, ContourIntervals, Tier};
use topo_contours::geometry::Point;
use topo_contours::render::{
    plan_contour_strokes, plan_tile_strokes, stroke_style, to_device_point, Dash, DevicePoint,
    StrokeStyle, TileFrame,
};

fn frame() -> TileFrame {
    TileFrame { min_x: 100000, min_y: 200000, image_height: 1000, dpi_resolution: 600 }
}

fn intervals() -> ContourIntervals {
    ContourIntervals { normal_interval: 500, master_interval: 2500 }
}

#[test]
fn device_point_flips_y() {
    // 100 m east and 50 m north of the tile corner at 600 dpi and 1:10000:
    // 100 * 600 / 254 = 236.220... px, 50 * 600 / 254 = 118.110... px
    let p = to_device_point(&Point { x: 110000, y: 205000 }, &frame());
    assert_eq!(p, DevicePoint { x: 236220, y: 1000000 - 118110 });
}

#[test]
fn device_point_left_of_tile_rounds_down() {
    let p = to_device_point(&Point { x: 99999, y: 200000 }, &frame());
    // -0.01 m is -0.0236... px: rounded towards negative infinity
    assert_eq!(p, DevicePoint { x: -24, y: 1000000 });
}

#[test]
fn styles_by_tier() {
    assert_eq!(stroke_style(Tier::Master, 600), StrokeStyle { width: 5905, dash: None });
    assert_eq!(stroke_style(Tier::Normal, 600), StrokeStyle { width: 3307, dash: None });
    assert_eq!(
        stroke_style(Tier::Form, 600),
        StrokeStyle { width: 2362, dash: Some(Dash { length: 47244, gap: 5905 }) }
    );
    assert_eq!(stroke_style(Tier::Master, 0), StrokeStyle { width: 0, dash: None });
}

#[test]
fn degenerate_contours_draw_nothing() {
    let contours = vec![
        Contour { elevation: 1000, polyline: vec![] },
        Contour { elevation: 1000, polyline: vec![Point { x: 100000, y: 200000 }] },
        Contour { elevation: 1250, polyline: vec![Point { x: 100000, y: 200000 }] },
    ];
    let strokes = plan_tile_strokes(&contours, &intervals(), &FormLineConfig::default(), &frame());
    assert!(strokes.is_empty());
}

#[test]
fn tiers_give_one_stroke_each() {
    let line = vec![Point { x: 100000, y: 200000 }, Point { x: 110000, y: 200000 }];
    let contours = vec![
        Contour { elevation: 2500, polyline: line.clone() },
        Contour { elevation: 1000, polyline: line.clone() },
        Contour { elevation: 1250, polyline: line.clone() },
    ];
    let strokes = plan_tile_strokes(&contours, &intervals(), &FormLineConfig::default(), &frame());
    let tiers: Vec<Tier> = strokes.iter().map(|s| s.tier).collect();
    // the form line has no neighbour half an interval away: drawn whole
    assert_eq!(tiers, vec![Tier::Master, Tier::Normal, Tier::Form]);
    for s in &strokes {
        assert_eq!(
            s.points,
            vec![DevicePoint { x: 0, y: 1000000 }, DevicePoint { x: 236220, y: 1000000 }]
        );
    }
}

#[test]
fn form_strokes_skip_single_point_segments() {
    let mut line = Vec::new();
    for i in 0..5 {
        line.push(Point { x: 100000 + i * 10000, y: 200000 });
    }
    let form = Contour { elevation: 1250, polyline: line };
    let contours = vec![
        Contour {
            elevation: 1500,
            polyline: vec![Point { x: 90000, y: 200300 }, Point { x: 150000, y: 200300 }],
        },
        Contour {
            elevation: 1000,
            polyline: vec![Point { x: 90000, y: 196000 }, Point { x: 150000, y: 196000 }],
        },
    ];
    let mut out = Vec::new();
    plan_contour_strokes(&mut out, &form, &contours, &intervals(), &FormLineConfig::default(), &frame());
    assert!(out.is_empty());
}
