//! From contours to styled strokes in device coordinates.
//!
//! Device coordinates are in thousandths of a pixel, with the origin at the top
//! left corner of the tile image. One metre of ground is a tenth of a millimetre on
//! the map.
use crate::config::{FormLineConfig, UNITS_PER_METRE};
use crate::contours::{
    classify_contour, contours_ok, form_segments, has_level, kept_mask, level_dist, on_level, keep_relevant_form_contours, tier_of, Contour,
    ContourIntervals, Tier,
};
use crate::form_lines::{lemma_segments_ok, views_of};
use crate::geometry::{point_ok, points_ok, Point, COORD_LIMIT};
use vstd::prelude::*;

verus! {

/// Tenths of a millimetre in an inch.
pub const INCH: i64 = 254;
/// Device units in one pixel.
pub const SUBPIXELS: i64 = 1000;
/// Stroke widths and dashes, in hundredths of a millimetre on the map.
pub const MASTER_CONTOUR_THICKNESS: i64 = 25;
pub const CONTOUR_THICKNESS: i64 = 14;
pub const FORM_CONTOUR_THICKNESS: i64 = 10;
pub const FORM_CONTOUR_DASH_LENGTH: i64 = 200;
pub const FORM_CONTOUR_DASH_INTERVAL_LENGTH: i64 = 25;
/// Largest output resolution, in dots per inch.
pub const MAX_DPI: u32 = 100000;

/// A point on the raster, in thousandths of a pixel.
#[derive(Clone, Copy, Debug, PartialEq, Eq, Structural)]
pub struct DevicePoint {
    pub x: i64,
    pub y: i64,
}

/// Where a tile lies on the ground and how large its image is.
#[derive(Clone, Copy, Debug, PartialEq, Eq, Structural)]
pub struct TileFrame {
    pub min_x: i64,
    pub min_y: i64,
    pub image_height: u32,
    pub dpi_resolution: u32,
}

impl TileFrame {
    pub open spec fn wf(&self) -> bool {
        point_ok(Point { x: self.min_x, y: self.min_y }) && self.dpi_resolution <= MAX_DPI
    }
}

/// A ground length in coordinate units, as device units.
pub open spec fn to_device(v: int, dpi: int) -> int {
    (v * dpi * (SUBPIXELS as int)) / ((INCH as int) * (UNITS_PER_METRE as int))
}

/// `px = (x - min_x) * scale`, `py = height - (y - min_y) * scale`.
pub open spec fn device_point(p: Point, frame: TileFrame) -> DevicePoint {
    DevicePoint {
        x: to_device(p.x - frame.min_x, frame.dpi_resolution as int) as i64,
        y: (frame.image_height * (SUBPIXELS as int) - to_device(p.y - frame.min_y, frame.dpi_resolution as int)) as i64,
    }
}

pub open spec fn device_path(s: Seq<Point>, frame: TileFrame) -> Seq<DevicePoint> {
    s.map_values(|p: Point| device_point(p, frame))
}

/// Division rounded towards negative infinity.
fn floor_div(v: i128, d: i128) -> (r: i128)
    requires
        0 < d <= 0x1_0000_0000,
        -0x1_0000_0000_0000_0000_0000_0000 <= v <= 0x1_0000_0000_0000_0000_0000_0000,
    ensures
        r == v / d,
{
    if v >= 0 {
        v / d
    } else {
        let u = -v;
        let q = (u + d - 1) / d;
        proof {
            let w: int = u + d - 1;
            let di: int = d as int;
            let qi: int = q as int;
            let rem: int = w % di;
            vstd::arithmetic::div_mod::lemma_fundamental_div_mod(w, di);
            vstd::arithmetic::div_mod::lemma_mod_pos_bound(w, di);
            assert((-qi) * di == -(qi * di)) by (nonlinear_arith);
            assert(w == qi * di + rem) by (nonlinear_arith)
                requires
                    w == di * qi + rem,
            ;
            vstd::arithmetic::div_mod::lemma_fundamental_div_mod_converse(v as int, di, -qi, di - 1 - rem);
        }
        -q
    }
}

fn scale_to_device(v: i64, dpi: u32) -> (r: i64)
    requires
        -2 * COORD_LIMIT <= v <= 2 * COORD_LIMIT,
        dpi <= MAX_DPI,
    ensures
        r == to_device(v as int, dpi as int),
        -0x1_0000_0000_0000 <= r <= 0x1_0000_0000_0000,
{
    proof {
        assert(-0x8000_0000 * 100000 * 1000 <= v * dpi * 1000 <= 0x8000_0000 * 100000 * 1000) by (nonlinear_arith)
            requires
                -0x8000_0000 <= v <= 0x8000_0000,
                0 <= dpi <= 100000,
        ;
        let n = v * dpi * 1000;
        assert(-0x1_0000_0000_0000 <= n / 25400 <= 0x1_0000_0000_0000) by (nonlinear_arith)
            requires
                -0x8000_0000 * 100000 * 1000 <= n <= 0x8000_0000 * 100000 * 1000,
        ;
    }
    let n: i128 = v as i128 * dpi as i128 * SUBPIXELS as i128;
    floor_div(n, (INCH * UNITS_PER_METRE as i64) as i128) as i64
}

/// The device position of a ground point.
pub fn to_device_point(p: &Point, frame: &TileFrame) -> (r: DevicePoint)
    requires
        point_ok(*p),
        frame.wf(),
    ensures
        r == device_point(*p, *frame),
{
    let x = scale_to_device(p.x - frame.min_x, frame.dpi_resolution);
    let y = scale_to_device(p.y - frame.min_y, frame.dpi_resolution);
    DevicePoint { x, y: frame.image_height as i64 * SUBPIXELS - y }
}

fn to_device_polyline(polyline: &Vec<Point>, frame: &TileFrame) -> (r: Vec<DevicePoint>)
    requires
        points_ok(polyline@),
        frame.wf(),
    ensures
        r@ == device_path(polyline@, *frame),
{
    let mut out: Vec<DevicePoint> = Vec::new();
    let mut i: usize = 0;
    while i < polyline.len()
        invariant
            i <= polyline.len(),
            points_ok(polyline@),
            frame.wf(),
            out@ =~= device_path(polyline@, *frame).subrange(0, i as int),
        decreases polyline.len() - i,
    {
        out.push(to_device_point(&polyline[i], frame));
        i = i + 1;
    }
    assert(out@ =~= device_path(polyline@, *frame));
    out
}

/// A dash pattern: the length of each dash and of the gap after it.
#[derive(Clone, Copy, Debug, PartialEq, Eq, Structural)]
pub struct Dash {
    pub length: i64,
    pub gap: i64,
}

/// Width and dash pattern of a stroke, in device units.
#[derive(Clone, Copy, Debug, PartialEq, Eq, Structural)]
pub struct StrokeStyle {
    pub width: i64,
    pub dash: Option<Dash>,
}

/// A length on the map, in hundredths of a millimetre, as device units.
pub open spec fn map_length_to_device(hundredths_mm: int, dpi: int) -> int {
    (hundredths_mm * dpi * (SUBPIXELS as int) * 10) / (100 * (INCH as int))
}

pub open spec fn tier_thickness(tier: Tier) -> int {
    match tier {
        Tier::Master => MASTER_CONTOUR_THICKNESS as int,
        Tier::Normal => CONTOUR_THICKNESS as int,
        Tier::Form => FORM_CONTOUR_THICKNESS as int,
    }
}

pub open spec fn style_of(tier: Tier, dpi: int) -> StrokeStyle {
    StrokeStyle {
        width: map_length_to_device(tier_thickness(tier), dpi) as i64,
        dash: match tier {
            Tier::Form => Some(
                Dash {
                    length: map_length_to_device(FORM_CONTOUR_DASH_LENGTH as int, dpi) as i64,
                    gap: map_length_to_device(FORM_CONTOUR_DASH_INTERVAL_LENGTH as int, dpi) as i64,
                },
            ),
            _ => None,
        },
    }
}

fn map_length(hundredths_mm: i64, dpi: u32) -> (r: i64)
    requires
        0 <= hundredths_mm <= 1000,
        dpi <= MAX_DPI,
    ensures
        r == map_length_to_device(hundredths_mm as int, dpi as int),
{
    proof {
        assert(hundredths_mm * dpi <= 1000 * 100000) by (nonlinear_arith)
            requires
                0 <= hundredths_mm <= 1000,
                0 <= dpi <= 100000,
        ;
        assert(hundredths_mm * dpi >= 0) by (nonlinear_arith)
            requires
                0 <= hundredths_mm,
                0 <= dpi,
        ;
    }
    let n: i64 = hundredths_mm * dpi as i64 * SUBPIXELS * 10;
    n / (100 * INCH)
}

/// The style in which a contour of `tier` is stroked.
pub fn stroke_style(tier: Tier, dpi_resolution: u32) -> (r: StrokeStyle)
    requires
        dpi_resolution <= MAX_DPI,
    ensures
        r == style_of(tier, dpi_resolution as int),
{
    let width = match tier {
        Tier::Master => map_length(MASTER_CONTOUR_THICKNESS, dpi_resolution),
        Tier::Normal => map_length(CONTOUR_THICKNESS, dpi_resolution),
        Tier::Form => map_length(FORM_CONTOUR_THICKNESS, dpi_resolution),
    };
    let dash = match tier {
        Tier::Form => Some(
            Dash {
                length: map_length(FORM_CONTOUR_DASH_LENGTH, dpi_resolution),
                gap: map_length(FORM_CONTOUR_DASH_INTERVAL_LENGTH, dpi_resolution),
            },
        ),
        _ => None,
    };
    StrokeStyle { width, dash }
}

/// One stroke to draw: the tier that styles it and its points on the raster.
pub struct Stroke {
    pub tier: Tier,
    pub points: Vec<DevicePoint>,
}

pub open spec fn stroke_views(v: Seq<Stroke>) -> Seq<(Tier, Seq<DevicePoint>)> {
    v.map_values(|s: Stroke| (s.tier, s.points@))
}

/// The polylines of `segs` that have at least two points, in order.
pub open spec fn drawable(segs: Seq<Seq<Point>>) -> Seq<Seq<Point>>
    decreases segs.len(),
{
    if segs.len() == 0 {
        seq![]
    } else if segs.last().len() >= 2 {
        drawable(segs.drop_last()).push(segs.last())
    } else {
        drawable(segs.drop_last())
    }
}

/// The polylines drawn for contour `c`: none with fewer than two points; the
/// whole contour for the master and normal tiers; the drawable selected segments
/// for the form tier.
pub open spec fn drawn_paths(
    c: Contour,
    cs: Seq<Contour>,
    intervals: ContourIntervals,
    cfg: FormLineConfig,
) -> Seq<Seq<Point>> {
    if c.polyline@.len() < 2 {
        seq![]
    } else if tier_of(c.elevation as int, intervals) == Tier::Form {
        drawable(form_segments(c, cs, intervals, cfg))
    } else {
        seq![c.polyline@]
    }
}

/// The strokes of contour `c`.
pub open spec fn contour_strokes(
    c: Contour,
    cs: Seq<Contour>,
    intervals: ContourIntervals,
    cfg: FormLineConfig,
    frame: TileFrame,
) -> Seq<(Tier, Seq<DevicePoint>)> {
    drawn_paths(c, cs, intervals, cfg).map_values(
        |s: Seq<Point>| (tier_of(c.elevation as int, intervals), device_path(s, frame)),
    )
}

/// The strokes of the first contours of a tile, in order.
pub open spec fn tile_strokes(
    prefix: Seq<Contour>,
    cs: Seq<Contour>,
    intervals: ContourIntervals,
    cfg: FormLineConfig,
    frame: TileFrame,
) -> Seq<(Tier, Seq<DevicePoint>)>
    decreases prefix.len(),
{
    if prefix.len() == 0 {
        seq![]
    } else {
        tile_strokes(prefix.drop_last(), cs, intervals, cfg, frame) + contour_strokes(
            prefix.last(),
            cs,
            intervals,
            cfg,
            frame,
        )
    }
}

fn push_drawable(
    out: &mut Vec<Stroke>,
    tier: Tier,
    segments: &Vec<Vec<Point>>,
    frame: &TileFrame,
)
    requires
        frame.wf(),
        forall|k: int| 0 <= k < segments@.len() ==> points_ok(#[trigger] segments@[k]@),
    ensures
        stroke_views(final(out)@) == stroke_views(old(out)@) + drawable(views_of(segments@)).map_values(
            |s: Seq<Point>| (tier, device_path(s, *frame)),
        ),
{
    let ghost start = stroke_views(out@);
    let mut j: usize = 0;
    while j < segments.len()
        invariant
            j <= segments.len(),
            frame.wf(),
            forall|k: int| 0 <= k < segments@.len() ==> points_ok(#[trigger] segments@[k]@),
            stroke_views(out@) == start + drawable(views_of(segments@.subrange(0, j as int))).map_values(
                |s: Seq<Point>| (tier, device_path(s, *frame)),
            ),
        decreases segments.len() - j,
    {
        let ghost before = out@;
        let ghost next = views_of(segments@.subrange(0, j as int + 1));
        assert(next.drop_last() =~= views_of(segments@.subrange(0, j as int)));
        assert(next.last() == segments@[j as int]@);
        if segments[j].len() >= 2 {
            let points = to_device_polyline(&segments[j], frame);
            out.push(Stroke { tier, points });
            assert(stroke_views(out@) =~= stroke_views(before).push((tier, points@)));
            assert(drawable(next).map_values(|s: Seq<Point>| (tier, device_path(s, *frame)))
                =~= drawable(next.drop_last()).map_values(|s: Seq<Point>| (tier, device_path(s, *frame))).push(
                (tier, device_path(next.last(), *frame)),
            ));
        }
        j = j + 1;
    }
    assert(segments@.subrange(0, segments.len() as int) =~= segments@);
}

/// Appends the strokes of `contour` to `out`.
pub fn plan_contour_strokes(
    out: &mut Vec<Stroke>,
    contour: &Contour,
    contours: &Vec<Contour>,
    intervals: &ContourIntervals,
    config: &FormLineConfig,
    frame: &TileFrame,
)
    requires
        intervals.wf(),
        frame.wf(),
        points_ok(contour.polyline@),
        contours_ok(contours@),
    ensures
        stroke_views(final(out)@) == stroke_views(old(out)@) + contour_strokes(
            *contour,
            contours@,
            *intervals,
            *config,
            *frame,
        ),
{
    let ghost f = |s: Seq<Point>| (tier_of(contour.elevation as int, *intervals), device_path(s, *frame));
    if contour.polyline.len() < 2 {
        assert(contour_strokes(*contour, contours@, *intervals, *config, *frame) =~= seq![]);
        assert(stroke_views(out@) + seq![] =~= stroke_views(out@));
        return;
    }
    let tier = classify_contour(contour.elevation, intervals);
    match tier {
        Tier::Form => {
            let segments = keep_relevant_form_contours(contour, contours, intervals, config);
            proof {
                let segs = form_segments(*contour, contours@, *intervals, *config);
                if !(segs.len() == 1 && segs[0] == contour.polyline@) {
                    lemma_segments_ok(kept_mask(*contour, contours@, *intervals, *config), contour.polyline@);
                }
                assert forall|k: int| 0 <= k < segments@.len() implies points_ok(#[trigger] segments@[k]@) by {
                    assert(views_of(segments@)[k] == segments@[k]@);
                }
            }
            push_drawable(out, tier, &segments, frame);
        },
        _ => {
            let ghost before = out@;
            let points = to_device_polyline(&contour.polyline, frame);
            out.push(Stroke { tier, points });
            assert(stroke_views(out@) =~= stroke_views(before) + contour_strokes(
                *contour,
                contours@,
                *intervals,
                *config,
                *frame,
            ));
        },
    }
}

/// The strokes of every contour of a tile, contour by contour.
pub fn plan_tile_strokes(
    contours: &Vec<Contour>,
    intervals: &ContourIntervals,
    config: &FormLineConfig,
    frame: &TileFrame,
) -> (r: Vec<Stroke>)
    requires
        intervals.wf(),
        frame.wf(),
        contours_ok(contours@),
    ensures
        stroke_views(r@) == tile_strokes(contours@, contours@, *intervals, *config, *frame),
{
    let mut out: Vec<Stroke> = Vec::new();
    let mut i: usize = 0;
    assert(stroke_views(out@) =~= seq![]);
    while i < contours.len()
        invariant
            i <= contours.len(),
            intervals.wf(),
            frame.wf(),
            contours_ok(contours@),
            stroke_views(out@) == tile_strokes(contours@.subrange(0, i as int), contours@, *intervals, *config, *frame),
        decreases contours.len() - i,
    {
        let ghost next = contours@.subrange(0, i as int + 1);
        assert(next.drop_last() =~= contours@.subrange(0, i as int));
        assert(next.last() == contours@[i as int]);
        plan_contour_strokes(&mut out, &contours[i], contours, intervals, config, frame);
        i = i + 1;
    }
    assert(contours@.subrange(0, contours.len() as int) =~= contours@);
    out
}

/// A contour with fewer than two points is not drawn, and leaves the neighbour
/// search of every form contour as it was.
pub proof fn lemma_degenerate_contour_ignored(
    c: Contour,
    cs: Seq<Contour>,
    p: Point,
    e: int,
    intervals: ContourIntervals,
    cfg: FormLineConfig,
    frame: TileFrame,
)
    requires
        c.polyline@.len() < 2,
    ensures
        contour_strokes(c, cs, intervals, cfg, frame) == Seq::<(Tier, Seq<DevicePoint>)>::empty(),
        level_dist(p, cs.push(c), e) == level_dist(p, cs, e),
        has_level(cs.push(c), e) == has_level(cs, e),
{
    assert(contour_strokes(c, cs, intervals, cfg, frame) =~= Seq::<(Tier, Seq<DevicePoint>)>::empty());
    assert(cs.push(c).drop_last() =~= cs);
    if has_level(cs.push(c), e) {
        let i = choose|i: int| 0 <= i < cs.push(c).len() && #[trigger] on_level(cs.push(c)[i], e);
        assert(i < cs.len());
        assert(on_level(cs[i], e));
    }
    if has_level(cs, e) {
        let i = choose|i: int| 0 <= i < cs.len() && #[trigger] on_level(cs[i], e);
        assert(on_level(cs.push(c)[i], e));
    }
}

} // verus!
