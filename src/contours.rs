//! Classification of contours into tiers, and the selection of the parts of a form
//! contour worth drawing.
use crate::config::FormLineConfig;
use crate::form_lines::{
    add_tails_to_tagged_form_line_polyline, extract_kept_segments, gaps_removed, is_run, lemma_runs_grow,
    remove_gaps_from_tagged_form_line_polyline, segments_of, tails_added, views_of,
};
use crate::geometry::{
    distance_point_to_polyline, min_int, path_len, point_ok, points_ok, poly_dist, Point,
};
use vstd::prelude::*;

verus! {

#[derive(Clone, Copy, Debug, PartialEq, Eq, Structural)]
pub enum Tier {
    Master,
    Normal,
    Form,
}

/// The contour intervals, in elevation units. A form line lies half a normal
/// interval away from its neighbours.
#[derive(Clone, Copy, Debug, PartialEq, Eq, Structural)]
pub struct ContourIntervals {
    pub normal_interval: i64,
    pub master_interval: i64,
}

impl ContourIntervals {
    pub open spec fn wf(&self) -> bool {
        self.normal_interval > 0 && self.master_interval > 0 && self.normal_interval % 2 == 0
    }

    pub open spec fn half(&self) -> int {
        self.normal_interval / 2
    }
}

/// The tier of an elevation: master on multiples of the master interval, else
/// normal on multiples of the normal interval, else form.
pub open spec fn tier_of(elevation: int, intervals: ContourIntervals) -> Tier {
    if elevation % (intervals.master_interval as int) == 0 {
        Tier::Master
    } else if elevation % (intervals.normal_interval as int) == 0 {
        Tier::Normal
    } else {
        Tier::Form
    }
}

proof fn lemma_divisible_negated(e: int, m: int)
    requires
        m > 0,
    ensures
        (e % m == 0) == ((-e) % m == 0),
{
    vstd::arithmetic::div_mod::lemma_fundamental_div_mod(e, m);
    vstd::arithmetic::div_mod::lemma_fundamental_div_mod(-e, m);
    if e % m == 0 {
        let q = e / m;
        assert(-e == (-q) * m) by (nonlinear_arith)
            requires
                e == m * q + e % m,
                e % m == 0,
        ;
        vstd::arithmetic::div_mod::lemma_mod_multiples_basic(-q, m);
    }
    if (-e) % m == 0 {
        let q = (-e) / m;
        assert(e == (-q) * m) by (nonlinear_arith)
            requires
                -e == m * q + (-e) % m,
                (-e) % m == 0,
        ;
        vstd::arithmetic::div_mod::lemma_mod_multiples_basic(-q, m);
    }
}

fn divisible(elevation: i64, interval: i64) -> (r: bool)
    requires
        interval > 0,
    ensures
        r == (elevation as int % interval as int == 0),
{
    proof {
        lemma_divisible_negated(elevation as int, interval as int);
    }
    let magnitude: u128 = if elevation < 0 {
        (-(elevation as i128)) as u128
    } else {
        elevation as u128
    };
    magnitude % (interval as u128) == 0
}

pub fn classify_contour(elevation: i64, intervals: &ContourIntervals) -> (r: Tier)
    requires
        intervals.wf(),
    ensures
        r == tier_of(elevation as int, *intervals),
{
    if divisible(elevation, intervals.master_interval) {
        Tier::Master
    } else if divisible(elevation, intervals.normal_interval) {
        Tier::Normal
    } else {
        Tier::Form
    }
}

/// One connected part of a contour line, at the elevation of its feature.
pub struct Contour {
    pub elevation: i64,
    pub polyline: Vec<Point>,
}

pub open spec fn contours_ok(cs: Seq<Contour>) -> bool {
    forall|i: int| 0 <= i < cs.len() ==> points_ok(#[trigger] cs[i].polyline@)
}

/// A contour that takes part in neighbour searches: at elevation `e`, with at
/// least two points.
pub open spec fn on_level(c: Contour, e: int) -> bool {
    c.elevation == e && c.polyline@.len() >= 2
}

/// Some contour of `cs` lies at elevation `e` and has at least two points.
pub open spec fn has_level(cs: Seq<Contour>, e: int) -> bool {
    exists|i: int| 0 <= i < cs.len() && #[trigger] on_level(cs[i], e)
}

/// Distance from `p` to the nearest contour of `cs` on level `e`, if there is one.
pub open spec fn level_dist(p: Point, cs: Seq<Contour>, e: int) -> Option<int>
    decreases cs.len(),
{
    if cs.len() == 0 {
        None
    } else {
        let rest = level_dist(p, cs.drop_last(), e);
        let c = cs.last();
        if on_level(c, e) {
            let d = poly_dist(p, c.polyline@);
            match rest {
                None => Some(d),
                Some(r) => Some(min_int(r, d)),
            }
        } else {
            rest
        }
    }
}

pub proof fn lemma_level_dist_some(p: Point, cs: Seq<Contour>, e: int)
    ensures
        level_dist(p, cs, e) is Some <==> has_level(cs, e),
    decreases cs.len(),
{
    if cs.len() > 0 {
        let init = cs.drop_last();
        lemma_level_dist_some(p, init, e);
        if has_level(init, e) {
            let i = choose|i: int| 0 <= i < init.len() && #[trigger] on_level(init[i], e);
            assert(on_level(cs[i], e));
        }
        if has_level(cs, e) && !on_level(cs.last(), e) {
            let i = choose|i: int| 0 <= i < cs.len() && #[trigger] on_level(cs[i], e);
            assert(on_level(init[i], e));
        }
        if on_level(cs.last(), e) {
            assert(on_level(cs[cs.len() - 1], e));
        }
    }
}

/// Distance from `point` to the nearest contour on level `elevation`.
fn distance_to_level(point: &Point, contours: &Vec<Contour>, elevation: i128) -> (r: Option<u64>)
    requires
        point_ok(*point),
        contours_ok(contours@),
    ensures
        r is Some <==> level_dist(*point, contours@, elevation as int) is Some,
        r is Some ==> r->0 == level_dist(*point, contours@, elevation as int)->0,
        r is Some ==> r->0 < 0x1_0000_0000,
{
    let mut best: Option<u64> = None;
    let mut i: usize = 0;
    while i < contours.len()
        invariant
            i <= contours.len(),
            point_ok(*point),
            contours_ok(contours@),
            best is Some <==> level_dist(*point, contours@.subrange(0, i as int), elevation as int) is Some,
            best is Some ==> best->0 == level_dist(*point, contours@.subrange(0, i as int), elevation as int)->0,
            best is Some ==> best->0 < 0x1_0000_0000,
        decreases contours.len() - i,
    {
        let ghost prefix = contours@.subrange(0, i as int + 1);
        assert(prefix.drop_last() =~= contours@.subrange(0, i as int));
        assert(prefix.last() == contours@[i as int]);
        let contour = &contours[i];
        if contour.elevation as i128 == elevation && contour.polyline.len() >= 2 {
            let d = distance_point_to_polyline(point, &contour.polyline);
            best = match best {
                None => Some(d),
                Some(b) => if d < b { Some(d) } else { Some(b) },
            };
        }
        i = i + 1;
    }
    assert(contours@.subrange(0, contours.len() as int) =~= contours@);
    best
}

/// Whether some contour with at least two points lies at `elevation`.
fn has_contour_on_level(contours: &Vec<Contour>, elevation: i128) -> (r: bool)
    ensures
        r == has_level(contours@, elevation as int),
{
    let mut i: usize = 0;
    while i < contours.len()
        invariant
            i <= contours.len(),
            forall|j: int| 0 <= j < i ==> !#[trigger] on_level(contours@[j], elevation as int),
        decreases contours.len() - i,
    {
        if contours[i].elevation as i128 == elevation && contours[i].polyline.len() >= 2 {
            assert(on_level(contours@[i as int], elevation as int));
            return true;
        }
        i = i + 1;
    }
    false
}

/// The asymmetry `|da - db| / min(da, db)` exceeds `threshold` thousandths. Written
/// without the division, so that a zero distance counts any difference as
/// asymmetric.
pub open spec fn asymmetric(da: int, db: int, threshold: int) -> bool {
    let diff = if da >= db { da - db } else { db - da };
    diff * 1000 > threshold * min_int(da, db)
}

/// Whether a vertex at distance `da` from the contour above and `db` from the one
/// below is kept.
pub open spec fn keep_vertex(da: int, db: int, cfg: FormLineConfig) -> bool {
    (da > cfg.min_distance_to_contour && db > cfg.min_distance_to_contour && asymmetric(
        da,
        db,
        cfg.threshold as int,
    )) || da > cfg.max_distance_to_contour || db > cfg.max_distance_to_contour
}

pub fn should_keep_vertex(distance_above: u64, distance_below: u64, config: &FormLineConfig) -> (r: bool)
    requires
        distance_above < 0x1_0000_0000,
        distance_below < 0x1_0000_0000,
    ensures
        r == keep_vertex(distance_above as int, distance_below as int, *config),
{
    let (da, db) = (distance_above, distance_below);
    let diff: u128 = if da >= db { (da - db) as u128 } else { (db - da) as u128 };
    let nearest: u128 = if da <= db { da as u128 } else { db as u128 };
    proof {
        assert(config.threshold * nearest <= 0xffff_ffff_ffff_ffff * 0x1_0000_0000) by (nonlinear_arith)
            requires
                config.threshold <= 0xffff_ffff_ffff_ffff,
                nearest <= 0x1_0000_0000,
        ;
    }
    let asym = diff * 1000 > config.threshold as u128 * nearest;
    (da > config.min_distance_to_contour && db > config.min_distance_to_contour && asym)
        || da > config.max_distance_to_contour || db > config.max_distance_to_contour
}

/// The elevation of the contours above a form contour.
pub open spec fn above_level(form: Contour, intervals: ContourIntervals) -> int {
    form.elevation + intervals.half()
}

/// The elevation of the contours below a form contour.
pub open spec fn below_level(form: Contour, intervals: ContourIntervals) -> int {
    form.elevation - intervals.half()
}

/// The first keep/discard decision on each vertex of a form contour.
pub open spec fn vertex_tags(
    form: Contour,
    cs: Seq<Contour>,
    intervals: ContourIntervals,
    cfg: FormLineConfig,
) -> Seq<bool> {
    Seq::new(
        form.polyline@.len(),
        |i: int|
            keep_vertex(
                level_dist(form.polyline@[i], cs, above_level(form, intervals))->0,
                level_dist(form.polyline@[i], cs, below_level(form, intervals))->0,
                cfg,
            ),
    )
}

/// The final keep/discard decision on each vertex of a form contour: the first
/// decisions, with short gaps bridged and tails added.
pub open spec fn kept_mask(
    form: Contour,
    cs: Seq<Contour>,
    intervals: ContourIntervals,
    cfg: FormLineConfig,
) -> Seq<bool> {
    let pts = form.polyline@;
    let t = vertex_tags(form, cs, intervals, cfg);
    tails_added(gaps_removed(t, pts, cfg.min_gap_length as int), pts, cfg.additional_tail_length as int)
}

/// The parts of a form contour that are drawn. Without a neighbour on either
/// side, the whole contour.
pub open spec fn form_segments(
    form: Contour,
    cs: Seq<Contour>,
    intervals: ContourIntervals,
    cfg: FormLineConfig,
) -> Seq<Seq<Point>> {
    if !has_level(cs, above_level(form, intervals)) || !has_level(cs, below_level(form, intervals)) {
        seq![form.polyline@]
    } else {
        segments_of(kept_mask(form, cs, intervals, cfg), form.polyline@)
    }
}

fn copy_polyline(v: &Vec<Point>) -> (r: Vec<Point>)
    ensures
        r@ == v@,
{
    let mut out: Vec<Point> = Vec::new();
    let mut i: usize = 0;
    while i < v.len()
        invariant
            i <= v.len(),
            out@ =~= v@.subrange(0, i as int),
        decreases v.len() - i,
    {
        out.push(v[i]);
        i = i + 1;
    }
    assert(out@ =~= v@);
    out
}

/// The segments of `form_contour` worth drawing, given all contours of the tile.
pub fn keep_relevant_form_contours(
    form_contour: &Contour,
    contours: &Vec<Contour>,
    intervals: &ContourIntervals,
    config: &FormLineConfig,
) -> (r: Vec<Vec<Point>>)
    requires
        intervals.wf(),
        points_ok(form_contour.polyline@),
        contours_ok(contours@),
    ensures
        views_of(r@) == form_segments(*form_contour, contours@, *intervals, *config),
{
    let half = (intervals.normal_interval / 2) as i128;
    let above = form_contour.elevation as i128 + half;
    let below = form_contour.elevation as i128 - half;
    let ghost cs = contours@;
    let ghost pts = form_contour.polyline@;
    assert(half == intervals.half());
    assert(above == above_level(*form_contour, *intervals));
    assert(below == below_level(*form_contour, *intervals));
    let polyline = &form_contour.polyline;
    let n = polyline.len();
    if !has_contour_on_level(contours, above) || !has_contour_on_level(contours, below) {
        let mut r: Vec<Vec<Point>> = Vec::new();
        r.push(copy_polyline(polyline));
        assert(views_of(r@) =~= seq![pts]);
        return r;
    }
    let ghost t = vertex_tags(*form_contour, cs, *intervals, *config);
    let mut tags: Vec<bool> = Vec::new();
    let mut i: usize = 0;
    while i < n
        invariant
            i <= n == polyline.len(),
            pts == polyline@,
            pts == form_contour.polyline@,
            points_ok(pts),
            contours_ok(cs),
            cs == contours@,
            has_level(cs, above as int),
            has_level(cs, below as int),
            above == above_level(*form_contour, *intervals),
            below == below_level(*form_contour, *intervals),
            t == vertex_tags(*form_contour, cs, *intervals, *config),
            tags@ =~= t.subrange(0, i as int),
        decreases n - i,
    {
        proof {
            lemma_level_dist_some(pts[i as int], cs, above as int);
            lemma_level_dist_some(pts[i as int], cs, below as int);
        }
        let da = distance_to_level(&polyline[i], contours, above);
        let db = distance_to_level(&polyline[i], contours, below);
        let keep = match (da, db) {
            (Some(a), Some(b)) => should_keep_vertex(a, b, config),
            _ => false,
        };
        assert(keep == t[i as int]);
        tags.push(keep);
        i = i + 1;
    }
    assert(tags@ =~= t);
    let gapless = remove_gaps_from_tagged_form_line_polyline(&tags, polyline, config.min_gap_length);
    let tailed = add_tails_to_tagged_form_line_polyline(&gapless, polyline, config.additional_tail_length);
    extract_kept_segments(&tailed, polyline)
}

/// Every elevation falls in exactly one tier: master on multiples of the master
/// interval, normal on the other multiples of the normal interval, form elsewhere.
pub proof fn lemma_tier_total(elevation: int, intervals: ContourIntervals)
    requires
        intervals.wf(),
    ensures
        (tier_of(elevation, intervals) == Tier::Master) == (elevation % (intervals.master_interval as int) == 0),
        (tier_of(elevation, intervals) == Tier::Normal) == (elevation % (intervals.master_interval as int) != 0
            && elevation % (intervals.normal_interval as int) == 0),
        (tier_of(elevation, intervals) == Tier::Form) == (elevation % (intervals.master_interval as int) != 0
            && elevation % (intervals.normal_interval as int) != 0),
{
}

/// An elevation on both intervals is a master contour, never a normal one.
pub proof fn lemma_master_before_normal(elevation: int, intervals: ContourIntervals)
    requires
        intervals.wf(),
        elevation % (intervals.master_interval as int) == 0,
        elevation % (intervals.normal_interval as int) == 0,
    ensures
        tier_of(elevation, intervals) == Tier::Master,
{
}

/// A form contour without a contour above it or without one below it is kept
/// whole, as a single segment.
pub proof fn lemma_missing_neighbour_keeps_whole(
    form: Contour,
    cs: Seq<Contour>,
    intervals: ContourIntervals,
    cfg: FormLineConfig,
)
    requires
        !has_level(cs, above_level(form, intervals)) || !has_level(cs, below_level(form, intervals)),
    ensures
        form_segments(form, cs, intervals, cfg) == seq![form.polyline@],
{
}

/// With every other setting fixed, a longer additional tail keeps every vertex that
/// a shorter one keeps, and every run of kept vertices under the shorter tail lies
/// within a run kept under the longer one, whose arc length is at least as great.
pub proof fn lemma_longer_tail_keeps_more(
    form: Contour,
    cs: Seq<Contour>,
    intervals: ContourIntervals,
    cfg1: FormLineConfig,
    cfg2: FormLineConfig,
)
    requires
        points_ok(form.polyline@),
        cfg1.threshold == cfg2.threshold,
        cfg1.min_distance_to_contour == cfg2.min_distance_to_contour,
        cfg1.max_distance_to_contour == cfg2.max_distance_to_contour,
        cfg1.min_gap_length == cfg2.min_gap_length,
        cfg1.additional_tail_length <= cfg2.additional_tail_length,
    ensures
        forall|k: int|
            0 <= k < form.polyline@.len() && #[trigger] kept_mask(form, cs, intervals, cfg1)[k]
                ==> kept_mask(form, cs, intervals, cfg2)[k],
        forall|a: int, b: int|
            #[trigger] is_run(kept_mask(form, cs, intervals, cfg1), a, b) ==> exists|a2: int, b2: int|
                is_run(kept_mask(form, cs, intervals, cfg2), a2, b2) && a2 <= a && b <= b2
                    && path_len(form.polyline@, a, b) <= path_len(form.polyline@, a2, b2),
{
    let pts = form.polyline@;
    assert(vertex_tags(form, cs, intervals, cfg1) =~= vertex_tags(form, cs, intervals, cfg2));
    let g = gaps_removed(vertex_tags(form, cs, intervals, cfg1), pts, cfg1.min_gap_length as int);
    crate::form_lines::lemma_tails_monotone(
        g,
        pts,
        cfg1.additional_tail_length as int,
        cfg2.additional_tail_length as int,
    );
    let m1 = kept_mask(form, cs, intervals, cfg1);
    let m2 = kept_mask(form, cs, intervals, cfg2);
    assert forall|a: int, b: int| #[trigger] is_run(m1, a, b) implies exists|a2: int, b2: int|
        is_run(m2, a2, b2) && a2 <= a && b <= b2 && path_len(pts, a, b) <= path_len(pts, a2, b2) by {
        lemma_runs_grow(m1, m2, pts, a, b);
    }
}

} // verus!
