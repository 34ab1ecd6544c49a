//! Planar geometry on integer coordinates.
//!
//! Coordinates are whole multiples of a fixed map unit (for instance centimetres in a
//! projected system). Euclidean lengths are reported rounded down to a whole unit.
use vstd::prelude::*;

verus! {

/// Largest magnitude a coordinate may have.
pub const COORD_LIMIT: i64 = 1073741824;

/// A point of the projected plane.
#[derive(Clone, Copy, Debug, PartialEq, Eq, Structural)]
pub struct Point {
    pub x: i64,
    pub y: i64,
}

pub open spec fn point_ok(p: Point) -> bool {
    -COORD_LIMIT <= p.x <= COORD_LIMIT && -COORD_LIMIT <= p.y <= COORD_LIMIT
}

pub open spec fn points_ok(s: Seq<Point>) -> bool {
    forall|i: int| 0 <= i < s.len() ==> #[trigger] point_ok(s[i])
}

/// Squared Euclidean distance.
pub open spec fn sq_dist(p: Point, q: Point) -> int {
    (p.x - q.x) * (p.x - q.x) + (p.y - q.y) * (p.y - q.y)
}

pub open spec fn is_floor_sqrt(n: int, r: int) -> bool {
    0 <= r && r * r <= n && n < (r + 1) * (r + 1)
}

/// The square root of `n`, rounded down.
pub open spec fn floor_sqrt(n: int) -> int {
    choose|r: int| is_floor_sqrt(n, r)
}

/// Distance between two points, rounded down to a whole unit.
pub open spec fn seg_len(p: Point, q: Point) -> int {
    floor_sqrt(sq_dist(p, q))
}

/// Scalar product of `b - a` with `p - a`.
pub open spec fn dot(p: Point, a: Point, b: Point) -> int {
    (b.x - a.x) * (p.x - a.x) + (b.y - a.y) * (p.y - a.y)
}

/// Cross product of `b - a` with `p - a`.
pub open spec fn cross(p: Point, a: Point, b: Point) -> int {
    (b.x - a.x) * (p.y - a.y) - (b.y - a.y) * (p.x - a.x)
}

/// Distance from `p` to the segment `[a, b]`, rounded down.
///
/// The projection of `p` on the line through `a` and `b` is `dot / |ab|^2`; below
/// 0 the nearest point is `a`, above 1 it is `b`, and in between the distance is the
/// perpendicular one, `|cross| / |ab|`. A segment whose ends coincide is the point `a`.
pub open spec fn seg_dist(p: Point, a: Point, b: Point) -> int {
    let l = sq_dist(a, b);
    if l == 0 || dot(p, a, b) < 0 {
        seg_len(p, a)
    } else if dot(p, a, b) > l {
        seg_len(p, b)
    } else {
        floor_sqrt(cross(p, a, b) * cross(p, a, b) / l)
    }
}

pub open spec fn min_int(a: int, b: int) -> int {
    if a <= b {
        a
    } else {
        b
    }
}

/// Distance from `p` to a non-empty polyline: to its only point, or the least
/// distance to one of its segments.
pub open spec fn poly_dist(p: Point, s: Seq<Point>) -> int
    decreases s.len(),
{
    if s.len() <= 1 {
        seg_len(p, s[0])
    } else {
        min_int(poly_dist(p, s.drop_last()), seg_dist(p, s[s.len() - 2], s[s.len() - 1]))
    }
}

/// Arc length of the polyline `s` from vertex `a` to vertex `b`, each segment
/// rounded down.
pub open spec fn path_len(s: Seq<Point>, a: int, b: int) -> int
    decreases b - a,
{
    if b <= a {
        0
    } else {
        path_len(s, a, b - 1) + seg_len(s[b - 1], s[b])
    }
}

/// Arc length of a whole polyline; 0 with fewer than two points.
pub open spec fn poly_len(s: Seq<Point>) -> int {
    path_len(s, 0, s.len() - 1)
}

pub proof fn lemma_floor_sqrt_unique(n: int, r1: int, r2: int)
    requires
        is_floor_sqrt(n, r1),
        is_floor_sqrt(n, r2),
    ensures
        r1 == r2,
{
    if r1 < r2 {
        assert((r1 + 1) * (r1 + 1) <= r2 * r2) by (nonlinear_arith)
            requires
                0 <= r1 + 1 <= r2,
        ;
    } else if r2 < r1 {
        assert((r2 + 1) * (r2 + 1) <= r1 * r1) by (nonlinear_arith)
            requires
                0 <= r2 + 1 <= r1,
        ;
    }
}

/// Every natural number has a rounded-down square root.
pub proof fn lemma_floor_sqrt_exists(n: int)
    requires
        n >= 0,
    ensures
        is_floor_sqrt(n, floor_sqrt(n)),
    decreases n,
{
    if n == 0 {
        assert(is_floor_sqrt(0, 0));
    } else {
        lemma_floor_sqrt_exists(n - 1);
        let r = floor_sqrt(n - 1);
        if (r + 1) * (r + 1) <= n {
            assert(n < (r + 2) * (r + 2)) by (nonlinear_arith)
                requires
                    0 <= r,
                    n - 1 < (r + 1) * (r + 1),
            ;
            assert(is_floor_sqrt(n, r + 1));
        } else {
            assert(is_floor_sqrt(n, r));
        }
    }
}

pub proof fn lemma_floor_sqrt_is(n: int, r: int)
    requires
        is_floor_sqrt(n, r),
    ensures
        floor_sqrt(n) == r,
{
    let c = floor_sqrt(n);
    assert(is_floor_sqrt(n, c));
    lemma_floor_sqrt_unique(n, r, c);
}

/// Square root rounded down, by bisection.
pub fn isqrt(n: u64) -> (r: u64)
    ensures
        is_floor_sqrt(n as int, r as int),
        r == floor_sqrt(n as int),
        r < 0x1_0000_0000,
{
    let mut lo: u64 = 0;
    let mut hi: u64 = 0x1_0000_0000;
    assert(0x1_0000_0000 * 0x1_0000_0000 == 0x1_0000_0000_0000_0000) by (nonlinear_arith);
    while hi - lo > 1
        invariant
            lo < hi <= 0x1_0000_0000,
            lo * lo <= n,
            n < hi * hi,
        decreases hi - lo,
    {
        let mid: u64 = lo + (hi - lo) / 2;
        assert(mid * mid < 0x1_0000_0000_0000_0000) by (nonlinear_arith)
            requires
                mid < 0x1_0000_0000,
        ;
        if mid * mid <= n {
            lo = mid;
        } else {
            hi = mid;
        }
    }
    proof {
        lemma_floor_sqrt_is(n as int, lo as int);
    }
    lo
}

/// Length of the vector `(x, y)`, rounded down.
pub fn magnitude(x: i64, y: i64) -> (r: u64)
    requires
        -2 * COORD_LIMIT <= x <= 2 * COORD_LIMIT,
        -2 * COORD_LIMIT <= y <= 2 * COORD_LIMIT,
    ensures
        r == floor_sqrt(x * x + y * y),
        r < 0x1_0000_0000,
{
    assert(x * x <= 0x4000_0000_0000_0000) by (nonlinear_arith)
        requires
            -0x8000_0000 <= x <= 0x8000_0000,
    ;
    assert(y * y <= 0x4000_0000_0000_0000) by (nonlinear_arith)
        requires
            -0x8000_0000 <= y <= 0x8000_0000,
    ;
    assert(x * x >= 0 && y * y >= 0) by (nonlinear_arith);
    let xx = (x as i128 * x as i128) as u64;
    let yy = (y as i128 * y as i128) as u64;
    isqrt(xx + yy)
}

/// Scalar product of `(x1, y1)` and `(x2, y2)`.
pub fn dot_product(x1: i64, y1: i64, x2: i64, y2: i64) -> (r: i128)
    requires
        -2 * COORD_LIMIT <= x1 <= 2 * COORD_LIMIT,
        -2 * COORD_LIMIT <= y1 <= 2 * COORD_LIMIT,
        -2 * COORD_LIMIT <= x2 <= 2 * COORD_LIMIT,
        -2 * COORD_LIMIT <= y2 <= 2 * COORD_LIMIT,
    ensures
        r == x1 * x2 + y1 * y2,
{
    proof {
        lemma_product_bound(x1 as int, x2 as int);
        lemma_product_bound(y1 as int, y2 as int);
    }
    x1 as i128 * x2 as i128 + y1 as i128 * y2 as i128
}

proof fn lemma_product_bound(a: int, b: int)
    requires
        -0x8000_0000 <= a <= 0x8000_0000,
        -0x8000_0000 <= b <= 0x8000_0000,
    ensures
        -0x4000_0000_0000_0000 <= a * b <= 0x4000_0000_0000_0000,
{
    assert(-0x4000_0000_0000_0000 <= a * b <= 0x4000_0000_0000_0000) by (nonlinear_arith)
        requires
            -0x8000_0000 <= a <= 0x8000_0000,
            -0x8000_0000 <= b <= 0x8000_0000,
    ;
}

/// Distance between two points, rounded down.
pub fn distance(p: &Point, q: &Point) -> (r: u64)
    requires
        point_ok(*p),
        point_ok(*q),
    ensures
        r == seg_len(*p, *q),
        r < 0x1_0000_0000,
{
    proof {
        lemma_sq_dist_symmetric(*p, *q);
    }
    magnitude(q.x - p.x, q.y - p.y)
}

pub proof fn lemma_sq_dist_symmetric(p: Point, q: Point)
    ensures
        sq_dist(p, q) == sq_dist(q, p),
        sq_dist(p, q) == (q.x - p.x) * (q.x - p.x) + (q.y - p.y) * (q.y - p.y),
        sq_dist(p, q) >= 0,
{
    let (a, b, c, d) = (p.x as int, q.x as int, p.y as int, q.y as int);
    assert((a - b) * (a - b) == (b - a) * (b - a)) by (nonlinear_arith);
    assert((c - d) * (c - d) == (d - c) * (d - c)) by (nonlinear_arith);
    assert((a - b) * (a - b) >= 0 && (c - d) * (c - d) >= 0) by (nonlinear_arith);
}

proof fn lemma_lagrange(u1: int, u2: int, v1: int, v2: int)
    ensures
        (v1 * u2 - v2 * u1) * (v1 * u2 - v2 * u1) + (v1 * u1 + v2 * u2) * (v1 * u1 + v2 * u2)
            == (u1 * u1 + u2 * u2) * (v1 * v1 + v2 * v2),
{
    let (a, b, c, d) = (v1 * u2, v2 * u1, v1 * u1, v2 * u2);
    assert((a - b) * (a - b) == a * a - 2 * (a * b) + b * b) by (nonlinear_arith);
    assert((c + d) * (c + d) == c * c + 2 * (c * d) + d * d) by (nonlinear_arith);
    assert(a * b == c * d) by (nonlinear_arith)
        requires
            a == v1 * u2,
            b == v2 * u1,
            c == v1 * u1,
            d == v2 * u2,
    ;
    let (x, y, p, q) = (u1 * u1, u2 * u2, v1 * v1, v2 * v2);
    assert(a * a == p * y && b * b == q * x && c * c == p * x && d * d == q * y) by (nonlinear_arith)
        requires
            a == v1 * u2,
            b == v2 * u1,
            c == v1 * u1,
            d == v2 * u2,
            x == u1 * u1,
            y == u2 * u2,
            p == v1 * v1,
            q == v2 * v2,
    ;
    assert((x + y) * (p + q) == p * x + p * y + q * x + q * y) by (nonlinear_arith);
}

/// Distance from `point` to the segment `[extremity1, extremity2]`, rounded down.
pub fn distance_point_to_segment(point: &Point, extremity1: Point, extremity2: Point) -> (r: u64)
    requires
        point_ok(*point),
        point_ok(extremity1),
        point_ok(extremity2),
    ensures
        r == seg_dist(*point, extremity1, extremity2),
        r < 0x1_0000_0000,
{
    let (p, a, b) = (*point, extremity1, extremity2);
    let abx = b.x - a.x;
    let aby = b.y - a.y;
    let apx = p.x - a.x;
    let apy = p.y - a.y;
    let l = dot_product(abx, aby, abx, aby);
    let d = dot_product(abx, aby, apx, apy);
    proof {
        lemma_sq_dist_symmetric(a, b);
        lemma_sq_dist_symmetric(p, a);
        lemma_sq_dist_symmetric(p, b);
    }
    if l == 0 || d < 0 {
        return magnitude(apx, apy);
    } else if d > l {
        return magnitude(p.x - b.x, p.y - b.y);
    }
    proof {
        lemma_product_bound(abx as int, apy as int);
        lemma_product_bound(aby as int, apx as int);
    }
    let c: i128 = abx as i128 * apy as i128 - aby as i128 * apx as i128;
    let ghost m = apx * apx + apy * apy;
    proof {
        assert(c * c <= 0x4000_0000_0000_0000_0000_0000_0000_0000 && c * c >= 0) by (nonlinear_arith)
            requires
                -0x8000_0000_0000_0000 <= c <= 0x8000_0000_0000_0000,
        ;
        lemma_lagrange(apx as int, apy as int, abx as int, aby as int);
        assert(d * d >= 0) by (nonlinear_arith);
        assert(m <= 0x8000_0000_0000_0000) by {
            lemma_product_bound(apx as int, apx as int);
            lemma_product_bound(apy as int, apy as int);
        }
        assert((c * c) / (l as int) <= m) by (nonlinear_arith)
            requires
                0 <= c * c <= m * l,
                l > 0,
        ;
        assert(0 <= (c * c) / (l as int)) by (nonlinear_arith)
            requires
                0 <= c * c,
                l > 0,
        ;
    }
    let q = (c * c) as u128 / l as u128;
    isqrt(q as u64)
}

/// Distance from `point` to a non-empty polyline, rounded down.
pub fn distance_point_to_polyline(point: &Point, polyline: &Vec<Point>) -> (r: u64)
    requires
        polyline.len() > 0,
        point_ok(*point),
        points_ok(polyline@),
    ensures
        r == poly_dist(*point, polyline@),
        r < 0x1_0000_0000,
{
    let mut distance = distance(point, &polyline[0]);
    let mut i: usize = 1;
    assert(polyline@.subrange(0, 1).drop_last().len() == 0);
    while i < polyline.len()
        invariant
            1 <= i <= polyline.len(),
            point_ok(*point),
            points_ok(polyline@),
            distance == poly_dist(*point, polyline@.subrange(0, i as int)),
            distance < 0x1_0000_0000,
        decreases polyline.len() - i,
    {
        let d = distance_point_to_segment(point, polyline[i - 1], polyline[i]);
        let ghost prefix = polyline@.subrange(0, i as int + 1);
        assert(prefix.drop_last() =~= polyline@.subrange(0, i as int));
        if d < distance {
            distance = d;
        }
        i = i + 1;
    }
    assert(polyline@.subrange(0, polyline.len() as int) =~= polyline@);
    distance
}

/// Segments rounded down are at most `2^32` long.
pub proof fn lemma_seg_len_bound(p: Point, q: Point)
    requires
        point_ok(p),
        point_ok(q),
    ensures
        0 <= seg_len(p, q) < 0x1_0000_0000,
{
    lemma_sq_dist_symmetric(p, q);
    lemma_product_bound(q.x - p.x, q.x - p.x);
    lemma_product_bound(q.y - p.y, q.y - p.y);
    let r = floor_sqrt(sq_dist(p, q));
    let n = sq_dist(p, q);
    lemma_floor_sqrt_exists(n);
    assert(r < 0x1_0000_0000) by (nonlinear_arith)
        requires
            0 <= r,
            r * r <= n,
            n <= 0x8000_0000_0000_0000,
    ;
}

/// Arc lengths are non-negative and at most `2^32` per segment.
pub proof fn lemma_path_len_bound(s: Seq<Point>, a: int, b: int)
    requires
        points_ok(s),
        0 <= a,
        b < s.len(),
    ensures
        0 <= path_len(s, a, b),
        a <= b ==> path_len(s, a, b) <= (b - a) * 0x1_0000_0000,
    decreases b - a,
{
    if b > a {
        lemma_path_len_bound(s, a, b - 1);
        lemma_seg_len_bound(s[b - 1], s[b]);
    }
}

/// Adding a vertex in front of a path adds its first segment.
pub proof fn lemma_path_len_front(s: Seq<Point>, a: int, b: int)
    requires
        0 < a <= b,
    ensures
        path_len(s, a - 1, b) == seg_len(s[a - 1], s[a]) + path_len(s, a, b),
    decreases b - a,
{
    if b > a {
        lemma_path_len_front(s, a, b - 1);
        assert(path_len(s, a - 1, b) == path_len(s, a - 1, b - 1) + seg_len(s[b - 1], s[b]));
        assert(path_len(s, a, b) == path_len(s, a, b - 1) + seg_len(s[b - 1], s[b]));
    } else {
        assert(path_len(s, a - 1, a - 1) == 0);
        assert(path_len(s, a, a) == 0);
    }
}

/// A path that contains another is at least as long.
pub proof fn lemma_path_len_monotone(s: Seq<Point>, a: int, b: int, a2: int, b2: int)
    requires
        points_ok(s),
        0 <= a2 <= a <= b <= b2 < s.len(),
    ensures
        path_len(s, a, b) <= path_len(s, a2, b2),
    decreases (a - a2) + (b2 - b),
{
    if b2 > b {
        lemma_path_len_monotone(s, a, b, a2, b2 - 1);
        lemma_seg_len_bound(s[b2 - 1], s[b2]);
    } else if a2 < a {
        lemma_path_len_front(s, a2 + 1, b2);
        lemma_path_len_monotone(s, a, b, a2 + 1, b2);
        lemma_seg_len_bound(s[a2], s[a2 + 1]);
    }
}

/// Arc length of `polyline` from vertex `from` to vertex `to`.
pub fn path_length(polyline: &Vec<Point>, from: usize, to: usize) -> (r: u128)
    requires
        from <= to < polyline.len(),
        points_ok(polyline@),
    ensures
        r == path_len(polyline@, from as int, to as int),
{
    let mut length: u128 = 0;
    let mut i: usize = from;
    while i < to
        invariant
            from <= i <= to < polyline.len(),
            points_ok(polyline@),
            length == path_len(polyline@, from as int, i as int),
        decreases to - i,
    {
        proof {
            lemma_path_len_bound(polyline@, from as int, i as int);
            assert((i - from) * 0x1_0000_0000 <= 0x1_0000_0000_0000_0000 * 0x1_0000_0000) by (nonlinear_arith)
                requires
                    0 <= i - from <= 0x1_0000_0000_0000_0000,
            ;
        }
        let d = distance(&polyline[i], &polyline[i + 1]);
        length = length + d as u128;
        i = i + 1;
    }
    length
}

/// Arc length of a polyline; 0 with fewer than two points.
pub fn polyline_length(polyline: &Vec<Point>) -> (r: u128)
    requires
        points_ok(polyline@),
    ensures
        r == poly_len(polyline@),
{
    if polyline.len() < 2 {
        return 0;
    }
    path_length(polyline, 0, polyline.len() - 1)
}

proof fn lemma_endpoint_identity(p: Point, a: Point, b: Point)
    ensures
        sq_dist(p, a) == sq_dist(p, b) + 2 * dot(p, a, b) - sq_dist(a, b),
        sq_dist(p, b) == sq_dist(p, a) - 2 * dot(p, a, b) + sq_dist(a, b),
{
    let (px, py, ax, ay, bx, by) = (p.x as int, p.y as int, a.x as int, a.y as int, b.x as int, b.y as int);
    assert((px - ax) * (px - ax) + (py - ay) * (py - ay) == (px - bx) * (px - bx) + (py - by) * (py - by)
        + 2 * ((bx - ax) * (px - ax) + (by - ay) * (py - ay)) - ((ax - bx) * (ax - bx) + (ay - by) * (ay - by)))
        by (nonlinear_arith);
}

/// When the projection of `p` falls before `a` or past `b`, the distance to the
/// segment is the distance to the nearer end, and no perpendicular is taken.
pub proof fn lemma_outside_projection_nearest_end(p: Point, a: Point, b: Point)
    requires
        dot(p, a, b) < 0 || dot(p, a, b) > sq_dist(a, b),
    ensures
        seg_dist(p, a, b) == floor_sqrt(min_int(sq_dist(p, a), sq_dist(p, b))),
        dot(p, a, b) < 0 ==> seg_dist(p, a, b) == seg_len(p, a) && sq_dist(p, a) <= sq_dist(p, b),
        dot(p, a, b) > sq_dist(a, b) ==> seg_dist(p, a, b) == seg_len(p, b) && sq_dist(p, b) <= sq_dist(p, a),
{
    lemma_endpoint_identity(p, a, b);
    lemma_sq_dist_symmetric(a, b);
    if sq_dist(a, b) == 0 {
        let (dx, dy) = (b.x - a.x, b.y - a.y);
        assert(dx == 0 && dy == 0) by (nonlinear_arith)
            requires
                dx * dx + dy * dy == 0,
        ;
    }
}

/// When `p` projects onto the middle of a proper segment, the distance is the
/// perpendicular one, `|cross| / |ab|`, rounded down.
pub proof fn lemma_midpoint_projection_perpendicular(p: Point, a: Point, b: Point)
    requires
        sq_dist(a, b) > 0,
        2 * dot(p, a, b) == sq_dist(a, b),
    ensures
        seg_dist(p, a, b) == floor_sqrt(cross(p, a, b) * cross(p, a, b) / sq_dist(a, b)),
        seg_dist(p, a, b) * seg_dist(p, a, b) * sq_dist(a, b) <= cross(p, a, b) * cross(p, a, b),
        cross(p, a, b) * cross(p, a, b) < (seg_dist(p, a, b) + 1) * (seg_dist(p, a, b) + 1) * sq_dist(a, b),
{
    let x = cross(p, a, b);
    let c2 = x * x;
    let l = sq_dist(a, b);
    assert(c2 >= 0) by (nonlinear_arith)
        requires
            c2 == x * x,
    ;
    let q = c2 / l;
    assert(q >= 0) by (nonlinear_arith)
        requires
            c2 >= 0,
            l > 0,
            q == c2 / l,
    ;
    lemma_floor_sqrt_exists(q);
    let r = floor_sqrt(q);
    vstd::arithmetic::div_mod::lemma_fundamental_div_mod(c2, l);
    vstd::arithmetic::div_mod::lemma_mod_pos_bound(c2, l);
    assert(r * r * l <= c2) by (nonlinear_arith)
        requires
            r * r <= q,
            c2 == l * q + c2 % l,
            c2 % l >= 0,
            l > 0,
    ;
    assert(c2 < (r + 1) * (r + 1) * l) by (nonlinear_arith)
        requires
            q + 1 <= (r + 1) * (r + 1),
            c2 == l * q + c2 % l,
            c2 % l < l,
            l > 0,
    ;
}

} // verus!
