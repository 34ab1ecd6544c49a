//! Clean-up passes over the keep/discard mask of a form line's vertices, and the
//! extraction of the kept runs.
use crate::geometry::{
    distance, lemma_path_len_bound, lemma_path_len_front, lemma_path_len_monotone, lemma_seg_len_bound,
    path_len, path_length, point_ok, points_ok, Point,
};
use vstd::prelude::*;

verus! {

/// A kept vertex whose two neighbours are both discarded.
pub open spec fn lonely(t: Seq<bool>, i: int) -> bool {
    t[i] && 0 < i < t.len() - 1 && !t[i - 1] && !t[i + 1]
}

/// A kept vertex that closes a gap: kept, and not lonely.
pub open spec fn solid(t: Seq<bool>, i: int) -> bool {
    t[i] && !lonely(t, i)
}

/// The first solid index at or after `k`, or the length of `t` if there is none.
pub open spec fn next_solid(t: Seq<bool>, k: int) -> int
    decreases t.len() - k,
{
    if k >= t.len() {
        t.len() as int
    } else if solid(t, k) {
        k
    } else {
        next_solid(t, k + 1)
    }
}

/// Where the gap holding `k` is measured from: the last solid index before `k`,
/// or 0 if there is none.
pub open spec fn gap_start(t: Seq<bool>, k: int) -> int
    decreases k,
{
    if k <= 0 {
        0
    } else if solid(t, k - 1) {
        k - 1
    } else {
        gap_start(t, k - 1)
    }
}

/// Vertex `k` lies in a gap that a solid vertex closes and whose arc length, from
/// the solid vertex before it (or the first vertex) to the closing one, is below
/// `min_gap`.
pub open spec fn bridged(t: Seq<bool>, pts: Seq<Point>, min_gap: int, k: int) -> bool {
    let e = next_solid(t, k);
    e < t.len() && path_len(pts, gap_start(t, k), e) < min_gap
}

/// The mask after short gaps are bridged.
pub open spec fn gaps_removed(t: Seq<bool>, pts: Seq<Point>, min_gap: int) -> Seq<bool> {
    Seq::new(t.len(), |k: int| t[k] || bridged(t, pts, min_gap, k))
}

pub proof fn lemma_next_solid(t: Seq<bool>, m: int, k: int)
    requires
        0 <= m <= k <= t.len(),
        forall|j: int| m <= j < k ==> !#[trigger] solid(t, j),
        k == t.len() || solid(t, k),
    ensures
        next_solid(t, m) == k,
    decreases k - m,
{
    if m < k {
        lemma_next_solid(t, m + 1, k);
    }
}

pub proof fn lemma_gap_start(t: Seq<bool>, s: int, m: int)
    requires
        0 <= s <= m,
        s == 0 || solid(t, s),
        s < m || s == 0,
        forall|j: int| s < j < m ==> !#[trigger] solid(t, j),
    ensures
        gap_start(t, m) == s,
    decreases m,
{
    if m > 0 && !(m - 1 == s && solid(t, s)) {
        if m - 1 > s {
            assert(!solid(t, m - 1));
            lemma_gap_start(t, s, m - 1);
        } else {
            assert(s == 0 && m == 1);
            assert(gap_start(t, 0) == 0);
        }
    }
}

fn is_solid(t: &Vec<bool>, i: usize) -> (r: bool)
    requires
        i < t.len(),
    ensures
        r == solid(t@, i as int),
{
    let n = t.len();
    let lonely = t[i] && 0 < i && i < n - 1 && !t[i - 1] && !t[i + 1];
    t[i] && !lonely
}

/// Bridges every gap of discarded vertices that a solid vertex closes and whose
/// arc length is below `min_gap_length`; a lonely kept vertex counts as part of
/// the gap around it.
pub fn remove_gaps_from_tagged_form_line_polyline(
    tags: &Vec<bool>,
    polyline: &Vec<Point>,
    min_gap_length: u64,
) -> (r: Vec<bool>)
    requires
        tags.len() == polyline.len(),
        points_ok(polyline@),
    ensures
        r@ == gaps_removed(tags@, polyline@, min_gap_length as int),
{
    let ghost t = tags@;
    let ghost want = gaps_removed(t, polyline@, min_gap_length as int);
    let n = tags.len();
    let mut out: Vec<bool> = Vec::new();
    let mut i: usize = 0;
    while i < n
        invariant
            i <= n == tags.len(),
            t == tags@,
            out@ =~= t.subrange(0, i as int),
        decreases n - i,
    {
        out.push(tags[i]);
        i = i + 1;
    }
    let mut start: usize = 0;
    let mut k: usize = 0;
    while k < n
        invariant
            n == tags.len() == polyline.len(),
            t == tags@,
            want == gaps_removed(t, polyline@, min_gap_length as int),
            points_ok(polyline@),
            out.len() == n,
            start <= k <= n,
            start < n || n == 0,
            start == 0 || solid(t, start as int),
            start < k || start == 0,
            forall|j: int| start < j < k ==> !#[trigger] solid(t, j),
            forall|m: int| 0 <= m < start ==> out@[m] == want[m],
            forall|m: int| start <= m < n ==> out@[m] == t[m],
        decreases n - k,
    {
        if is_solid(tags, k) {
            if start < k {
                let length = path_length(polyline, start, k);
                let bridge = length < min_gap_length as u128;
                proof {
                    assert forall|m: int| start <= m < k && !t[m] implies next_solid(t, m) == k
                        && gap_start(t, m) == start && (want[m] == bridge) by {
                        if m > start {
                            assert(!solid(t, m));
                            lemma_next_solid(t, m, k as int);
                            lemma_gap_start(t, start as int, m);
                        } else {
                            lemma_next_solid(t, m, k as int);
                            assert(gap_start(t, 0) == 0);
                        }
                    }
                }
                let mut m: usize = start;
                while m < k
                    invariant
                        start <= m <= k < n,
                        out.len() == n,
                        forall|j: int| 0 <= j < start ==> out@[j] == want[j],
                        forall|j: int| start <= j < m ==> out@[j] == want[j],
                        forall|j: int| m <= j < n ==> out@[j] == t[j],
                        forall|j: int| start <= j < k && !t[j] ==> want[j] == bridge,
                        forall|j: int| start <= j < k && t[j] ==> want[j],
                    decreases k - m,
                {
                    if bridge {
                        out.set(m, true);
                    }
                    m = m + 1;
                }
            }
            start = k;
        }
        k = k + 1;
    }
    proof {
        assert forall|m: int| start <= m < n implies out@[m] == want[m] by {
            if !t[m] {
                if m > start {
                    assert(!solid(t, m));
                }
                lemma_next_solid(t, m, n as int);
            }
        }
    }
    assert(out@ =~= want);
    out
}

/// A kept vertex where a kept run starts after a discarded one.
pub open spec fn start_edge(g: Seq<bool>, i: int) -> bool {
    0 < i < g.len() - 1 && g[i] && !g[i - 1] && g[i + 1]
}

/// A kept vertex where a kept run ends before a discarded one.
pub open spec fn end_edge(g: Seq<bool>, i: int) -> bool {
    0 < i < g.len() - 1 && g[i] && g[i - 1] && !g[i + 1]
}

/// Vertex `k` (not the first) is within `add` of a later start edge, measuring the
/// tail from that edge back to the vertex after `k`.
pub open spec fn reached_from_start_edge(g: Seq<bool>, pts: Seq<Point>, add: int, k: int) -> bool {
    1 <= k && exists|s: int|
        k < s < g.len() && #[trigger] start_edge(g, s) && path_len(pts, k + 1, s) <= add
}

/// Vertex `k` (not the last) is within `add` of an earlier end edge, measuring the
/// tail from that edge up to the vertex before `k`.
pub open spec fn reached_from_end_edge(g: Seq<bool>, pts: Seq<Point>, add: int, k: int) -> bool {
    k <= g.len() - 2 && exists|e: int|
        0 <= e < k && #[trigger] end_edge(g, e) && path_len(pts, e, k - 1) <= add
}

/// The mask after every kept run is extended by its tails.
pub open spec fn tails_added(g: Seq<bool>, pts: Seq<Point>, add: int) -> Seq<bool> {
    Seq::new(
        g.len(),
        |k: int| g[k] || reached_from_start_edge(g, pts, add, k) || reached_from_end_edge(g, pts, add, k),
    )
}

fn is_start_edge(g: &Vec<bool>, i: usize) -> (r: bool)
    requires
        i < g.len(),
    ensures
        r == start_edge(g@, i as int),
{
    0 < i && i < g.len() - 1 && g[i] && !g[i - 1] && g[i + 1]
}

fn is_end_edge(g: &Vec<bool>, i: usize) -> (r: bool)
    requires
        i < g.len(),
    ensures
        r == end_edge(g@, i as int),
{
    0 < i && i < g.len() - 1 && g[i] && g[i - 1] && !g[i + 1]
}

fn reaches_start_edge(g: &Vec<bool>, polyline: &Vec<Point>, add: u64, k: usize) -> (r: bool)
    requires
        g.len() == polyline.len(),
        k < g.len(),
        points_ok(polyline@),
    ensures
        r == reached_from_start_edge(g@, polyline@, add as int, k as int),
{
    let n = g.len();
    if k == 0 || k + 1 >= n - 1 {
        return false;
    }
    let mut s: usize = k + 1;
    let mut acc: u128 = 0;
    let mut found = false;
    let mut too_far = false;
    while s < n - 1 && !found && !too_far
        invariant
            n == g.len() == polyline.len(),
            points_ok(polyline@),
            1 <= k < s <= n - 1,
            acc == path_len(polyline@, k + 1, s as int),
            found ==> start_edge(g@, s as int) && acc <= add,
            too_far ==> acc > add,
            forall|j: int| k < j < s ==> !(#[trigger] start_edge(g@, j) && path_len(polyline@, k + 1, j) <= add),
        decreases (n - s) + (if found || too_far { 0int } else { 1int }),
    {
        if acc > add as u128 {
            too_far = true;
        } else if is_start_edge(g, s) {
            found = true;
        } else {
            proof {
                lemma_path_len_bound(polyline@, k + 1, s as int);
                assert((s - k) * 0x1_0000_0000 <= 0x1_0000_0000_0000_0000 * 0x1_0000_0000) by (nonlinear_arith)
                    requires
                        0 <= s - k <= 0x1_0000_0000_0000_0000,
                ;
            }
            let d = distance(&polyline[s], &polyline[s + 1]);
            acc = acc + d as u128;
            s = s + 1;
        }
    }
    proof {
        if !found {
            assert forall|j: int| k < j < n implies !(#[trigger] start_edge(g@, j) && path_len(polyline@, k + 1, j) <= add) by {
                if j >= s && j < n - 1 {
                    lemma_path_len_monotone(polyline@, k + 1, s as int, k + 1, j);
                }
            }
        }
    }
    found
}

fn reaches_end_edge(g: &Vec<bool>, polyline: &Vec<Point>, add: u64, k: usize) -> (r: bool)
    requires
        g.len() == polyline.len(),
        k < g.len(),
        points_ok(polyline@),
    ensures
        r == reached_from_end_edge(g@, polyline@, add as int, k as int),
{
    let n = g.len();
    if k >= n - 1 || k < 2 {
        return false;
    }
    let mut e: usize = k - 1;
    let mut acc: u128 = 0;
    let mut found = false;
    let mut too_far = false;
    while e > 0 && !found && !too_far
        invariant
            n == g.len() == polyline.len(),
            points_ok(polyline@),
            0 <= e < k <= n - 2,
            acc == path_len(polyline@, e as int, k - 1),
            found ==> end_edge(g@, e as int) && acc <= add,
            too_far ==> acc > add,
            forall|j: int| e < j < k ==> !(#[trigger] end_edge(g@, j) && path_len(polyline@, j, k - 1) <= add),
        decreases e + (if found || too_far { 0int } else { 1int }),
    {
        if acc > add as u128 {
            too_far = true;
        } else if is_end_edge(g, e) {
            found = true;
        } else {
            proof {
                lemma_path_len_bound(polyline@, e as int, k - 1);
                assert((k - 1 - e) * 0x1_0000_0000 <= 0x1_0000_0000_0000_0000 * 0x1_0000_0000) by (nonlinear_arith)
                    requires
                        0 <= k - 1 - e <= 0x1_0000_0000_0000_0000,
                ;
                lemma_path_len_front(polyline@, e as int, k - 1);
            }
            let d = distance(&polyline[e - 1], &polyline[e]);
            acc = acc + d as u128;
            e = e - 1;
        }
    }
    proof {
        if !found {
            assert forall|j: int| 0 <= j < k implies !(#[trigger] end_edge(g@, j) && path_len(polyline@, j, k - 1) <= add) by {
                if j <= e && j > 0 {
                    lemma_path_len_monotone(polyline@, e as int, k - 1, j, k - 1);
                }
            }
        }
    }
    found
}

/// Extends each kept run past its ends: from every edge, vertices are kept while
/// the tail walked so far is at most `additional_tail_length` long; the first and
/// last vertices are never reached this way.
pub fn add_tails_to_tagged_form_line_polyline(
    tags: &Vec<bool>,
    polyline: &Vec<Point>,
    additional_tail_length: u64,
) -> (r: Vec<bool>)
    requires
        tags.len() == polyline.len(),
        points_ok(polyline@),
    ensures
        r@ == tails_added(tags@, polyline@, additional_tail_length as int),
{
    let ghost want = tails_added(tags@, polyline@, additional_tail_length as int);
    let n = tags.len();
    let mut out: Vec<bool> = Vec::new();
    let mut k: usize = 0;
    while k < n
        invariant
            k <= n == tags.len() == polyline.len(),
            points_ok(polyline@),
            want == tails_added(tags@, polyline@, additional_tail_length as int),
            out@ =~= want.subrange(0, k as int),
        decreases n - k,
    {
        let keep = tags[k] || reaches_start_edge(tags, polyline, additional_tail_length, k)
            || reaches_end_edge(tags, polyline, additional_tail_length, k);
        out.push(keep);
        k = k + 1;
    }
    assert(out@ =~= want);
    out
}

/// The maximal runs of kept vertices, in order, each as the points it holds.
pub open spec fn segments_of(t: Seq<bool>, pts: Seq<Point>) -> Seq<Seq<Point>>
    decreases t.len(),
{
    if t.len() == 0 {
        seq![]
    } else {
        let i = t.len() - 1;
        let prev = segments_of(t.drop_last(), pts);
        if !t[i] {
            prev
        } else if i == 0 || !t[i - 1] {
            prev.push(seq![pts[i]])
        } else {
            prev.update(prev.len() - 1, prev.last().push(pts[i]))
        }
    }
}

/// A mask that ends on a kept vertex has at least one segment.
pub proof fn lemma_segments_nonempty(t: Seq<bool>, pts: Seq<Point>)
    requires
        t.len() > 0,
        t.last(),
    ensures
        segments_of(t, pts).len() > 0,
    decreases t.len(),
{
    let i = t.len() - 1;
    if i > 0 && t[i - 1] {
        assert(t.drop_last().last() == t[i - 1]);
        lemma_segments_nonempty(t.drop_last(), pts);
    }
}

/// Every segment is made of points of the polyline.
pub proof fn lemma_segments_ok(t: Seq<bool>, pts: Seq<Point>)
    requires
        t.len() <= pts.len(),
        points_ok(pts),
    ensures
        forall|k: int| 0 <= k < segments_of(t, pts).len() ==> points_ok(#[trigger] segments_of(t, pts)[k]),
    decreases t.len(),
{
    if t.len() > 0 {
        let i = t.len() - 1;
        lemma_segments_ok(t.drop_last(), pts);
        let prev = segments_of(t.drop_last(), pts);
        let cur = segments_of(t, pts);
        assert(point_ok(pts[i]));
        if t[i] && i > 0 && t[i - 1] {
            assert(t.drop_last().last() == t[i - 1]);
            lemma_segments_nonempty(t.drop_last(), pts);
            let grown = prev.last().push(pts[i]);
            assert(points_ok(prev[prev.len() - 1]));
            assert forall|j: int| 0 <= j < grown.len() implies #[trigger] point_ok(grown[j]) by {
                if j < grown.len() - 1 {
                    assert(grown[j] == prev[prev.len() - 1][j]);
                }
            }
            assert forall|k: int| 0 <= k < cur.len() implies points_ok(#[trigger] cur[k]) by {
                if k < prev.len() - 1 {
                    assert(cur[k] == prev[k]);
                }
            }
        } else if t[i] {
            let single = seq![pts[i]];
            assert forall|j: int| 0 <= j < single.len() implies #[trigger] point_ok(single[j]) by {}
            assert forall|k: int| 0 <= k < cur.len() implies points_ok(#[trigger] cur[k]) by {
                if k < prev.len() {
                    assert(cur[k] == prev[k]);
                }
            }
        }
    }
}

/// The polylines held by a vector of polylines.
pub open spec fn views_of(v: Seq<Vec<Point>>) -> Seq<Seq<Point>> {
    v.map_values(|x: Vec<Point>| x@)
}

/// Splits a polyline at its discarded vertices: every maximal run of kept vertices
/// becomes one polyline.
pub fn extract_kept_segments(tags: &Vec<bool>, polyline: &Vec<Point>) -> (r: Vec<Vec<Point>>)
    requires
        tags.len() == polyline.len(),
    ensures
        views_of(r@) == segments_of(tags@, polyline@),
{
    let n = tags.len();
    let mut out: Vec<Vec<Point>> = Vec::new();
    let mut current: Vec<Point> = Vec::new();
    let mut in_run = false;
    let mut i: usize = 0;
    while i < n
        invariant
            i <= n == tags.len() == polyline.len(),
            in_run == (i > 0 && tags@[i - 1]),
            in_run ==> segments_of(tags@.subrange(0, i as int), polyline@) == views_of(out@).push(current@),
            !in_run ==> segments_of(tags@.subrange(0, i as int), polyline@) == views_of(out@),
        decreases n - i,
    {
        let ghost prefix = tags@.subrange(0, i as int + 1);
        assert(prefix.drop_last() =~= tags@.subrange(0, i as int));
        let ghost before = segments_of(tags@.subrange(0, i as int), polyline@);
        if tags[i] {
            if in_run {
                current.push(polyline[i]);
                assert(segments_of(prefix, polyline@) =~= views_of(out@).push(current@));
            } else {
                current = Vec::new();
                current.push(polyline[i]);
                assert(current@ =~= seq![polyline@[i as int]]);
                assert(segments_of(prefix, polyline@) =~= views_of(out@).push(current@));
            }
            in_run = true;
        } else {
            if in_run {
                let ghost old_out = out@;
                out.push(current);
                current = Vec::new();
                assert(views_of(out@) =~= views_of(old_out).push(views_of(out@).last()));
            }
            in_run = false;
        }
        i = i + 1;
    }
    assert(tags@.subrange(0, n as int) =~= tags@);
    if in_run {
        let ghost old_out = out@;
        out.push(current);
        assert(views_of(out@) =~= views_of(old_out).push(views_of(out@).last()));
    }
    out
}

/// A mask that keeps every vertex yields the whole polyline as one segment.
pub proof fn lemma_all_kept_one_segment(t: Seq<bool>, pts: Seq<Point>)
    requires
        0 < t.len() <= pts.len(),
        forall|k: int| 0 <= k < t.len() ==> #[trigger] t[k],
    ensures
        segments_of(t, pts) == seq![pts.subrange(0, t.len() as int)],
    decreases t.len(),
{
    let i = t.len() - 1;
    if i > 0 {
        let init = t.drop_last();
        assert forall|k: int| 0 <= k < init.len() implies #[trigger] init[k] by {
            assert(init[k] == t[k]);
        }
        lemma_all_kept_one_segment(init, pts);
        assert(t[i - 1]);
        assert(pts.subrange(0, i).push(pts[i]) =~= pts.subrange(0, i + 1));
        assert(segments_of(t, pts) =~= seq![pts.subrange(0, t.len() as int)]);
    } else {
        assert(t.drop_last().len() == 0);
        assert(segments_of(t.drop_last(), pts) =~= seq![]);
        assert(seq![pts[0]] =~= pts.subrange(0, 1));
        assert(segments_of(t, pts) =~= seq![pts.subrange(0, t.len() as int)]);
    }
}

/// A discarded run between two kept end vertices, shorter than `min_gap`, is
/// bridged: the polyline comes out as one segment, whatever the tail length.
pub proof fn lemma_short_gap_bridged(t: Seq<bool>, pts: Seq<Point>, min_gap: int, add: int)
    requires
        t.len() == pts.len(),
        t.len() >= 2,
        t[0],
        t[t.len() - 1],
        forall|k: int| 0 < k < t.len() - 1 ==> !#[trigger] t[k],
        path_len(pts, 0, t.len() - 1) < min_gap,
    ensures
        forall|k: int| 0 <= k < t.len() ==> #[trigger] gaps_removed(t, pts, min_gap)[k],
        segments_of(tails_added(gaps_removed(t, pts, min_gap), pts, add), pts) == seq![pts],
{
    let n = t.len() as int;
    let g = gaps_removed(t, pts, min_gap);
    assert(solid(t, n - 1));
    assert forall|k: int| 0 <= k < n implies #[trigger] g[k] by {
        if 0 < k < n - 1 {
            assert forall|j: int| k <= j < n - 1 implies !#[trigger] solid(t, j) by {}
            lemma_next_solid(t, k, n - 1);
            assert forall|j: int| 0 < j < k implies !#[trigger] solid(t, j) by {}
            lemma_gap_start(t, 0, k);
        }
    }
    let h = tails_added(g, pts, add);
    assert forall|k: int| 0 <= k < h.len() implies #[trigger] h[k] by {
        assert(g[k]);
    }
    lemma_all_kept_one_segment(h, pts);
    assert(pts.subrange(0, n) =~= pts);
}

/// A longer tail keeps every vertex that a shorter one keeps.
pub proof fn lemma_tails_monotone(g: Seq<bool>, pts: Seq<Point>, add1: int, add2: int)
    requires
        add1 <= add2,
    ensures
        forall|k: int| 0 <= k < g.len() && #[trigger] tails_added(g, pts, add1)[k] ==> tails_added(g, pts, add2)[k],
{
    assert forall|k: int| 0 <= k < g.len() && #[trigger] tails_added(g, pts, add1)[k] implies tails_added(g, pts, add2)[k] by {
        if reached_from_start_edge(g, pts, add1, k) {
            let s = choose|s: int| k < s < g.len() && #[trigger] start_edge(g, s) && path_len(pts, k + 1, s) <= add1;
            assert(start_edge(g, s) && path_len(pts, k + 1, s) <= add2);
        }
        if reached_from_end_edge(g, pts, add1, k) {
            let e = choose|e: int| 0 <= e < k && #[trigger] end_edge(g, e) && path_len(pts, e, k - 1) <= add1;
            assert(end_edge(g, e) && path_len(pts, e, k - 1) <= add2);
        }
    }
}

/// `[a, b]` is a maximal run of kept vertices.
pub open spec fn is_run(t: Seq<bool>, a: int, b: int) -> bool {
    &&& 0 <= a <= b < t.len()
    &&& forall|k: int| a <= k <= b ==> #[trigger] t[k]
    &&& a == 0 || !t[a - 1]
    &&& b == t.len() - 1 || !t[b + 1]
}

/// The first vertex of the run of kept vertices that reaches `k`.
pub open spec fn run_start(t: Seq<bool>, k: int) -> int
    decreases k,
{
    if k <= 0 || !t[k - 1] {
        k
    } else {
        run_start(t, k - 1)
    }
}

/// The last vertex of the run of kept vertices that reaches `k`.
pub open spec fn run_end(t: Seq<bool>, k: int) -> int
    decreases t.len() - k,
{
    if k >= t.len() - 1 || !t[k + 1] {
        k
    } else {
        run_end(t, k + 1)
    }
}

proof fn lemma_run_start(t: Seq<bool>, k: int)
    requires
        0 <= k < t.len(),
        t[k],
    ensures
        0 <= run_start(t, k) <= k,
        run_start(t, k) == 0 || !t[run_start(t, k) - 1],
        forall|j: int| run_start(t, k) <= j <= k ==> #[trigger] t[j],
    decreases k,
{
    if k > 0 && t[k - 1] {
        lemma_run_start(t, k - 1);
    }
}

proof fn lemma_run_end(t: Seq<bool>, k: int)
    requires
        0 <= k < t.len(),
        t[k],
    ensures
        k <= run_end(t, k) < t.len(),
        run_end(t, k) == t.len() - 1 || !t[run_end(t, k) + 1],
        forall|j: int| k <= j <= run_end(t, k) ==> #[trigger] t[j],
    decreases t.len() - k,
{
    if k < t.len() - 1 && t[k + 1] {
        lemma_run_end(t, k + 1);
    }
}

/// Where every vertex kept by `t1` is kept by `t2`, each run of `t1` lies within
/// a run of `t2`, and its arc length is at most that run's.
pub proof fn lemma_runs_grow(t1: Seq<bool>, t2: Seq<bool>, pts: Seq<Point>, a: int, b: int)
    requires
        t1.len() == t2.len() == pts.len(),
        points_ok(pts),
        forall|k: int| 0 <= k < t1.len() && #[trigger] t1[k] ==> t2[k],
        is_run(t1, a, b),
    ensures
        exists|a2: int, b2: int|
            is_run(t2, a2, b2) && a2 <= a && b <= b2 && path_len(pts, a, b) <= path_len(pts, a2, b2),
{
    assert(t1[a] && t1[b]);
    lemma_run_start(t2, a);
    let a2 = run_start(t2, a);
    lemma_run_end(t2, a);
    let e = run_end(t2, a);
    if e < b {
        assert(t1[e + 1]);
        assert(t2[e + 1]);
    }
    let b2 = e;
    lemma_path_len_monotone(pts, a, b, a2, b2);
    assert(is_run(t2, a2, b2));
}

} // verus!
