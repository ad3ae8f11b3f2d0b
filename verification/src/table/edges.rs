//! The edges of tables: those drawn on a page, those its words suggest, and those given.

use crate::float::Float;
use crate::geometry;
use crate::order;
use crate::strings;
use crate::types;
use crate::types::Curve;
use crate::types::Edge;
use crate::types::EdgeView;
use crate::types::Line;
use crate::types::Orientation;
use crate::types::Page;
use crate::types::Point;
use crate::types::RectObject;
use vstd::prelude::*;

verus! {

/// The bits of one ten-thousandth.
pub const CLOSE: u64 = 0x3f1a_36e2_eb1c_432d;

/// The bits of positive infinity.
pub const HIGHEST: u64 = 0x7ff0_0000_0000_0000;

/// The bits of negative infinity.
pub const LOWEST: u64 = 0xfff0_0000_0000_0000;

/// Whether two coordinates differ by less than one ten-thousandth.
pub open spec fn close(a: Float, b: Float) -> bool {
    a.minus(b).absolute().less(Float { bits: CLOSE })
}

pub fn is_close(a: Float, b: Float) -> (r: bool)
    ensures
        r == close(a, b),
{
    a.sub(b).abs().lt(Float { bits: CLOSE })
}

/// The edge that a drawn line is.
pub open spec fn edge_of_line(line: Line) -> EdgeView {
    EdgeView {
        x0: line.x0,
        top: line.top,
        x1: line.x1,
        bottom: line.bottom,
        width: line.width,
        height: line.height,
        orientation: if close(line.top, line.bottom) {
            Orientation::Horizontal
        } else {
            Orientation::Vertical
        },
        object_type: "line"@,
    }
}

/// The edge that a drawn line is.
pub fn line_to_edge(line: &Line) -> (r: Edge)
    ensures
        r@ == edge_of_line(*line),
{
    Edge {
        x0: line.x0,
        top: line.top,
        x1: line.x1,
        bottom: line.bottom,
        width: line.width,
        height: line.height,
        orientation: if is_close(line.top, line.bottom) {
            Orientation::Horizontal
        } else {
            Orientation::Vertical
        },
        object_type: "line".to_owned(),
    }
}

/// The direction in which two points lie, where it is one of the two.
pub open spec fn direction(p: Point, q: Point) -> Option<Orientation> {
    if close(p.x, q.x) {
        Some(Orientation::Vertical)
    } else if close(p.y, q.y) {
        Some(Orientation::Horizontal)
    } else {
        None
    }
}

/// The edge between two successive points of a curve.
pub open spec fn edge_between(p: Point, q: Point, orientation: Orientation) -> EdgeView {
    EdgeView {
        x0: p.x.smaller(q.x),
        top: p.y.smaller(q.y),
        x1: p.x.larger(q.x),
        bottom: p.y.larger(q.y),
        width: q.x.minus(p.x).absolute(),
        height: q.y.minus(p.y).absolute(),
        orientation,
        object_type: "curve_edge"@,
    }
}

/// The edges between those successive points that lie along an axis.
pub open spec fn edges_of_points(pts: Seq<Point>) -> Seq<EdgeView>
    decreases pts.len(),
{
    if pts.len() < 2 {
        Seq::empty()
    } else {
        let p = pts[pts.len() - 2];
        let q = pts.last();
        let before = edges_of_points(pts.drop_last());
        match direction(p, q) {
            Some(orientation) => before.push(edge_between(p, q, orientation)),
            None => before,
        }
    }
}

/// The edges between those successive points of a curve that lie along an axis.
pub fn curve_to_edges(curve: &Curve) -> (r: Vec<Edge>)
    ensures
        types::seen(r@) == edges_of_points(curve.pts@),
{
    let mut out: Vec<Edge> = Vec::new();
    let n: usize = curve.pts.len();
    for i in 0..n
        invariant
            n == curve.pts@.len(),
            types::seen(out@) == edges_of_points(curve.pts@.take(i as int)),
    {
        assert(curve.pts@.take(i + 1).drop_last() =~= curve.pts@.take(i as int));
        if i > 0 {
            let p: Point = curve.pts[i - 1];
            let q: Point = curve.pts[i];
            let orientation: Option<Orientation> = if is_close(p.x, q.x) {
                Some(Orientation::Vertical)
            } else if is_close(p.y, q.y) {
                Some(Orientation::Horizontal)
            } else {
                None
            };
            if let Some(orientation) = orientation {
                let edge: Edge = Edge {
                    x0: p.x.min(q.x),
                    top: p.y.min(q.y),
                    x1: p.x.max(q.x),
                    bottom: p.y.max(q.y),
                    width: q.x.sub(p.x).abs(),
                    height: q.y.sub(p.y).abs(),
                    orientation,
                    object_type: "curve_edge".to_owned(),
                };
                proof {
                    types::lemma_seen_push(out@, edge);
                }
                out.push(edge);
            }
        }
    }
    assert(curve.pts@.take(n as int) =~= curve.pts@);
    out
}

/// The edges of drawn lines.
pub open spec fn edges_of_lines(lines: Seq<Line>) -> Seq<EdgeView> {
    lines.map_values(|line: Line| edge_of_line(line))
}

/// The edges of drawn rectangles.
pub open spec fn edges_of_rects(rects: Seq<RectObject>) -> Seq<EdgeView>
    decreases rects.len(),
{
    if rects.len() == 0 {
        Seq::empty()
    } else {
        edges_of_rects(rects.drop_last()) + geometry::sides(rects.last())
    }
}

/// The edges of drawn curves.
pub open spec fn edges_of_curves(curves: Seq<Curve>) -> Seq<EdgeView>
    decreases curves.len(),
{
    if curves.len() == 0 {
        Seq::empty()
    } else {
        edges_of_curves(curves.drop_last()) + edges_of_points(curves.last().pts@)
    }
}

impl Page {
    /// The edges of the page's lines, then those of its rectangles, then those of its
    /// curves.
    pub open spec fn all_edges(self) -> Seq<EdgeView> {
        edges_of_lines(self.lines@) + edges_of_rects(self.rects@) + edges_of_curves(self.curves@)
    }

    /// The edges of the page's lines, then those of its rectangles, then those of its
    /// curves.
    pub fn edges(&self) -> (r: Vec<Edge>)
        ensures
            types::seen(r@) == self.all_edges(),
    {
        let mut out: Vec<Edge> = Vec::new();
        let ghost lines = edges_of_lines(self.lines@);
        for i in 0..self.lines.len()
            invariant
                lines == edges_of_lines(self.lines@),
                types::seen(out@) =~= lines.take(i as int),
        {
            let edge: Edge = line_to_edge(&self.lines[i]);
            proof {
                types::lemma_seen_push(out@, edge);
            }
            out.push(edge);
        }
        assert(lines.take(self.lines@.len() as int) =~= lines);
        for i in 0..self.rects.len()
            invariant
                types::seen(out@) =~= lines + edges_of_rects(self.rects@.take(i as int)),
        {
            assert(self.rects@.take(i + 1).drop_last() =~= self.rects@.take(i as int));
            let mut more: Vec<Edge> = geometry::rect_to_edges(&self.rects[i]);
            proof {
                types::lemma_seen_add(out@, more@);
            }
            out.append(&mut more);
        }
        assert(self.rects@.take(self.rects@.len() as int) =~= self.rects@);
        for i in 0..self.curves.len()
            invariant
                types::seen(out@) =~= lines + edges_of_rects(self.rects@) + edges_of_curves(
                    self.curves@.take(i as int),
                ),
        {
            assert(self.curves@.take(i + 1).drop_last() =~= self.curves@.take(i as int));
            let mut more: Vec<Edge> = curve_to_edges(&self.curves[i]);
            proof {
                types::lemma_seen_add(out@, more@);
            }
            out.append(&mut more);
        }
        assert(self.curves@.take(self.curves@.len() as int) =~= self.curves@);
        out
    }
}

/// The length of an edge along its direction.
pub open spec fn extent(edge: EdgeView) -> Float {
    match edge.orientation {
        Orientation::Vertical => edge.height,
        Orientation::Horizontal => edge.width,
    }
}

/// Whether an edge has the orientation and the type where they are given, and at least
/// the given length.
pub open spec fn selects(
    orientation: Option<Orientation>,
    edge_type: Option<Seq<char>>,
    min_length: Float,
) -> spec_fn(EdgeView) -> bool {
    |edge: EdgeView|
        {
            &&& orientation matches Some(o) ==> o == edge.orientation
            &&& edge_type matches Some(t) ==> t == edge.object_type
            &&& min_length.at_most(extent(edge))
        }
}

/// Of given edges, those are selected that run in the direction and are of the type asked
/// for, and are not shorter than asked for along their own direction.
pub proof fn law_selected_edges(
    edges: Seq<EdgeView>,
    orientation: Option<Orientation>,
    edge_type: Option<Seq<char>>,
    min_length: Float,
    i: int,
)
    requires
        0 <= i < edges.len(),
        !min_length.nan(),
        !edges[i].width.nan(),
        !edges[i].height.nan(),
    ensures
        ({
            let e = edges[i];
            let kept = edges.filter(selects(orientation, edge_type, min_length)).contains(e);
            &&& e.orientation is Vertical && orientation == Some(Orientation::Horizontal) ==> !kept
            &&& e.orientation is Horizontal && orientation == Some(Orientation::Vertical) ==> !kept
            &&& edge_type matches Some(t) ==> (e.object_type != t ==> !kept)
            &&& e.orientation is Vertical && e.height.less(min_length) ==> !kept
            &&& e.orientation is Horizontal && e.width.less(min_length) ==> !kept
            &&& (orientation is None || orientation == Some(e.orientation)) && (edge_type is None
                || edge_type == Some(e.object_type)) && (e.orientation is Vertical
                ==> !e.height.less(min_length)) && (e.orientation is Horizontal
                ==> !e.width.less(min_length)) ==> kept
        }),
{
    let picks = selects(orientation, edge_type, min_length);
    edges.filter_lemma(picks);
    let kept = edges.filter(picks);
    if kept.contains(edges[i]) {
        let k = choose|k: int| 0 <= k < kept.len() && kept[k] == edges[i];
        assert(picks(kept[k]));
    }
    if picks(edges[i]) {
        assert(kept.contains(edges[i]));
    }
}

/// What is seen of the name of a type that may be missing.
pub open spec fn seen_name(name: Option<&str>) -> Option<Seq<char>> {
    match name {
        Some(s) => Some(s@),
        None => None,
    }
}

/// Copies of the edges that have the orientation and the type where they are given, and
/// at least the given length.
pub fn filter_edges(
    edges: &Vec<Edge>,
    orientation: Option<Orientation>,
    edge_type: Option<&str>,
    min_length: Float,
) -> (r: Vec<Edge>)
    ensures
        types::seen(r@) == types::seen(edges@).filter(
            selects(orientation, seen_name(edge_type), min_length),
        ),
{
    let mut out: Vec<Edge> = Vec::new();
    let n: usize = edges.len();
    let ghost all = types::seen(edges@);
    let ghost wanted = selects(orientation, seen_name(edge_type), min_length);
    for i in 0..n
        invariant
            n == edges@.len(),
            all == types::seen(edges@),
            wanted == selects(orientation, seen_name(edge_type), min_length),
            types::seen(out@) == all.take(i as int).filter(wanted),
    {
        reveal(Seq::filter);
        assert(all.take(i + 1).drop_last() =~= all.take(i as int));
        let edge: &Edge = &edges[i];
        let orientation_ok: bool = match orientation {
            Some(o) => o == edge.orientation,
            None => true,
        };
        let edge_type_ok: bool = match edge_type {
            Some(t) => strings::same_text(t, edge.object_type.as_str()),
            None => true,
        };
        let dim: Float = match edge.orientation {
            Orientation::Vertical => edge.height,
            Orientation::Horizontal => edge.width,
        };
        if orientation_ok && edge_type_ok && min_length.le(dim) {
            let e: Edge = edge.copy();
            proof {
                types::lemma_seen_push(out@, e);
            }
            out.push(e);
        }
    }
    assert(all.take(n as int) =~= all);
    out
}

/// What edges are grouped by: horizontal ones by their height on the page, then vertical
/// ones by their distance from its left.
pub open spec fn group_key(edge: EdgeView) -> order::Key {
    match edge.orientation {
        Orientation::Horizontal => (0, edge.top.order() as i64),
        Orientation::Vertical => (1, edge.x0.order() as i64),
    }
}

pub open spec fn group_keys(edges: Seq<EdgeView>) -> Seq<order::Key> {
    edges.map_values(|e: EdgeView| group_key(e))
}

/// What edges of one group are sorted by: where they begin.
pub open spec fn start_key(edge: EdgeView, orientation: Orientation) -> order::Key {
    match orientation {
        Orientation::Horizontal => (edge.x0.rank() as i64, 0),
        Orientation::Vertical => (edge.top.rank() as i64, 0),
    }
}

pub open spec fn start_keys(edges: Seq<EdgeView>, orientation: Orientation) -> Seq<order::Key> {
    edges.map_values(|e: EdgeView| start_key(e, orientation))
}

/// Whether `next` begins no further than `tolerance` behind the end of `last`.
pub open spec fn reaches(
    last: EdgeView,
    next: EdgeView,
    orientation: Orientation,
    tolerance: Float,
) -> bool {
    match orientation {
        Orientation::Horizontal => next.x0.at_most(last.x1.plus(tolerance)),
        Orientation::Vertical => next.top.at_most(last.bottom.plus(tolerance)),
    }
}

/// The edge `last`, made longer where `next` ends behind it.
pub open spec fn stretched(
    last: EdgeView,
    next: EdgeView,
    orientation: Orientation,
) -> EdgeView {
    match orientation {
        Orientation::Horizontal => if last.x1.less(next.x1) {
            EdgeView { x1: next.x1, width: next.x1.minus(last.x0), ..last }
        } else {
            last
        },
        Orientation::Vertical => if last.bottom.less(next.bottom) {
            EdgeView { bottom: next.bottom, height: next.bottom.minus(last.top), ..last }
        } else {
            last
        },
    }
}

/// Edges in the order of their beginnings, with those that reach one another made one.
pub open spec fn joined_in_order(
    edges: Seq<EdgeView>,
    orientation: Orientation,
    tolerance: Float,
) -> Seq<EdgeView>
    decreases edges.len(),
{
    if edges.len() == 0 {
        Seq::empty()
    } else {
        let before = joined_in_order(edges.drop_last(), orientation, tolerance);
        let next = edges.last();
        if before.len() > 0 && reaches(before.last(), next, orientation, tolerance) {
            before.update(before.len() - 1, stretched(before.last(), next, orientation))
        } else {
            before.push(next)
        }
    }
}

/// The edges of a group, with those that reach one another made one.
pub open spec fn joined_group(
    edges: Seq<EdgeView>,
    orientation: Orientation,
    tolerance: Float,
) -> Seq<EdgeView> {
    joined_in_order(
        order::picked(edges, order::stable_order(start_keys(edges, orientation))),
        orientation,
        tolerance,
    )
}

/// Of edges that have been joined, none reaches the next one any more.
pub proof fn law_joined_are_apart(
    edges: Seq<EdgeView>,
    orientation: Orientation,
    tolerance: Float,
)
    ensures
        joined_in_order(edges, orientation, tolerance).len() <= edges.len(),
        edges.len() > 0 ==> joined_in_order(edges, orientation, tolerance).len() > 0,
        forall|i: int, j: int|
            0 <= i && j == i + 1 && j < joined_in_order(edges, orientation, tolerance).len()
                ==> !reaches(
                #[trigger] joined_in_order(edges, orientation, tolerance)[i],
                #[trigger] joined_in_order(edges, orientation, tolerance)[j],
                orientation,
                tolerance,
            ),
    decreases edges.len(),
{
    if edges.len() > 0 {
        law_joined_are_apart(edges.drop_last(), orientation, tolerance);
        let before = joined_in_order(edges.drop_last(), orientation, tolerance);
        let after = joined_in_order(edges, orientation, tolerance);
        assert forall|i: int, j: int| 0 <= i && j == i + 1 && j < after.len() implies !reaches(
            #[trigger] after[i],
            #[trigger] after[j],
            orientation,
            tolerance,
        ) by {
            assert(after[i] == before[i]);
            if j < before.len() {
                assert(!reaches(before[i], before[j], orientation, tolerance));
            }
        }
    }
}

/// How far the edges from the first on have the key of the first; at least `from`.
pub open spec fn run_end(edges: Seq<EdgeView>, from: int) -> int
    decreases edges.len() - from,
{
    if 0 <= from < edges.len() && group_key(edges[from]) == group_key(edges[0]) {
        run_end(edges, from + 1)
    } else {
        from
    }
}

/// The groups of equal keys, one after the other, each with its edges joined.
pub open spec fn joined_runs(
    edges: Seq<EdgeView>,
    x_tolerance: Float,
    y_tolerance: Float,
) -> Seq<EdgeView>
    decreases edges.len(),
{
    if edges.len() == 0 {
        Seq::empty()
    } else {
        let end = run_end(edges, 1);
        let tolerance = match edges[0].orientation {
            Orientation::Horizontal => x_tolerance,
            Orientation::Vertical => y_tolerance,
        };
        if 1 <= end <= edges.len() {
            joined_group(edges.take(end), edges[0].orientation, tolerance) + joined_runs(
                edges.skip(end),
                x_tolerance,
                y_tolerance,
            )
        } else {
            Seq::empty()
        }
    }
}

/// The edges moved onto each other where they are near, then joined where they reach
/// each other.
pub open spec fn merged(
    edges: Seq<EdgeView>,
    snap_x: Float,
    snap_y: Float,
    join_x: Float,
    join_y: Float,
) -> Seq<EdgeView> {
    let zero = Float { bits: 0 };
    let near = if zero.less(snap_x) || zero.less(snap_y) {
        geometry::snapped(edges, snap_x, snap_y)
    } else {
        edges
    };
    joined_runs(order::picked(near, order::stable_order(group_keys(near))), join_x, join_y)
}

proof fn lemma_joined_keys(
    edges: Seq<EdgeView>,
    orientation: Orientation,
    tolerance: Float,
    key: order::Key,
)
    requires
        order::ascending(start_keys(edges, orientation)),
        forall|i: int|
            0 <= i < edges.len() ==> (#[trigger] edges[i]).orientation == orientation && group_key(
                edges[i],
            ) == key,
    ensures
        order::ascending(start_keys(joined_in_order(edges, orientation, tolerance), orientation)),
        forall|i: int|
            0 <= i < joined_in_order(edges, orientation, tolerance).len() ==> {
                let e = #[trigger] joined_in_order(edges, orientation, tolerance)[i];
                &&& e.orientation == orientation
                &&& group_key(e) == key
                &&& !order::key_less(
                    start_key(edges.last(), orientation),
                    start_key(e, orientation),
                )
            },
    decreases edges.len(),
{
    if edges.len() > 0 {
        let rest = edges.drop_last();
        let before = joined_in_order(rest, orientation, tolerance);
        let after = joined_in_order(edges, orientation, tolerance);
        let next = edges.last();
        let starts = start_keys(edges, orientation);
        assert forall|i: int, j: int| 0 <= i < j < rest.len() implies !order::key_less(
            #[trigger] start_keys(rest, orientation)[j],
            #[trigger] start_keys(rest, orientation)[i],
        ) by {
            assert(!order::key_less(starts[j], starts[i]));
        }
        lemma_joined_keys(rest, orientation, tolerance, key);
        law_joined_are_apart(rest, orientation, tolerance);
        if rest.len() > 0 {
            assert(!order::key_less(starts[edges.len() - 1], starts[edges.len() - 2]));
        }
        assert forall|i: int| 0 <= i < after.len() implies {
            let e = #[trigger] after[i];
            &&& e.orientation == orientation
            &&& group_key(e) == key
            &&& !order::key_less(start_key(next, orientation), start_key(e, orientation))
            &&& i < before.len() ==> start_key(e, orientation) == start_key(before[i], orientation)
        } by {
            if i < before.len() {
                assert(before[i].orientation == orientation);
            }
        }
        let old_starts = start_keys(before, orientation);
        let new_starts = start_keys(after, orientation);
        assert forall|i: int, j: int| 0 <= i < j < new_starts.len() implies !order::key_less(
            #[trigger] new_starts[j],
            #[trigger] new_starts[i],
        ) by {
            assert(start_key(after[i], orientation) == start_key(before[i], orientation));
            if j < before.len() {
                assert(start_key(after[j], orientation) == start_key(before[j], orientation));
                assert(!order::key_less(old_starts[j], old_starts[i]));
            } else {
                assert(after[j] == next);
            }
        }
    }
}

proof fn lemma_apart_stay(edges: Seq<EdgeView>, orientation: Orientation, tolerance: Float)
    requires
        forall|i: int, j: int|
            0 <= i && j == i + 1 && j < edges.len() ==> !reaches(
                #[trigger] edges[i],
                #[trigger] edges[j],
                orientation,
                tolerance,
            ),
    ensures
        joined_in_order(edges, orientation, tolerance) == edges,
    decreases edges.len(),
{
    if edges.len() > 0 {
        let rest = edges.drop_last();
        assert forall|i: int, j: int| 0 <= i && j == i + 1 && j < rest.len() implies !reaches(
            #[trigger] rest[i],
            #[trigger] rest[j],
            orientation,
            tolerance,
        ) by {
            assert(!reaches(edges[i], edges[j], orientation, tolerance));
        }
        lemma_apart_stay(rest, orientation, tolerance);
        if rest.len() > 0 {
            assert(!reaches(
                edges[edges.len() - 2],
                edges[edges.len() - 1],
                orientation,
                tolerance,
            ));
        }
        assert(rest.push(edges.last()) =~= edges);
    } else {
        assert(edges =~= Seq::<EdgeView>::empty());
    }
}

/// Joining the edges of a group again changes nothing, where all have its orientation and
/// lie on one line; they still do.
pub proof fn law_joined_group_stays(
    edges: Seq<EdgeView>,
    orientation: Orientation,
    tolerance: Float,
    key: order::Key,
)
    requires
        edges.len() <= usize::MAX,
        forall|i: int|
            0 <= i < edges.len() ==> (#[trigger] edges[i]).orientation == orientation && group_key(
                edges[i],
            ) == key,
    ensures
        ({
            let joined = joined_group(edges, orientation, tolerance);
            &&& joined.len() <= edges.len()
            &&& edges.len() > 0 ==> joined.len() > 0
            &&& forall|i: int|
                0 <= i < joined.len() ==> (#[trigger] joined[i]).orientation == orientation
                    && group_key(joined[i]) == key
            &&& joined_group(joined, orientation, tolerance) == joined
        }),
{
    let keys = start_keys(edges, orientation);
    order::law_stable_order_exists(keys);
    let p = order::stable_order(keys);
    let sorted = order::picked(edges, p);
    order::law_sorted_ascend(keys);
    assert(start_keys(sorted, orientation) =~= order::picked(keys, p));
    assert forall|i: int| 0 <= i < sorted.len() implies (#[trigger] sorted[i]).orientation
        == orientation && group_key(sorted[i]) == key by {
        assert(sorted[i] == edges[p[i] as int]);
    }
    let joined = joined_in_order(sorted, orientation, tolerance);
    lemma_joined_keys(sorted, orientation, tolerance, key);
    law_joined_are_apart(sorted, orientation, tolerance);
    order::law_ascending_stay(joined, start_keys(joined, orientation));
    lemma_apart_stay(joined, orientation, tolerance);
}

proof fn lemma_run_ends_at(edges: Seq<EdgeView>, from: int, end: int)
    requires
        0 <= from <= end <= edges.len(),
        forall|i: int|
            from <= i < end ==> group_key(#[trigger] edges[i]) == group_key(edges[0]),
        end < edges.len() ==> group_key(edges[end]) != group_key(edges[0]),
    ensures
        run_end(edges, from) == end,
    decreases end - from,
{
    if from < end {
        assert(group_key(edges[from]) == group_key(edges[0]));
        lemma_run_ends_at(edges, from + 1, end);
    }
}

proof fn lemma_run_is_even(edges: Seq<EdgeView>, from: int)
    requires
        1 <= from <= edges.len(),
    ensures
        from <= run_end(edges, from) <= edges.len(),
        forall|i: int|
            from <= i < run_end(edges, from) ==> group_key(#[trigger] edges[i]) == group_key(
                edges[0],
            ),
        run_end(edges, from) < edges.len() ==> group_key(edges[run_end(edges, from)])
            != group_key(edges[0]),
    decreases edges.len() - from,
{
    if from < edges.len() && group_key(edges[from]) == group_key(edges[0]) {
        lemma_run_is_even(edges, from + 1);
    }
}

proof fn lemma_runs_stay(edges: Seq<EdgeView>, x_tolerance: Float, y_tolerance: Float)
    requires
        edges.len() <= usize::MAX,
        order::ascending(group_keys(edges)),
    ensures
        ({
            let joined = joined_runs(edges, x_tolerance, y_tolerance);
            &&& joined.len() <= edges.len()
            &&& edges.len() > 0 ==> joined.len() > 0 && group_key(joined[0]) == group_key(edges[0])
            &&& order::ascending(group_keys(joined))
            &&& joined_runs(joined, x_tolerance, y_tolerance) == joined
        }),
    decreases edges.len(),
{
    if edges.len() > 0 {
        let keys = group_keys(edges);
        let key = group_key(edges[0]);
        let end = run_end(edges, 1);
        lemma_run_is_even(edges, 1);
        let orientation = edges[0].orientation;
        let tolerance = match orientation {
            Orientation::Horizontal => x_tolerance,
            Orientation::Vertical => y_tolerance,
        };
        let group = edges.take(end);
        let rest = edges.skip(end);
        assert forall|i: int| 0 <= i < group.len() implies (#[trigger] group[i]).orientation
            == orientation && group_key(group[i]) == key by {
            assert(group[i] == edges[i]);
            if i > 0 {
                assert(group_key(edges[i]) == key);
            }
        }
        law_joined_group_stays(group, orientation, tolerance, key);
        assert forall|i: int, j: int| 0 <= i < j < rest.len() implies !order::key_less(
            #[trigger] group_keys(rest)[j],
            #[trigger] group_keys(rest)[i],
        ) by {
            assert(!order::key_less(keys[end + j], keys[end + i]));
        }
        lemma_runs_stay(rest, x_tolerance, y_tolerance);
        let head = joined_group(group, orientation, tolerance);
        let tail = joined_runs(rest, x_tolerance, y_tolerance);
        let all = joined_runs(edges, x_tolerance, y_tolerance);
        assert(all == head + tail);
        let m = head.len() as int;
        let n = all.len() as int;
        if tail.len() > 0 {
            assert(rest.len() > 0);
            assert(!order::key_less(keys[end], keys[0]));
            assert(order::key_less(key, group_key(tail[0])));
        }
        assert forall|i: int| m <= i < n implies order::key_less(
            key,
            group_key(#[trigger] all[i]),
        ) by {
            assert(all[i] == tail[i - m]);
            if i > m {
                assert(!order::key_less(group_keys(tail)[i - m], group_keys(tail)[0]));
            }
        }
        assert forall|i: int| 0 <= i < m implies group_key(#[trigger] all[i]) == key by {
            assert(all[i] == head[i]);
        }
        assert forall|i: int, j: int| 0 <= i < j < n implies !order::key_less(
            #[trigger] group_keys(all)[j],
            #[trigger] group_keys(all)[i],
        ) by {
            assert(group_keys(all)[i] == group_key(all[i]));
            assert(group_keys(all)[j] == group_key(all[j]));
            if m <= i {
                assert(!order::key_less(group_keys(tail)[j - m], group_keys(tail)[i - m]));
            }
        }
        lemma_run_ends_at(all, 1, m);
        assert(all.take(m) =~= head);
        assert(all.skip(m) =~= tail);
        assert(all[0] == head[0]);
    }
}

/// Where nothing is to be moved, merging edges that have been merged changes nothing.
pub proof fn law_merging_again_changes_nothing(
    edges: Seq<EdgeView>,
    snap_x: Float,
    snap_y: Float,
    join_x: Float,
    join_y: Float,
)
    requires
        edges.len() <= usize::MAX,
        !(Float { bits: 0 }).less(snap_x),
        !(Float { bits: 0 }).less(snap_y),
    ensures
        ({
            let once = merged(edges, snap_x, snap_y, join_x, join_y);
            merged(once, snap_x, snap_y, join_x, join_y) == once
        }),
{
    let keys = group_keys(edges);
    order::law_stable_order_exists(keys);
    let p = order::stable_order(keys);
    let sorted = order::picked(edges, p);
    order::law_sorted_ascend(keys);
    assert(group_keys(sorted) =~= order::picked(keys, p));
    lemma_runs_stay(sorted, join_x, join_y);
    let once = merged(edges, snap_x, snap_y, join_x, join_y);
    order::law_ascending_stay(once, group_keys(once));
}

/// Merged edges come in order: horizontal ones from the top to the bottom, then vertical
/// ones from the left to the right.
pub proof fn law_merged_edges_come_in_order(
    edges: Seq<EdgeView>,
    snap_x: Float,
    snap_y: Float,
    join_x: Float,
    join_y: Float,
    i: int,
    j: int,
)
    requires
        edges.len() <= usize::MAX,
        geometry::snapped(edges, snap_x, snap_y).len() <= usize::MAX,
        0 <= i < j < merged(edges, snap_x, snap_y, join_x, join_y).len(),
    ensures
        ({
            let a = merged(edges, snap_x, snap_y, join_x, join_y)[i];
            let b = merged(edges, snap_x, snap_y, join_x, join_y)[j];
            &&& b.orientation is Horizontal ==> a.orientation is Horizontal && !b.top.less(a.top)
            &&& a.orientation is Vertical ==> b.orientation is Vertical && !b.x0.less(a.x0)
        }),
{
    let zero = Float { bits: 0 };
    let near = if zero.less(snap_x) || zero.less(snap_y) {
        geometry::snapped(edges, snap_x, snap_y)
    } else {
        edges
    };
    let keys = group_keys(near);
    order::law_stable_order_exists(keys);
    let p = order::stable_order(keys);
    let sorted = order::picked(near, p);
    order::law_sorted_ascend(keys);
    assert(group_keys(sorted) =~= order::picked(keys, p));
    lemma_runs_stay(sorted, join_x, join_y);
    let all = merged(edges, snap_x, snap_y, join_x, join_y);
    assert(!order::key_less(group_keys(all)[j], group_keys(all)[i]));
}

/// Copies of the edges that `p` lists.
fn pick_edges(edges: &Vec<Edge>, p: &Vec<usize>) -> (r: Vec<Edge>)
    requires
        forall|i: int| 0 <= i < p@.len() ==> #[trigger] p@[i] < edges@.len(),
    ensures
        types::seen(r@) == order::picked(types::seen(edges@), p@),
{
    let mut out: Vec<Edge> = Vec::new();
    let n: usize = p.len();
    let ghost goal = order::picked(types::seen(edges@), p@);
    for i in 0..n
        invariant
            n == p@.len(),
            goal == order::picked(types::seen(edges@), p@),
            forall|i: int| 0 <= i < p@.len() ==> #[trigger] p@[i] < edges@.len(),
            types::seen(out@) =~= goal.take(i as int),
    {
        let e: Edge = edges[p[i]].copy();
        proof {
            types::lemma_seen_push(out@, e);
            assert(goal[i as int] == e@);
        }
        out.push(e);
    }
    assert(goal.take(n as int) =~= goal);
    out
}

fn edge_group_key(edge: &Edge) -> (r: order::Key)
    ensures
        r == group_key(edge@),
{
    match edge.orientation {
        Orientation::Horizontal => (0, edge.top.order_key()),
        Orientation::Vertical => (1, edge.x0.order_key()),
    }
}

fn edge_start_key(edge: &Edge, orientation: Orientation) -> (r: order::Key)
    ensures
        r == start_key(edge@, orientation),
{
    match orientation {
        Orientation::Horizontal => (edge.x0.total_rank(), 0),
        Orientation::Vertical => (edge.top.total_rank(), 0),
    }
}

/// The edges of a group, with those that reach one another made one.
pub fn join_edge_group(edges: &Vec<Edge>, orientation: Orientation, tolerance: Float) -> (r: Vec<
    Edge,
>)
    ensures
        types::seen(r@) == joined_group(types::seen(edges@), orientation, tolerance),
{
    let n: usize = edges.len();
    let ghost all = types::seen(edges@);
    let mut keys: Vec<order::Key> = Vec::new();
    for i in 0..n
        invariant
            n == edges@.len(),
            all == types::seen(edges@),
            keys@ =~= start_keys(all, orientation).take(i as int),
    {
        assert(start_keys(all, orientation)[i as int] == start_key(edges@[i as int]@, orientation));
        keys.push(edge_start_key(&edges[i], orientation));
    }
    assert(start_keys(all, orientation).take(n as int) =~= start_keys(all, orientation));
    let sorted: Vec<Edge> = pick_edges(edges, &order::sort_order(&keys));
    let ghost line = types::seen(sorted@);
    let mut out: Vec<Edge> = Vec::new();
    for i in 0..sorted.len()
        invariant
            line == types::seen(sorted@),
            types::seen(out@) == joined_in_order(line.take(i as int), orientation, tolerance),
    {
        assert(line.take(i + 1).drop_last() =~= line.take(i as int));
        let ghost before = types::seen(out@);
        let next: Edge = sorted[i].copy();
        match out.pop() {
            None => {
                assert(types::seen(out@) =~= before);
                proof {
                    types::lemma_seen_push(out@, next);
                }
                out.push(next);
            },
            Some(last) => {
                assert(types::seen(out@) =~= before.drop_last());
                assert(before.last() == last@);
                let overlaps: bool = match orientation {
                    Orientation::Horizontal => next.x0.le(last.x1.add(tolerance)),
                    Orientation::Vertical => next.top.le(last.bottom.add(tolerance)),
                };
                let mut last: Edge = last;
                if overlaps {
                    match orientation {
                        Orientation::Horizontal => if last.x1.lt(next.x1) {
                            last.x1 = next.x1;
                            last.width = last.x1.sub(last.x0);
                        },
                        Orientation::Vertical => if last.bottom.lt(next.bottom) {
                            last.bottom = next.bottom;
                            last.height = last.bottom.sub(last.top);
                        },
                    }
                    assert(last@ == stretched(before.last(), next@, orientation));
                    proof {
                        types::lemma_seen_push(out@, last);
                    }
                    out.push(last);
                    assert(types::seen(out@) =~= before.update(before.len() - 1, last@));
                } else {
                    proof {
                        types::lemma_seen_push(out@, last);
                    }
                    out.push(last);
                    assert(types::seen(out@) =~= before);
                    proof {
                        types::lemma_seen_push(out@, next);
                    }
                    out.push(next);
                }
            },
        }
    }
    assert(line.take(line.len() as int) =~= line);
    out
}

/// The edges moved onto each other where they are near, then joined where they reach
/// each other.
pub fn merge_edges(
    edges: &Vec<Edge>,
    snap_x_tolerance: Float,
    snap_y_tolerance: Float,
    join_x_tolerance: Float,
    join_y_tolerance: Float,
) -> (r: Vec<Edge>)
    ensures
        types::seen(r@) == merged(
            types::seen(edges@),
            snap_x_tolerance,
            snap_y_tolerance,
            join_x_tolerance,
            join_y_tolerance,
        ),
{
    let zero: Float = Float { bits: 0 };
    let near: Vec<Edge> = if zero.lt(snap_x_tolerance) || zero.lt(snap_y_tolerance) {
        geometry::snap_edges(edges, snap_x_tolerance, snap_y_tolerance)
    } else {
        copy_edges(edges)
    };
    let n: usize = near.len();
    let ghost all = types::seen(near@);
    let mut keys: Vec<order::Key> = Vec::new();
    for i in 0..n
        invariant
            n == near@.len(),
            all == types::seen(near@),
            keys@ =~= group_keys(all).take(i as int),
    {
        assert(group_keys(all)[i as int] == group_key(near@[i as int]@));
        keys.push(edge_group_key(&near[i]));
    }
    assert(group_keys(all).take(n as int) =~= group_keys(all));
    let sorted: Vec<Edge> = pick_edges(&near, &order::sort_order(&keys));
    let ghost line = types::seen(sorted@);
    let n: usize = sorted.len();
    let mut out: Vec<Edge> = Vec::new();
    let mut idx: usize = 0;
    assert(line.skip(0) =~= line);
    while idx < n
        invariant
            idx <= n,
            n == sorted@.len(),
            line == types::seen(sorted@),
            types::seen(out@) + joined_runs(line.skip(idx as int), join_x_tolerance, join_y_tolerance)
                =~= joined_runs(line, join_x_tolerance, join_y_tolerance),
        decreases n - idx,
    {
        let ghost rest = line.skip(idx as int);
        proof {
            lemma_run_is_even(rest, 1);
        }
        let key: order::Key = edge_group_key(&sorted[idx]);
        let mut group: Vec<Edge> = Vec::new();
        let first: Edge = sorted[idx].copy();
        proof {
            types::lemma_seen_push(group@, first);
        }
        group.push(first);
        let mut end: usize = idx + 1;
        assert(types::seen(group@) =~= rest.take(1));
        while end < n && same_key(edge_group_key(&sorted[end]), key)
            invariant
                idx < end <= n,
                n == sorted@.len(),
                line == types::seen(sorted@),
                rest == line.skip(idx as int),
                key == group_key(rest[0]),
                types::seen(group@) =~= rest.take(end - idx),
                run_end(rest, 1) == run_end(rest, end - idx),
            decreases n - end,
        {
            assert(rest[end - idx] == sorted@[end as int]@);
            let next: Edge = sorted[end].copy();
            proof {
                types::lemma_seen_push(group@, next);
            }
            group.push(next);
            end = end + 1;
        }
        assert(end < n ==> rest[end - idx] == sorted@[end as int]@);
        assert(run_end(rest, 1) == end - idx);
        assert(sorted@[idx as int]@ == rest[0]);
        let tolerance: Float = match sorted[idx].orientation {
            Orientation::Horizontal => join_x_tolerance,
            Orientation::Vertical => join_y_tolerance,
        };
        let mut joined: Vec<Edge> = join_edge_group(&group, sorted[idx].orientation, tolerance);
        proof {
            types::lemma_seen_add(out@, joined@);
            assert(rest.skip(end - idx) =~= line.skip(end as int));
        }
        out.append(&mut joined);
        idx = end;
    }
    out
}

fn same_key(a: order::Key, b: order::Key) -> (r: bool)
    ensures
        r == (a == b),
{
    a.0 == b.0 && a.1 == b.1
}

/// Copies of all edges.
pub fn copy_edges(edges: &Vec<Edge>) -> (r: Vec<Edge>)
    ensures
        types::seen(r@) == types::seen(edges@),
{
    let mut out: Vec<Edge> = Vec::new();
    let n: usize = edges.len();
    for i in 0..n
        invariant
            n == edges@.len(),
            types::seen(out@) =~= types::seen(edges@).take(i as int),
    {
        let e: Edge = edges[i].copy();
        proof {
            types::lemma_seen_push(out@, e);
        }
        out.push(e);
    }
    assert(types::seen(edges@).take(n as int) =~= types::seen(edges@));
    out
}

} // verus!
