//! What holds of the cells that edges make up.

use crate::float::Float;
use crate::geometry;
use crate::order;
use crate::table::cells;
use crate::table::intersections;
use crate::table::intersections::CrossingView;
use crate::types::BBox;
use crate::types::EdgeView;
use crate::types::Orientation;
use vstd::prelude::*;

verus! {

/// The cells that edges make up.
pub open spec fn cells_of(edges: Seq<EdgeView>, x_tolerance: Float, y_tolerance: Float) -> Seq<
    BBox,
> {
    cells::all_cells(intersections::crossings_of(edges, x_tolerance, y_tolerance))
}

/// Whether an edge is among those given, and vertical.
pub open spec fn stands(edges: Seq<EdgeView>, v: EdgeView) -> bool {
    edges.contains(v) && v.orientation == Orientation::Vertical
}

/// Whether an edge is among those given, and horizontal.
pub open spec fn lies(edges: Seq<EdgeView>, h: EdgeView) -> bool {
    edges.contains(h) && h.orientation == Orientation::Horizontal
}

/// Whether a vertical edge reaches up or down to a height, up to the tolerance.
pub open spec fn spans_height(v: EdgeView, y: Float, tolerance: Float) -> bool {
    v.top.at_most(y.plus(tolerance)) && y.minus(tolerance).at_most(v.bottom)
}

/// Whether a horizontal edge reaches left or right to a place, up to the tolerance.
pub open spec fn spans_place(h: EdgeView, x: Float, tolerance: Float) -> bool {
    h.x0.minus(tolerance).at_most(x) && x.at_most(h.x1.plus(tolerance))
}

/// Whether a vertical and a horizontal edge meet, up to the tolerances.
pub open spec fn meet(v: EdgeView, h: EdgeView, x_tolerance: Float, y_tolerance: Float) -> bool {
    spans_height(v, h.top, y_tolerance) && spans_place(h, v.x0, x_tolerance)
}

/// Whether a crossing is where two edges meet, and knows them both.
pub open spec fn knows(c: CrossingView, v: EdgeView, h: EdgeView) -> bool {
    &&& c.point.x.order() == v.x0.order()
    &&& c.point.y.order() == h.top.order()
    &&& c.edges.vertical.contains(v)
    &&& c.edges.horizontal.contains(h)
}

/// Whether there is such a crossing.
pub open spec fn known(crossings: Seq<CrossingView>, v: EdgeView, h: EdgeView) -> bool {
    exists|i: int| 0 <= i < crossings.len() && knows(#[trigger] crossings[i], v, h)
}

/// Whether the edges of a crossing are among those given and meet there in pairs.
pub open spec fn genuine(
    c: CrossingView,
    vertical: Seq<EdgeView>,
    horizontal: Seq<EdgeView>,
    x_tolerance: Float,
    y_tolerance: Float,
) -> bool {
    &&& c.edges.vertical.len() == c.edges.horizontal.len()
    &&& forall|k: int|
        0 <= k < c.edges.vertical.len() ==> {
            let v = #[trigger] c.edges.vertical[k];
            let h = c.edges.horizontal[k];
            &&& vertical.contains(v)
            &&& horizontal.contains(h)
            &&& meet(v, h, x_tolerance, y_tolerance)
            &&& c.point.x.order() == v.x0.order()
            &&& c.point.y.order() == h.top.order()
        }
}

pub open spec fn all_genuine(
    crossings: Seq<CrossingView>,
    vertical: Seq<EdgeView>,
    horizontal: Seq<EdgeView>,
    x_tolerance: Float,
    y_tolerance: Float,
) -> bool {
    forall|i: int|
        0 <= i < crossings.len() ==> genuine(
            #[trigger] crossings[i],
            vertical,
            horizontal,
            x_tolerance,
            y_tolerance,
        )
}

proof fn lemma_bounds(x: Float)
    ensures
        i64::MIN <= x.order() <= i64::MAX,
{
}

proof fn lemma_keys(p: crate::types::Point, q: crate::types::Point)
    ensures
        intersections::point_key(p) == intersections::point_key(q) <==> p.x.order() == q.x.order()
            && p.y.order() == q.y.order(),
        intersections::point_key(p).0 == p.x.order(),
        intersections::point_key(p).1 == p.y.order(),
{
    lemma_bounds(p.x);
    lemma_bounds(p.y);
    lemma_bounds(q.x);
    lemma_bounds(q.y);
}

proof fn lemma_recorded_known(
    crossings: Seq<CrossingView>,
    v: EdgeView,
    h: EdgeView,
)
    ensures
        known(intersections::recorded(crossings, v, h), v, h),
        forall|w: EdgeView, g: EdgeView|
            known(crossings, w, g) ==> #[trigger] known(
                intersections::recorded(crossings, v, h),
                w,
                g,
            ),
    decreases crossings.len(),
{
    let p = intersections::meeting_point(v, h);
    let after = intersections::recorded(crossings, v, h);
    if crossings.len() == 0 {
        assert(after[0].edges.vertical[0] == v && after[0].edges.horizontal[0] == h);
        assert(knows(after[0], v, h));
    } else {
        let n = crossings.len() - 1;
        let last = crossings.last();
        lemma_keys(last.point, p);
        if intersections::point_key(last.point) == intersections::point_key(p) {
            let c = after[n];
            assert(c.edges.vertical[c.edges.vertical.len() - 1] == v);
            assert(c.edges.horizontal[c.edges.horizontal.len() - 1] == h);
            assert(knows(c, v, h));
            assert forall|w: EdgeView, g: EdgeView| known(crossings, w, g) implies #[trigger] known(
                after,
                w,
                g,
            ) by {
                let i = choose|i: int|
                    0 <= i < crossings.len() && knows(#[trigger] crossings[i], w, g);
                if i == n {
                    let a = choose|a: int|
                        0 <= a < last.edges.vertical.len() && last.edges.vertical[a] == w;
                    let b = choose|b: int|
                        0 <= b < last.edges.horizontal.len() && last.edges.horizontal[b] == g;
                    assert(c.edges.vertical[a] == w && c.edges.horizontal[b] == g);
                }
                assert(knows(after[i], w, g));
            }
        } else if order::key_less(
            intersections::point_key(last.point),
            intersections::point_key(p),
        ) {
            let c = after[n + 1];
            assert(c.edges.vertical[0] == v && c.edges.horizontal[0] == h);
            assert(knows(c, v, h));
            assert forall|w: EdgeView, g: EdgeView| known(crossings, w, g) implies #[trigger] known(
                after,
                w,
                g,
            ) by {
                let i = choose|i: int|
                    0 <= i < crossings.len() && knows(#[trigger] crossings[i], w, g);
                assert(knows(after[i], w, g));
            }
        } else {
            let front = crossings.drop_last();
            let inner = intersections::recorded(front, v, h);
            lemma_recorded_known(front, v, h);
            let k = choose|k: int| 0 <= k < inner.len() && knows(#[trigger] inner[k], v, h);
            assert(knows(after[k], v, h));
            assert forall|w: EdgeView, g: EdgeView| known(crossings, w, g) implies #[trigger] known(
                after,
                w,
                g,
            ) by {
                let i = choose|i: int|
                    0 <= i < crossings.len() && knows(#[trigger] crossings[i], w, g);
                if i < n {
                    assert(knows(front[i], w, g));
                    assert(known(front, w, g));
                    assert(known(inner, w, g));
                    let j = choose|j: int|
                        0 <= j < inner.len() && knows(#[trigger] inner[j], w, g);
                    assert(knows(after[j], w, g));
                } else {
                    assert(knows(after[after.len() - 1], w, g));
                }
            }
        }
    }
}

proof fn lemma_recorded_genuine(
    crossings: Seq<CrossingView>,
    v: EdgeView,
    h: EdgeView,
    vertical: Seq<EdgeView>,
    horizontal: Seq<EdgeView>,
    x_tolerance: Float,
    y_tolerance: Float,
)
    requires
        all_genuine(crossings, vertical, horizontal, x_tolerance, y_tolerance),
        vertical.contains(v),
        horizontal.contains(h),
        meet(v, h, x_tolerance, y_tolerance),
    ensures
        all_genuine(
            intersections::recorded(crossings, v, h),
            vertical,
            horizontal,
            x_tolerance,
            y_tolerance,
        ),
    decreases crossings.len(),
{
    let p = intersections::meeting_point(v, h);
    let after = intersections::recorded(crossings, v, h);
    if crossings.len() > 0 {
        let n = crossings.len() - 1;
        let last = crossings.last();
        lemma_keys(last.point, p);
        assert(genuine(crossings[n], vertical, horizontal, x_tolerance, y_tolerance));
        if intersections::point_key(last.point) == intersections::point_key(p) {
            let c = after[n];
            assert forall|k: int| 0 <= k < c.edges.vertical.len() implies {
                let a = #[trigger] c.edges.vertical[k];
                let b = c.edges.horizontal[k];
                &&& vertical.contains(a)
                &&& horizontal.contains(b)
                &&& meet(a, b, x_tolerance, y_tolerance)
                &&& c.point.x.order() == a.x0.order()
                &&& c.point.y.order() == b.top.order()
            } by {
                if k < last.edges.vertical.len() {
                    assert(c.edges.vertical[k] == last.edges.vertical[k]);
                }
            }
            assert(genuine(c, vertical, horizontal, x_tolerance, y_tolerance));
            assert forall|i: int| 0 <= i < after.len() implies genuine(
                #[trigger] after[i],
                vertical,
                horizontal,
                x_tolerance,
                y_tolerance,
            ) by {
                if i < n {
                    assert(after[i] == crossings[i]);
                }
            }
        } else if order::key_less(
            intersections::point_key(last.point),
            intersections::point_key(p),
        ) {
            assert forall|i: int| 0 <= i < after.len() implies genuine(
                #[trigger] after[i],
                vertical,
                horizontal,
                x_tolerance,
                y_tolerance,
            ) by {
                if i <= n {
                    assert(after[i] == crossings[i]);
                }
            }
        } else {
            let front = crossings.drop_last();
            assert forall|i: int| 0 <= i < front.len() implies genuine(
                #[trigger] front[i],
                vertical,
                horizontal,
                x_tolerance,
                y_tolerance,
            ) by {
                assert(front[i] == crossings[i]);
            }
            lemma_recorded_genuine(
                front,
                v,
                h,
                vertical,
                horizontal,
                x_tolerance,
                y_tolerance,
            );
            let inner = intersections::recorded(front, v, h);
            assert forall|i: int| 0 <= i < after.len() implies genuine(
                #[trigger] after[i],
                vertical,
                horizontal,
                x_tolerance,
                y_tolerance,
            ) by {
                if i < inner.len() {
                    assert(after[i] == inner[i]);
                } else {
                    assert(after[i] == crossings[n]);
                }
            }
        }
    }
}

proof fn lemma_row(
    crossings: Seq<CrossingView>,
    v: EdgeView,
    row: Seq<EdgeView>,
    vertical: Seq<EdgeView>,
    horizontal: Seq<EdgeView>,
    x_tolerance: Float,
    y_tolerance: Float,
)
    requires
        all_genuine(crossings, vertical, horizontal, x_tolerance, y_tolerance),
        vertical.contains(v),
        forall|h: EdgeView| row.contains(h) ==> horizontal.contains(h),
    ensures
        ({
            let after = intersections::with_row(crossings, v, row, x_tolerance, y_tolerance);
            &&& all_genuine(after, vertical, horizontal, x_tolerance, y_tolerance)
            &&& forall|w: EdgeView, g: EdgeView|
                known(crossings, w, g) ==> #[trigger] known(after, w, g)
            &&& forall|h: EdgeView|
                row.contains(h) && meet(v, h, x_tolerance, y_tolerance) ==> #[trigger] known(
                    after,
                    v,
                    h,
                )
        }),
    decreases row.len(),
{
    if row.len() > 0 {
        let front = row.drop_last();
        let h = row.last();
        assert(row[row.len() - 1] == h);
        assert(row.contains(h));
        assert forall|g: EdgeView| front.contains(g) implies horizontal.contains(g) by {
            let k = choose|k: int| 0 <= k < front.len() && front[k] == g;
            assert(row[k] == g);
            assert(row.contains(g));
        }
        lemma_row(crossings, v, front, vertical, horizontal, x_tolerance, y_tolerance);
        let before = intersections::with_row(crossings, v, front, x_tolerance, y_tolerance);
        let after = intersections::with_row(crossings, v, row, x_tolerance, y_tolerance);
        if meet(v, h, x_tolerance, y_tolerance) {
            lemma_recorded_known(before, v, h);
            lemma_recorded_genuine(
                before,
                v,
                h,
                vertical,
                horizontal,
                x_tolerance,
                y_tolerance,
            );
        }
        assert forall|g: EdgeView|
            row.contains(g) && meet(v, g, x_tolerance, y_tolerance) implies #[trigger] known(
            after,
            v,
            g,
        ) by {
            let k = choose|k: int| 0 <= k < row.len() && row[k] == g;
            if k < front.len() {
                assert(front[k] == g);
                assert(front.contains(g));
                assert(known(before, v, g));
            }
        }
        assert forall|w: EdgeView, g: EdgeView| known(crossings, w, g) implies #[trigger] known(
            after,
            w,
            g,
        ) by {
            assert(known(before, w, g));
        }
    }
}

proof fn lemma_rows(
    list: Seq<EdgeView>,
    vertical: Seq<EdgeView>,
    horizontal: Seq<EdgeView>,
    x_tolerance: Float,
    y_tolerance: Float,
)
    requires
        forall|v: EdgeView| list.contains(v) ==> vertical.contains(v),
    ensures
        ({
            let all = intersections::all_crossings(list, horizontal, x_tolerance, y_tolerance);
            &&& all_genuine(all, vertical, horizontal, x_tolerance, y_tolerance)
            &&& forall|v: EdgeView, h: EdgeView|
                list.contains(v) && horizontal.contains(h) && meet(v, h, x_tolerance, y_tolerance)
                    ==> #[trigger] known(all, v, h)
        }),
    decreases list.len(),
{
    if list.len() > 0 {
        let front = list.drop_last();
        let last = list.last();
        assert(list[list.len() - 1] == last);
        assert(list.contains(last));
        assert forall|v: EdgeView| front.contains(v) implies vertical.contains(v) by {
            let k = choose|k: int| 0 <= k < front.len() && front[k] == v;
            assert(list[k] == v);
            assert(list.contains(v));
        }
        lemma_rows(front, vertical, horizontal, x_tolerance, y_tolerance);
        let before = intersections::all_crossings(front, horizontal, x_tolerance, y_tolerance);
        lemma_row(
            before,
            last,
            horizontal,
            vertical,
            horizontal,
            x_tolerance,
            y_tolerance,
        );
        let all = intersections::all_crossings(list, horizontal, x_tolerance, y_tolerance);
        assert forall|v: EdgeView, h: EdgeView|
            list.contains(v) && horizontal.contains(h) && meet(
                v,
                h,
                x_tolerance,
                y_tolerance,
            ) implies #[trigger] known(all, v, h) by {
            let k = choose|k: int| 0 <= k < list.len() && list[k] == v;
            if k < front.len() {
                assert(front[k] == v);
                assert(front.contains(v));
                assert(known(before, v, h));
            }
        }
    }
}

/// Where a vertical and a horizontal edge meet there is a crossing that knows them both; all
/// edges that crossings know are among those given, and meet there.
pub proof fn law_crossings_are_where_edges_meet(
    edges: Seq<EdgeView>,
    x_tolerance: Float,
    y_tolerance: Float,
)
    ensures
        forall|v: EdgeView, h: EdgeView|
            stands(edges, v) && lies(edges, h) && meet(v, h, x_tolerance, y_tolerance)
                ==> #[trigger] known(
                intersections::crossings_of(edges, x_tolerance, y_tolerance),
                v,
                h,
            ),
        all_genuine(
            intersections::crossings_of(edges, x_tolerance, y_tolerance),
            edges.filter(geometry::oriented(Orientation::Vertical)),
            edges.filter(geometry::oriented(Orientation::Horizontal)),
            x_tolerance,
            y_tolerance,
        ),
{
    let vertical = edges.filter(geometry::oriented(Orientation::Vertical));
    let horizontal = edges.filter(geometry::oriented(Orientation::Horizontal));
    lemma_rows(vertical, vertical, horizontal, x_tolerance, y_tolerance);
    let all = intersections::crossings_of(edges, x_tolerance, y_tolerance);
    assert forall|v: EdgeView, h: EdgeView|
        stands(edges, v) && lies(edges, h) && meet(
            v,
            h,
            x_tolerance,
            y_tolerance,
        ) implies #[trigger] known(all, v, h) by {
        lemma_filtered(edges, v, Orientation::Vertical);
        lemma_filtered(edges, h, Orientation::Horizontal);
    }
}

proof fn lemma_filtered(edges: Seq<EdgeView>, e: EdgeView, orientation: Orientation)
    ensures
        edges.filter(geometry::oriented(orientation)).contains(e) <==> edges.contains(e)
            && e.orientation == orientation,
    decreases edges.len(),
{
    reveal(Seq::filter);
    let some = edges.filter(geometry::oriented(orientation));
    if edges.len() > 0 {
        let front = edges.drop_last();
        let before = front.filter(geometry::oriented(orientation));
        lemma_filtered(front, e, orientation);
        assert(edges[edges.len() - 1] == edges.last());
        if front.contains(e) {
            let k = choose|k: int| 0 <= k < front.len() && front[k] == e;
            assert(edges[k] == e);
        }
        if before.contains(e) {
            let k = choose|k: int| 0 <= k < before.len() && before[k] == e;
            assert(some[k] == e);
        }
        if edges.contains(e) && !front.contains(e) {
            let k = choose|k: int| 0 <= k < edges.len() && edges[k] == e;
            assert(k == edges.len() - 1) by {
                if k < edges.len() - 1 {
                    assert(front[k] == e);
                }
            }
            if e.orientation == orientation {
                assert(some[some.len() - 1] == e);
            }
        }
        if some.contains(e) {
            let k = choose|k: int| 0 <= k < some.len() && some[k] == e;
            if k < before.len() {
                assert(before[k] == e);
            } else {
                assert(edges[edges.len() - 1] == e);
            }
        }
    }
}

proof fn lemma_first_closing_found(crossings: Seq<CrossingView>, i: int, b: int, from: int, r: int)
    requires
        0 <= from <= r < crossings.len(),
        cells::closes(crossings, i, b, r),
    ensures
        cells::first_closing(crossings, i, b, from) matches Some(found) && from <= found <= r,
    decreases r - from,
{
    if from < r && !cells::closes(crossings, i, b, from) {
        lemma_first_closing_found(crossings, i, b, from + 1, r);
    }
}

proof fn lemma_cell_from(crossings: Seq<CrossingView>, i: int, b: int, end: int, r: int)
    requires
        0 <= i < b < end <= crossings.len(),
        cells::key_at(crossings, b).0 == cells::key_at(crossings, i).0,
        cells::connected(crossings, i, b),
        cells::first_closing(crossings, i, b, i + 1) == Some(r),
    ensures
        cells::cells_from(crossings, i, end).contains(
            cells::cell_between(crossings, i, b, r),
        ),
    decreases end,
{
    let cell = cells::cell_between(crossings, i, b, r);
    let all = cells::cells_from(crossings, i, end);
    let before = cells::cells_from(crossings, i, end - 1);
    if b == end - 1 {
        assert(all.last() == cell);
        assert(all[all.len() - 1] == cell);
    } else {
        lemma_cell_from(crossings, i, b, end - 1, r);
        let k = choose|k: int| 0 <= k < before.len() && before[k] == cell;
        assert(all[k] == cell);
    }
}

proof fn lemma_cell_before(crossings: Seq<CrossingView>, i: int, n: int, cell: BBox)
    requires
        0 <= i < n,
        cells::cells_from(crossings, i, crossings.len() as int).contains(cell),
    ensures
        cells::cells_before(crossings, n).contains(cell),
    decreases n,
{
    let a = cells::cells_before(crossings, n - 1);
    let b = cells::cells_from(crossings, n - 1, crossings.len() as int);
    if i == n - 1 {
        let k = choose|k: int| 0 <= k < b.len() && b[k] == cell;
        assert((a + b)[a.len() + k] == cell);
    } else {
        lemma_cell_before(crossings, i, n - 1, cell);
        let k = choose|k: int| 0 <= k < a.len() && a[k] == cell;
        assert((a + b)[k] == cell);
    }
}

/// Wherever four crossings frame a rectangle, there is a cell with the same left side that
/// is no wider: none is lost.
pub proof fn law_framed_rectangles_hold_cells(
    crossings: Seq<CrossingView>,
    i: int,
    b: int,
    r: int,
    c: int,
) -> (found: int)
    requires
        cells::framed(
            crossings,
            cells::cell_between(crossings, i, b, r),
            i,
            b,
            r,
            c,
        ),
    ensures
        i < found <= r,
        cells::all_cells(crossings).contains(cells::cell_between(crossings, i, b, found)),
        cells::key_at(crossings, found).1 == cells::key_at(crossings, i).1,
{
    assert(cells::completes(crossings, b, r, c));
    assert(cells::closes(crossings, i, b, r));
    lemma_first_closing_found(crossings, i, b, i + 1, r);
    let found = cells::first_closing(crossings, i, b, i + 1)->0;
    lemma_closing_lies_beside(crossings, i, b, i + 1);
    lemma_cell_from(crossings, i, b, crossings.len() as int, found);
    lemma_cell_before(
        crossings,
        i,
        crossings.len() as int,
        cells::cell_between(crossings, i, b, found),
    );
    found
}

proof fn lemma_closing_lies_beside(crossings: Seq<CrossingView>, i: int, b: int, from: int)
    ensures
        cells::first_closing(crossings, i, b, from) matches Some(r) ==> cells::key_at(
            crossings,
            r,
        ).1 == cells::key_at(crossings, i).1,
    decreases crossings.len() - from,
{
    if from < crossings.len() && !cells::closes(crossings, i, b, from) {
        lemma_closing_lies_beside(crossings, i, b, from + 1);
    }
}

proof fn lemma_shared(a: Seq<EdgeView>, b: Seq<EdgeView>, e: EdgeView)
    requires
        a.contains(e),
        b.contains(e),
    ensures
        cells::share_edge(a, b),
{
    let i = choose|i: int| 0 <= i < a.len() && a[i] == e;
    let j = choose|j: int| 0 <= j < b.len() && b[j] == e;
    assert(intersections::edge_key(a[i]) == intersections::edge_key(b[j]));
}

/// Whether a cell begins at the given edges, reaches down to the lower one, and ends no
/// further to the right than the right one.
pub open spec fn fits(
    cell: BBox,
    left: EdgeView,
    right: EdgeView,
    upper: EdgeView,
    lower: EdgeView,
) -> bool {
    &&& cell.x0.same(left.x0)
    &&& cell.top.same(upper.top)
    &&& cell.bottom.same(lower.top)
    &&& left.x0.less(cell.x1)
    &&& cell.x1.at_most(right.x0)
}

/// Two vertical and two horizontal edges of which each meets both of the other kind have a
/// cell between them: it begins where the left one meets the upper one, reaches down to the
/// lower one, and ends at the right one unless another edge ends it before.
pub proof fn law_four_edges_make_a_cell(
    edges: Seq<EdgeView>,
    x_tolerance: Float,
    y_tolerance: Float,
    left: EdgeView,
    right: EdgeView,
    upper: EdgeView,
    lower: EdgeView,
)
    requires
        stands(edges, left),
        stands(edges, right),
        lies(edges, upper),
        lies(edges, lower),
        left.x0.less(right.x0),
        upper.top.less(lower.top),
        meet(left, upper, x_tolerance, y_tolerance),
        meet(left, lower, x_tolerance, y_tolerance),
        meet(right, upper, x_tolerance, y_tolerance),
        meet(right, lower, x_tolerance, y_tolerance),
    ensures
        exists|k: int|
            0 <= k < cells_of(edges, x_tolerance, y_tolerance).len() && fits(
                #[trigger] cells_of(edges, x_tolerance, y_tolerance)[k],
                left,
                right,
                upper,
                lower,
            ),
{
    let all = intersections::crossings_of(edges, x_tolerance, y_tolerance);
    law_crossings_are_where_edges_meet(edges, x_tolerance, y_tolerance);
    intersections::law_crossings_ascend(edges, x_tolerance, y_tolerance);
    assert(known(all, left, upper) && known(all, left, lower));
    assert(known(all, right, upper) && known(all, right, lower));
    let i = choose|i: int| 0 <= i < all.len() && knows(#[trigger] all[i], left, upper);
    let b = choose|b: int| 0 <= b < all.len() && knows(#[trigger] all[b], left, lower);
    let r = choose|r: int| 0 <= r < all.len() && knows(#[trigger] all[r], right, upper);
    let c = choose|c: int| 0 <= c < all.len() && knows(#[trigger] all[c], right, lower);
    lemma_keys(all[i].point, all[b].point);
    lemma_keys(all[r].point, all[c].point);
    lemma_keys(all[i].point, all[r].point);
    lemma_keys(all[b].point, all[c].point);
    lemma_index_order(all, i, b);
    lemma_index_order(all, i, r);
    lemma_shared(all[i].edges.vertical, all[b].edges.vertical, left);
    lemma_shared(all[c].edges.vertical, all[r].edges.vertical, right);
    lemma_shared(all[i].edges.horizontal, all[r].edges.horizontal, upper);
    lemma_shared(all[c].edges.horizontal, all[b].edges.horizontal, lower);
    assert(cells::connected(all, i, b));
    assert(cells::connected(all, i, r));
    assert(cells::connected(all, c, r));
    assert(cells::connected(all, c, b));
    assert(cells::completes(all, b, r, c));
    assert(cells::framed(all, cells::cell_between(all, i, b, r), i, b, r, c));
    let found = law_framed_rectangles_hold_cells(all, i, b, r, c);
    let cell = cells::cell_between(all, i, b, found);
    assert(intersections::consistent_at(all[i]));
    assert(intersections::consistent_at(all[b]));
    assert(intersections::consistent_at(all[found]));
    lemma_keys(all[i].point, all[found].point);
    lemma_keys(all[found].point, all[r].point);
    assert(order::key_less(
        intersections::point_key(all[i].point),
        intersections::point_key(all[found].point),
    ));
    if found < r {
        assert(order::key_less(
            intersections::point_key(all[found].point),
            intersections::point_key(all[r].point),
        ));
    }
    let list = cells_of(edges, x_tolerance, y_tolerance);
    let k = choose|k: int| 0 <= k < list.len() && list[k] == cell;
    assert(fits(list[k], left, right, upper, lower));
}

proof fn lemma_index_order(crossings: Seq<CrossingView>, i: int, j: int)
    requires
        intersections::ascending(crossings),
        0 <= i < crossings.len(),
        0 <= j < crossings.len(),
        order::key_less(
            intersections::point_key(crossings[i].point),
            intersections::point_key(crossings[j].point),
        ),
    ensures
        i < j,
{
    if j < i {
        assert(order::key_less(
            intersections::point_key(crossings[j].point),
            intersections::point_key(crossings[i].point),
        ));
    }
}

/// Whether a vertical edge of those given runs along a side at `x` from `top` to `bottom`.
pub open spec fn runs_down(
    edges: Seq<EdgeView>,
    v: EdgeView,
    x: Float,
    top: Float,
    bottom: Float,
    tolerance: Float,
) -> bool {
    &&& stands(edges, v)
    &&& v.x0.order() == x.order()
    &&& spans_height(v, top, tolerance)
    &&& spans_height(v, bottom, tolerance)
}

/// Whether a horizontal edge of those given runs along a side at `y` from `x0` to `x1`.
pub open spec fn runs_across(
    edges: Seq<EdgeView>,
    h: EdgeView,
    y: Float,
    x0: Float,
    x1: Float,
    tolerance: Float,
) -> bool {
    &&& lies(edges, h)
    &&& h.top.order() == y.order()
    &&& spans_place(h, x0, tolerance)
    &&& spans_place(h, x1, tolerance)
}

/// Whether all four sides of a cell lie on edges that reach from corner to corner.
pub open spec fn ruled(
    edges: Seq<EdgeView>,
    cell: BBox,
    x_tolerance: Float,
    y_tolerance: Float,
) -> bool {
    &&& exists|v: EdgeView|
        runs_down(edges, v, cell.x0, cell.top, cell.bottom, y_tolerance)
    &&& exists|v: EdgeView|
        runs_down(edges, v, cell.x1, cell.top, cell.bottom, y_tolerance)
    &&& exists|h: EdgeView| runs_across(edges, h, cell.top, cell.x0, cell.x1, x_tolerance)
    &&& exists|h: EdgeView|
        runs_across(edges, h, cell.bottom, cell.x0, cell.x1, x_tolerance)
}

proof fn lemma_same_order_sum(a: Float, b: Float, c: Float)
    requires
        a.order() == b.order(),
        !a.nan(),
    ensures
        a.plus(c).order() == b.plus(c).order(),
        a.plus(c).nan() == b.plus(c).nan(),
        a.minus(c).order() == b.minus(c).order(),
        a.minus(c).nan() == b.minus(c).nan(),
{
    crate::float::laws::law_alike_sums(a, b, c, c);
}

proof fn lemma_down_side(
    edges: Seq<EdgeView>,
    all: Seq<CrossingView>,
    a: int,
    b: int,
    x: Float,
    top: Float,
    bottom: Float,
    x_tolerance: Float,
    y_tolerance: Float,
)
    requires
        all_genuine(
            all,
            edges.filter(geometry::oriented(Orientation::Vertical)),
            edges.filter(geometry::oriented(Orientation::Horizontal)),
            x_tolerance,
            y_tolerance,
        ),
        intersections::consistent(all),
        0 <= a < all.len(),
        0 <= b < all.len(),
        cells::connected(all, a, b),
        all[a].point.x.order() == x.order(),
        all[b].point.x.order() == x.order(),
        all[a].point.y.order() == top.order(),
        all[b].point.y.order() == bottom.order(),
        !top.nan() && !bottom.nan(),
    ensures
        exists|v: EdgeView| runs_down(edges, v, x, top, bottom, y_tolerance),
{
    lemma_keys(all[a].point, all[b].point);
    let (i, j) = choose|i: int, j: int|
        0 <= i < all[a].edges.vertical.len() && 0 <= j < all[b].edges.vertical.len()
            && intersections::edge_key(#[trigger] all[a].edges.vertical[i])
            == intersections::edge_key(#[trigger] all[b].edges.vertical[j]);
    let v = all[a].edges.vertical[i];
    let w = all[b].edges.vertical[j];
    let h = all[a].edges.horizontal[i];
    let g = all[b].edges.horizontal[j];
    assert(genuine(
        all[a],
        edges.filter(geometry::oriented(Orientation::Vertical)),
        edges.filter(geometry::oriented(Orientation::Horizontal)),
        x_tolerance,
        y_tolerance,
    ));
    assert(genuine(
        all[b],
        edges.filter(geometry::oriented(Orientation::Vertical)),
        edges.filter(geometry::oriented(Orientation::Horizontal)),
        x_tolerance,
        y_tolerance,
    ));
    lemma_filtered(edges, v, Orientation::Vertical);
    lemma_not_nan(h.top, top);
    lemma_not_nan(g.top, bottom);
    lemma_same_order_sum(top, h.top, y_tolerance);
    lemma_same_order_sum(bottom, g.top, y_tolerance);
    assert(meet(v, h, x_tolerance, y_tolerance) && meet(w, g, x_tolerance, y_tolerance));
    lemma_not_nan(v.top, w.top);
    lemma_not_nan(v.bottom, w.bottom);
    assert(runs_down(edges, v, x, top, bottom, y_tolerance));
}

proof fn lemma_not_nan(a: Float, b: Float)
    requires
        a.order() == b.order(),
    ensures
        a.nan() == b.nan(),
{
}

proof fn lemma_across_side(
    edges: Seq<EdgeView>,
    all: Seq<CrossingView>,
    a: int,
    b: int,
    y: Float,
    x0: Float,
    x1: Float,
    x_tolerance: Float,
    y_tolerance: Float,
)
    requires
        all_genuine(
            all,
            edges.filter(geometry::oriented(Orientation::Vertical)),
            edges.filter(geometry::oriented(Orientation::Horizontal)),
            x_tolerance,
            y_tolerance,
        ),
        intersections::consistent(all),
        0 <= a < all.len(),
        0 <= b < all.len(),
        cells::connected(all, a, b),
        all[a].point.y.order() == y.order(),
        all[b].point.y.order() == y.order(),
        all[a].point.x.order() == x0.order(),
        all[b].point.x.order() == x1.order(),
        x0.order() != x1.order(),
    ensures
        exists|h: EdgeView| runs_across(edges, h, y, x0, x1, x_tolerance),
{
    lemma_keys(all[a].point, all[b].point);
    let (i, j) = choose|i: int, j: int|
        0 <= i < all[a].edges.horizontal.len() && 0 <= j < all[b].edges.horizontal.len()
            && intersections::edge_key(#[trigger] all[a].edges.horizontal[i])
            == intersections::edge_key(#[trigger] all[b].edges.horizontal[j]);
    let h = all[a].edges.horizontal[i];
    let g = all[b].edges.horizontal[j];
    assert(genuine(
        all[a],
        edges.filter(geometry::oriented(Orientation::Vertical)),
        edges.filter(geometry::oriented(Orientation::Horizontal)),
        x_tolerance,
        y_tolerance,
    ));
    assert(genuine(
        all[b],
        edges.filter(geometry::oriented(Orientation::Vertical)),
        edges.filter(geometry::oriented(Orientation::Horizontal)),
        x_tolerance,
        y_tolerance,
    ));
    let v = all[a].edges.vertical[i];
    let w = all[b].edges.vertical[j];
    assert(meet(v, h, x_tolerance, y_tolerance) && meet(w, g, x_tolerance, y_tolerance));
    lemma_filtered(edges, h, Orientation::Horizontal);
    lemma_not_nan(v.x0, x0);
    lemma_not_nan(w.x0, x1);
    lemma_sum_parts(h.x0, x_tolerance);
    lemma_sum_parts(g.x0, x_tolerance);
    lemma_sum_parts(h.x1, x_tolerance);
    lemma_sum_parts(g.x1, x_tolerance);
    lemma_same_order_sum(g.x0, h.x0, x_tolerance);
    lemma_same_order_sum(g.x1, h.x1, x_tolerance);
    assert(runs_across(edges, h, y, x0, x1, x_tolerance));
}

proof fn lemma_sum_parts(a: Float, b: Float)
    ensures
        a.nan() ==> a.plus(b).nan() && a.minus(b).nan(),
{
    reveal(Float::plus);
}

/// Every cell has its four sides on edges of those given, each of which reaches from one
/// corner to the next: there is no cell where no lines are.
pub proof fn law_cells_are_ruled(
    edges: Seq<EdgeView>,
    x_tolerance: Float,
    y_tolerance: Float,
    k: int,
)
    requires
        0 <= k < cells_of(edges, x_tolerance, y_tolerance).len(),
    ensures
        ruled(
            edges,
            cells_of(edges, x_tolerance, y_tolerance)[k],
            x_tolerance,
            y_tolerance,
        ),
        cells_of(edges, x_tolerance, y_tolerance)[k].x0.less(
            cells_of(edges, x_tolerance, y_tolerance)[k].x1,
        ),
        cells_of(edges, x_tolerance, y_tolerance)[k].top.less(
            cells_of(edges, x_tolerance, y_tolerance)[k].bottom,
        ),
{
    let all = intersections::crossings_of(edges, x_tolerance, y_tolerance);
    law_crossings_are_where_edges_meet(edges, x_tolerance, y_tolerance);
    intersections::law_crossings_ascend(edges, x_tolerance, y_tolerance);
    cells::law_cells_are_framed(all);
    let cell = cells_of(edges, x_tolerance, y_tolerance)[k];
    assert(cells::is_framed(all, cell) && cells::proper(cell));
    let (i, b, r, c) = choose|i: int, b: int, r: int, c: int|
        cells::framed(all, cell, i, b, r, c);
    lemma_keys(all[i].point, all[b].point);
    lemma_keys(all[i].point, all[r].point);
    lemma_keys(all[c].point, all[r].point);
    lemma_keys(all[c].point, all[b].point);
    lemma_down_side(edges, all, i, b, cell.x0, cell.top, cell.bottom, x_tolerance, y_tolerance);
    lemma_connected_back(all, c, r);
    lemma_connected_back(all, c, b);
    lemma_down_side(edges, all, r, c, cell.x1, cell.top, cell.bottom, x_tolerance, y_tolerance);
    lemma_across_side(edges, all, i, r, cell.top, cell.x0, cell.x1, x_tolerance, y_tolerance);
    lemma_across_side(
        edges,
        all,
        b,
        c,
        cell.bottom,
        cell.x0,
        cell.x1,
        x_tolerance,
        y_tolerance,
    );
}

proof fn lemma_connected_back(crossings: Seq<CrossingView>, a: int, b: int)
    ensures
        cells::connected(crossings, a, b) == cells::connected(crossings, b, a),
{
    lemma_share_back(crossings[a].edges.vertical, crossings[b].edges.vertical);
    lemma_share_back(crossings[a].edges.horizontal, crossings[b].edges.horizontal);
}

proof fn lemma_share_back(a: Seq<EdgeView>, b: Seq<EdgeView>)
    ensures
        cells::share_edge(a, b) == cells::share_edge(b, a),
{
}

/// Whether a cell has its first corner at the crossing `i` and reaches down to the crossing
/// `b`.
pub open spec fn has_left_side(crossings: Seq<CrossingView>, cell: BBox, i: int, b: int) -> bool {
    &&& 0 <= i < b < crossings.len()
    &&& cell.x0 == crossings[i].point.x
    &&& cell.top == crossings[i].point.y
    &&& cell.bottom == crossings[b].point.y
    &&& cells::key_at(crossings, b).0 == cells::key_at(crossings, i).0
}

pub open spec fn begins_at(crossings: Seq<CrossingView>, cell: BBox, i: int, end: int) -> bool {
    exists|b: int| b < end && #[trigger] has_left_side(crossings, cell, i, b)
}

pub open spec fn begins_before(crossings: Seq<CrossingView>, cell: BBox, n: int) -> bool {
    exists|i: int, b: int| i < n && #[trigger] has_left_side(crossings, cell, i, b)
}

proof fn lemma_left_sides_from(crossings: Seq<CrossingView>, i: int, end: int)
    requires
        0 <= i < crossings.len(),
        end <= crossings.len(),
        intersections::ascending(crossings),
    ensures
        forall|k: int|
            0 <= k < cells::cells_from(crossings, i, end).len() ==> begins_at(
                crossings,
                #[trigger] cells::cells_from(crossings, i, end)[k],
                i,
                end,
            ),
        forall|j: int, k: int|
            0 <= j < k < cells::cells_from(crossings, i, end).len() ==> (
            #[trigger] cells::cells_from(crossings, i, end)[j]).bottom.order() != (
            #[trigger] cells::cells_from(crossings, i, end)[k]).bottom.order(),
    decreases end,
{
    if end > i + 1 && end > 0 {
        let b = end - 1;
        lemma_left_sides_from(crossings, i, b);
        let before = cells::cells_from(crossings, i, b);
        let all = cells::cells_from(crossings, i, end);
        assert forall|k: int| 0 <= k < all.len() implies begins_at(
            crossings,
            #[trigger] all[k],
            i,
            end,
        ) by {
            if k < before.len() {
                assert(all[k] == before[k]);
                assert(begins_at(crossings, before[k], i, b));
                let d = choose|d: int| d < b && #[trigger] has_left_side(crossings, before[k], i, d);
                assert(has_left_side(crossings, all[k], i, d));
            } else {
                assert(has_left_side(crossings, all[k], i, b));
            }
        }
        assert forall|j: int, k: int| 0 <= j < k < all.len() implies (
        #[trigger] all[j]).bottom.order() != (#[trigger] all[k]).bottom.order() by {
            assert(all[j] == before[j]);
            if k < before.len() {
                assert(all[k] == before[k]);
            } else {
                assert(begins_at(crossings, before[j], i, b));
                let d = choose|d: int| d < b && #[trigger] has_left_side(crossings, before[j], i, d);
                lemma_keys(crossings[d].point, crossings[b].point);
                assert(order::key_less(
                    intersections::point_key(crossings[d].point),
                    intersections::point_key(crossings[b].point),
                ));
            }
        }
    }
}

/// Whether two cells begin at the same point and end at the same height.
pub open spec fn same_left_side(a: BBox, b: BBox) -> bool {
    &&& a.x0.order() == b.x0.order()
    &&& a.top.order() == b.top.order()
    &&& a.bottom.order() == b.bottom.order()
}

proof fn lemma_left_sides_before(crossings: Seq<CrossingView>, n: int)
    requires
        0 <= n <= crossings.len(),
        intersections::ascending(crossings),
    ensures
        forall|k: int|
            0 <= k < cells::cells_before(crossings, n).len() ==> begins_before(
                crossings,
                #[trigger] cells::cells_before(crossings, n)[k],
                n,
            ),
        forall|j: int, k: int|
            0 <= j < k < cells::cells_before(crossings, n).len() ==> !same_left_side(
                #[trigger] cells::cells_before(crossings, n)[j],
                #[trigger] cells::cells_before(crossings, n)[k],
            ),
    decreases n,
{
    if n > 0 {
        lemma_left_sides_before(crossings, n - 1);
        lemma_left_sides_from(crossings, n - 1, crossings.len() as int);
        let a = cells::cells_before(crossings, n - 1);
        let b = cells::cells_from(crossings, n - 1, crossings.len() as int);
        let all = cells::cells_before(crossings, n);
        assert(all == a + b);
        assert forall|k: int| 0 <= k < all.len() implies begins_before(
            crossings,
            #[trigger] all[k],
            n,
        ) by {
            if k < a.len() {
                assert(all[k] == a[k]);
                assert(begins_before(crossings, a[k], n - 1));
                let (i, d) = choose|i: int, d: int|
                    i < n - 1 && #[trigger] has_left_side(crossings, a[k], i, d);
                assert(has_left_side(crossings, all[k], i, d));
            } else {
                assert(all[k] == b[k - a.len()]);
                assert(begins_at(crossings, b[k - a.len()], n - 1, crossings.len() as int));
                let d = choose|d: int|
                    d < crossings.len() && #[trigger] has_left_side(
                        crossings,
                        b[k - a.len()],
                        n - 1,
                        d,
                    );
                assert(has_left_side(crossings, all[k], n - 1, d));
            }
        }
        assert forall|j: int, k: int| 0 <= j < k < all.len() implies !same_left_side(
            #[trigger] all[j],
            #[trigger] all[k],
        ) by {
            if k < a.len() {
                assert(all[j] == a[j] && all[k] == a[k]);
            } else if j < a.len() {
                assert(all[j] == a[j] && all[k] == b[k - a.len()]);
                assert(begins_before(crossings, a[j], n - 1));
                assert(begins_at(crossings, b[k - a.len()], n - 1, crossings.len() as int));
                let (i, d) = choose|i: int, d: int|
                    i < n - 1 && #[trigger] has_left_side(crossings, a[j], i, d);
                let e = choose|e: int|
                    e < crossings.len() && #[trigger] has_left_side(
                        crossings,
                        b[k - a.len()],
                        n - 1,
                        e,
                    );
                lemma_keys(crossings[i].point, crossings[n - 1].point);
                assert(order::key_less(
                    intersections::point_key(crossings[i].point),
                    intersections::point_key(crossings[n - 1].point),
                ));
            } else {
                assert(all[j] == b[j - a.len()] && all[k] == b[k - a.len()]);
            }
        }
    }
}

/// No two cells have the same left side: of the rectangles with one left side only the
/// narrowest is a cell.
pub proof fn law_one_cell_for_a_left_side(
    edges: Seq<EdgeView>,
    x_tolerance: Float,
    y_tolerance: Float,
    j: int,
    k: int,
)
    requires
        0 <= j < k < cells_of(edges, x_tolerance, y_tolerance).len(),
    ensures
        !same_left_side(
            cells_of(edges, x_tolerance, y_tolerance)[j],
            cells_of(edges, x_tolerance, y_tolerance)[k],
        ),
{
    let all = intersections::crossings_of(edges, x_tolerance, y_tolerance);
    intersections::law_crossings_ascend(edges, x_tolerance, y_tolerance);
    lemma_left_sides_before(all, all.len() as int);
}

} // verus!
