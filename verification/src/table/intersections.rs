//! Where edges cross, and the cells between the crossings.

use crate::float::Float;
use crate::geometry;
use crate::order;
use crate::types;
use crate::types::Edge;
use crate::types::EdgeView;
use crate::types::Orientation;
use crate::types::Point;
use vstd::prelude::*;

verus! {

/// The edges that meet in a point.
#[derive(Clone, Debug)]
pub struct Intersection {
    pub vertical: Vec<Edge>,
    pub horizontal: Vec<Edge>,
}

/// What is seen of an [`Intersection`].
#[verifier::ext_equal]
pub struct IntersectionView {
    pub vertical: Seq<EdgeView>,
    pub horizontal: Seq<EdgeView>,
}

impl View for Intersection {
    type V = IntersectionView;

    open spec fn view(&self) -> IntersectionView {
        IntersectionView {
            vertical: types::seen(self.vertical@),
            horizontal: types::seen(self.horizontal@),
        }
    }
}

impl Default for Intersection {
    fn default() -> (r: Intersection)
        ensures
            r.vertical@.len() == 0,
            r.horizontal@.len() == 0,
    {
        Intersection { vertical: Vec::new(), horizontal: Vec::new() }
    }
}

/// A point together with the edges that meet there.
#[derive(Clone, Debug)]
pub struct Crossing {
    pub point: Point,
    pub edges: Intersection,
}

/// What is seen of a [`Crossing`].
#[verifier::ext_equal]
pub struct CrossingView {
    pub point: Point,
    pub edges: IntersectionView,
}

impl View for Crossing {
    type V = CrossingView;

    open spec fn view(&self) -> CrossingView {
        CrossingView { point: self.point, edges: self.edges@ }
    }
}

/// What points are found and sorted by: first their distance from the left, then their
/// height on the page.
pub open spec fn point_key(p: Point) -> order::Key {
    (p.x.order() as i64, p.y.order() as i64)
}

pub fn key_of_point(p: Point) -> (r: order::Key)
    ensures
        r == point_key(p),
{
    (p.x.order_key(), p.y.order_key())
}

/// What edges are compared by.
pub open spec fn edge_key(e: EdgeView) -> (int, int, int, int) {
    (e.x0.order(), e.top.order(), e.x1.order(), e.bottom.order())
}

/// Whether a vertical and a horizontal edge meet, up to the tolerances.
pub open spec fn cross(v: EdgeView, h: EdgeView, x_tolerance: Float, y_tolerance: Float) -> bool {
    &&& v.top.at_most(h.top.plus(y_tolerance))
    &&& h.top.minus(y_tolerance).at_most(v.bottom)
    &&& h.x0.minus(x_tolerance).at_most(v.x0)
    &&& v.x0.at_most(h.x1.plus(x_tolerance))
}

/// Where a vertical and a horizontal edge meet.
pub open spec fn meeting_point(v: EdgeView, h: EdgeView) -> Point {
    Point { x: v.x0, y: h.top }
}

/// The crossings, sorted by their points, with one more pair of edges.
pub open spec fn recorded(crossings: Seq<CrossingView>, v: EdgeView, h: EdgeView) -> Seq<
    CrossingView,
>
    decreases crossings.len(),
{
    let p = meeting_point(v, h);
    let fresh = CrossingView {
        point: p,
        edges: IntersectionView { vertical: seq![v], horizontal: seq![h] },
    };
    if crossings.len() == 0 {
        seq![fresh]
    } else {
        let last = crossings.last();
        if point_key(last.point) == point_key(p) {
            crossings.update(
                crossings.len() - 1,
                CrossingView {
                    point: last.point,
                    edges: IntersectionView {
                        vertical: last.edges.vertical.push(v),
                        horizontal: last.edges.horizontal.push(h),
                    },
                },
            )
        } else if order::key_less(point_key(last.point), point_key(p)) {
            crossings.push(fresh)
        } else {
            recorded(crossings.drop_last(), v, h).push(last)
        }
    }
}

/// The crossings with those of one vertical edge added.
pub open spec fn with_row(
    crossings: Seq<CrossingView>,
    v: EdgeView,
    horizontal: Seq<EdgeView>,
    x_tolerance: Float,
    y_tolerance: Float,
) -> Seq<CrossingView>
    decreases horizontal.len(),
{
    if horizontal.len() == 0 {
        crossings
    } else {
        let before = with_row(crossings, v, horizontal.drop_last(), x_tolerance, y_tolerance);
        if cross(v, horizontal.last(), x_tolerance, y_tolerance) {
            recorded(before, v, horizontal.last())
        } else {
            before
        }
    }
}

/// The crossings of the vertical with the horizontal edges.
pub open spec fn all_crossings(
    vertical: Seq<EdgeView>,
    horizontal: Seq<EdgeView>,
    x_tolerance: Float,
    y_tolerance: Float,
) -> Seq<CrossingView>
    decreases vertical.len(),
{
    if vertical.len() == 0 {
        Seq::empty()
    } else {
        with_row(
            all_crossings(vertical.drop_last(), horizontal, x_tolerance, y_tolerance),
            vertical.last(),
            horizontal,
            x_tolerance,
            y_tolerance,
        )
    }
}

/// The crossings of edges.
pub open spec fn crossings_of(edges: Seq<EdgeView>, x_tolerance: Float, y_tolerance: Float) -> Seq<
    CrossingView,
> {
    all_crossings(
        edges.filter(geometry::oriented(Orientation::Vertical)),
        edges.filter(geometry::oriented(Orientation::Horizontal)),
        x_tolerance,
        y_tolerance,
    )
}

/// Whether every crossing comes before those behind it, so that no point occurs twice.
pub open spec fn ascending(crossings: Seq<CrossingView>) -> bool {
    forall|i: int, j: int|
        0 <= i < j < crossings.len() ==> order::key_less(
            point_key(#[trigger] crossings[i].point),
            point_key(#[trigger] crossings[j].point),
        )
}

/// Whether each crossing has some edge of both orientations, its coordinates are numbers,
/// and its edges meet in its point.
pub open spec fn consistent(crossings: Seq<CrossingView>) -> bool {
    forall|i: int| 0 <= i < crossings.len() ==> #[trigger] consistent_at(crossings[i])
}

pub open spec fn consistent_at(c: CrossingView) -> bool {
    &&& !c.point.x.nan()
    &&& !c.point.y.nan()
    &&& c.edges.vertical.len() > 0
    &&& c.edges.vertical.len() == c.edges.horizontal.len()
    &&& forall|k: int|
        0 <= k < c.edges.vertical.len() ==> point_key(
            meeting_point(#[trigger] c.edges.vertical[k], c.edges.horizontal[k]),
        ) == point_key(c.point)
}

proof fn lemma_recorded(crossings: Seq<CrossingView>, v: EdgeView, h: EdgeView)
    requires
        ascending(crossings),
        consistent(crossings),
        !v.x0.nan(),
        !h.top.nan(),
    ensures
        ascending(recorded(crossings, v, h)),
        consistent(recorded(crossings, v, h)),
        forall|i: int|
            0 <= i < recorded(crossings, v, h).len() ==> point_key(
                #[trigger] recorded(crossings, v, h)[i].point,
            ) == point_key(meeting_point(v, h)) || exists|j: int|
                0 <= j < crossings.len() && crossings[j].point == recorded(crossings, v, h)[i].point,
    decreases crossings.len(),
{
    let p = meeting_point(v, h);
    let after = recorded(crossings, v, h);
    if crossings.len() > 0 {
        let n = crossings.len() - 1;
        let last = crossings.last();
        assert(consistent_at(crossings[n]));
        if point_key(last.point) == point_key(p) {
            assert forall|i: int| 0 <= i < after.len() implies #[trigger] consistent_at(after[i]) by {
                assert(consistent_at(crossings[i]));
                if i == n {
                    let c = after[n];
                    assert forall|k: int| 0 <= k < c.edges.vertical.len() implies point_key(
                        meeting_point(#[trigger] c.edges.vertical[k], c.edges.horizontal[k]),
                    ) == point_key(c.point) by {
                        if k < n {
                            assert(last.edges.vertical.len() == c.edges.vertical.len() - 1);
                        }
                        if k < last.edges.vertical.len() {
                            assert(c.edges.vertical[k] == last.edges.vertical[k]);
                            assert(c.edges.horizontal[k] == last.edges.horizontal[k]);
                        }
                    }
                }
            }
            assert forall|i: int| 0 <= i < after.len() implies point_key(
                #[trigger] after[i].point,
            ) == point_key(p) || exists|j: int|
                0 <= j < crossings.len() && crossings[j].point == after[i].point by {
                assert(crossings[i].point == after[i].point);
            }
        } else if order::key_less(point_key(last.point), point_key(p)) {
            assert(consistent_at(after[n + 1]));
            assert forall|i: int| 0 <= i < after.len() implies #[trigger] consistent_at(after[i]) by {
                if i <= n {
                    assert(consistent_at(crossings[i]));
                }
            }
            assert forall|i: int| 0 <= i < after.len() implies point_key(
                #[trigger] after[i].point,
            ) == point_key(p) || exists|j: int|
                0 <= j < crossings.len() && crossings[j].point == after[i].point by {
                if i <= n {
                    assert(crossings[i].point == after[i].point);
                }
            }
        } else {
            let front = crossings.drop_last();
            assert forall|i: int| 0 <= i < front.len() implies #[trigger] consistent_at(front[i]) by {
                assert(consistent_at(crossings[i]));
            }
            lemma_recorded(front, v, h);
            let inner = recorded(front, v, h);
            assert forall|i: int| 0 <= i < after.len() implies #[trigger] consistent_at(after[i]) by {
                if i < inner.len() {
                    assert(consistent_at(inner[i]));
                }
            }
            assert forall|i: int| 0 <= i < after.len() implies point_key(
                #[trigger] after[i].point,
            ) == point_key(p) || exists|j: int|
                0 <= j < crossings.len() && crossings[j].point == after[i].point by {
                if i < inner.len() {
                    if point_key(inner[i].point) != point_key(p) {
                        let j = choose|j: int|
                            0 <= j < front.len() && front[j].point == inner[i].point;
                        assert(crossings[j].point == after[i].point);
                    }
                } else {
                    assert(crossings[n].point == after[i].point);
                }
            }
            assert forall|i: int, j: int| 0 <= i < j < after.len() implies order::key_less(
                point_key(#[trigger] after[i].point),
                point_key(#[trigger] after[j].point),
            ) by {
                if j == after.len() - 1 {
                    assert(after[i] == inner[i]);
                    if point_key(inner[i].point) != point_key(p) {
                        let k = choose|k: int|
                            0 <= k < front.len() && front[k].point == inner[i].point;
                        assert(crossings[k].point == inner[i].point);
                        assert(crossings[n].point == after[j].point);
                    }
                } else {
                    assert(after[i] == inner[i] && after[j] == inner[j]);
                }
            }
        }
    } else {
        assert(consistent_at(after[0]));
    }
}

proof fn lemma_sum_of_number(a: Float, b: Float)
    requires
        !a.plus(b).nan(),
    ensures
        !a.nan(),
        !b.nan(),
{
    reveal(Float::plus);
}

proof fn lemma_with_row(
    crossings: Seq<CrossingView>,
    v: EdgeView,
    horizontal: Seq<EdgeView>,
    x_tolerance: Float,
    y_tolerance: Float,
)
    requires
        ascending(crossings),
        consistent(crossings),
    ensures
        ascending(with_row(crossings, v, horizontal, x_tolerance, y_tolerance)),
        consistent(with_row(crossings, v, horizontal, x_tolerance, y_tolerance)),
    decreases horizontal.len(),
{
    if horizontal.len() > 0 {
        lemma_with_row(crossings, v, horizontal.drop_last(), x_tolerance, y_tolerance);
        let h = horizontal.last();
        if cross(v, h, x_tolerance, y_tolerance) {
            lemma_sum_of_number(h.top, y_tolerance);
            lemma_recorded(
                with_row(crossings, v, horizontal.drop_last(), x_tolerance, y_tolerance),
                v,
                h,
            );
        }
    }
}

/// The crossings of edges are sorted, no point occurs twice, and at each point as many
/// vertical as horizontal edges meet.
pub proof fn law_crossings_ascend(edges: Seq<EdgeView>, x_tolerance: Float, y_tolerance: Float)
    ensures
        ascending(crossings_of(edges, x_tolerance, y_tolerance)),
        consistent(crossings_of(edges, x_tolerance, y_tolerance)),
{
    lemma_all_crossings(
        edges.filter(geometry::oriented(Orientation::Vertical)),
        edges.filter(geometry::oriented(Orientation::Horizontal)),
        x_tolerance,
        y_tolerance,
    );
}

proof fn lemma_all_crossings(
    vertical: Seq<EdgeView>,
    horizontal: Seq<EdgeView>,
    x_tolerance: Float,
    y_tolerance: Float,
)
    ensures
        ascending(all_crossings(vertical, horizontal, x_tolerance, y_tolerance)),
        consistent(all_crossings(vertical, horizontal, x_tolerance, y_tolerance)),
    decreases vertical.len(),
{
    if vertical.len() > 0 {
        lemma_all_crossings(vertical.drop_last(), horizontal, x_tolerance, y_tolerance);
        lemma_with_row(
            all_crossings(vertical.drop_last(), horizontal, x_tolerance, y_tolerance),
            vertical.last(),
            horizontal,
            x_tolerance,
            y_tolerance,
        );
    }
}

fn keys_equal(a: order::Key, b: order::Key) -> (r: bool)
    ensures
        r == (a == b),
{
    a.0 == b.0 && a.1 == b.1
}

fn key_lt(a: order::Key, b: order::Key) -> (r: bool)
    ensures
        r == order::key_less(a, b),
{
    a.0 < b.0 || (a.0 == b.0 && a.1 < b.1)
}

/// Adds a pair of edges to the crossings.
fn record(crossings: &mut Vec<Crossing>, v: &Edge, h: &Edge)
    ensures
        types::seen(final(crossings)@) == recorded(types::seen(old(crossings)@), v@, h@),
{
    let ghost all = types::seen(crossings@);
    let p: Point = Point { x: v.x0, y: h.top };
    let key: order::Key = key_of_point(p);
    let mut at: usize = crossings.len();
    assert(all.take(at as int) =~= all);
    while at > 0 && key_lt(key, key_of_point(crossings[at - 1].point))
        invariant
            at <= crossings@.len(),
            all == types::seen(crossings@),
            key == point_key(meeting_point(v@, h@)),
            recorded(all, v@, h@) =~= recorded(all.take(at as int), v@, h@) + all.skip(at as int),
        decreases at,
    {
        assert(all[at - 1].point == crossings@[at - 1].point);
        assert(all.take(at as int).last() == all[at - 1]);
        assert(all.take(at as int).drop_last() =~= all.take(at - 1));
        at = at - 1;
    }
    assert(at > 0 ==> all.take(at as int).last() == all[at - 1]);
    assert(at > 0 ==> all[at - 1].point == crossings@[at - 1].point);
    if at > 0 && keys_equal(key, key_of_point(crossings[at - 1].point)) {
        let mut c: Crossing = crossings.remove(at - 1);
        let v2: Edge = v.copy();
        let h2: Edge = h.copy();
        proof {
            types::lemma_seen_push(c.edges.vertical@, v2);
            types::lemma_seen_push(c.edges.horizontal@, h2);
        }
        c.edges.vertical.push(v2);
        c.edges.horizontal.push(h2);
        let ghost goal = recorded(all, v@, h@);
        assert(goal.len() == all.len());
        assert(c@ == goal[at - 1]);
        crossings.insert(at - 1, c);
        assert(types::seen(crossings@) =~= goal);
    } else {
        let v2: Edge = v.copy();
        let h2: Edge = h.copy();
        let mut c: Crossing = Crossing { point: p, edges: Intersection::default() };
        proof {
            types::lemma_seen_push(c.edges.vertical@, v2);
            types::lemma_seen_push(c.edges.horizontal@, h2);
        }
        c.edges.vertical.push(v2);
        c.edges.horizontal.push(h2);
        assert(c@.edges.vertical =~= seq![v@]);
        assert(c@.edges.horizontal =~= seq![h@]);
        let ghost goal = recorded(all, v@, h@);
        assert(goal =~= all.take(at as int) + seq![c@] + all.skip(at as int));
        crossings.insert(at, c);
        assert(types::seen(crossings@) =~= goal);
    }
}

/// The crossings of edges, sorted by their points.
pub fn edges_to_intersections(
    edges: &Vec<Edge>,
    x_tolerance: Float,
    y_tolerance: Float,
) -> (r: Vec<Crossing>)
    ensures
        types::seen(r@) == crossings_of(types::seen(edges@), x_tolerance, y_tolerance),
        ascending(types::seen(r@)),
        consistent(types::seen(r@)),
{
    let vertical: Vec<Edge> = geometry::edges_along(edges, Orientation::Vertical);
    let horizontal: Vec<Edge> = geometry::edges_along(edges, Orientation::Horizontal);
    let ghost vs = types::seen(vertical@);
    let ghost hs = types::seen(horizontal@);
    let mut out: Vec<Crossing> = Vec::new();
    assert(types::seen(out@) =~= Seq::<CrossingView>::empty());
    for i in 0..vertical.len()
        invariant
            vs == types::seen(vertical@),
            hs == types::seen(horizontal@),
            types::seen(out@) == all_crossings(vs.take(i as int), hs, x_tolerance, y_tolerance),
    {
        let v: &Edge = &vertical[i];
        let ghost before = types::seen(out@);
        assert(hs.take(0) =~= Seq::<EdgeView>::empty());
        for j in 0..horizontal.len()
            invariant
                hs == types::seen(horizontal@),
                types::seen(out@) == with_row(
                    before,
                    v@,
                    hs.take(j as int),
                    x_tolerance,
                    y_tolerance,
                ),
        {
            let h: &Edge = &horizontal[j];
            assert(hs.take(j + 1).drop_last() =~= hs.take(j as int));
            assert(hs[j as int] == h@);
            if v.top.le(h.top.add(y_tolerance)) && h.top.sub(y_tolerance).le(v.bottom) && h.x0.sub(
                x_tolerance,
            ).le(v.x0) && v.x0.le(h.x1.add(x_tolerance)) {
                record(&mut out, v, h);
            }
        }
        assert(hs.take(hs.len() as int) =~= hs);
        assert(vs.take(i + 1).drop_last() =~= vs.take(i as int));
        assert(vs[i as int] == v@);
    }
    assert(vs.take(vs.len() as int) =~= vs);
    proof {
        law_crossings_ascend(types::seen(edges@), x_tolerance, y_tolerance);
    }
    out
}

/// Crossings come from the left to the right, and those at the same distance from the left
/// from the top to the bottom; no point comes twice.
pub proof fn law_crossings_go_right_and_down(
    edges: Seq<EdgeView>,
    x_tolerance: Float,
    y_tolerance: Float,
    i: int,
    j: int,
)
    requires
        0 <= i < j < crossings_of(edges, x_tolerance, y_tolerance).len(),
    ensures
        ({
            let p = crossings_of(edges, x_tolerance, y_tolerance)[i].point;
            let q = crossings_of(edges, x_tolerance, y_tolerance)[j].point;
            p.x.less(q.x) || (p.x.same(q.x) && p.y.less(q.y))
        }),
{
    law_crossings_ascend(edges, x_tolerance, y_tolerance);
    let all = crossings_of(edges, x_tolerance, y_tolerance);
    assert(consistent_at(all[i]) && consistent_at(all[j]));
}

} // verus!
