//! Rectangles around things, and edges that are moved onto each other.

use crate::clustering;
use crate::float::Float;
use crate::order;
use crate::types;
use crate::types::BBox;
use crate::types::Edge;
use crate::types::EdgeView;
use crate::types::Orientation;
use crate::types::Point;
use crate::types::RectObject;
use crate::types::Word;
use vstd::prelude::*;

verus! {

impl BBox {
    pub open spec fn wide(self) -> Float {
        self.x1.minus(self.x0)
    }

    pub open spec fn high(self) -> Float {
        self.bottom.minus(self.top)
    }

    /// The same rectangle with its smaller coordinates first.
    pub open spec fn upright(self) -> BBox {
        BBox {
            x0: self.x0.smaller(self.x1),
            top: self.top.smaller(self.bottom),
            x1: self.x0.larger(self.x1),
            bottom: self.top.larger(self.bottom),
        }
    }

    /// The smallest rectangle around both.
    pub open spec fn around(self, other: BBox) -> BBox {
        BBox {
            x0: self.x0.smaller(other.x0),
            top: self.top.smaller(other.top),
            x1: self.x1.larger(other.x1),
            bottom: self.bottom.larger(other.bottom),
        }
    }

    /// What both rectangles cover.
    pub open spec fn common(self, other: BBox) -> BBox {
        BBox {
            x0: self.x0.larger(other.x0),
            top: self.top.larger(other.top),
            x1: self.x1.smaller(other.x1),
            bottom: self.bottom.smaller(other.bottom),
        }
    }

    /// Whether the two rectangles have more than a point in common.
    pub open spec fn meets(self, other: BBox) -> bool {
        let c = self.common(other);
        &&& (Float { bits: 0 }).at_most(c.wide())
        &&& (Float { bits: 0 }).at_most(c.high())
        &&& (Float { bits: 0 }).less(c.high().plus(c.wide()))
    }

    /// Whether the corresponding coordinates are equal numbers.
    pub open spec fn same(self, other: BBox) -> bool {
        &&& self.x0.same(other.x0)
        &&& self.top.same(other.top)
        &&& self.x1.same(other.x1)
        &&& self.bottom.same(other.bottom)
    }

    pub fn new(x0: Float, top: Float, x1: Float, bottom: Float) -> (r: BBox)
        ensures
            r == (BBox { x0, top, x1, bottom }),
    {
        BBox { x0, top, x1, bottom }
    }

    pub fn width(self) -> (r: Float)
        ensures
            r == self.wide(),
    {
        self.x1.sub(self.x0)
    }

    pub fn height(self) -> (r: Float)
        ensures
            r == self.high(),
    {
        self.bottom.sub(self.top)
    }

    /// The same rectangle with its smaller coordinates first.
    pub fn normalized(self) -> (r: BBox)
        ensures
            r == self.upright(),
    {
        BBox {
            x0: self.x0.min(self.x1),
            top: self.top.min(self.bottom),
            x1: self.x0.max(self.x1),
            bottom: self.top.max(self.bottom),
        }
    }

    /// The smallest rectangle around both.
    pub fn union(self, other: BBox) -> (r: BBox)
        ensures
            r == self.around(other),
    {
        BBox {
            x0: self.x0.min(other.x0),
            top: self.top.min(other.top),
            x1: self.x1.max(other.x1),
            bottom: self.bottom.max(other.bottom),
        }
    }

    /// What both rectangles cover, where that is more than a point.
    pub fn overlap(self, other: BBox) -> (r: Option<BBox>)
        ensures
            r == (if self.meets(other) {
                Some(self.common(other))
            } else {
                None
            }),
    {
        let c: BBox = BBox {
            x0: self.x0.max(other.x0),
            top: self.top.max(other.top),
            x1: self.x1.min(other.x1),
            bottom: self.bottom.min(other.bottom),
        };
        let zero: Float = Float { bits: 0 };
        let w: Float = c.width();
        let h: Float = c.height();
        if zero.le(w) && zero.le(h) && zero.lt(h.add(w)) {
            Some(c)
        } else {
            None
        }
    }

    /// Whether the corresponding coordinates are equal numbers.
    pub fn equals(self, other: BBox) -> (r: bool)
        ensures
            r == self.same(other),
    {
        self.x0.eq_number(other.x0) && self.top.eq_number(other.top) && self.x1.eq_number(other.x1)
            && self.bottom.eq_number(other.bottom)
    }
}

/// The smallest rectangle around the given ones, in the given order.
pub open spec fn hull(boxes: Seq<BBox>) -> Option<BBox>
    decreases boxes.len(),
{
    if boxes.len() == 0 {
        None
    } else {
        match hull(boxes.drop_last()) {
            None => Some(boxes.last()),
            Some(b) => Some(b.around(boxes.last())),
        }
    }
}

/// The rectangle around others reaches at least as far as each of them, wherever they
/// have numbers.
pub proof fn law_hull_holds(boxes: Seq<BBox>, k: int)
    requires
        0 <= k < boxes.len(),
    ensures
        hull(boxes) matches Some(b) && {
            &&& !boxes[k].x0.nan() ==> b.x0.at_most(boxes[k].x0)
            &&& !boxes[k].top.nan() ==> b.top.at_most(boxes[k].top)
            &&& !boxes[k].x1.nan() ==> boxes[k].x1.at_most(b.x1)
            &&& !boxes[k].bottom.nan() ==> boxes[k].bottom.at_most(b.bottom)
        },
    decreases boxes.len(),
{
    if k < boxes.len() - 1 {
        law_hull_holds(boxes.drop_last(), k);
    }
}

/// The rectangle that a point fills.
pub open spec fn dot(p: Point) -> BBox {
    BBox { x0: p.x, top: p.y, x1: p.x, bottom: p.y }
}

/// The smallest rectangle around the given points.
pub open spec fn hull_of_points(points: Seq<Point>) -> Option<BBox> {
    hull(points.map_values(|p: Point| dot(p)))
}

/// The smallest rectangle around the given rectangles.
pub fn union_all(boxes: &Vec<BBox>) -> (r: Option<BBox>)
    ensures
        r == hull(boxes@),
{
    let mut acc: Option<BBox> = None;
    let n: usize = boxes.len();
    for i in 0..n
        invariant
            n == boxes@.len(),
            acc == hull(boxes@.take(i as int)),
    {
        assert(boxes@.take(i + 1).drop_last() =~= boxes@.take(i as int));
        acc = match acc {
            None => Some(boxes[i]),
            Some(b) => Some(b.union(boxes[i])),
        };
    }
    assert(boxes@.take(n as int) =~= boxes@);
    acc
}

/// The smallest rectangle around the given points.
pub fn bbox_from_points(points: &Vec<Point>) -> (r: Option<BBox>)
    ensures
        r == hull_of_points(points@),
{
    let mut boxes: Vec<BBox> = Vec::new();
    let n: usize = points.len();
    for i in 0..n
        invariant
            n == points@.len(),
            boxes@ =~= points@.take(i as int).map_values(|p: Point| dot(p)),
    {
        boxes.push(BBox { x0: points[i].x, top: points[i].y, x1: points[i].x, bottom: points[i].y });
    }
    assert(points@.take(n as int) =~= points@);
    union_all(&boxes)
}

/// The rectangles of words.
pub open spec fn word_boxes(words: Seq<Word>) -> Seq<BBox> {
    words.map_values(|w: Word| w.bbox())
}

/// A boundary of a rectangle.
pub open spec fn side(
    x0: Float,
    top: Float,
    x1: Float,
    bottom: Float,
    width: Float,
    height: Float,
    orientation: Orientation,
) -> EdgeView {
    EdgeView { x0, top, x1, bottom, width, height, orientation, object_type: "rect_edge"@ }
}

/// The four boundaries of a rectangle: top, bottom, left and right.
pub open spec fn sides(rect: RectObject) -> Seq<EdgeView> {
    let zero = Float { bits: 0 };
    seq![
        side(
            rect.x0,
            rect.top,
            rect.x1,
            rect.top,
            rect.width,
            zero,
            Orientation::Horizontal,
        ),
        side(
            rect.x0,
            rect.bottom,
            rect.x1,
            rect.bottom,
            rect.width,
            zero,
            Orientation::Horizontal,
        ),
        side(rect.x0, rect.top, rect.x0, rect.bottom, zero, rect.height, Orientation::Vertical),
        side(rect.x1, rect.top, rect.x1, rect.bottom, zero, rect.height, Orientation::Vertical),
    ]
}

fn make_side(
    x0: Float,
    top: Float,
    x1: Float,
    bottom: Float,
    width: Float,
    height: Float,
    orientation: Orientation,
) -> (r: Edge)
    ensures
        r@ == side(x0, top, x1, bottom, width, height, orientation),
{
    Edge { x0, top, x1, bottom, width, height, orientation, object_type: "rect_edge".to_owned() }
}

/// The four boundaries of a rectangle: top, bottom, left and right.
pub fn rect_to_edges(rect: &RectObject) -> (r: Vec<Edge>)
    ensures
        types::seen(r@) == sides(*rect),
{
    let zero: Float = Float { bits: 0 };
    let h: Orientation = Orientation::Horizontal;
    let v: Orientation = Orientation::Vertical;
    let mut out: Vec<Edge> = Vec::new();
    out.push(make_side(rect.x0, rect.top, rect.x1, rect.top, rect.width, zero, h));
    out.push(make_side(rect.x0, rect.bottom, rect.x1, rect.bottom, rect.width, zero, h));
    out.push(make_side(rect.x0, rect.top, rect.x0, rect.bottom, zero, rect.height, v));
    out.push(make_side(rect.x1, rect.top, rect.x1, rect.bottom, zero, rect.height, v));
    assert(types::seen(out@) =~= sides(*rect));
    out
}

/// The coordinate that all of an edge has.
pub open spec fn position(edge: EdgeView) -> Float {
    match edge.orientation {
        Orientation::Vertical => edge.x0,
        Orientation::Horizontal => edge.top,
    }
}

/// The edge moved across its direction.
pub open spec fn moved(edge: EdgeView, by: Float) -> EdgeView {
    match edge.orientation {
        Orientation::Vertical => EdgeView { x0: edge.x0.plus(by), x1: edge.x1.plus(by), ..edge },
        Orientation::Horizontal => EdgeView {
            top: edge.top.plus(by),
            bottom: edge.bottom.plus(by),
            ..edge
        },
    }
}

/// The sum of numbers, from the first to the last.
pub open spec fn sum(xs: Seq<Float>) -> Float
    decreases xs.len(),
{
    if xs.len() == 0 {
        Float { bits: 0 }
    } else {
        sum(xs.drop_last()).plus(xs.last())
    }
}

pub open spec fn average(xs: Seq<Float>) -> Float {
    sum(xs).over(Float::integer(xs.len() as int))
}

/// Where the edges lie across their direction.
pub open spec fn positions(edges: Seq<EdgeView>) -> Seq<Float> {
    edges.map_values(|e: EdgeView| position(e))
}

/// The edges that `group` lists, all moved to their average position.
pub open spec fn aligned(edges: Seq<EdgeView>, group: Seq<usize>) -> Seq<EdgeView> {
    let target = average(order::picked(positions(edges), group));
    order::picked(edges, group).map_values(
        |e: EdgeView| moved(e, target.minus(position(e))),
    )
}

/// The edges of all groups, each moved to the average position of its group.
pub open spec fn all_aligned(edges: Seq<EdgeView>, groups: Seq<Seq<usize>>) -> Seq<EdgeView>
    decreases groups.len(),
{
    if groups.len() == 0 {
        Seq::empty()
    } else {
        all_aligned(edges, groups.drop_last()) + aligned(edges, groups.last())
    }
}

/// Whether an edge has the given orientation.
pub open spec fn oriented(orientation: Orientation) -> spec_fn(EdgeView) -> bool {
    |e: EdgeView| e.orientation == orientation
}

/// The edges of one orientation, each moved to the average position of those near it.
pub open spec fn snapped_along(
    edges: Seq<EdgeView>,
    orientation: Orientation,
    tolerance: Float,
) -> Seq<EdgeView> {
    let some = edges.filter(oriented(orientation));
    all_aligned(some, clustering::clusters(positions(some), tolerance))
}

/// The vertical edges, then the horizontal ones, each moved to the average position of
/// those near it.
pub open spec fn snapped(
    edges: Seq<EdgeView>,
    x_tolerance: Float,
    y_tolerance: Float,
) -> Seq<EdgeView> {
    snapped_along(edges, Orientation::Vertical, x_tolerance) + snapped_along(
        edges,
        Orientation::Horizontal,
        y_tolerance,
    )
}

/// Copies of the edges of one orientation.
pub fn edges_along(edges: &Vec<Edge>, orientation: Orientation) -> (r: Vec<Edge>)
    ensures
        types::seen(r@) == types::seen(edges@).filter(oriented(orientation)),
{
    let mut out: Vec<Edge> = Vec::new();
    let n: usize = edges.len();
    let ghost all = types::seen(edges@);
    for i in 0..n
        invariant
            n == edges@.len(),
            all == types::seen(edges@),
            types::seen(out@) == all.take(i as int).filter(oriented(orientation)),
    {
        reveal(Seq::filter);
        assert(all.take(i + 1).drop_last() =~= all.take(i as int));
        if edges[i].orientation == orientation {
            let e: Edge = edges[i].copy();
            proof {
                types::lemma_seen_push(out@, e);
            }
            out.push(e);
        }
    }
    assert(all.take(n as int) =~= all);
    out
}

fn position_of(edge: &Edge) -> (r: Float)
    ensures
        r == position(edge@),
{
    match edge.orientation {
        Orientation::Vertical => edge.x0,
        Orientation::Horizontal => edge.top,
    }
}

fn move_edge(edge: &Edge, by: Float) -> (r: Edge)
    ensures
        r@ == moved(edge@, by),
{
    let mut r: Edge = edge.copy();
    match edge.orientation {
        Orientation::Vertical => {
            r.x0 = edge.x0.add(by);
            r.x1 = edge.x1.add(by);
        },
        Orientation::Horizontal => {
            r.top = edge.top.add(by);
            r.bottom = edge.bottom.add(by);
        },
    }
    r
}

fn align(edges: &Vec<Edge>, group: &Vec<usize>) -> (r: Vec<Edge>)
    requires
        forall|i: int| 0 <= i < group@.len() ==> #[trigger] group@[i] < edges@.len(),
    ensures
        types::seen(r@) == aligned(types::seen(edges@), group@),
{
    let n: usize = group.len();
    let ghost all = types::seen(edges@);
    let ghost places = order::picked(positions(all), group@);
    let mut total: Float = Float { bits: 0 };
    for i in 0..n
        invariant
            n == group@.len(),
            all == types::seen(edges@),
            places == order::picked(positions(all), group@),
            forall|i: int| 0 <= i < group@.len() ==> #[trigger] group@[i] < edges@.len(),
            total == sum(places.take(i as int)),
    {
        assert(places.take(i + 1).drop_last() =~= places.take(i as int));
        assert(places[i as int] == position(edges@[group@[i as int] as int]@));
        total = total.add(position_of(&edges[group[i]]));
    }
    assert(places.take(n as int) =~= places);
    let target: Float = total.div(Float::from_usize(n));
    let mut out: Vec<Edge> = Vec::new();
    let ghost goal = aligned(all, group@);
    for i in 0..n
        invariant
            n == group@.len(),
            all == types::seen(edges@),
            goal == aligned(all, group@),
            target == average(order::picked(positions(all), group@)),
            forall|i: int| 0 <= i < group@.len() ==> #[trigger] group@[i] < edges@.len(),
            types::seen(out@) =~= goal.take(i as int),
    {
        let e: Edge = move_edge(&edges[group[i]], target.sub(position_of(&edges[group[i]])));
        proof {
            types::lemma_seen_push(out@, e);
        }
        assert(goal[i as int] == e@);
        out.push(e);
    }
    assert(goal.take(n as int) =~= goal);
    out
}

fn snap_along(edges: &Vec<Edge>, orientation: Orientation, tolerance: Float) -> (r: Vec<Edge>)
    ensures
        types::seen(r@) == snapped_along(types::seen(edges@), orientation, tolerance),
{
    let some: Vec<Edge> = edges_along(edges, orientation);
    let n: usize = some.len();
    let ghost all = types::seen(some@);
    let mut keys: Vec<Float> = Vec::new();
    for i in 0..n
        invariant
            n == some@.len(),
            all == types::seen(some@),
            keys@ =~= positions(all).take(i as int),
    {
        assert(positions(all)[i as int] == position(some@[i as int]@));
        keys.push(position_of(&some[i]));
    }
    assert(positions(all).take(n as int) =~= positions(all));
    let groups: Vec<Vec<usize>> = clustering::cluster_items(&keys, tolerance);
    let ghost wanted = clustering::clusters(keys@, tolerance);
    let mut out: Vec<Edge> = Vec::new();
    for i in 0..groups.len()
        invariant
            all == types::seen(some@),
            keys@.len() == some@.len(),
            wanted == clustering::places(groups@),
            wanted == clustering::clusters(keys@, tolerance),
            types::seen(out@) == all_aligned(all, wanted.take(i as int)),
    {
        proof {
            clustering::law_clusters_list_all(keys@, tolerance);
            assert(wanted[i as int] == groups@[i as int]@);
            assert(wanted.take(i + 1).drop_last() =~= wanted.take(i as int));
        }
        let mut next: Vec<Edge> = align(&some, &groups[i]);
        proof {
            types::lemma_seen_add(out@, next@);
        }
        out.append(&mut next);
    }
    assert(wanted.take(wanted.len() as int) =~= wanted);
    out
}

/// The vertical edges, then the horizontal ones, each moved to the average position of
/// those near it.
pub fn snap_edges(edges: &Vec<Edge>, x_tolerance: Float, y_tolerance: Float) -> (r: Vec<Edge>)
    ensures
        types::seen(r@) == snapped(types::seen(edges@), x_tolerance, y_tolerance),
{
    let mut out: Vec<Edge> = snap_along(edges, Orientation::Vertical, x_tolerance);
    let mut more: Vec<Edge> = snap_along(edges, Orientation::Horizontal, y_tolerance);
    proof {
        types::lemma_seen_add(out@, more@);
    }
    out.append(&mut more);
    out
}

} // verus!
