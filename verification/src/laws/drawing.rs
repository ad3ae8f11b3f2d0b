//! What holds of the lines, rectangles and curves that content draws.

use super::chars;
use super::images::changes_matrix;
use super::images::covers;
use super::images::uses_nothing;
use super::images::uses_stream;
use super::places;
use super::places::nought;
use super::places::together;
use crate::error::ErrorView;
use crate::float::Float;
use crate::geometry;
use crate::parse::collector;
use crate::parse::collector::CollectorView;
use crate::parse::collector::PathOp;
use crate::parse::forms;
use crate::parse::forms::Failure;
use crate::parse::forms::FormView;
use crate::parse::page_geometry::PageGeometry;
use crate::parse::page_paths;
use crate::parse::page_paths::law_close_once;
use crate::parse::page_paths::Tracing;
use crate::pdf::file::FileView;
use crate::pdf::object;
use crate::pdf::object::ContentView;
use crate::pdf::object::DictView;
use crate::pdf::object::ObjectId;
use crate::pdf::object::ObjectView;
use crate::pdf::object::OperationView;
use crate::transform::Transform;
use crate::types::DrawnView;
use crate::types::PathCommand;
use crate::types::Place;
use crate::types::Point;
use vstd::prelude::*;

verus! {

/// What is fixed while content is read, how far the reading has come, and what comes of one
/// more operation.
pub open spec fn read(s: Tracing, op: OperationView) -> Tracing {
    page_paths::traced(s, op)->Ok_0
}

/// An operation without operands.
pub open spec fn bare(operator: Seq<char>) -> OperationView {
    (operator, Seq::empty())
}

/// Whether operands begin with the given numbers.
pub open spec fn numbers_are(op: OperationView, values: Seq<Float>) -> bool {
    &&& op.1.len() >= values.len()
    &&& forall|i: int| 0 <= i < values.len() ==> object::number(#[trigger] op.1[i]) == Some(values[i])
}

/// Whether an operator paints the path.
pub open spec fn paints(operator: Seq<char>) -> bool {
    ||| operator == "S"@
    ||| operator == "s"@
    ||| operator == "F"@
    ||| operator == "f"@
    ||| operator == "f*"@
    ||| operator == "B"@
    ||| operator == "B*"@
    ||| operator == "b"@
    ||| operator == "b*"@
}

/// Whether an operator that paints the path fills it.
pub open spec fn fills(operator: Seq<char>) -> bool {
    paints(operator) && operator != "S"@ && operator != "s"@
}

/// Whether an operator that paints the path strokes it.
pub open spec fn strokes(operator: Seq<char>) -> bool {
    paints(operator) && operator != "F"@ && operator != "f"@ && operator != "f*"@
}

/// A number that tells short operators apart.
spec fn tag(operator: Seq<char>) -> int {
    if operator.len() == 1 {
        operator[0] as int
    } else {
        1000 * (operator[0] as int) + operator[1] as int
    }
}

proof fn lemma_tags()
    ensures
        tag("S"@) == 83,
        tag("s"@) == 115,
        tag("F"@) == 70,
        tag("f"@) == 102,
        tag("f*"@) == 102042,
        tag("B"@) == 66,
        tag("B*"@) == 66042,
        tag("b"@) == 98,
        tag("b*"@) == 98042,
        tag("q"@) == 113,
        tag("Q"@) == 81,
        tag("cm"@) == 99109,
        tag("n"@) == 110,
        tag("m"@) == 109,
        tag("l"@) == 108,
        tag("c"@) == 99,
        tag("v"@) == 118,
        tag("y"@) == 121,
        tag("h"@) == 104,
        tag("re"@) == 114101,
        tag("Do"@) == 68111,
{
    reveal_strlit("S");
    reveal_strlit("s");
    reveal_strlit("F");
    reveal_strlit("f");
    reveal_strlit("f*");
    reveal_strlit("B");
    reveal_strlit("B*");
    reveal_strlit("b");
    reveal_strlit("b*");
    reveal_strlit("q");
    reveal_strlit("Q");
    reveal_strlit("cm");
    reveal_strlit("n");
    reveal_strlit("m");
    reveal_strlit("l");
    reveal_strlit("c");
    reveal_strlit("v");
    reveal_strlit("y");
    reveal_strlit("h");
    reveal_strlit("re");
    reveal_strlit("Do");
}

proof fn lemma_extends(s: Tracing, op: OperationView)
    requires
        op.0 == "m"@ || op.0 == "l"@ || op.0 == "c"@ || op.0 == "v"@ || op.0 == "y"@ || op.0
            == "h"@ || op.0 == "re"@,
    ensures
        page_paths::traced(s, op) == Ok::<_, ErrorView>(page_paths::extended(s, op)),
{
    lemma_tags();
}

proof fn lemma_painted(s: Tracing, op: OperationView)
    requires
        paints(op.0),
    ensures
        page_paths::traced(s, op) == Ok::<_, ErrorView>(
            Tracing {
                path: Seq::empty(),
                current: None,
                begin: None,
                output: s.output.with_path(
                    s.ctm,
                    if op.0 == "s"@ || op.0 == "b"@ || op.0 == "b*"@ {
                        page_paths::closed_path(s.path)
                    } else {
                        s.path
                    },
                    strokes(op.0),
                    fills(op.0),
                ),
                ..s
            },
        ),
{
    lemma_tags();
}

/// Each of the operators that paint ends the path: what comes next begins a new one. The
/// matrix stays, and at most one object is drawn.
pub proof fn law_painting_ends_the_path(s: Tracing, op: OperationView)
    requires
        paints(op.0),
    ensures
        page_paths::traced(s, op) matches Ok(t) && {
            &&& t.path.len() == 0
            &&& t.current is None
            &&& t.begin is None
            &&& t.ctm == s.ctm
            &&& t.saved == s.saved
            &&& t.budget == s.budget
            &&& s.path.len() == 0 ==> t.output == s.output
        },
{
    lemma_painted(s, op);
}

/// Giving a path up ends it as well, and draws nothing.
pub proof fn law_giving_up_draws_nothing(s: Tracing, op: OperationView)
    requires
        op.0 == "n"@,
    ensures
        page_paths::traced(s, op) matches Ok(t) && {
            &&& t.path.len() == 0
            &&& t.current is None
            &&& t.begin is None
            &&& t.ctm == s.ctm
            &&& t.saved == s.saved
            &&& t.output == s.output
        },
{
    lemma_tags();
}

/// Which rule decides what is inside does not matter: the variants of an operator draw the
/// same.
pub proof fn law_rules_of_filling_draw_alike(s: Tracing)
    ensures
        page_paths::traced(s, bare("f*"@)) == page_paths::traced(s, bare("f"@)),
        page_paths::traced(s, bare("F"@)) == page_paths::traced(s, bare("f"@)),
        page_paths::traced(s, bare("B*"@)) == page_paths::traced(s, bare("B"@)),
        page_paths::traced(s, bare("b*"@)) == page_paths::traced(s, bare("b"@)),
{
    lemma_painted(s, bare("f*"@));
    lemma_painted(s, bare("f"@));
    lemma_painted(s, bare("F"@));
    lemma_painted(s, bare("B"@));
    lemma_painted(s, bare("B*"@));
    lemma_painted(s, bare("b"@));
    lemma_painted(s, bare("b*"@));
    lemma_tags();
}

/// The operators that close the path before they paint it do what closing and painting do
/// one after the other.
pub proof fn law_closing_and_painting(s: Tracing)
    ensures
        read(s, bare("s"@)) == read(read(s, bare("h"@)), bare("S"@)),
        read(s, bare("b"@)) == read(read(s, bare("h"@)), bare("B"@)),
        read(s, bare("b*"@)) == read(read(s, bare("h"@)), bare("B*"@)),
{
    lemma_extends(s, bare("h"@));
    let closed = page_paths::extended(s, bare("h"@));
    lemma_painted(s, bare("s"@));
    lemma_painted(s, bare("b"@));
    lemma_painted(s, bare("b*"@));
    lemma_painted(closed, bare("S"@));
    lemma_painted(closed, bare("B"@));
    lemma_painted(closed, bare("B*"@));
    lemma_tags();
    law_close_once(s.path);
}

/// Whether a place is the smallest one around two points.
pub open spec fn between(place: Place, p: Point, q: Point) -> bool {
    &&& covers(place, p)
    &&& covers(place, q)
    &&& place.x0.same(p.x) || place.x0.same(q.x)
    &&& place.x1.same(p.x) || place.x1.same(q.x)
    &&& place.top.same(p.y) || place.top.same(q.y)
    &&& place.bottom.same(p.y) || place.bottom.same(q.y)
}

/// Whether a place is the smallest one around four points.
pub open spec fn around_four(place: Place, a: Point, b: Point, c: Point, d: Point) -> bool {
    &&& covers(place, a)
    &&& covers(place, b)
    &&& covers(place, c)
    &&& covers(place, d)
    &&& place.x0.same(a.x) || place.x0.same(b.x) || place.x0.same(c.x) || place.x0.same(d.x)
    &&& place.x1.same(a.x) || place.x1.same(b.x) || place.x1.same(c.x) || place.x1.same(d.x)
    &&& place.top.same(a.y) || place.top.same(b.y) || place.top.same(c.y) || place.top.same(d.y)
    &&& place.bottom.same(a.y) || place.bottom.same(b.y) || place.bottom.same(c.y)
        || place.bottom.same(d.y)
}

/// The point of the page to which a matrix takes a point of the file.
pub open spec fn on_page(geom: PageGeometry, ctm: Transform, x: Float, y: Float) -> Point {
    let raw = ctm.image(x, y);
    geom.on_page(raw.x, raw.y)
}

proof fn lemma_rectangle_drawn(
    before: CollectorView,
    ctm: Transform,
    x: Float,
    y: Float,
    w: Float,
    h: Float,
    stroke: bool,
    fill: bool,
)
    requires
        chars::somewhere(on_page(before.geom, ctm, x, y)),
        chars::somewhere(on_page(before.geom, ctm, x.plus(w), y)),
        chars::somewhere(on_page(before.geom, ctm, x.plus(w), y.plus(h))),
        chars::somewhere(on_page(before.geom, ctm, x, y.plus(h))),
    ensures
        ({
            let after = before.with_path(ctm, seq![PathOp::Rect(x, y, w, h)], stroke, fill);
            let r = after.rects.last();
            &&& after == (CollectorView { rects: before.rects.push(r), ..before })
            &&& r.fill == fill
            &&& r.stroke == stroke
            &&& r.page_number == before.page_number
            &&& around_four(
                r.place,
                on_page(before.geom, ctm, x, y),
                on_page(before.geom, ctm, x.plus(w), y),
                on_page(before.geom, ctm, x.plus(w), y.plus(h)),
                on_page(before.geom, ctm, x, y.plus(h)),
            )
        }),
{
    let geom = before.geom;
    let a = on_page(geom, ctm, x, y);
    let b = on_page(geom, ctm, x.plus(w), y);
    let c = on_page(geom, ctm, x.plus(w), y.plus(h));
    let d = on_page(geom, ctm, x, y.plus(h));
    chars::lemma_hull_of_four(a, b, c, d);
    assert(collector::rect_corners(geom, ctm, x, y, w, h) =~= seq![a, b, c, d]);
    let path = seq![PathOp::Rect(x, y, w, h)];
    assert(path[0] is Rect);
    let r = collector::rectangle(
        geom,
        before.page_number,
        collector::rect_corners(geom, ctm, x, y, w, h),
        stroke,
        fill,
    );
    assert(before.with_path(ctm, path, stroke, fill).rects =~= before.rects.push(r));
    lemma_around_four(geom, r.place, a, b, c, d);
}

proof fn lemma_around_four(
    geom: PageGeometry,
    place: Place,
    a: Point,
    b: Point,
    c: Point,
    d: Point,
)
    requires
        chars::somewhere(a) && chars::somewhere(b) && chars::somewhere(c) && chars::somewhere(d),
        place == geom.place(
            geometry::dot(a).around(geometry::dot(b)).around(geometry::dot(c)).around(
                geometry::dot(d),
            ),
        ),
    ensures
        around_four(place, a, b, c, d),
{
}

/// A rectangle that is painted alone becomes one rectangle: around its four corners, filled
/// and stroked as the operator says. Nothing else is drawn.
pub proof fn law_painted_rectangle(
    s: Tracing,
    make: OperationView,
    paint: OperationView,
    x: Float,
    y: Float,
    w: Float,
    h: Float,
)
    requires
        s.path.len() == 0,
        make.0 == "re"@,
        numbers_are(make, seq![x, y, w, h]),
        paints(paint.0),
        chars::somewhere(on_page(s.output.geom, s.ctm, x, y)),
        chars::somewhere(on_page(s.output.geom, s.ctm, x.plus(w), y)),
        chars::somewhere(on_page(s.output.geom, s.ctm, x.plus(w), y.plus(h))),
        chars::somewhere(on_page(s.output.geom, s.ctm, x, y.plus(h))),
    ensures
        ({
            let t = read(read(s, make), paint);
            let r = t.output.rects.last();
            &&& t.path.len() == 0
            &&& t.output.rects.len() == s.output.rects.len() + 1
            &&& s.output.rects.is_prefix_of(t.output.rects)
            &&& t.output.lines == s.output.lines
            &&& t.output.curves == s.output.curves
            &&& t.output.chars == s.output.chars
            &&& r.fill == fills(paint.0)
            &&& r.stroke == strokes(paint.0)
            &&& r.page_number == s.output.page_number
            &&& around_four(
                r.place,
                on_page(s.output.geom, s.ctm, x, y),
                on_page(s.output.geom, s.ctm, x.plus(w), y),
                on_page(s.output.geom, s.ctm, x.plus(w), y.plus(h)),
                on_page(s.output.geom, s.ctm, x, y.plus(h)),
            )
        }),
{
    lemma_extends(s, make);
    lemma_tags();
    assert(object::number(make.1[0]) == Some(seq![x, y, w, h][0]));
    assert(object::number(make.1[1]) == Some(seq![x, y, w, h][1]));
    assert(object::number(make.1[2]) == Some(seq![x, y, w, h][2]));
    assert(object::number(make.1[3]) == Some(seq![x, y, w, h][3]));
    let path = seq![PathOp::Rect(x, y, w, h)];
    assert(read(s, make).path =~= path);
    assert(page_paths::closed_path(path) == path);
    lemma_painted(read(s, make), paint);
    lemma_rectangle_drawn(s.output, s.ctm, x, y, w, h, strokes(paint.0), fills(paint.0));
}

/// A line from one point to another that is painted alone becomes one line: between its two
/// ends, in that order. Nothing else is drawn, and closing it makes no difference.
pub proof fn law_painted_line(
    s: Tracing,
    begin: OperationView,
    go: OperationView,
    paint: OperationView,
    x0: Float,
    y0: Float,
    x1: Float,
    y1: Float,
)
    requires
        s.path.len() == 0,
        begin.0 == "m"@,
        numbers_are(begin, seq![x0, y0]),
        go.0 == "l"@,
        numbers_are(go, seq![x1, y1]),
        paints(paint.0),
        chars::somewhere(on_page(s.output.geom, s.ctm, x0, y0)),
        chars::somewhere(on_page(s.output.geom, s.ctm, x1, y1)),
    ensures
        ({
            let t = read(read(read(s, begin), go), paint);
            let l = t.output.lines.last();
            let p = on_page(s.output.geom, s.ctm, x0, y0);
            let q = on_page(s.output.geom, s.ctm, x1, y1);
            &&& t.path.len() == 0
            &&& t.output.lines.len() == s.output.lines.len() + 1
            &&& s.output.lines.is_prefix_of(t.output.lines)
            &&& t.output.rects == s.output.rects
            &&& t.output.curves == s.output.curves
            &&& t.output.chars == s.output.chars
            &&& l.fill == fills(paint.0)
            &&& l.stroke == strokes(paint.0)
            &&& l.page_number == s.output.page_number
            &&& l.pts == seq![p, q]
            &&& between(l.place, p, q)
        }),
{
    lemma_extends(s, begin);
    lemma_extends(read(s, begin), go);
    lemma_painted(read(read(s, begin), go), paint);
    lemma_tags();
    assert(object::number(begin.1[0]) == Some(seq![x0, y0][0]));
    assert(object::number(begin.1[1]) == Some(seq![x0, y0][1]));
    assert(object::number(go.1[0]) == Some(seq![x1, y1][0]));
    assert(object::number(go.1[1]) == Some(seq![x1, y1][1]));
    let path = seq![PathOp::MoveTo(x0, y0), PathOp::LineTo(x1, y1)];
    assert(read(s, begin).path =~= seq![PathOp::MoveTo(x0, y0)]);
    assert(read(read(s, begin), go).path =~= path);
    let p = on_page(s.output.geom, s.ctm, x0, y0);
    let q = on_page(s.output.geom, s.ctm, x1, y1);
    lemma_hull_of_two(p, q);
    let closed = path.push(PathOp::Close);
    assert(page_paths::closed_path(path) == closed);
    assert(closed[2] == PathOp::Close && closed[0] == path[0] && closed[1] == path[1]);
}

proof fn lemma_hull_of_two(a: Point, b: Point)
    ensures
        geometry::hull_of_points(seq![a, b]) == Some(geometry::dot(a).around(geometry::dot(b))),
{
    let boxes = seq![a, b].map_values(|p: Point| geometry::dot(p));
    reveal_with_fuel(geometry::hull, 3);
    assert(boxes.len() == 2);
    assert(boxes[0] == geometry::dot(a) && boxes[1] == geometry::dot(b));
    let one = boxes.drop_last();
    assert(one.drop_last().len() == 0);
    assert(one.last() == geometry::dot(a));
    assert(geometry::hull(one) == Some(geometry::dot(a)));
    assert(boxes.last() == geometry::dot(b));
}

/// Beginning a path and going on move the current point; going on keeps what came before.
pub proof fn law_path_grows(s: Tracing, op: OperationView, x: Float, y: Float)
    requires
        op.0 == "m"@ || op.0 == "l"@,
        numbers_are(op, seq![x, y]),
    ensures
        ({
            let t = read(s, op);
            &&& t.path.len() == s.path.len() + 1
            &&& s.path.is_prefix_of(t.path)
            &&& t.current == Some(Point { x, y })
            &&& op.0 == "m"@ ==> t.begin == Some(Point { x, y }) && t.path.last()
                == PathOp::MoveTo(x, y)
            &&& op.0 == "l"@ ==> t.begin == s.begin && t.path.last() == PathOp::LineTo(x, y)
            &&& t.output == s.output
            &&& t.ctm == s.ctm
        }),
{
    lemma_extends(s, op);
    lemma_tags();
    assert(object::number(op.1[0]) == Some(seq![x, y][0]));
    assert(object::number(op.1[1]) == Some(seq![x, y][1]));
}

/// A curve ends at its last point; where its first control point is left out, that is the
/// point where it begins, and where its second is left out, that is the point where it ends.
pub proof fn law_short_curves(
    s: Tracing,
    full: OperationView,
    late: OperationView,
    early: OperationView,
    at: Point,
    c1: Point,
    c2: Point,
    p: Point,
)
    requires
        full.0 == "c"@,
        numbers_are(full, seq![c1.x, c1.y, c2.x, c2.y, p.x, p.y]),
        late.0 == "v"@,
        numbers_are(late, seq![c2.x, c2.y, p.x, p.y]),
        early.0 == "y"@,
        numbers_are(early, seq![c1.x, c1.y, p.x, p.y]),
        s.current == Some(at),
    ensures
        ({
            let t = read(s, full);
            &&& t.path == s.path.push(PathOp::CurveTo(c1.x, c1.y, c2.x, c2.y, p.x, p.y))
            &&& t.current == Some(p)
            &&& t.begin == s.begin
            &&& t.output == s.output
        }),
        c1 == at ==> read(s, late) == read(s, full),
        c2 == p ==> read(s, early) == read(s, full),
{
    lemma_extends(s, full);
    lemma_extends(s, late);
    lemma_extends(s, early);
    lemma_tags();
    let six = seq![c1.x, c1.y, c2.x, c2.y, p.x, p.y];
    let four = seq![c2.x, c2.y, p.x, p.y];
    let other = seq![c1.x, c1.y, p.x, p.y];
    assert(object::number(full.1[0]) == Some(six[0]) && object::number(full.1[1]) == Some(six[1]));
    assert(object::number(full.1[2]) == Some(six[2]) && object::number(full.1[3]) == Some(six[3]));
    assert(object::number(full.1[4]) == Some(six[4]) && object::number(full.1[5]) == Some(six[5]));
    assert(object::number(late.1[0]) == Some(four[0]) && object::number(late.1[1]) == Some(
        four[1],
    ));
    assert(object::number(late.1[2]) == Some(four[2]) && object::number(late.1[3]) == Some(
        four[3],
    ));
    assert(object::number(early.1[0]) == Some(other[0]) && object::number(early.1[1]) == Some(
        other[1],
    ));
    assert(object::number(early.1[2]) == Some(other[2]) && object::number(early.1[3]) == Some(
        other[3],
    ));
}

/// Closing a path leads back to where it began, and closing it again changes nothing.
pub proof fn law_closing_leads_back(s: Tracing)
    ensures
        read(s, bare("h"@)).current == s.begin,
        read(s, bare("h"@)).output == s.output,
        s.path.is_prefix_of(read(s, bare("h"@)).path),
        s.path.len() > 0 && s.path.last() is LineTo ==> read(s, bare("h"@)).path == s.path.push(
            PathOp::Close,
        ),
        read(read(s, bare("h"@)), bare("h"@)) == read(s, bare("h"@)),
{
    lemma_extends(s, bare("h"@));
    lemma_extends(read(s, bare("h"@)), bare("h"@));
    lemma_tags();
}

/// Whether a step of a path goes to a point; a rectangle and the closing of a path do not.
pub open spec fn end_of(op: PathOp) -> Option<(Float, Float)> {
    match op {
        PathOp::MoveTo(x, y) => Some((x, y)),
        PathOp::LineTo(x, y) => Some((x, y)),
        PathOp::CurveTo(_, _, _, _, x, y) => Some((x, y)),
        _ => None,
    }
}

/// Whether a path is neither a rectangle alone nor a straight line alone, but goes to some
/// point.
pub open spec fn is_curve(path: Seq<PathOp>) -> bool {
    &&& exists|i: int| 0 <= i < path.len() && #[trigger] end_of(path[i]) is Some
    &&& path.len() > 3 || (exists|i: int| 0 <= i < path.len() && #[trigger] path[i] is CurveTo)
}

proof fn lemma_points(geom: PageGeometry, ctm: Transform, path: Seq<PathOp>, i: int)
    requires
        0 <= i < path.len(),
        end_of(path[i]) is Some,
    ensures
        ({
            let (x, y) = end_of(path[i])->0;
            collector::path_points(geom, ctm, path).contains(on_page(geom, ctm, x, y))
        }),
    decreases path.len(),
{
    let (x, y) = end_of(path[i])->0;
    let p = on_page(geom, ctm, x, y);
    let all = collector::path_points(geom, ctm, path);
    let front = collector::path_points(geom, ctm, path.drop_last());
    if i == path.len() - 1 {
        assert(all.last() == p);
        assert(all[all.len() - 1] == p);
    } else {
        lemma_points(geom, ctm, path.drop_last(), i);
        let k = choose|k: int| 0 <= k < front.len() && front[k] == p;
        assert(all[k] == p);
    }
}

/// Whether the `i`-th step of a path goes to a point of the page.
pub open spec fn goes_to(
    geom: PageGeometry,
    ctm: Transform,
    path: Seq<PathOp>,
    i: int,
    p: Point,
) -> bool {
    &&& 0 <= i < path.len()
    &&& end_of(path[i]) matches Some((x, y)) && on_page(geom, ctm, x, y) == p
}

/// Whether some step of a path goes to a point of the page.
pub open spec fn some_step_goes_to(
    geom: PageGeometry,
    ctm: Transform,
    path: Seq<PathOp>,
    p: Point,
) -> bool {
    exists|i: int| goes_to(geom, ctm, path, i, p)
}

proof fn lemma_point_origin(geom: PageGeometry, ctm: Transform, path: Seq<PathOp>, k: int)
    requires
        0 <= k < collector::path_points(geom, ctm, path).len(),
    ensures
        some_step_goes_to(geom, ctm, path, collector::path_points(geom, ctm, path)[k]),
    decreases path.len(),
{
    let all = collector::path_points(geom, ctm, path);
    let rest = path.drop_last();
    let front = collector::path_points(geom, ctm, rest);
    if k < front.len() {
        assert(all[k] == front[k]);
        lemma_point_origin(geom, ctm, rest, k);
        let i = choose|i: int| goes_to(geom, ctm, rest, i, front[k]);
        assert(path[i] == rest[i]);
        assert(goes_to(geom, ctm, path, i, all[k]));
    } else {
        assert(path[path.len() - 1] == path.last());
        assert(goes_to(geom, ctm, path, path.len() - 1, all[k]));
    }
}

/// Whether a command is what a step of a path comes to on the page.
pub open spec fn commands_step(
    geom: PageGeometry,
    ctm: Transform,
    op: PathOp,
    c: PathCommand,
) -> bool {
    match op {
        PathOp::MoveTo(x, y) => c == PathCommand::MoveTo(on_page(geom, ctm, x, y)),
        PathOp::LineTo(x, y) => c == PathCommand::LineTo(on_page(geom, ctm, x, y)),
        PathOp::CurveTo(x1, y1, x2, y2, x3, y3) => c == (PathCommand::CurveTo {
            c1: on_page(geom, ctm, x1, y1),
            c2: on_page(geom, ctm, x2, y2),
            p: on_page(geom, ctm, x3, y3),
        }),
        PathOp::Rect(x, y, width, height) => c == (PathCommand::Rect { x, y, width, height }),
        PathOp::Close => c == PathCommand::Close,
    }
}

/// Whether a curve is what a path comes to on the page: with a command for each step, through
/// the points that steps go to and no others, all of which lie in its place.
pub open spec fn follows(
    geom: PageGeometry,
    ctm: Transform,
    path: Seq<PathOp>,
    c: DrawnView,
) -> bool {
    &&& c.path.len() == path.len()
    &&& forall|i: int| 0 <= i < path.len() ==> commands_step(geom, ctm, path[i], #[trigger] c.path[i])
    &&& forall|i: int, p: Point| #[trigger] goes_to(geom, ctm, path, i, p) ==> c.pts.contains(p)
    &&& forall|k: int|
        0 <= k < c.pts.len() ==> some_step_goes_to(geom, ctm, path, #[trigger] c.pts[k])
    &&& forall|k: int| 0 <= k < c.pts.len() ==> reached(c.place, #[trigger] c.pts[k])
}

/// Whether a place reaches as far as a point, wherever the point has numbers.
pub open spec fn reached(place: Place, p: Point) -> bool {
    &&& !p.x.nan() ==> place.x0.at_most(p.x) && p.x.at_most(place.x1)
    &&& !p.y.nan() ==> place.top.at_most(p.y) && p.y.at_most(place.bottom)
}

proof fn lemma_curve_drawn(
    before: CollectorView,
    ctm: Transform,
    path: Seq<PathOp>,
    stroke: bool,
    fill: bool,
)
    requires
        is_curve(path),
    ensures
        ({
            let after = before.with_path(ctm, path, stroke, fill);
            let c = after.curves.last();
            &&& after == (CollectorView { curves: before.curves.push(c), ..before })
            &&& c.fill == fill
            &&& c.stroke == stroke
            &&& c.page_number == before.page_number
            &&& follows(before.geom, ctm, path, c)
        }),
{
    let geom = before.geom;
    let e = choose|i: int| 0 <= i < path.len() && #[trigger] end_of(path[i]) is Some;
    if path.len() <= 3 {
        let i = choose|i: int| 0 <= i < path.len() && #[trigger] path[i] is CurveTo;
        assert(path[i] is CurveTo);
    }
    assert(collector::straight(path) is None);
    assert(!(path.len() == 1 && path[0] is Rect));
    let pts = collector::path_points(geom, ctm, path);
    lemma_points(geom, ctm, path, e);
    assert(pts.len() > 0);
    let boxes = pts.map_values(|p: Point| geometry::dot(p));
    assert(boxes.len() > 0);
    geometry::law_hull_holds(boxes, 0);
    assert(geometry::hull_of_points(pts) is Some);
    let after = before.with_path(ctm, path, stroke, fill);
    let c = after.curves.last();
    assert(after.curves =~= before.curves.push(c));
    assert(c.pts == pts);
    assert(c.path == collector::commands(geom, ctm, path));
    assert forall|i: int| 0 <= i < path.len() implies commands_step(
        geom,
        ctm,
        path[i],
        #[trigger] c.path[i],
    ) by {
        assert(c.path[i] == collector::command(geom, ctm, path[i]));
    }
    assert forall|k: int| 0 <= k < c.pts.len() implies reached(c.place, #[trigger] c.pts[k]) by {
        geometry::law_hull_holds(boxes, k);
        assert(boxes[k] == geometry::dot(pts[k]));
    }
    assert forall|i: int, p: Point| #[trigger]
        goes_to(geom, ctm, path, i, p) implies c.pts.contains(p) by {
        lemma_points(geom, ctm, path, i);
    }
    assert forall|k: int| 0 <= k < c.pts.len() implies some_step_goes_to(
        geom,
        ctm,
        path,
        #[trigger] c.pts[k],
    ) by {
        lemma_point_origin(geom, ctm, path, k);
    }
}

/// Any other path becomes one curve: with a command for each of its steps, through the points
/// that its steps go to, all of which lie in its place. Nothing else is drawn.
pub proof fn law_painted_curve(s: Tracing, op: OperationView)
    requires
        paints(op.0),
        is_curve(s.path),
    ensures
        ({
            let t = read(s, op);
            let c = t.output.curves.last();
            let path = if op.0 == "s"@ || op.0 == "b"@ || op.0 == "b*"@ {
                read(s, bare("h"@)).path
            } else {
                s.path
            };
            &&& t.output.curves.len() == s.output.curves.len() + 1
            &&& s.output.curves.is_prefix_of(t.output.curves)
            &&& t.output.rects == s.output.rects
            &&& t.output.lines == s.output.lines
            &&& t.output.chars == s.output.chars
            &&& c.fill == fills(op.0)
            &&& c.stroke == strokes(op.0)
            &&& c.page_number == s.output.page_number
            &&& follows(s.output.geom, s.ctm, path, c)
        }),
{
    lemma_extends(s, bare("h"@));
    lemma_painted(s, op);
    lemma_tags();
    let closed = page_paths::closed_path(s.path);
    let e = choose|i: int| 0 <= i < s.path.len() && #[trigger] end_of(s.path[i]) is Some;
    assert(closed[e] == s.path[e] && end_of(closed[e]) is Some);
    if s.path.len() <= 3 {
        let i = choose|i: int| 0 <= i < s.path.len() && #[trigger] s.path[i] is CurveTo;
        assert(closed[i] == s.path[i] && closed[i] is CurveTo);
    }
    assert(is_curve(closed));
    if op.0 == "s"@ || op.0 == "b"@ || op.0 == "b*"@ {
        lemma_curve_drawn(s.output, s.ctm, closed, strokes(op.0), fills(op.0));
    } else {
        lemma_curve_drawn(s.output, s.ctm, s.path, strokes(op.0), fills(op.0));
    }
}

proof fn lemma_matrix_changed(s: Tracing, op: OperationView, m: Transform)
    requires
        changes_matrix(op, m),
    ensures
        page_paths::traced(s, op) == Ok::<_, ErrorView>(
            Tracing { ctm: m.then_apply(s.ctm), ..s },
        ),
{
    lemma_tags();
}

/// A change of the matrix comes first, then what was in effect: a line that begins at the
/// origin begins where the matrix from before takes the point to which the change takes the
/// origin. The path so far and what is drawn stay.
pub proof fn law_changes_come_first(
    s: Tracing,
    change: OperationView,
    begin: OperationView,
    go: OperationView,
    paint: OperationView,
    m: Transform,
    x: Float,
    y: Float,
)
    requires
        s.path.len() == 0,
        changes_matrix(change, m),
        places::finite(m),
        places::finite(m.then_apply(s.ctm)),
        begin.0 == "m"@,
        numbers_are(begin, seq![nought(), nought()]),
        go.0 == "l"@,
        numbers_are(go, seq![x, y]),
        paints(paint.0),
        chars::somewhere(on_page(s.output.geom, m.then_apply(s.ctm), nought(), nought())),
        chars::somewhere(on_page(s.output.geom, m.then_apply(s.ctm), x, y)),
    ensures
        ({
            let t = read(read(read(read(s, change), begin), go), paint);
            let raw = s.ctm.image(m.m31, m.m32);
            &&& read(s, change).path == s.path
            &&& read(s, change).output == s.output
            &&& t.output.lines.len() == s.output.lines.len() + 1
            &&& together(
                t.output.lines.last().pts[0],
                s.output.geom.on_page(raw.x, raw.y),
            )
        }),
{
    lemma_matrix_changed(s, change, m);
    let after = Tracing { ctm: m.then_apply(s.ctm), ..s };
    law_painted_line(after, begin, go, paint, nought(), nought(), x, y);
    places::law_first_then_next(m, s.ctm);
    let raw = s.ctm.image(m.m31, m.m32);
    places::law_same_points_same_places(
        s.output.geom,
        after.ctm.image(nought(), nought()),
        raw,
    );
}

/// A form draws what its content would draw in its place, with its matrix as a change of the
/// matrix before it; what was in effect is in effect again behind it, and the path that was
/// begun goes on.
pub proof fn law_form_is_its_content(
    file: FileView,
    ops: Seq<OperationView>,
    n: nat,
    resources: DictView,
    depth: nat,
    active: Seq<ObjectId>,
    start: Tracing,
    s: Tracing,
    name: Seq<char>,
    target: ObjectView,
    dict: DictView,
    form: ContentView,
    opened: FormView,
    change: OperationView,
    m: Transform,
)
    requires
        n < ops.len(),
        page_paths::walked(file, ops, n, resources, depth, active, start) == Ok::<
            _,
            Failure<Tracing>,
        >(s),
        uses_stream(file, resources, ops[n as int], name, target, dict, form, "Form"@),
        s.budget > 0,
        forms::opened(file, resources, target, dict, form, depth, active) == Ok::<_, ErrorView>(
            opened,
        ),
        changes_matrix(change, m),
        opened.matrix == Some(m) || (opened.matrix is None && m == Transform::neutral()),
    ensures
        ({
            let inline = page_paths::walked(
                file,
                seq![change] + opened.ops,
                opened.ops.len() + 1,
                opened.resources,
                depth + 1,
                opened.active,
                Tracing {
                    saved: Seq::empty(),
                    path: Seq::empty(),
                    current: None,
                    begin: None,
                    budget: (s.budget - 1) as nat,
                    ..s
                },
            );
            match page_paths::walked(file, ops, n + 1, resources, depth, active, start) {
                Ok(t) => inline matches Ok(inner) && t.output == inner.output && t.budget
                    == inner.budget && t.ctm == s.ctm && t.saved == s.saved && t.path == s.path
                    && t.current == s.current && t.begin == s.begin,
                Err(f) => inline matches Err(inner) && f.error == inner.error,
            }
        }),
{
    lemma_tags();
    assert(crate::parse::images::operand_name(ops[n as int]) == Some(name));
    assert(forms::subtype(dict) == Some("Form"@));
    let before = Tracing {
        saved: Seq::empty(),
        path: Seq::empty(),
        current: None,
        begin: None,
        budget: (s.budget - 1) as nat,
        ..s
    };
    let after = Tracing { ctm: m.then_apply(s.ctm), ..before };
    let one = seq![change];
    lemma_matrix_changed(before, change, m);
    assert(page_paths::walked(file, one, 0, opened.resources, depth + 1, opened.active, before)
        == Ok::<_, Failure<Tracing>>(before));
    assert(page_paths::walked(file, one, 1, opened.resources, depth + 1, opened.active, before)
        == Ok::<_, Failure<Tracing>>(after));
    lemma_content_goes_on(
        file,
        one,
        opened.ops,
        opened.ops.len(),
        opened.resources,
        depth + 1,
        opened.active,
        before,
        after,
    );
}

proof fn lemma_content_goes_on(
    file: FileView,
    first: Seq<OperationView>,
    rest: Seq<OperationView>,
    n: nat,
    resources: DictView,
    depth: nat,
    active: Seq<ObjectId>,
    start: Tracing,
    s: Tracing,
)
    requires
        n <= rest.len(),
        page_paths::walked(file, first, first.len(), resources, depth, active, start) == Ok::<
            _,
            Failure<Tracing>,
        >(s),
    ensures
        page_paths::walked(file, first + rest, first.len() + n, resources, depth, active, start)
            == page_paths::walked(file, rest, n, resources, depth, active, s),
    decreases n,
{
    if n == 0 {
        lemma_same_beginning(
            file,
            first,
            first + rest,
            first.len(),
            resources,
            depth,
            active,
            start,
        );
    } else {
        lemma_content_goes_on(
            file,
            first,
            rest,
            (n - 1) as nat,
            resources,
            depth,
            active,
            start,
            s,
        );
        assert((first + rest)[first.len() + n - 1] == rest[n - 1]);
    }
}

proof fn lemma_same_beginning(
    file: FileView,
    a: Seq<OperationView>,
    b: Seq<OperationView>,
    n: nat,
    resources: DictView,
    depth: nat,
    active: Seq<ObjectId>,
    start: Tracing,
)
    requires
        n <= a.len() && n <= b.len(),
        forall|i: int| 0 <= i < n ==> a[i] == b[i],
    ensures
        page_paths::walked(file, a, n, resources, depth, active, start) == page_paths::walked(
            file,
            b,
            n,
            resources,
            depth,
            active,
            start,
        ),
    decreases n,
{
    if n > 0 {
        lemma_same_beginning(file, a, b, (n - 1) as nat, resources, depth, active, start);
    }
}

/// Restoring a matrix that was never saved takes back to the one that moves nothing; the
/// path that was begun goes on.
pub proof fn law_restore_without_save(s: Tracing, restore: OperationView)
    requires
        restore.0 == "Q"@,
        s.saved.len() == 0,
    ensures
        page_paths::traced(s, restore) matches Ok(t) && {
            &&& t.ctm == Transform::neutral()
            &&& t.saved.len() == 0
            &&& t.path == s.path
            &&& t.output == s.output
        },
{
    reveal_strlit("q");
    reveal_strlit("Q");
    assert("q"@[0] == 'q' && "Q"@[0] == 'Q');
}

/// Using a name that stands for nothing is passed over.
pub proof fn law_unknown_names_are_passed_over(
    file: FileView,
    ops: Seq<OperationView>,
    n: nat,
    resources: DictView,
    depth: nat,
    active: Seq<ObjectId>,
    start: Tracing,
    s: Tracing,
    name: Seq<char>,
)
    requires
        n < ops.len(),
        page_paths::walked(file, ops, n, resources, depth, active, start) == Ok::<
            _,
            Failure<Tracing>,
        >(s),
        uses_nothing(file, resources, ops[n as int], name),
    ensures
        page_paths::walked(file, ops, n + 1, resources, depth, active, start) == Ok::<
            _,
            Failure<Tracing>,
        >(s),
{
    assert(crate::parse::images::operand_name(ops[n as int]) == Some(name));
}

/// What a path turns out to be says so, is one of the page, and is painted as asked for. A
/// rectangle is told by its upper left corner and its measures, a line needs no path.
pub proof fn law_drawn_objects_tell_what_they_are(
    before: CollectorView,
    ctm: Transform,
    ops: Seq<PathOp>,
    stroke: bool,
    fill: bool,
)
    ensures
        ({
            let after = before.with_path(ctm, ops, stroke, fill);
            &&& after.rects.len() > before.rects.len() ==> {
                let r = after.rects.last();
                &&& r.object_type == "rect"@ && r.page_number == before.page_number
                &&& r.stroke == stroke && r.fill == fill && r.linewidth.zero()
                &&& r.path.len() == 1
                &&& r.path[0] == (PathCommand::Rect {
                    x: r.place.x0,
                    y: r.place.top,
                    width: r.place.width,
                    height: r.place.height,
                })
            }
            &&& after.lines.len() > before.lines.len() ==> {
                let l = after.lines.last();
                &&& l.object_type == "line"@ && l.page_number == before.page_number
                &&& l.stroke == stroke && l.fill == fill && l.linewidth.zero()
                &&& l.path.len() == 0
                &&& l.pts.len() == 2
            }
            &&& after.curves.len() > before.curves.len() ==> {
                let c = after.curves.last();
                &&& c.object_type == "curve"@ && c.page_number == before.page_number
                &&& c.stroke == stroke && c.fill == fill && c.linewidth.zero()
                &&& c.path.len() == ops.len()
            }
        }),
{
}

} // verus!
