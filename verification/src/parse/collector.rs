//! The characters and drawn objects of a page.

use super::page_geometry::PageGeometry;
use crate::float::Float;
use crate::geometry;
use crate::geometry::bbox_from_points;
use crate::transform::Transform;
use crate::types;
use crate::types::BBox;
use crate::types::Char;
use crate::types::CharView;
use crate::types::Curve;
use crate::types::DrawnView;
use crate::types::Line;
use crate::types::PathCommand;
use crate::types::Point;
use crate::types::RectObject;
use vstd::prelude::*;

verus! {

/// The bits of the share of a font's size that lies below the base line.
pub const DESCENT: u64 = 0x3fca_7ef9_db22_d0e5;

/// A step of a path in the coordinates of the file.
#[derive(Clone, Copy, PartialEq, Eq, Structural, Debug)]
pub enum PathOp {
    MoveTo(Float, Float),
    LineTo(Float, Float),
    CurveTo(Float, Float, Float, Float, Float, Float),
    Rect(Float, Float, Float, Float),
    Close,
}

/// What has been found on a page.
#[derive(Debug)]
pub struct CollectorOutput {
    pub geom: PageGeometry,
    pub page_number: usize,
    pub chars: Vec<Char>,
    pub lines: Vec<Line>,
    pub rects: Vec<RectObject>,
    pub curves: Vec<Curve>,
}

/// What is seen of a [`CollectorOutput`].
#[verifier::ext_equal]
pub struct CollectorView {
    pub geom: PageGeometry,
    pub page_number: usize,
    pub chars: Seq<CharView>,
    pub lines: Seq<DrawnView>,
    pub rects: Seq<DrawnView>,
    pub curves: Seq<DrawnView>,
}

impl View for CollectorOutput {
    type V = CollectorView;

    open spec fn view(&self) -> CollectorView {
        CollectorView {
            geom: self.geom,
            page_number: self.page_number,
            chars: types::seen(self.chars@),
            lines: types::seen(self.lines@),
            rects: types::seen(self.rects@),
            curves: types::seen(self.curves@),
        }
    }
}

/// Where a point lies on the page once it has been transformed.
pub open spec fn placed(geom: PageGeometry, ctm: Transform, x: Float, y: Float) -> Point {
    geom.on_page(ctm.image(x, y).x, ctm.image(x, y).y)
}

/// The corners of a character's box: from the base line's beginning down, then around.
pub open spec fn char_corners(
    geom: PageGeometry,
    trm: Transform,
    width: Float,
    font_size: Float,
) -> Seq<Point> {
    let zero = Float { bits: 0 };
    let descent = font_size.times(Float { bits: DESCENT });
    let ascent = font_size.minus(descent);
    let advance = width.larger(zero).times(font_size);
    seq![
        placed(geom, trm, zero, descent.negated()),
        placed(geom, trm, advance, descent.negated()),
        placed(geom, trm, advance, ascent),
        placed(geom, trm, zero, ascent),
    ]
}

/// The distance of two points.
pub open spec fn distance(p: Point, q: Point) -> Float {
    let dx = q.x.minus(p.x);
    let dy = q.y.minus(p.y);
    dx.times(dx).plus(dy.times(dy)).root()
}

/// A character that is shown with the given matrix.
pub open spec fn shown_char(
    geom: PageGeometry,
    page_number: usize,
    trm: Transform,
    width: Float,
    font_size: Float,
    text: Seq<char>,
) -> CharView {
    let corners = char_corners(geom, trm, width, font_size);
    let p0 = corners[0];
    let p1 = corners[1];
    CharView {
        object_type: "char"@,
        page_number,
        text,
        place: geom.place(geometry::hull_of_points(corners)->0),
        size: distance(p0, corners[3]),
        adv: width.larger(Float { bits: 0 }).times(font_size),
        upright: p1.y.minus(p0.y).absolute().at_most(p1.x.minus(p0.x).absolute()),
        fontname: "unknown"@,
        matrix: trm,
        mcid: None,
        tag: None,
        ncs: None,
        stroking_color: None,
        non_stroking_color: None,
    }
}

/// What a path turns out to be.
pub enum Drawing {
    Nothing,
    Rect(DrawnView),
    Line(DrawnView),
    Curve(DrawnView),
}

/// The ends of a path that is a single straight line.
pub open spec fn straight(ops: Seq<PathOp>) -> Option<(Point, Point)> {
    if ops.len() == 2 || (ops.len() == 3 && ops[2] == PathOp::Close) {
        match (ops[0], ops[1]) {
            (PathOp::MoveTo(x0, y0), PathOp::LineTo(x1, y1)) => Some(
                (Point { x: x0, y: y0 }, Point { x: x1, y: y1 }),
            ),
            _ => None,
        }
    } else {
        None
    }
}

/// The corners of a rectangle.
pub open spec fn rect_corners(
    geom: PageGeometry,
    ctm: Transform,
    x: Float,
    y: Float,
    w: Float,
    h: Float,
) -> Seq<Point> {
    seq![
        placed(geom, ctm, x, y),
        placed(geom, ctm, x.plus(w), y),
        placed(geom, ctm, x.plus(w), y.plus(h)),
        placed(geom, ctm, x, y.plus(h)),
    ]
}

/// The points that a path goes through.
pub open spec fn path_points(geom: PageGeometry, ctm: Transform, ops: Seq<PathOp>) -> Seq<Point>
    decreases ops.len(),
{
    if ops.len() == 0 {
        Seq::empty()
    } else {
        let before = path_points(geom, ctm, ops.drop_last());
        match ops.last() {
            PathOp::MoveTo(x, y) => before.push(placed(geom, ctm, x, y)),
            PathOp::LineTo(x, y) => before.push(placed(geom, ctm, x, y)),
            PathOp::CurveTo(x1, y1, x2, y2, x3, y3) => before.push(placed(geom, ctm, x3, y3)),
            PathOp::Rect(x, y, w, h) => before,
            PathOp::Close => before,
        }
    }
}

/// A step of a path on the page; a rectangle keeps its coordinates.
pub open spec fn command(geom: PageGeometry, ctm: Transform, op: PathOp) -> PathCommand {
    match op {
        PathOp::MoveTo(x, y) => PathCommand::MoveTo(placed(geom, ctm, x, y)),
        PathOp::LineTo(x, y) => PathCommand::LineTo(placed(geom, ctm, x, y)),
        PathOp::CurveTo(x1, y1, x2, y2, x3, y3) => PathCommand::CurveTo {
            c1: placed(geom, ctm, x1, y1),
            c2: placed(geom, ctm, x2, y2),
            p: placed(geom, ctm, x3, y3),
        },
        PathOp::Rect(x, y, w, h) => PathCommand::Rect { x, y, width: w, height: h },
        PathOp::Close => PathCommand::Close,
    }
}

pub open spec fn commands(geom: PageGeometry, ctm: Transform, ops: Seq<PathOp>) -> Seq<
    PathCommand,
> {
    ops.map_values(|op: PathOp| command(geom, ctm, op))
}

/// A rectangle with the given corners.
pub open spec fn rectangle(
    geom: PageGeometry,
    page_number: usize,
    pts: Seq<Point>,
    stroke: bool,
    fill: bool,
) -> DrawnView {
    let bbox = geometry::hull_of_points(pts)->0;
    DrawnView {
        object_type: "rect"@,
        page_number,
        place: geom.place(bbox),
        pts,
        path: seq![
            PathCommand::Rect {
                x: bbox.x0,
                y: bbox.top,
                width: bbox.wide(),
                height: bbox.high(),
            },
        ],
        stroke,
        fill,
        linewidth: Float { bits: 0 },
    }
}

/// What a path turns out to be: a rectangle, a straight line, or something else.
pub open spec fn drawing(
    geom: PageGeometry,
    page_number: usize,
    ctm: Transform,
    ops: Seq<PathOp>,
    stroke: bool,
    fill: bool,
) -> Drawing {
    let linewidth = Float { bits: 0 };
    if ops.len() == 0 {
        Drawing::Nothing
    } else if ops.len() == 1 && ops[0] is Rect {
        match ops[0] {
            PathOp::Rect(x, y, w, h) => Drawing::Rect(
                rectangle(geom, page_number, rect_corners(geom, ctm, x, y, w, h), stroke, fill),
            ),
            _ => Drawing::Nothing,
        }
    } else {
        match straight(ops) {
            Some((start, end)) => {
                let pts = seq![
                    placed(geom, ctm, start.x, start.y),
                    placed(geom, ctm, end.x, end.y),
                ];
                Drawing::Line(
                    DrawnView {
                        object_type: "line"@,
                        page_number,
                        place: geom.place(geometry::hull_of_points(pts)->0),
                        pts,
                        path: Seq::empty(),
                        stroke,
                        fill,
                        linewidth,
                    },
                )
            },
            None => {
                let pts = path_points(geom, ctm, ops);
                match geometry::hull_of_points(pts) {
                    Some(bbox) => Drawing::Curve(
                        DrawnView {
                            object_type: "curve"@,
                            page_number,
                            place: geom.place(bbox),
                            pts,
                            path: commands(geom, ctm, ops),
                            stroke,
                            fill,
                            linewidth,
                        },
                    ),
                    None => Drawing::Nothing,
                }
            },
        }
    }
}

impl CollectorView {
    pub open spec fn empty(geom: PageGeometry, page_number: usize) -> CollectorView {
        CollectorView {
            geom,
            page_number,
            chars: Seq::empty(),
            lines: Seq::empty(),
            rects: Seq::empty(),
            curves: Seq::empty(),
        }
    }

    /// With one more character.
    pub open spec fn with_char(
        self,
        trm: Transform,
        width: Float,
        font_size: Float,
        text: Seq<char>,
    ) -> CollectorView {
        CollectorView {
            chars: self.chars.push(
                shown_char(self.geom, self.page_number, trm, width, font_size, text),
            ),
            ..self
        }
    }

    /// With what a path turns out to be.
    pub open spec fn with_path(
        self,
        ctm: Transform,
        ops: Seq<PathOp>,
        stroke: bool,
        fill: bool,
    ) -> CollectorView {
        match drawing(self.geom, self.page_number, ctm, ops, stroke, fill) {
            Drawing::Nothing => self,
            Drawing::Rect(d) => CollectorView { rects: self.rects.push(d), ..self },
            Drawing::Line(d) => CollectorView { lines: self.lines.push(d), ..self },
            Drawing::Curve(d) => CollectorView { curves: self.curves.push(d), ..self },
        }
    }
}

/// A path becomes at most one object, behind those found before.
pub proof fn law_one_object_for_a_path(
    before: CollectorView,
    ctm: Transform,
    ops: Seq<PathOp>,
    stroke: bool,
    fill: bool,
)
    ensures
        ({
            let after = before.with_path(ctm, ops, stroke, fill);
            &&& before.rects.is_prefix_of(after.rects)
            &&& before.lines.is_prefix_of(after.lines)
            &&& before.curves.is_prefix_of(after.curves)
            &&& after.chars == before.chars
            &&& after.rects.len() + after.lines.len() + after.curves.len() <= before.rects.len()
                + before.lines.len() + before.curves.len() + 1
        }),
{
}

proof fn lemma_hull_some(points: Seq<Point>)
    requires
        points.len() > 0,
    ensures
        geometry::hull_of_points(points) is Some,
{
}

/// The ends of a path that is a single straight line.
pub fn straight_line_from_path(ops: &Vec<PathOp>) -> (r: Option<(Point, Point)>)
    ensures
        r == straight(ops@),
{
    let n: usize = ops.len();
    if n == 2 || n == 3 {
        if n == 3 {
            match ops[2] {
                PathOp::Close => (),
                _ => {
                    return None;
                },
            }
        }
        match (ops[0], ops[1]) {
            (PathOp::MoveTo(x0, y0), PathOp::LineTo(x1, y1)) => Some(
                (Point { x: x0, y: y0 }, Point { x: x1, y: y1 }),
            ),
            _ => None,
        }
    } else {
        None
    }
}

impl CollectorOutput {
    pub fn new(geom: PageGeometry, page_number: usize) -> (r: CollectorOutput)
        ensures
            r@ == CollectorView::empty(geom, page_number),
    {
        let r: CollectorOutput = CollectorOutput {
            geom,
            page_number,
            chars: Vec::new(),
            lines: Vec::new(),
            rects: Vec::new(),
            curves: Vec::new(),
        };
        assert(r@ =~= CollectorView::empty(geom, page_number));
        r
    }

    /// What has been found.
    pub fn finish(self) -> (r: (Vec<Char>, Vec<Line>, Vec<RectObject>, Vec<Curve>))
        ensures
            types::seen(r.0@) == self@.chars,
            types::seen(r.1@) == self@.lines,
            types::seen(r.2@) == self@.rects,
            types::seen(r.3@) == self@.curves,
    {
        (self.chars, self.lines, self.rects, self.curves)
    }

    fn map_transformed_point(&self, ctm: &Transform, x: Float, y: Float) -> (r: Point)
        ensures
            r == placed(self.geom, *ctm, x, y),
    {
        let raw: Point = ctm.transform_point(x, y);
        self.geom.map_raw_point(raw.x, raw.y)
    }

    /// Adds a character that is shown with the matrix `trm`.
    pub fn push_char(&mut self, trm: &Transform, width: Float, font_size: Float, text: &str)
        ensures
            final(self)@ == old(self)@.with_char(*trm, width, font_size, text@),
    {
        let zero: Float = Float { bits: 0 };
        let descent: Float = font_size.mul(Float { bits: DESCENT });
        let ascent: Float = font_size.sub(descent);
        let advance: Float = width.max(zero).mul(font_size);
        let p0: Point = self.map_transformed_point(trm, zero, descent.neg());
        let p1: Point = self.map_transformed_point(trm, advance, descent.neg());
        let p2: Point = self.map_transformed_point(trm, advance, ascent);
        let p3: Point = self.map_transformed_point(trm, zero, ascent);
        let mut corners: Vec<Point> = Vec::new();
        corners.push(p0);
        corners.push(p1);
        corners.push(p2);
        corners.push(p3);
        assert(corners@ =~= char_corners(self.geom, *trm, width, font_size));
        proof {
            lemma_hull_some(corners@);
        }
        let bbox: BBox = match bbox_from_points(&corners) {
            Some(bbox) => bbox,
            None => {
                return;
            },
        };
        let upright: bool = p1.y.sub(p0.y).abs().le(p1.x.sub(p0.x).abs());
        let dx: Float = p3.x.sub(p0.x);
        let dy: Float = p3.y.sub(p0.y);
        let size: Float = dx.mul(dx).add(dy.mul(dy)).sqrt();
        let c: Char = Char {
            object_type: "char".to_owned(),
            page_number: self.page_number,
            text: text.to_owned(),
            x0: bbox.x0,
            top: bbox.top,
            x1: bbox.x1,
            bottom: bbox.bottom,
            y0: self.geom.height.sub(bbox.bottom),
            y1: self.geom.height.sub(bbox.top),
            doctop: self.geom.doctop(bbox.top),
            width: bbox.width(),
            height: bbox.height(),
            size,
            adv: advance,
            upright,
            fontname: "unknown".to_owned(),
            matrix: *trm,
            mcid: None,
            tag: None,
            ncs: None,
            stroking_color: None,
            non_stroking_color: None,
        };
        proof {
            types::lemma_seen_push(self.chars@, c);
        }
        self.chars.push(c);
        assert(self@ =~= old(self)@.with_char(*trm, width, font_size, text@));
    }

    /// Adds what a path turns out to be.
    pub fn push_path(&mut self, ctm: &Transform, ops: &Vec<PathOp>, stroke: bool, fill: bool)
        ensures
            final(self)@ == old(self)@.with_path(*ctm, ops@, stroke, fill),
    {
        let n: usize = ops.len();
        if n == 0 {
            return;
        }
        let linewidth: Float = Float { bits: 0 };
        if n == 1 {
            if let PathOp::Rect(x, y, w, h) = ops[0] {
                let mut pts: Vec<Point> = Vec::new();
                pts.push(self.map_transformed_point(ctm, x, y));
                pts.push(self.map_transformed_point(ctm, x.add(w), y));
                pts.push(self.map_transformed_point(ctm, x.add(w), y.add(h)));
                pts.push(self.map_transformed_point(ctm, x, y.add(h)));
                assert(pts@ =~= rect_corners(self.geom, *ctm, x, y, w, h));
                proof {
                    lemma_hull_some(pts@);
                }
                let bbox: BBox = match bbox_from_points(&pts) {
                    Some(bbox) => bbox,
                    None => {
                        return;
                    },
                };
                let mut path: Vec<PathCommand> = Vec::new();
                path.push(
                    PathCommand::Rect {
                        x: bbox.x0,
                        y: bbox.top,
                        width: bbox.width(),
                        height: bbox.height(),
                    },
                );
                let rect: RectObject = RectObject {
                    object_type: "rect".to_owned(),
                    page_number: self.page_number,
                    x0: bbox.x0,
                    top: bbox.top,
                    x1: bbox.x1,
                    bottom: bbox.bottom,
                    y0: self.geom.height.sub(bbox.bottom),
                    y1: self.geom.height.sub(bbox.top),
                    doctop: self.geom.doctop(bbox.top),
                    width: bbox.width(),
                    height: bbox.height(),
                    pts,
                    path,
                    stroke,
                    fill,
                    linewidth,
                };
                proof {
                    types::lemma_seen_push(self.rects@, rect);
                    let d = drawing(self.geom, self.page_number, *ctm, ops@, stroke, fill);
                    assert(d->Rect_0 =~= rect@);
                }
                self.rects.push(rect);
                assert(self@ =~= old(self)@.with_path(*ctm, ops@, stroke, fill));
                return;
            }
        }
        if let Some((start, end)) = straight_line_from_path(ops) {
            let mut pts: Vec<Point> = Vec::new();
            pts.push(self.map_transformed_point(ctm, start.x, start.y));
            pts.push(self.map_transformed_point(ctm, end.x, end.y));
            proof {
                lemma_hull_some(pts@);
            }
            let bbox: BBox = match bbox_from_points(&pts) {
                Some(bbox) => bbox,
                None => {
                    return;
                },
            };
            let line: Line = Line {
                object_type: "line".to_owned(),
                page_number: self.page_number,
                x0: bbox.x0,
                top: bbox.top,
                x1: bbox.x1,
                bottom: bbox.bottom,
                y0: self.geom.height.sub(bbox.bottom),
                y1: self.geom.height.sub(bbox.top),
                doctop: self.geom.doctop(bbox.top),
                width: bbox.width(),
                height: bbox.height(),
                pts,
                stroke,
                fill,
                linewidth,
            };
            proof {
                types::lemma_seen_push(self.lines@, line);
                let d = drawing(self.geom, self.page_number, *ctm, ops@, stroke, fill);
                let wanted = seq![
                    placed(self.geom, *ctm, start.x, start.y),
                    placed(self.geom, *ctm, end.x, end.y),
                ];
                assert(line@.pts =~= wanted);
                assert(d->Line_0 =~= line@);
            }
            self.lines.push(line);
            assert(self@ =~= old(self)@.with_path(*ctm, ops@, stroke, fill));
            return;
        }
        let mut pts: Vec<Point> = Vec::new();
        let mut path: Vec<PathCommand> = Vec::new();
        for i in 0..n
            invariant
                n == ops@.len(),
                pts@ =~= path_points(self.geom, *ctm, ops@.take(i as int)),
                path@ =~= commands(self.geom, *ctm, ops@).take(i as int),
        {
            assert(ops@.take(i + 1).drop_last() =~= ops@.take(i as int));
            match ops[i] {
                PathOp::MoveTo(x, y) => {
                    let p: Point = self.map_transformed_point(ctm, x, y);
                    pts.push(p);
                    path.push(PathCommand::MoveTo(p));
                },
                PathOp::LineTo(x, y) => {
                    let p: Point = self.map_transformed_point(ctm, x, y);
                    pts.push(p);
                    path.push(PathCommand::LineTo(p));
                },
                PathOp::CurveTo(x1, y1, x2, y2, x3, y3) => {
                    let c1: Point = self.map_transformed_point(ctm, x1, y1);
                    let c2: Point = self.map_transformed_point(ctm, x2, y2);
                    let p: Point = self.map_transformed_point(ctm, x3, y3);
                    pts.push(p);
                    path.push(PathCommand::CurveTo { c1, c2, p });
                },
                PathOp::Rect(x, y, w, h) => {
                    path.push(PathCommand::Rect { x, y, width: w, height: h });
                },
                PathOp::Close => {
                    path.push(PathCommand::Close);
                },
            }
        }
        assert(ops@.take(n as int) =~= ops@);
        assert(path@ =~= commands(self.geom, *ctm, ops@));
        let bbox: BBox = match bbox_from_points(&pts) {
            Some(bbox) => bbox,
            None => {
                return;
            },
        };
        let curve: Curve = Curve {
            object_type: "curve".to_owned(),
            page_number: self.page_number,
            x0: bbox.x0,
            top: bbox.top,
            x1: bbox.x1,
            bottom: bbox.bottom,
            y0: self.geom.height.sub(bbox.bottom),
            y1: self.geom.height.sub(bbox.top),
            doctop: self.geom.doctop(bbox.top),
            width: bbox.width(),
            height: bbox.height(),
            pts,
            path,
            stroke,
            fill,
            linewidth,
        };
        proof {
            types::lemma_seen_push(self.curves@, curve);
            let d = drawing(self.geom, self.page_number, *ctm, ops@, stroke, fill);
            assert(d->Curve_0 =~= curve@);
        }
        self.curves.push(curve);
        assert(self@ =~= old(self)@.with_path(*ctm, ops@, stroke, fill));
    }
}

} // verus!
