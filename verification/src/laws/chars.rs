//! What holds of the characters of a page.

use crate::float::laws;
use crate::float::Float;
use crate::geometry;
use crate::parse::collector::CollectorView;
use crate::parse::collector::DESCENT;
use crate::parse::page_geometry::PageGeometry;
use crate::transform::Transform;
use crate::types::CharView;
use crate::types::Point;
use vstd::prelude::*;

verus! {

/// The point of the page at which a character has `along` behind its origin and `up` above
/// its base line.
pub open spec fn spot(geom: PageGeometry, trm: Transform, along: Float, up: Float) -> Point {
    let raw = trm.image(along, up);
    geom.on_page(raw.x, raw.y)
}

/// How far a character reaches along its base line; never backwards.
pub open spec fn reach(width: Float, font_size: Float) -> Float {
    if (Float { bits: 0 }).less(width) {
        width.times(font_size)
    } else {
        (Float { bits: 0 }).times(font_size)
    }
}

/// How far the lower side of a character lies below its base line.
pub open spec fn depth(font_size: Float) -> Float {
    font_size.times(Float { bits: DESCENT })
}

/// The two ends of the lower side of a character.
pub open spec fn lower_side(
    geom: PageGeometry,
    trm: Transform,
    width: Float,
    font_size: Float,
) -> (Point, Point) {
    let down = depth(font_size).negated();
    (
        spot(geom, trm, Float { bits: 0 }, down),
        spot(geom, trm, reach(width, font_size), down),
    )
}

/// The two ends of the upper side of a character.
pub open spec fn upper_side(
    geom: PageGeometry,
    trm: Transform,
    width: Float,
    font_size: Float,
) -> (Point, Point) {
    let up = font_size.minus(depth(font_size));
    (spot(geom, trm, Float { bits: 0 }, up), spot(geom, trm, reach(width, font_size), up))
}

/// Whether both coordinates are finite.
pub open spec fn somewhere(p: Point) -> bool {
    p.x.finite() && p.y.finite()
}

/// The character that showing one adds to a page.
pub open spec fn added(
    before: CollectorView,
    trm: Transform,
    width: Float,
    font_size: Float,
    text: Seq<char>,
) -> CharView {
    before.with_char(trm, width, font_size, text).chars.last()
}

/// Showing a character adds that one behind the others and changes nothing else; it has the
/// text, the matrix, the page and the advance that it is shown with.
pub proof fn law_one_character_is_added(
    before: CollectorView,
    trm: Transform,
    width: Float,
    font_size: Float,
    text: Seq<char>,
)
    ensures
        ({
            let after = before.with_char(trm, width, font_size, text);
            let c = added(before, trm, width, font_size, text);
            &&& after.chars.len() == before.chars.len() + 1
            &&& before.chars.is_prefix_of(after.chars)
            &&& after.lines == before.lines
            &&& after.rects == before.rects
            &&& after.curves == before.curves
            &&& after.geom == before.geom
            &&& after.page_number == before.page_number
            &&& c.text == text
            &&& c.matrix == trm
            &&& c.page_number == before.page_number
            &&& (Float { bits: 0 }).less(width) ==> c.adv == width.times(font_size)
            &&& width.less(Float { bits: 0 }) && font_size.finite() ==> c.adv.zero()
        }),
{
    if width.less(Float { bits: 0 }) && font_size.finite() {
        laws::law_zero_multiplies_to_zero(font_size, Float { bits: 0 });
    }
}

/// A character stands upright where its lower side runs more across the page than down it,
/// whichever way it runs: never where the side is vertical, always where it is level.
pub proof fn law_upright_is_along_the_page(
    before: CollectorView,
    trm: Transform,
    width: Float,
    font_size: Float,
    text: Seq<char>,
)
    requires
        (Float { bits: 0 }).less(width),
        somewhere(lower_side(before.geom, trm, width, font_size).0),
        somewhere(lower_side(before.geom, trm, width, font_size).1),
    ensures
        ({
            let (p, q) = lower_side(before.geom, trm, width, font_size);
            let c = added(before, trm, width, font_size, text);
            &&& p.x.same(q.x) && !p.y.same(q.y) ==> !c.upright
            &&& p.y.same(q.y) ==> c.upright
            &&& c.upright <==> p.y.minus(q.y).absolute().at_most(p.x.minus(q.x).absolute())
            &&& c.upright <==> q.y.minus(p.y).absolute().at_most(q.x.minus(p.x).absolute())
        }),
{
    let (p, q) = lower_side(before.geom, trm, width, font_size);
    let c = added(before, trm, width, font_size, text);
    laws::law_difference_tells_the_order(p.x, q.x);
    laws::law_difference_tells_the_order(p.y, q.y);
    laws::law_difference_tells_the_order(q.x, p.x);
    laws::law_difference_tells_the_order(q.y, p.y);
    laws::law_distance_is_symmetric(p.x, q.x);
    laws::law_distance_is_symmetric(p.y, q.y);
    assert(width.larger(Float { bits: 0 }) == width);
}

/// A character whose lower side runs from where that of another ends to where that one
/// begins stands upright if the other does.
pub proof fn law_upright_has_no_direction(
    before: CollectorView,
    trm: Transform,
    width: Float,
    font_size: Float,
    text: Seq<char>,
    turned: Transform,
    other_width: Float,
    other_size: Float,
)
    requires
        (Float { bits: 0 }).less(width),
        (Float { bits: 0 }).less(other_width),
        lower_side(before.geom, trm, width, font_size).0 == lower_side(
            before.geom,
            turned,
            other_width,
            other_size,
        ).1,
        lower_side(before.geom, trm, width, font_size).1 == lower_side(
            before.geom,
            turned,
            other_width,
            other_size,
        ).0,
    ensures
        added(before, trm, width, font_size, text).upright == added(
            before,
            turned,
            other_width,
            other_size,
            text,
        ).upright,
{
    let (p, q) = lower_side(before.geom, trm, width, font_size);
    laws::law_distance_is_symmetric(p.x, q.x);
    laws::law_distance_is_symmetric(p.y, q.y);
    assert(width.larger(Float { bits: 0 }) == width);
    assert(other_width.larger(Float { bits: 0 }) == other_width);
}

/// Whether a point lies in the place of a character, its sides included.
pub open spec fn holds(c: CharView, p: Point) -> bool {
    &&& c.place.x0.at_most(p.x)
    &&& p.x.at_most(c.place.x1)
    &&& c.place.top.at_most(p.y)
    &&& p.y.at_most(c.place.bottom)
}

/// The place of a character is the smallest rectangle that holds the ends of its lower and
/// of its upper side.
pub proof fn law_the_place_is_around_the_character(
    before: CollectorView,
    trm: Transform,
    width: Float,
    font_size: Float,
    text: Seq<char>,
)
    requires
        (Float { bits: 0 }).less(width),
        somewhere(lower_side(before.geom, trm, width, font_size).0),
        somewhere(lower_side(before.geom, trm, width, font_size).1),
        somewhere(upper_side(before.geom, trm, width, font_size).0),
        somewhere(upper_side(before.geom, trm, width, font_size).1),
    ensures
        ({
            let (a, b) = lower_side(before.geom, trm, width, font_size);
            let (d, c) = upper_side(before.geom, trm, width, font_size);
            let ch = added(before, trm, width, font_size, text);
            let place = ch.place;
            &&& holds(ch, a) && holds(ch, b) && holds(ch, c) && holds(ch, d)
            &&& place.x0 == a.x || place.x0 == b.x || place.x0 == c.x || place.x0 == d.x
            &&& place.x1 == a.x || place.x1 == b.x || place.x1 == c.x || place.x1 == d.x
            &&& place.top == a.y || place.top == b.y || place.top == c.y || place.top == d.y
            &&& place.bottom == a.y || place.bottom == b.y || place.bottom == c.y || place.bottom
                == d.y
        }),
{
    let (a, b) = lower_side(before.geom, trm, width, font_size);
    let (d, c) = upper_side(before.geom, trm, width, font_size);
    assert(width.larger(Float { bits: 0 }) == width);
    lemma_hull_of_four(a, b, c, d);
    let ch = added(before, trm, width, font_size, text);
    assert(crate::parse::collector::char_corners(before.geom, trm, width, font_size) =~= seq![
        a,
        b,
        c,
        d,
    ]);
}

/// The rectangle around four points.
pub proof fn lemma_hull_of_four(a: Point, b: Point, c: Point, d: Point)
    ensures
        geometry::hull_of_points(seq![a, b, c, d]) == Some(
            geometry::dot(a).around(geometry::dot(b)).around(geometry::dot(c)).around(
                geometry::dot(d),
            ),
        ),
{
    let points = seq![a, b, c, d];
    let boxes = points.map_values(|p: Point| geometry::dot(p));
    reveal_with_fuel(geometry::hull, 5);
    assert(boxes.len() == 4);
    assert(boxes[0] == geometry::dot(a) && boxes[1] == geometry::dot(b));
    assert(boxes[2] == geometry::dot(c) && boxes[3] == geometry::dot(d));
    let three = boxes.drop_last();
    let two = three.drop_last();
    let one = two.drop_last();
    assert(one.drop_last().len() == 0);
    assert(one.last() == geometry::dot(a));
    assert(geometry::hull(one) == Some(geometry::dot(a)));
    assert(two.last() == geometry::dot(b));
    assert(three.last() == geometry::dot(c));
    assert(boxes.last() == geometry::dot(d));
}

/// How large a character is does not depend on its width, and neither does where its lower
/// and its upper side begin.
pub proof fn law_size_is_not_width(
    before: CollectorView,
    trm: Transform,
    width: Float,
    other_width: Float,
    font_size: Float,
    text: Seq<char>,
)
    ensures
        added(before, trm, width, font_size, text).size == added(
            before,
            trm,
            other_width,
            font_size,
            text,
        ).size,
{
}

} // verus!
