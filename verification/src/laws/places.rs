//! What holds of where matrices and pages take points.

use crate::float::laws;
use crate::float::laws::alike;
use crate::float::Float;
use crate::float::ONE;
use crate::parse::page_geometry;
use crate::parse::page_geometry::PageGeometry;
use crate::transform::Transform;
use crate::types::BBox;
use crate::types::Point;
use vstd::prelude::*;

verus! {

/// Zero.
pub open spec fn nought() -> Float {
    Float { bits: 0 }
}

/// One.
pub open spec fn unit() -> Float {
    Float { bits: ONE }
}

/// Whether all entries of a matrix are finite.
pub open spec fn finite(m: Transform) -> bool {
    &&& m.m11.finite()
    &&& m.m12.finite()
    &&& m.m21.finite()
    &&& m.m22.finite()
    &&& m.m31.finite()
    &&& m.m32.finite()
}

/// Whether two points are the same but for the signs of zeros.
pub open spec fn together(p: Point, q: Point) -> bool {
    alike(p.x, q.x) && alike(p.y, q.y)
}

/// Whether two matrices are the same but for the signs of zeros.
pub open spec fn alike_matrices(m: Transform, n: Transform) -> bool {
    &&& alike(m.m11, n.m11)
    &&& alike(m.m12, n.m12)
    &&& alike(m.m21, n.m21)
    &&& alike(m.m22, n.m22)
    &&& alike(m.m31, n.m31)
    &&& alike(m.m32, n.m32)
}

/// Matrices that are alike take points to the same place.
pub proof fn law_alike_matrices_agree(m: Transform, n: Transform, x: Float, y: Float)
    requires
        alike_matrices(m, n),
    ensures
        together(m.image(x, y), n.image(x, y)),
{
    laws::law_alike_products(x, x, m.m11, n.m11);
    laws::law_alike_products(y, y, m.m21, n.m21);
    laws::law_alike_products(x, x, m.m12, n.m12);
    laws::law_alike_products(y, y, m.m22, n.m22);
    laws::law_alike_sums(x.times(m.m11), x.times(n.m11), y.times(m.m21), y.times(n.m21));
    laws::law_alike_sums(x.times(m.m12), x.times(n.m12), y.times(m.m22), y.times(n.m22));
    laws::law_alike_sums(
        x.times(m.m11).plus(y.times(m.m21)),
        x.times(n.m11).plus(y.times(n.m21)),
        m.m31,
        n.m31,
    );
    laws::law_alike_sums(
        x.times(m.m12).plus(y.times(m.m22)),
        x.times(n.m12).plus(y.times(n.m22)),
        m.m32,
        n.m32,
    );
}

proof fn lemma_no_products(a: Float, b: Float, c: Float)
    requires
        a.finite(),
        b.finite(),
        !c.nan(),
    ensures
        alike(nought().times(a).plus(nought().times(b)).plus(c), c),
        alike(a.times(nought()).plus(b.times(nought())).plus(c), c),
{
    laws::law_zero_multiplies_to_zero(a, nought());
    laws::law_zero_multiplies_to_zero(b, nought());
    lemma_two_zeros(nought().times(a), nought().times(b));
    lemma_two_zeros(a.times(nought()), b.times(nought()));
    laws::law_zero_leaves_alike(c, nought().times(a).plus(nought().times(b)));
    laws::law_zero_leaves_alike(c, a.times(nought()).plus(b.times(nought())));
}

proof fn lemma_two_zeros(a: Float, b: Float)
    requires
        a.zero(),
        b.zero(),
    ensures
        a.plus(b).zero(),
{
    laws::law_zero_leaves_alike(a, b);
}

/// `a * 1 + b * 0 + c` and what else is like `a + c`.
proof fn lemma_one_product(a: Float, b: Float, c: Float)
    requires
        a.finite(),
        b.finite(),
    ensures
        alike(unit().times(a).plus(nought().times(b)).plus(c), a.plus(c)),
        alike(nought().times(b).plus(unit().times(a)).plus(c), a.plus(c)),
        alike(a.times(unit()).plus(b.times(nought())).plus(c), a.plus(c)),
        alike(b.times(nought()).plus(a.times(unit())).plus(c), a.plus(c)),
        alike(a.times(unit()).plus(b.times(nought())), a),
        alike(b.times(nought()).plus(a.times(unit())), a),
        alike(unit().times(a).plus(nought().times(b)), a),
        alike(nought().times(b).plus(unit().times(a)), a),
{
    laws::law_one_multiplies_nothing(a);
    laws::law_zero_multiplies_to_zero(b, nought());
    laws::law_zero_leaves_alike(a, nought().times(b));
    laws::law_zero_leaves_alike(a, b.times(nought()));
    laws::law_alike_sums(a.plus(nought().times(b)), a, c, c);
    laws::law_alike_sums(nought().times(b).plus(a), a, c, c);
    laws::law_alike_sums(a.plus(b.times(nought())), a, c, c);
    laws::law_alike_sums(b.times(nought()).plus(a), a, c, c);
}

/// A matrix takes the origin to its last row, and the unit points as far from there as its
/// other rows say.
pub proof fn law_rows_are_images(m: Transform)
    requires
        finite(m),
    ensures
        together(m.image(nought(), nought()), Point { x: m.m31, y: m.m32 }),
        together(
            m.image(unit(), nought()),
            Point { x: m.m11.plus(m.m31), y: m.m12.plus(m.m32) },
        ),
        together(
            m.image(nought(), unit()),
            Point { x: m.m21.plus(m.m31), y: m.m22.plus(m.m32) },
        ),
{
    lemma_no_products(m.m11, m.m21, m.m31);
    lemma_no_products(m.m12, m.m22, m.m32);
    lemma_one_product(m.m11, m.m21, m.m31);
    lemma_one_product(m.m12, m.m22, m.m32);
    lemma_one_product(m.m21, m.m11, m.m31);
    lemma_one_product(m.m22, m.m12, m.m32);
}

/// First one matrix and then another take the origin where the other takes the point to
/// which the one takes the origin.
pub proof fn law_first_then_next(first: Transform, next: Transform)
    requires
        finite(first),
        finite(first.then_apply(next)),
    ensures
        together(
            first.then_apply(next).image(nought(), nought()),
            next.image(first.m31, first.m32),
        ),
        together(first.image(nought(), nought()), Point { x: first.m31, y: first.m32 }),
{
    law_rows_are_images(first.then_apply(next));
    law_rows_are_images(first);
}

/// First one matrix and then another, where neither moves the origin, take a unit point
/// where the other takes the point to which the one takes it.
pub proof fn law_first_then_next_of_directions(first: Transform, next: Transform)
    requires
        finite(first),
        finite(next),
        finite(first.then_apply(next)),
        first.m31.zero() && first.m32.zero(),
        next.m31.zero() && next.m32.zero(),
    ensures
        together(
            first.then_apply(next).image(unit(), nought()),
            next.image(first.m11, first.m12),
        ),
        together(
            first.then_apply(next).image(nought(), unit()),
            next.image(first.m21, first.m22),
        ),
{
    let all = first.then_apply(next);
    law_rows_are_images(all);
    laws::law_zero_multiplies_to_zero(next.m11, first.m31);
    laws::law_zero_multiplies_to_zero(next.m21, first.m32);
    laws::law_zero_multiplies_to_zero(next.m12, first.m31);
    laws::law_zero_multiplies_to_zero(next.m22, first.m32);
    lemma_two_zeros(first.m31.times(next.m11), first.m32.times(next.m21));
    lemma_two_zeros(first.m31.times(next.m12), first.m32.times(next.m22));
    lemma_two_zeros(first.m31.times(next.m11).plus(first.m32.times(next.m21)), next.m31);
    lemma_two_zeros(first.m31.times(next.m12).plus(first.m32.times(next.m22)), next.m32);
    assert(all.m31.zero() && all.m32.zero());
    laws::law_zero_leaves_alike(all.m11, all.m31);
    laws::law_zero_leaves_alike(all.m12, all.m32);
    laws::law_zero_leaves_alike(all.m21, all.m31);
    laws::law_zero_leaves_alike(all.m22, all.m32);
    laws::law_zero_leaves_alike(all.m11, next.m31);
    laws::law_zero_leaves_alike(all.m12, next.m32);
    laws::law_zero_leaves_alike(all.m21, next.m31);
    laws::law_zero_leaves_alike(all.m22, next.m32);
}

/// The matrix that moves nothing leaves other matrices as they are, before and behind it.
pub proof fn law_neutral_changes_nothing(m: Transform)
    requires
        finite(m),
    ensures
        alike_matrices(m.then_apply(Transform::neutral()), m),
        alike_matrices(Transform::neutral().then_apply(m), m),
{
    let n = Transform::neutral();
    let z = nought();
    lemma_one_product(m.m11, m.m12, z);
    lemma_one_product(m.m12, m.m11, z);
    lemma_one_product(m.m21, m.m22, z);
    lemma_one_product(m.m22, m.m21, z);
    lemma_one_product(m.m31, m.m32, z);
    lemma_one_product(m.m32, m.m31, z);
    laws::law_zero_leaves_alike(m.m31, z);
    laws::law_zero_leaves_alike(m.m32, z);
    lemma_one_product(m.m11, m.m21, z);
    lemma_one_product(m.m12, m.m22, z);
    lemma_one_product(m.m21, m.m11, z);
    lemma_one_product(m.m22, m.m12, z);
    lemma_no_products(m.m11, m.m21, m.m31);
    lemma_no_products(m.m12, m.m22, m.m32);
}

/// A matrix that scales, before one that moves: what comes out scales and then moves.
pub proof fn law_scaled_then_moved(sx: Float, sy: Float, moved: Transform, tx: Float, ty: Float)
    requires
        sx.finite() && sy.finite() && tx.finite() && ty.finite(),
        alike_matrices(moved, Transform::translation(tx, ty)),
    ensures
        alike_matrices(
            (Transform {
                m11: sx,
                m12: nought(),
                m21: nought(),
                m22: sy,
                m31: nought(),
                m32: nought(),
            }).then_apply(moved),
            Transform { m11: sx, m12: nought(), m21: nought(), m22: sy, m31: tx, m32: ty },
        ),
{
    let z = nought();
    // Ones are no zeros, so the first entries are the same.
    assert(moved.m11 == unit() && moved.m22 == unit());
    assert(moved.m12.zero() && moved.m21.zero());
    laws::law_one_multiplies_nothing(sx);
    laws::law_one_multiplies_nothing(sy);
    laws::law_one_multiplies_nothing(z);
    laws::law_zero_multiplies_to_zero(sx, moved.m12);
    laws::law_zero_multiplies_to_zero(sy, moved.m21);
    laws::law_zero_multiplies_to_zero(moved.m21, z);
    laws::law_zero_multiplies_to_zero(moved.m12, z);
    laws::law_zero_leaves_alike(sx, z.times(moved.m21));
    laws::law_zero_leaves_alike(sy, z.times(moved.m12));
    lemma_two_zeros(sx.times(moved.m12), z);
    lemma_two_zeros(z, sy.times(moved.m21));
    lemma_two_zeros(z, z.times(moved.m21));
    lemma_two_zeros(z.times(moved.m12), z);
    laws::law_zero_leaves_alike(moved.m31, z.plus(z.times(moved.m21)));
    laws::law_zero_leaves_alike(moved.m32, z.times(moved.m12).plus(z));
}

/// A matrix that scales across by `a` and moves up by `r`, before another one: its rows are
/// those of the other one, the first scaled.
pub proof fn law_small_first_matrix(a: Float, r: Float, m: Transform)
    requires
        a.finite(),
        r.finite(),
        finite(m),
    ensures
        ({
            let all = (Transform {
                m11: a,
                m12: nought(),
                m21: nought(),
                m22: unit(),
                m31: nought(),
                m32: r,
            }).then_apply(m);
            &&& alike(all.m11, a.times(m.m11))
            &&& alike(all.m12, a.times(m.m12))
            &&& alike(all.m21, m.m21)
            &&& alike(all.m22, m.m22)
        }),
{
    laws::law_zero_multiplies_to_zero(m.m21, nought());
    laws::law_zero_multiplies_to_zero(m.m22, nought());
    lemma_number_times(a, m.m11);
    lemma_number_times(a, m.m12);
    laws::law_zero_leaves_alike(a.times(m.m11), nought().times(m.m21));
    laws::law_zero_leaves_alike(a.times(m.m12), nought().times(m.m22));
    lemma_one_product(m.m21, m.m11, nought());
    lemma_one_product(m.m22, m.m12, nought());
}

proof fn lemma_number_times(a: Float, b: Float)
    requires
        a.finite(),
        b.finite(),
    ensures
        !a.times(b).nan(),
{
    reveal(Float::times);
}

proof fn lemma_quarters(rotation: i32)
    ensures
        0 <= page_geometry::quarters(rotation) <= 3,
{
}

/// Points that are the same lie at the same place of the page.
pub proof fn law_same_points_same_places(geom: PageGeometry, p: Point, q: Point)
    requires
        together(p, q),
    ensures
        together(geom.on_page(p.x, p.y), geom.on_page(q.x, q.y)),
{
    let turns = page_geometry::quarters(geom.rotation);
    lemma_quarters(geom.rotation);
    let a = Point { x: p.x.minus(geom.raw_x0), y: p.y.minus(geom.raw_y0) };
    let b = Point { x: q.x.minus(geom.raw_x0), y: q.y.minus(geom.raw_y0) };
    laws::law_alike_sums(p.x, q.x, geom.raw_x0, geom.raw_x0);
    laws::law_alike_sums(p.y, q.y, geom.raw_y0, geom.raw_y0);
    lemma_turned_together(geom, a, b, turns, turns);
    let c = geom.turned(a, turns, turns);
    let d = geom.turned(b, turns, turns);
    laws::law_alike_sums(geom.height, geom.height, c.y, d.y);
}

proof fn lemma_turned_together(geom: PageGeometry, p: Point, q: Point, turns: int, n: int)
    requires
        together(p, q),
    ensures
        together(geom.turned(p, turns, n), geom.turned(q, turns, n)),
    decreases n,
{
    if n > 0 {
        lemma_turned_together(geom, p, q, turns, n - 1);
        let a = geom.turned(p, turns, n - 1);
        let b = geom.turned(q, turns, n - 1);
        let side = if n - 1 == turns % 2 {
            geom.width
        } else {
            geom.height
        };
        laws::law_alike_sums(side, side, a.x, b.x);
    }
}

/// Whether a coordinate is that of the far side, else that of the near one.
pub open spec fn at_side(far: bool, side: Float, v: Float) -> bool {
    if far {
        alike(v, side)
    } else {
        v.zero()
    }
}

proof fn lemma_other_side(far: bool, side: Float, v: Float)
    requires
        side.finite(),
        at_side(far, side, v),
    ensures
        at_side(!far, side, side.minus(v)),
{
    if far {
        laws::law_difference_tells_the_order(side, v);
    } else {
        laws::law_zero_leaves_alike(side, v);
    }
}

/// The corners of a page's box come to be the corners of the page, and turning a page turns
/// them clockwise: what is on the left of the file is on the left of a page that is not
/// turned, at the top of one turned once, on the right of one turned twice, and at the
/// bottom of one turned three times.
pub proof fn law_page_corners(
    media_box: (Float, Float, Float, Float),
    rotation: i32,
    offset: Float,
    right: bool,
    up: bool,
)
    requires
        rotation == 0 || rotation == 90 || rotation == 180 || rotation == 270,
        media_box.0.finite() && media_box.1.finite(),
        media_box.2.finite() && media_box.3.finite(),
        PageGeometry::of_box(media_box, rotation, offset).width.finite(),
        PageGeometry::of_box(media_box, rotation, offset).height.finite(),
    ensures
        ({
            let geom = PageGeometry::of_box(media_box, rotation, offset);
            let x = if right {
                media_box.0.larger(media_box.2)
            } else {
                media_box.0.smaller(media_box.2)
            };
            let y = if up {
                media_box.1.larger(media_box.3)
            } else {
                media_box.1.smaller(media_box.3)
            };
            let p = geom.on_page(x, y);
            &&& rotation == 0 ==> at_side(right, geom.width, p.x) && at_side(
                !up,
                geom.height,
                p.y,
            )
            &&& rotation == 90 ==> at_side(up, geom.width, p.x) && at_side(
                right,
                geom.height,
                p.y,
            )
            &&& rotation == 180 ==> at_side(!right, geom.width, p.x) && at_side(
                up,
                geom.height,
                p.y,
            )
            &&& rotation == 270 ==> at_side(!up, geom.width, p.x) && at_side(
                !right,
                geom.height,
                p.y,
            )
        }),
{
    let geom = PageGeometry::of_box(media_box, rotation, offset);
    let x = if right {
        media_box.0.larger(media_box.2)
    } else {
        media_box.0.smaller(media_box.2)
    };
    let y = if up {
        media_box.1.larger(media_box.3)
    } else {
        media_box.1.smaller(media_box.3)
    };
    let a = Point { x: x.minus(geom.raw_x0), y: y.minus(geom.raw_y0) };
    laws::law_difference_tells_the_order(geom.raw_x0, geom.raw_x0);
    laws::law_difference_tells_the_order(geom.raw_y0, geom.raw_y0);
    assert(at_side(right, geom.raw_width, a.x));
    assert(at_side(up, geom.raw_height, a.y));
    let w = geom.raw_width;
    let h = geom.raw_height;
    reveal_with_fuel(PageGeometry::turned, 4);
    lemma_other_side(right, w, a.x);
    lemma_other_side(!right, w, w.minus(a.x));
    lemma_other_side(right, w, w.minus(w.minus(a.x)));
    lemma_other_side(up, h, a.y);
    lemma_other_side(!up, h, h.minus(a.y));
    let turns = page_geometry::quarters(rotation);
    assert(rotation == 0 ==> turns == 0);
    assert(rotation == 90 ==> turns == 1);
    assert(rotation == 180 ==> turns == 2);
    assert(rotation == 270 ==> turns == 3);
}

/// What is measured of a place fits together: heights from the bottom of the page add up
/// with those from the top, and widths and heights are those of the rectangle.
pub proof fn law_place_measures(geom: PageGeometry, b: BBox)
    ensures
        ({
            let place = geom.place(b);
            &&& place.x0 == b.x0 && place.x1 == b.x1
            &&& place.top == b.top && place.bottom == b.bottom
            &&& place.y0 == geom.height.minus(place.bottom)
            &&& place.y1 == geom.height.minus(place.top)
            &&& place.doctop == geom.doctop_offset.plus(place.top)
            &&& place.width == place.x1.minus(place.x0)
            &&& place.height == place.bottom.minus(place.top)
        }),
{
}

/// Whether a point lies in a rectangle, its sides included.
pub open spec fn within(b: BBox, p: Point) -> bool {
    &&& b.x0.at_most(p.x)
    &&& p.x.at_most(b.x1)
    &&& b.top.at_most(p.y)
    &&& p.y.at_most(b.bottom)
}

} // verus!
