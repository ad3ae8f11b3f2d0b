//! What holds of the images that a page shows.

use super::chars;
use super::places;
use super::places::nought;
use super::places::together;
use super::places::unit;
use crate::error::ErrorView;
use crate::float::laws;
use crate::float::Float;
use crate::parse::forms;
use crate::parse::forms::Failure;
use crate::parse::forms::FormView;
use crate::parse::forms::MAX_XOBJECT_INVOCATIONS_PER_PAGE;
use crate::parse::images;
use crate::parse::images::Progress;
use crate::parse::images::Scene;
use crate::parse::page_geometry::PageGeometry;
use crate::pdf::content;
use crate::pdf::file;
use crate::pdf::file::FileView;
use crate::pdf::object;
use crate::pdf::object::ContentView;
use crate::pdf::object::DictView;
use crate::pdf::object::ObjectId;
use crate::pdf::object::ObjectView;
use crate::pdf::object::OperationView;
use crate::pdf::text;
use crate::transform::Transform;
use crate::types::Place;
use crate::types::Point;
use vstd::prelude::*;

verus! {

/// Whether an operation is a change of the matrix by `m`.
pub open spec fn changes_matrix(op: OperationView, m: Transform) -> bool {
    &&& op.0 == "cm"@
    &&& op.1.len() == 6
    &&& object::number(op.1[0]) == Some(m.m11)
    &&& object::number(op.1[1]) == Some(m.m12)
    &&& object::number(op.1[2]) == Some(m.m21)
    &&& object::number(op.1[3]) == Some(m.m22)
    &&& object::number(op.1[4]) == Some(m.m31)
    &&& object::number(op.1[5]) == Some(m.m32)
}

/// Whether an operation is a change of the matrix.
pub open spec fn some_change(op: OperationView) -> bool {
    exists|m: Transform| #[trigger] changes_matrix(op, m)
}

/// Whether an operation uses what the resources have under `name`, and that leads to a
/// stream of the given kind.
pub open spec fn uses_stream(
    file: FileView,
    resources: DictView,
    op: OperationView,
    name: Seq<char>,
    target: ObjectView,
    dict: DictView,
    form: ContentView,
    kind: Seq<char>,
) -> bool {
    &&& op.0 == "Do"@
    &&& op.1.len() > 0
    &&& op.1[0] matches ObjectView::Name(bytes) && text::lossy_text(bytes) == name
    &&& object::named(resources, "XObject"@) matches Some(all) && file::dictionary_of(
        file,
        all,
    ) matches Ok(found) && object::named(found, name) == Some(target)
    &&& file::dereferenced(file, target) == Ok::<_, ErrorView>(ObjectView::Stream(dict, form))
    &&& object::named(dict, "Subtype"@) matches Some(ObjectView::Name(bytes)) && text::lossy_text(
        bytes,
    ) == kind
}

/// Whether the place of an image holds a point, its sides included.
pub open spec fn covers(place: Place, p: Point) -> bool {
    &&& place.x0.at_most(p.x)
    &&& p.x.at_most(place.x1)
    &&& place.top.at_most(p.y)
    &&& p.y.at_most(place.bottom)
}

proof fn lemma_operators_differ()
    ensures
        "cm"@ != "q"@ && "cm"@ != "Q"@,
        "Do"@ != "q"@ && "Do"@ != "Q"@ && "Do"@ != "cm"@,
        "q"@ != "Q"@,
        "Form"@ != "Image"@,
{
    reveal_strlit("cm");
    reveal_strlit("q");
    reveal_strlit("Q");
    reveal_strlit("Do");
    reveal_strlit("Form");
    reveal_strlit("Image");
    assert("cm"@[0] == 'c' && "q"@[0] == 'q' && "Q"@[0] == 'Q' && "Do"@[0] == 'D');
    assert("Form"@.len() == 4 && "Image"@.len() == 5);
}

/// The corner of the unit square that is at the right where `right`, and at the top where
/// `up`, with the given matrix.
pub open spec fn raw_corner(m: Transform, right: bool, up: bool) -> Point {
    m.image(
        if right {
            unit()
        } else {
            nought()
        },
        if up {
            unit()
        } else {
            nought()
        },
    )
}

/// A corner of the unit square on the page.
pub open spec fn page_corner(geom: PageGeometry, m: Transform, right: bool, up: bool) -> Point {
    let raw = raw_corner(m, right, up);
    geom.on_page(raw.x, raw.y)
}

/// Whether a place is the smallest one around the unit square with the given matrix: it
/// holds all of its corners, and each of its sides stands at one of them.
pub open spec fn just_around(place: Place, geom: PageGeometry, m: Transform) -> bool {
    &&& forall|right: bool, up: bool|
        covers(place, #[trigger] page_corner(geom, m, right, up))
    &&& exists|right: bool, up: bool|
        place.x0.same((#[trigger] page_corner(geom, m, right, up)).x)
    &&& exists|right: bool, up: bool|
        place.x1.same((#[trigger] page_corner(geom, m, right, up)).x)
    &&& exists|right: bool, up: bool|
        place.top.same((#[trigger] page_corner(geom, m, right, up)).y)
    &&& exists|right: bool, up: bool|
        place.bottom.same((#[trigger] page_corner(geom, m, right, up)).y)
}

/// Whether all corners of the unit square lie at finite places.
pub open spec fn corners_are_finite(geom: PageGeometry, m: Transform) -> bool {
    forall|right: bool, up: bool|
        (#[trigger] page_corner(geom, m, right, up)).x.finite() && page_corner(
            geom,
            m,
            right,
            up,
        ).y.finite()
}

proof fn lemma_place_of_image(geom: PageGeometry, name: Seq<char>, dict: DictView, m: Transform)
    requires
        corners_are_finite(geom, m),
    ensures
        just_around(images::shown_image(geom, name, dict, m).place, geom, m),
{
    let a = page_corner(geom, m, false, false);
    let b = page_corner(geom, m, true, false);
    let c = page_corner(geom, m, true, true);
    let d = page_corner(geom, m, false, true);
    chars::lemma_hull_of_four(a, b, c, d);
    assert(images::image_corners(geom, m) =~= seq![a, b, c, d]);
    let place = images::shown_image(geom, name, dict, m).place;
    assert(a.x.finite() && b.x.finite() && c.x.finite() && d.x.finite());
    assert forall|right: bool, up: bool| covers(
        place,
        #[trigger] page_corner(geom, m, right, up),
    ) by {
        if right {
            if up {
                assert(covers(place, c));
            } else {
                assert(covers(place, b));
            }
        } else if up {
            assert(covers(place, d));
        } else {
            assert(covers(place, a));
        }
    }
    assert(place.x0.same(a.x) || place.x0.same(b.x) || place.x0.same(c.x) || place.x0.same(d.x));
    assert(place.x1.same(a.x) || place.x1.same(b.x) || place.x1.same(c.x) || place.x1.same(d.x));
    assert(place.top.same(a.y) || place.top.same(b.y) || place.top.same(c.y) || place.top.same(
        d.y,
    ));
    assert(place.bottom.same(a.y) || place.bottom.same(b.y) || place.bottom.same(c.y)
        || place.bottom.same(d.y));
}

/// Using an image shows it, behind the images shown before, once and for one use: around the
/// unit square with the matrix that is in effect, under the name it was used by, with the
/// size and depth that its dictionary gives.
pub proof fn law_used_image_is_shown(
    scene: Scene,
    ops: Seq<OperationView>,
    n: nat,
    resources: DictView,
    depth: nat,
    active: Seq<ObjectId>,
    start: Progress,
    s: Progress,
    name: Seq<char>,
    target: ObjectView,
    dict: DictView,
    form: ContentView,
)
    requires
        n < ops.len(),
        images::walked(scene, ops, n, resources, depth, active, start) == Ok::<
            _,
            Failure<Progress>,
        >(s),
        uses_stream(scene.file, resources, ops[n as int], name, target, dict, form, "Image"@),
        s.budget > 0,
        corners_are_finite(scene.geom, s.ctm),
    ensures
        images::walked(scene, ops, n + 1, resources, depth, active, start) matches Ok(t) && {
            &&& t.images.len() == s.images.len() + 1
            &&& s.images.is_prefix_of(t.images)
            &&& t.budget == s.budget - 1
            &&& t.ctm == s.ctm
            &&& t.saved == s.saved
            &&& just_around(t.images.last().place, scene.geom, s.ctm)
            &&& t.images.last().name == name
            &&& object::named(dict, "Width"@) matches Some(ObjectView::Integer(w)) ==> (0 <= w
                <= u32::MAX ==> t.images.last().srcsize.0 == w)
            &&& object::named(dict, "Height"@) matches Some(ObjectView::Integer(h)) ==> (0 <= h
                <= u32::MAX ==> t.images.last().srcsize.1 == h)
            &&& object::named(dict, "BitsPerComponent"@) matches Some(ObjectView::Integer(b))
                ==> t.images.last().bits == Some(b)
            &&& object::named(dict, "ImageMask"@) matches Some(ObjectView::Boolean(b))
                ==> t.images.last().imagemask == Some(b)
            &&& object::named(dict, "ColorSpace"@) matches Some(ObjectView::Name(bytes))
                ==> t.images.last().colorspace == Some(text::lossy_text(bytes))
            &&& object::named(dict, "ColorSpace"@) matches Some(ObjectView::Array(items)) ==> (
            items.len() > 0 ==> (items[0] matches ObjectView::Name(bytes)
                ==> t.images.last().colorspace == Some(text::lossy_text(bytes))))
            &&& object::named(dict, "ColorSpace"@) is None ==> t.images.last().colorspace is None
        },
{
    lemma_operators_differ();
    lemma_place_of_image(scene.geom, name, dict, s.ctm);
    assert(images::operand_name(ops[n as int]) == Some(name));
    assert(forms::subtype(dict) == Some("Image"@));
}

proof fn lemma_matrix_changed(
    scene: Scene,
    ops: Seq<OperationView>,
    n: nat,
    resources: DictView,
    depth: nat,
    active: Seq<ObjectId>,
    start: Progress,
    s: Progress,
    m: Transform,
)
    requires
        n < ops.len(),
        images::walked(scene, ops, n, resources, depth, active, start) == Ok::<
            _,
            Failure<Progress>,
        >(s),
        changes_matrix(ops[n as int], m),
    ensures
        images::walked(scene, ops, n + 1, resources, depth, active, start) == Ok::<
            _,
            Failure<Progress>,
        >(Progress { ctm: m.then_apply(s.ctm), ..s }),
{
    lemma_operators_differ();
}

/// An image shown after a change of the matrix covers the point where the matrix from before
/// takes the one to which the change takes the origin: the change comes first, then what was
/// in effect.
pub proof fn law_changes_come_first(
    scene: Scene,
    ops: Seq<OperationView>,
    n: nat,
    resources: DictView,
    depth: nat,
    active: Seq<ObjectId>,
    start: Progress,
    s: Progress,
    m: Transform,
    name: Seq<char>,
    target: ObjectView,
    dict: DictView,
    form: ContentView,
)
    requires
        n + 2 <= ops.len(),
        images::walked(scene, ops, n, resources, depth, active, start) == Ok::<
            _,
            Failure<Progress>,
        >(s),
        changes_matrix(ops[n as int], m),
        uses_stream(scene.file, resources, ops[(n + 1) as int], name, target, dict, form, "Image"@),
        s.budget > 0,
        places::finite(m),
        places::finite(m.then_apply(s.ctm)),
        corners_are_finite(scene.geom, m.then_apply(s.ctm)),
    ensures
        images::walked(scene, ops, n + 2, resources, depth, active, start) matches Ok(t) && {
            let raw = s.ctm.image(m.m31, m.m32);
            &&& t.images.len() == s.images.len() + 1
            &&& covers(t.images.last().place, scene.geom.on_page(raw.x, raw.y))
        },
{
    lemma_matrix_changed(scene, ops, n, resources, depth, active, start, s, m);
    let after = Progress { ctm: m.then_apply(s.ctm), ..s };
    law_used_image_is_shown(
        scene,
        ops,
        n + 1,
        resources,
        depth,
        active,
        start,
        after,
        name,
        target,
        dict,
        form,
    );
    places::law_first_then_next(m, s.ctm);
    let raw = s.ctm.image(m.m31, m.m32);
    let corner = raw_corner(after.ctm, false, false);
    places::law_same_points_same_places(scene.geom, corner, raw);
    let p = page_corner(scene.geom, after.ctm, false, false);
    let q = scene.geom.on_page(raw.x, raw.y);
    let t = images::walked(scene, ops, n + 2, resources, depth, active, start)->Ok_0;
    assert(covers(t.images.last().place, p));
    laws::law_alike_compare(p.x, q.x, t.images.last().place.x0);
    laws::law_alike_compare(p.x, q.x, t.images.last().place.x1);
    laws::law_alike_compare(p.y, q.y, t.images.last().place.top);
    laws::law_alike_compare(p.y, q.y, t.images.last().place.bottom);
}

/// Where an image lies that is moved by `(tx, ty)` and, within that, scaled by `(sx, sy)`: its
/// corners are `(tx, ty)` and `(tx + sx, ty + sy)` in the file.
pub open spec fn moved_corner(
    geom: PageGeometry,
    tx: Float,
    ty: Float,
    sx: Float,
    sy: Float,
    right: bool,
    up: bool,
) -> Point {
    geom.on_page(
        if right {
            sx.plus(tx)
        } else {
            tx
        },
        if up {
            sy.plus(ty)
        } else {
            ty
        },
    )
}

/// A page whose content moves by `(tx, ty)`, then scales by `(sx, sy)` and then uses an image
/// shows that image alone, on the given page, between the corners `(tx, ty)` and
/// `(tx + sx, ty + sy)` of the file.
pub proof fn law_moved_and_scaled_image(
    scene: Scene,
    content: ContentView,
    resources: DictView,
    page_number: usize,
    ops: Seq<OperationView>,
    tx: Float,
    ty: Float,
    sx: Float,
    sy: Float,
    name: Seq<char>,
    target: ObjectView,
    dict: DictView,
    form: ContentView,
)
    requires
        content::operations_of(content) == Some(ops),
        ops.len() == 3,
        tx.finite() && ty.finite() && sx.finite() && sy.finite(),
        changes_matrix(
            ops[0],
            Transform {
                m11: unit(),
                m12: nought(),
                m21: nought(),
                m22: unit(),
                m31: tx,
                m32: ty,
            },
        ),
        changes_matrix(
            ops[1],
            Transform {
                m11: sx,
                m12: nought(),
                m21: nought(),
                m22: sy,
                m31: nought(),
                m32: nought(),
            },
        ),
        uses_stream(scene.file, resources, ops[2], name, target, dict, form, "Image"@),
        forall|right: bool, up: bool|
            (#[trigger] moved_corner(scene.geom, tx, ty, sx, sy, right, up)).x.finite()
                && moved_corner(scene.geom, tx, ty, sx, sy, right, up).y.finite(),
    ensures
        images::images_in(scene, content, resources, page_number) matches Ok(shown) && {
            let place = shown[0].place;
            &&& shown.len() == 1
            &&& shown[0].page_number == page_number
            &&& shown[0].name == name
            &&& forall|right: bool, up: bool|
                covers(
                    place,
                    #[trigger] moved_corner(scene.geom, tx, ty, sx, sy, right, up),
                )
            &&& exists|right: bool, up: bool|
                place.x0.same(
                    (#[trigger] moved_corner(scene.geom, tx, ty, sx, sy, right, up)).x,
                )
            &&& exists|right: bool, up: bool|
                place.x1.same(
                    (#[trigger] moved_corner(scene.geom, tx, ty, sx, sy, right, up)).x,
                )
            &&& exists|right: bool, up: bool|
                place.top.same(
                    (#[trigger] moved_corner(scene.geom, tx, ty, sx, sy, right, up)).y,
                )
            &&& exists|right: bool, up: bool|
                place.bottom.same(
                    (#[trigger] moved_corner(scene.geom, tx, ty, sx, sy, right, up)).y,
                )
        },
{
    let none: Seq<ObjectId> = Seq::empty();
    let start = Progress {
        ctm: Transform::neutral(),
        saved: Seq::empty(),
        images: Seq::empty(),
        budget: MAX_XOBJECT_INVOCATIONS_PER_PAGE as nat,
    };
    let moved = Transform::translation(tx, ty);
    let scaled = Transform {
        m11: sx,
        m12: nought(),
        m21: nought(),
        m22: sy,
        m31: nought(),
        m32: nought(),
    };
    assert(images::walked(scene, ops, 0, resources, 0, none, start) == Ok::<_, Failure<Progress>>(
        start,
    ));
    lemma_matrix_changed(scene, ops, 0, resources, 0, none, start, start, moved);
    let one = Progress { ctm: moved.then_apply(start.ctm), ..start };
    lemma_matrix_changed(scene, ops, 1, resources, 0, none, start, one, scaled);
    let two = Progress { ctm: scaled.then_apply(one.ctm), ..one };
    places::law_neutral_changes_nothing(moved);
    places::law_scaled_then_moved(sx, sy, one.ctm, tx, ty);
    let exact = Transform {
        m11: sx,
        m12: nought(),
        m21: nought(),
        m22: sy,
        m31: tx,
        m32: ty,
    };
    assert forall|right: bool, up: bool| together(
        #[trigger] page_corner(scene.geom, two.ctm, right, up),
        moved_corner(scene.geom, tx, ty, sx, sy, right, up),
    ) by {
        lemma_exact_corner(exact, right, up);
        let x = if right {
            unit()
        } else {
            nought()
        };
        let y = if up {
            unit()
        } else {
            nought()
        };
        places::law_alike_matrices_agree(two.ctm, exact, x, y);
        let p = two.ctm.image(x, y);
        let q = Point {
            x: if right {
                sx.plus(tx)
            } else {
                tx
            },
            y: if up {
                sy.plus(ty)
            } else {
                ty
            },
        };
        assert(together(p, q));
        places::law_same_points_same_places(scene.geom, p, q);
    }
    assert forall|right: bool, up: bool|
        (#[trigger] page_corner(scene.geom, two.ctm, right, up)).x.finite() && page_corner(
            scene.geom,
            two.ctm,
            right,
            up,
        ).y.finite() by {
        let p = page_corner(scene.geom, two.ctm, right, up);
        let q = moved_corner(scene.geom, tx, ty, sx, sy, right, up);
        assert(together(p, q));
    }
    law_used_image_is_shown(
        scene,
        ops,
        2,
        resources,
        0,
        none,
        start,
        two,
        name,
        target,
        dict,
        form,
    );
    let last = images::walked(scene, ops, 3, resources, 0, none, start)->Ok_0;
    let shown = images::images_in(scene, content, resources, page_number)->Ok_0;
    let place = last.images.last().place;
    assert(last.images.len() == 1);
    assert(last.images[0] == last.images.last());
    assert(shown.len() == 1);
    assert(shown[0].place == place);
    assert forall|right: bool, up: bool| covers(
        place,
        #[trigger] moved_corner(scene.geom, tx, ty, sx, sy, right, up),
    ) by {
        assert(covers(place, page_corner(scene.geom, two.ctm, right, up)));
    }
    let (r0, u0) = choose|right: bool, up: bool|
        place.x0.same((#[trigger] page_corner(scene.geom, two.ctm, right, up)).x);
    assert(place.x0.same(moved_corner(scene.geom, tx, ty, sx, sy, r0, u0).x));
    let (r1, u1) = choose|right: bool, up: bool|
        place.x1.same((#[trigger] page_corner(scene.geom, two.ctm, right, up)).x);
    assert(place.x1.same(moved_corner(scene.geom, tx, ty, sx, sy, r1, u1).x));
    let (r2, u2) = choose|right: bool, up: bool|
        place.top.same((#[trigger] page_corner(scene.geom, two.ctm, right, up)).y);
    assert(place.top.same(moved_corner(scene.geom, tx, ty, sx, sy, r2, u2).y));
    let (r3, u3) = choose|right: bool, up: bool|
        place.bottom.same((#[trigger] page_corner(scene.geom, two.ctm, right, up)).y);
    assert(place.bottom.same(moved_corner(scene.geom, tx, ty, sx, sy, r3, u3).y));
}

proof fn lemma_exact_corner(m: Transform, right: bool, up: bool)
    requires
        places::finite(m),
        m.m12.zero() && m.m21.zero(),
    ensures
        together(
            raw_corner(m, right, up),
            Point {
                x: if right {
                    m.m11.plus(m.m31)
                } else {
                    m.m31
                },
                y: if up {
                    m.m22.plus(m.m32)
                } else {
                    m.m32
                },
            },
        ),
{
    places::law_rows_are_images(m);
    laws::law_zero_leaves_alike(m.m31, m.m21);
    laws::law_zero_leaves_alike(m.m32, m.m12);
    if right && up {
        laws::law_one_multiplies_nothing(m.m11);
        laws::law_one_multiplies_nothing(m.m12);
        laws::law_one_multiplies_nothing(m.m21);
        laws::law_one_multiplies_nothing(m.m22);
        laws::law_zero_leaves_alike(m.m11, m.m21);
        laws::law_zero_leaves_alike(m.m22, m.m12);
        laws::law_alike_sums(m.m11.plus(m.m21), m.m11, m.m31, m.m31);
        laws::law_alike_sums(m.m12.plus(m.m22), m.m22, m.m32, m.m32);
    }
}

proof fn lemma_content_goes_on(
    scene: Scene,
    first: Seq<OperationView>,
    rest: Seq<OperationView>,
    n: nat,
    resources: DictView,
    depth: nat,
    active: Seq<ObjectId>,
    start: Progress,
    s: Progress,
)
    requires
        n <= rest.len(),
        images::walked(scene, first, first.len(), resources, depth, active, start) == Ok::<
            _,
            Failure<Progress>,
        >(s),
    ensures
        images::walked(scene, first + rest, first.len() + n, resources, depth, active, start)
            == images::walked(scene, rest, n, resources, depth, active, s),
    decreases n,
{
    if n == 0 {
        lemma_same_beginning(
            scene,
            first,
            first + rest,
            first.len(),
            resources,
            depth,
            active,
            start,
        );
    } else {
        lemma_content_goes_on(
            scene,
            first,
            rest,
            (n - 1) as nat,
            resources,
            depth,
            active,
            start,
            s,
        );
        assert((first + rest)[first.len() + n - 1] == rest[n - 1]);
    }
}

proof fn lemma_same_beginning(
    scene: Scene,
    a: Seq<OperationView>,
    b: Seq<OperationView>,
    n: nat,
    resources: DictView,
    depth: nat,
    active: Seq<ObjectId>,
    start: Progress,
)
    requires
        n <= a.len() && n <= b.len(),
        forall|i: int| 0 <= i < n ==> a[i] == b[i],
    ensures
        images::walked(scene, a, n, resources, depth, active, start) == images::walked(
            scene,
            b,
            n,
            resources,
            depth,
            active,
            start,
        ),
    decreases n,
{
    if n > 0 {
        lemma_same_beginning(
            scene,
            a,
            b,
            (n - 1) as nat,
            resources,
            depth,
            active,
            start,
        );
    }
}

/// A form shows what its content would show in its place, with its matrix as a change of the
/// matrix before it; what was in effect is in effect again behind it.
pub proof fn law_form_is_its_content(
    scene: Scene,
    ops: Seq<OperationView>,
    n: nat,
    resources: DictView,
    depth: nat,
    active: Seq<ObjectId>,
    start: Progress,
    s: Progress,
    name: Seq<char>,
    target: ObjectView,
    dict: DictView,
    form: ContentView,
    opened: FormView,
    change: OperationView,
    m: Transform,
)
    requires
        n < ops.len(),
        images::walked(scene, ops, n, resources, depth, active, start) == Ok::<
            _,
            Failure<Progress>,
        >(s),
        uses_stream(scene.file, resources, ops[n as int], name, target, dict, form, "Form"@),
        s.budget > 0,
        forms::opened(scene.file, resources, target, dict, form, depth, active) == Ok::<
            _,
            ErrorView,
        >(opened),
        opened.matrix == Some(m),
        changes_matrix(change, m),
    ensures
        ({
            let inline = images::walked(
                scene,
                seq![change] + opened.ops,
                opened.ops.len() + 1,
                opened.resources,
                depth + 1,
                opened.active,
                Progress { saved: Seq::empty(), budget: (s.budget - 1) as nat, ..s },
            );
            match images::walked(scene, ops, n + 1, resources, depth, active, start) {
                Ok(t) => inline matches Ok(inner) && t.images == inner.images && t.budget
                    == inner.budget && t.ctm == s.ctm && t.saved == s.saved,
                Err(f) => inline matches Err(inner) && f.error == inner.error,
            }
        }),
{
    lemma_operators_differ();
    assert(images::operand_name(ops[n as int]) == Some(name));
    assert(forms::subtype(dict) == Some("Form"@));
    let before = Progress { saved: Seq::empty(), budget: (s.budget - 1) as nat, ..s };
    let after = Progress { ctm: m.then_apply(s.ctm), ..before };
    let one = seq![change];
    assert(images::walked(scene, one, 0, opened.resources, depth + 1, opened.active, before)
        == Ok::<_, Failure<Progress>>(before));
    lemma_matrix_changed(
        scene,
        one,
        0,
        opened.resources,
        depth + 1,
        opened.active,
        before,
        before,
        m,
    );
    lemma_content_goes_on(
        scene,
        one,
        opened.ops,
        opened.ops.len(),
        opened.resources,
        depth + 1,
        opened.active,
        before,
        after,
    );
}

/// A form without a matrix shows what its content would show in its place.
pub proof fn law_form_without_matrix(
    scene: Scene,
    ops: Seq<OperationView>,
    n: nat,
    resources: DictView,
    depth: nat,
    active: Seq<ObjectId>,
    start: Progress,
    s: Progress,
    name: Seq<char>,
    target: ObjectView,
    dict: DictView,
    form: ContentView,
    opened: FormView,
)
    requires
        n < ops.len(),
        images::walked(scene, ops, n, resources, depth, active, start) == Ok::<
            _,
            Failure<Progress>,
        >(s),
        uses_stream(scene.file, resources, ops[n as int], name, target, dict, form, "Form"@),
        s.budget > 0,
        forms::opened(scene.file, resources, target, dict, form, depth, active) == Ok::<
            _,
            ErrorView,
        >(opened),
        opened.matrix is None,
    ensures
        ({
            let inline = images::walked(
                scene,
                opened.ops,
                opened.ops.len(),
                opened.resources,
                depth + 1,
                opened.active,
                Progress { saved: Seq::empty(), budget: (s.budget - 1) as nat, ..s },
            );
            match images::walked(scene, ops, n + 1, resources, depth, active, start) {
                Ok(t) => inline matches Ok(inner) && t.images == inner.images && t.budget
                    == inner.budget && t.ctm == s.ctm && t.saved == s.saved,
                Err(f) => inline matches Err(inner) && f.error == inner.error,
            }
        }),
{
    lemma_operators_differ();
    assert(images::operand_name(ops[n as int]) == Some(name));
    assert(forms::subtype(dict) == Some("Form"@));
}

/// Saving the matrix and restoring it leaves everything as it was, whatever changes of the
/// matrix come between.
pub proof fn law_restore_undoes_changes(
    scene: Scene,
    ops: Seq<OperationView>,
    n: nat,
    k: nat,
    resources: DictView,
    depth: nat,
    active: Seq<ObjectId>,
    start: Progress,
    s: Progress,
)
    requires
        n + k + 2 <= ops.len(),
        images::walked(scene, ops, n, resources, depth, active, start) == Ok::<
            _,
            Failure<Progress>,
        >(s),
        ops[n as int].0 == "q"@,
        forall|i: int|
            n < i <= n + k ==> some_change(#[trigger] ops[i]),
        ops[(n + k + 1) as int].0 == "Q"@,
    ensures
        images::walked(scene, ops, n + k + 2, resources, depth, active, start) == Ok::<
            _,
            Failure<Progress>,
        >(s),
{
    lemma_operators_differ();
    lemma_changes(scene, ops, n, k, resources, depth, active, start, s);
    let t = images::walked(scene, ops, n + k + 1, resources, depth, active, start)->Ok_0;
    assert(t.saved.drop_last() =~= s.saved);
    assert(t.saved.last() == s.ctm);
}

proof fn lemma_changes(
    scene: Scene,
    ops: Seq<OperationView>,
    n: nat,
    k: nat,
    resources: DictView,
    depth: nat,
    active: Seq<ObjectId>,
    start: Progress,
    s: Progress,
)
    requires
        n + k + 1 <= ops.len(),
        images::walked(scene, ops, n, resources, depth, active, start) == Ok::<
            _,
            Failure<Progress>,
        >(s),
        ops[n as int].0 == "q"@,
        forall|i: int|
            n < i <= n + k ==> some_change(#[trigger] ops[i]),
    ensures
        images::walked(scene, ops, n + k + 1, resources, depth, active, start) matches Ok(t)
            && t.saved == s.saved.push(s.ctm) && t.images == s.images && t.budget == s.budget,
    decreases k,
{
    lemma_operators_differ();
    if k > 0 {
        lemma_changes(scene, ops, n, (k - 1) as nat, resources, depth, active, start, s);
        let t = images::walked(scene, ops, n + k, resources, depth, active, start)->Ok_0;
        let op = ops[(n + k) as int];
        assert(some_change(op));
        let m = choose|m: Transform| #[trigger] changes_matrix(op, m);
        lemma_matrix_changed(scene, ops, n + k, resources, depth, active, start, t, m);
    }
}

/// Restoring a matrix that was never saved takes back to the one that moves nothing.
pub proof fn law_restore_without_save(
    scene: Scene,
    ops: Seq<OperationView>,
    n: nat,
    resources: DictView,
    depth: nat,
    active: Seq<ObjectId>,
    start: Progress,
    s: Progress,
)
    requires
        n < ops.len(),
        images::walked(scene, ops, n, resources, depth, active, start) == Ok::<
            _,
            Failure<Progress>,
        >(s),
        ops[n as int].0 == "Q"@,
        s.saved.len() == 0,
    ensures
        images::walked(scene, ops, n + 1, resources, depth, active, start) matches Ok(t) && {
            &&& t.ctm == Transform::neutral()
            &&& t.saved.len() == 0
            &&& t.images == s.images
            &&& t.budget == s.budget
        },
{
    lemma_operators_differ();
}

/// A page that may use no more XObjects cannot be read past the next use of one.
pub proof fn law_uses_are_limited(
    scene: Scene,
    ops: Seq<OperationView>,
    n: nat,
    resources: DictView,
    depth: nat,
    active: Seq<ObjectId>,
    start: Progress,
    s: Progress,
    name: Seq<char>,
    target: ObjectView,
    dict: DictView,
    form: ContentView,
    kind: Seq<char>,
)
    requires
        n < ops.len(),
        images::walked(scene, ops, n, resources, depth, active, start) == Ok::<
            _,
            Failure<Progress>,
        >(s),
        uses_stream(scene.file, resources, ops[n as int], name, target, dict, form, kind),
        s.budget == 0,
    ensures
        images::walked(scene, ops, n + 1, resources, depth, active, start) is Err,
{
    lemma_operators_differ();
    assert(images::operand_name(ops[n as int]) == Some(name));
}

/// Whether an operation uses a name that the resources have nothing under.
pub open spec fn uses_nothing(
    file: FileView,
    resources: DictView,
    op: OperationView,
    name: Seq<char>,
) -> bool {
    &&& op.0 == "Do"@
    &&& op.1.len() > 0
    &&& op.1[0] matches ObjectView::Name(bytes) && text::lossy_text(bytes) == name
    &&& object::named(resources, "XObject"@) matches Some(all) ==> (file::dictionary_of(
        file,
        all,
    ) matches Ok(found) && object::named(found, name) is None)
}

/// Using a name that stands for nothing is passed over, and so are operations that have
/// nothing to do with images.
pub proof fn law_other_operations_are_passed_over(
    scene: Scene,
    ops: Seq<OperationView>,
    n: nat,
    resources: DictView,
    depth: nat,
    active: Seq<ObjectId>,
    start: Progress,
    s: Progress,
    name: Seq<char>,
)
    requires
        n < ops.len(),
        images::walked(scene, ops, n, resources, depth, active, start) == Ok::<
            _,
            Failure<Progress>,
        >(s),
        uses_nothing(scene.file, resources, ops[n as int], name) || (ops[n as int].0 != "q"@
            && ops[n as int].0 != "Q"@ && ops[n as int].0 != "cm"@ && ops[n as int].0 != "Do"@),
    ensures
        images::walked(scene, ops, n + 1, resources, depth, active, start) == Ok::<
            _,
            Failure<Progress>,
        >(s),
{
    lemma_operators_differ();
    if uses_nothing(scene.file, resources, ops[n as int], name) {
        assert(images::operand_name(ops[n as int]) == Some(name));
    }
}

} // verus!
