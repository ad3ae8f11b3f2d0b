//! What holds of the frames, annotations and links of pages.

use super::images::corners_are_finite;
use super::images::just_around;
use super::images::law_used_image_is_shown;
use super::images::uses_stream;
use super::places;
use super::places::within;
use crate::error::ErrorView;
use crate::float::laws::alike;
use crate::float::Float;
use crate::geometry;
use crate::parse::annotations;
use crate::parse::collector::CollectorView;
use crate::parse::forms::MAX_XOBJECT_INVOCATIONS_PER_PAGE;
use crate::parse::images;
use crate::parse::images::Progress;
use crate::parse::images::Scene;
use crate::parse::numbers;
use crate::parse::page;
use crate::parse::page::Frame;
use crate::parse::page_geometry::PageGeometry;
use crate::pdf::content;
use crate::pdf::file;
use crate::pdf::file::FileView;
use crate::pdf::object;
use crate::pdf::object::ContentView;
use crate::pdf::object::DictView;
use crate::pdf::object::ObjectId;
use crate::pdf::object::ObjectView;
use crate::pdf::object::OperationView;
use crate::pdf::text;
use crate::transform::Transform;
use crate::types;
use crate::types::AnnotationView;
use crate::types::BBox;
use crate::types::HyperlinkView;
use crate::types::Page;
use crate::types::Point;
use vstd::prelude::*;

verus! {

/// Whether an object is an array of the four given numbers.
pub open spec fn four(o: ObjectView, a: Float, b: Float, c: Float, d: Float) -> bool {
    o matches ObjectView::Array(items) && {
        &&& items.len() == 4
        &&& object::number(items[0]) == Some(a)
        &&& object::number(items[1]) == Some(b)
        &&& object::number(items[2]) == Some(c)
        &&& object::number(items[3]) == Some(d)
    }
}

/// Whether both coordinates of a point are finite.
pub open spec fn somewhere(p: Point) -> bool {
    p.x.finite() && p.y.finite()
}

/// Whether a rectangle is the smallest one that holds two points.
pub open spec fn spanned(b: BBox, p: Point, q: Point) -> bool {
    &&& within(b, p) && within(b, q)
    &&& b.x0 == p.x || b.x0 == q.x
    &&& b.x1 == p.x || b.x1 == q.x
    &&& b.top == p.y || b.top == q.y
    &&& b.bottom == p.y || b.bottom == q.y
}

/// The box that four numbers are spans the points that the first two and the last two are,
/// each at its place on the page.
pub proof fn law_box_spans_its_corners(
    o: ObjectView,
    geom: PageGeometry,
    a: Float,
    b: Float,
    c: Float,
    d: Float,
)
    requires
        four(o, a, b, c, d),
        somewhere(geom.on_page(a, b)),
        somewhere(geom.on_page(c, d)),
    ensures
        numbers::box_of(o) matches Ok(raw) && spanned(
            numbers::box_on_page(raw, geom),
            geom.on_page(a, b),
            geom.on_page(c, d),
        ),
{
    let p = geom.on_page(a, b);
    let q = geom.on_page(c, d);
    let raw = (a, b, c, d);
    assert(numbers::box_of(o) == Ok::<numbers::RawBox, ErrorView>(raw));
    let boxes = numbers::box_corners(raw, geom).map_values(|r: Point| geometry::dot(r));
    reveal_with_fuel(geometry::hull, 3);
    assert(boxes.len() == 2 && boxes[0] == geometry::dot(p) && boxes[1] == geometry::dot(q));
    let one = boxes.drop_last();
    assert(one.len() == 1 && one.last() == geometry::dot(p) && one.drop_last().len() == 0);
    assert(numbers::box_on_page(raw, geom) == geometry::dot(p).around(geometry::dot(q)));
}

/// Whether a page has, itself or from above, a box of the given numbers under a key.
pub open spec fn has_box(
    file: FileView,
    id: ObjectId,
    key: Seq<char>,
    a: Float,
    b: Float,
    c: Float,
    d: Float,
) -> bool {
    file::inherited(file, id, key, Seq::empty()) matches Ok(Some(o)) && four(o, a, b, c, d)
}

/// Whether a page has nothing under a key.
pub open spec fn has_none(file: FileView, id: ObjectId, key: Seq<char>) -> bool {
    file::inherited(file, id, key, Seq::empty()) == Ok::<Option<ObjectView>, ErrorView>(None)
}

/// Whether a box lies at finite places of a page.
pub open spec fn placed(geom: PageGeometry, a: Float, b: Float, c: Float, d: Float) -> bool {
    somewhere(geom.on_page(a, b)) && somewhere(geom.on_page(c, d))
}

/// A page is as large as its media box, on its side where it is turned by a quarter, and its
/// media box is all of the page.
pub proof fn law_page_is_its_media_box(
    file: FileView,
    id: ObjectId,
    page_number: usize,
    offset: Float,
    frame: Frame,
    rotation: i64,
    a: Float,
    b: Float,
    c: Float,
    d: Float,
)
    requires
        page::frame_of(file, id, page_number, offset) == Ok::<Frame, ErrorView>(frame),
        has_box(file, id, "MediaBox"@, a, b, c, d),
        file::inherited(file, id, "Rotate"@, Seq::empty()) == Ok::<_, ErrorView>(
            Some(ObjectView::Integer(rotation)),
        ),
        rotation == 0 || rotation == 90 || rotation == 180 || rotation == 270,
        a.finite() && b.finite() && c.finite() && d.finite(),
        a.less(c),
        b.less(d),
        c.minus(a).finite(),
        d.minus(b).finite(),
    ensures
        frame.geom.rotation == rotation,
        frame.geom.doctop_offset == offset,
        rotation == 0 || rotation == 180 ==> frame.geom.width == c.minus(a)
            && frame.geom.height == d.minus(b),
        rotation == 90 || rotation == 270 ==> frame.geom.width == d.minus(b)
            && frame.geom.height == c.minus(a),
        frame.mediabox.x0.zero(),
        frame.mediabox.top.zero(),
        alike(frame.mediabox.x1, frame.geom.width),
        alike(frame.mediabox.bottom, frame.geom.height),
        has_none(file, id, "CropBox"@) ==> frame.cropbox == frame.mediabox,
{
    let raw = (a, b, c, d);
    let o = file::inherited(file, id, "MediaBox"@, Seq::empty())->Ok_0->0;
    assert(numbers::box_of(o) == Ok::<numbers::RawBox, ErrorView>(raw));
    assert(page::rotation_of(Some(ObjectView::Integer(rotation))) == rotation);
    let r = rotation as i32;
    let geom = PageGeometry::of_box(raw, r, offset);
    assert(frame.geom == geom);
    assert(a.smaller(c) == a && a.larger(c) == c && b.smaller(d) == b && b.larger(d) == d);
    crate::float::laws::law_difference_tells_the_order(c, a);
    crate::float::laws::law_difference_tells_the_order(d, b);
    places::law_page_corners(raw, r, offset, false, false);
    places::law_page_corners(raw, r, offset, true, true);
    law_box_spans_its_corners(o, geom, a, b, c, d);
}

/// The boxes of a page are those under their own keys, at their places on the page; without
/// a crop box, the media box stands in for it.
pub proof fn law_boxes_are_under_their_keys(
    file: FileView,
    id: ObjectId,
    page_number: usize,
    offset: Float,
    frame: Frame,
    a: Float,
    b: Float,
    c: Float,
    d: Float,
)
    requires
        page::frame_of(file, id, page_number, offset) == Ok::<Frame, ErrorView>(frame),
        placed(frame.geom, a, b, c, d),
    ensures
        ({
            let p = frame.geom.on_page(a, b);
            let q = frame.geom.on_page(c, d);
            &&& has_box(file, id, "MediaBox"@, a, b, c, d) ==> spanned(frame.mediabox, p, q)
            &&& has_box(file, id, "CropBox"@, a, b, c, d) ==> spanned(frame.cropbox, p, q)
            &&& has_box(file, id, "TrimBox"@, a, b, c, d) ==> (frame.trimbox matches Some(r)
                && spanned(r, p, q))
            &&& has_box(file, id, "BleedBox"@, a, b, c, d) ==> (frame.bleedbox matches Some(r)
                && spanned(r, p, q))
            &&& has_box(file, id, "ArtBox"@, a, b, c, d) ==> (frame.artbox matches Some(r)
                && spanned(r, p, q))
        }),
        has_none(file, id, "CropBox"@) ==> frame.cropbox == frame.mediabox,
        has_none(file, id, "TrimBox"@) ==> frame.trimbox is None,
        has_none(file, id, "BleedBox"@) ==> frame.bleedbox is None,
        has_none(file, id, "ArtBox"@) ==> frame.artbox is None,
{
    let geom = frame.geom;
    if has_box(file, id, "MediaBox"@, a, b, c, d) {
        law_box_spans_its_corners(
            file::inherited(file, id, "MediaBox"@, Seq::empty())->Ok_0->0,
            geom,
            a,
            b,
            c,
            d,
        );
    }
    if has_box(file, id, "CropBox"@, a, b, c, d) {
        law_box_spans_its_corners(
            file::inherited(file, id, "CropBox"@, Seq::empty())->Ok_0->0,
            geom,
            a,
            b,
            c,
            d,
        );
    }
    if has_box(file, id, "TrimBox"@, a, b, c, d) {
        law_box_spans_its_corners(
            file::inherited(file, id, "TrimBox"@, Seq::empty())->Ok_0->0,
            geom,
            a,
            b,
            c,
            d,
        );
    }
    if has_box(file, id, "BleedBox"@, a, b, c, d) {
        law_box_spans_its_corners(
            file::inherited(file, id, "BleedBox"@, Seq::empty())->Ok_0->0,
            geom,
            a,
            b,
            c,
            d,
        );
    }
    if has_box(file, id, "ArtBox"@, a, b, c, d) {
        law_box_spans_its_corners(
            file::inherited(file, id, "ArtBox"@, Seq::empty())->Ok_0->0,
            geom,
            a,
            b,
            c,
            d,
        );
    }
}

/// A full turn changes nothing, a rotation of less than a full turn is taken as it is, and
/// one the other way round is its opposite; a page that says nothing is not turned.
pub proof fn law_full_turns_do_not_matter(v: i64)
    requires
        0 <= v,
        v + 360 <= i32::MAX,
    ensures
        page::rotation_of(Some(ObjectView::Integer((v + 360) as i64))) == page::rotation_of(
            Some(ObjectView::Integer(v)),
        ),
        v < 360 ==> page::rotation_of(Some(ObjectView::Integer(v))) == v,
        page::rotation_of(Some(ObjectView::Integer((-v) as i64))) == -page::rotation_of(
            Some(ObjectView::Integer(v)),
        ),
        page::rotation_of(None) == 0,
{
    assert((v + 360) % 360 == v % 360);
    assert(((v + 360) as i64) as i32 == v + 360);
    assert(((-v) as i64) as i32 == -v);
}

/// Whether the dictionary of an annotation has the given box.
pub open spec fn boxed(dict: DictView, a: Float, b: Float, c: Float, d: Float) -> bool {
    object::named(dict, "Rect"@) matches Some(o) && four(o, a, b, c, d)
}

/// Whether an annotation says what its dictionary says.
pub open spec fn tells(file: FileView, dict: DictView, annot: AnnotationView) -> bool {
    &&& object::named(dict, "Subtype"@) matches Some(ObjectView::Name(bytes)) ==> annot.subtype
        == text::lossy_text(bytes)
    &&& object::named(dict, "Subtype"@) is None ==> annot.subtype == "Annot"@
    &&& object::named(dict, "T"@) matches Some(ObjectView::Text(bytes, _)) ==> annot.title
        == text::text_of(bytes)
    &&& object::named(dict, "T"@) is None ==> annot.title is None
    &&& object::named(dict, "Contents"@) matches Some(ObjectView::Text(bytes, _))
        ==> annot.contents == text::text_of(bytes)
    &&& object::named(dict, "Contents"@) is None ==> annot.contents is None
    &&& object::named(dict, "A"@) is None ==> annot.uri is None
    &&& object::named(dict, "A"@) matches Some(o) ==> (file::dictionary_of(file, o) matches Ok(
        action,
    ) ==> {
        &&& object::named(action, "URI"@) is None ==> annot.uri is None
        &&& object::named(action, "URI"@) matches Some(ObjectView::Text(bytes, _)) ==> annot.uri
            == text::text_of(bytes)
    })
}

/// Whether an annotation is that of an item: at the place that the box of the item spans,
/// with what the item says.
pub open spec fn annotates(
    file: FileView,
    geom: PageGeometry,
    page_number: usize,
    item: ObjectView,
    annot: AnnotationView,
) -> bool {
    file::dereferenced(file, item) matches Ok(ObjectView::Dictionary(dict)) && {
        &&& annot.page_number == page_number
        &&& tells(file, dict, annot)
        &&& forall|a: Float, b: Float, c: Float, d: Float| #[trigger]
            boxed(dict, a, b, c, d) && placed(geom, a, b, c, d) ==> spanned(
                BBox {
                    x0: annot.place.x0,
                    top: annot.place.top,
                    x1: annot.place.x1,
                    bottom: annot.place.bottom,
                },
                geom.on_page(a, b),
                geom.on_page(c, d),
            )
    }
}

proof fn lemma_annotation_tells(
    file: FileView,
    geom: PageGeometry,
    page_number: usize,
    item: ObjectView,
    annot: AnnotationView,
)
    requires
        annotations::annotation_at(file, geom, page_number, item) == Ok::<_, ErrorView>(
            Some(annot),
        ),
    ensures
        annotates(file, geom, page_number, item, annot),
{
    let dict = file::dereferenced(file, item)->Ok_0->Dictionary_0;
    assert forall|a: Float, b: Float, c: Float, d: Float| #[trigger]
        boxed(dict, a, b, c, d) && placed(geom, a, b, c, d) implies spanned(
        BBox {
            x0: annot.place.x0,
            top: annot.place.top,
            x1: annot.place.x1,
            bottom: annot.place.bottom,
        },
        geom.on_page(a, b),
        geom.on_page(c, d),
    ) by {
        let o = object::named(dict, "Rect"@)->0;
        law_box_spans_its_corners(o, geom, a, b, c, d);
    }
}

/// Whether an annotation is that of one of the items.
pub open spec fn of_some_item(
    file: FileView,
    geom: PageGeometry,
    page_number: usize,
    items: Seq<ObjectView>,
    annot: AnnotationView,
) -> bool {
    exists|i: int|
        0 <= i < items.len() && annotates(file, geom, page_number, #[trigger] items[i], annot)
}

/// Whether an item has one of the annotations.
pub open spec fn has_annotation(
    file: FileView,
    geom: PageGeometry,
    page_number: usize,
    item: ObjectView,
    annots: Seq<AnnotationView>,
) -> bool {
    exists|j: int|
        0 <= j < annots.len() && annotates(file, geom, page_number, item, #[trigger] annots[j])
}

/// Whether an item is a dictionary with a proper box.
pub open spec fn proper(file: FileView, item: ObjectView) -> bool {
    file::dereferenced(file, item) matches Ok(ObjectView::Dictionary(dict)) && exists|
        a: Float,
        b: Float,
        c: Float,
        d: Float,
    | #[trigger]
        boxed(dict, a, b, c, d)
}

/// Every item with a proper box gives an annotation, every annotation is that of an item,
/// and there is no more than one for each.
pub proof fn law_items_are_annotations(
    file: FileView,
    geom: PageGeometry,
    page_number: usize,
    items: Seq<ObjectView>,
    n: nat,
    annots: Seq<AnnotationView>,
)
    requires
        n <= items.len(),
        annotations::annotations_among(file, geom, page_number, items, n) == Ok::<_, ErrorView>(
            annots,
        ),
    ensures
        annots.len() <= n,
        forall|i: int|
            0 <= i < n && proper(file, #[trigger] items[i]) ==> has_annotation(
                file,
                geom,
                page_number,
                items[i],
                annots,
            ),
        forall|j: int|
            0 <= j < annots.len() ==> of_some_item(
                file,
                geom,
                page_number,
                items.take(n as int),
                #[trigger] annots[j],
            ),
        (forall|i: int| 0 <= i < n ==> proper(file, #[trigger] items[i])) ==> annots.len() == n,
    decreases n,
{
    if n > 0 {
        let before = annotations::annotations_among(
            file,
            geom,
            page_number,
            items,
            (n - 1) as nat,
        )->Ok_0;
        law_items_are_annotations(file, geom, page_number, items, (n - 1) as nat, before);
        let item = items[n - 1];
        let found = annotations::annotation_at(file, geom, page_number, item)->Ok_0;
        if let Some(annot) = found {
            lemma_annotation_tells(file, geom, page_number, item, annot);
            assert(annots == before.push(annot));
        }
        if proper(file, item) {
            let dict = file::dereferenced(file, item)->Ok_0->Dictionary_0;
            let (a, b, c, d) = choose|a: Float, b: Float, c: Float, d: Float| #[trigger]
                boxed(dict, a, b, c, d);
            assert(annotations::rect_of(dict) == Some((a, b, c, d)));
            assert(found is Some);
        }
        assert forall|i: int| 0 <= i < n && proper(file, #[trigger] items[i]) implies has_annotation(
            file,
            geom,
            page_number,
            items[i],
            annots,
        ) by {
            if i < n - 1 {
                let j = choose|j: int|
                    0 <= j < before.len() && annotates(
                        file,
                        geom,
                        page_number,
                        items[i],
                        #[trigger] before[j],
                    );
                assert(annots[j] == before[j]);
            } else {
                assert(annotates(file, geom, page_number, item, annots[before.len() as int]));
            }
        }
        assert forall|j: int| 0 <= j < annots.len() implies of_some_item(
            file,
            geom,
            page_number,
            items.take(n as int),
            #[trigger] annots[j],
        ) by {
            let all = items.take(n as int);
            if j < before.len() {
                assert(annots[j] == before[j]);
                let fewer = items.take(n - 1);
                let i = choose|i: int|
                    0 <= i < fewer.len() && annotates(
                        file,
                        geom,
                        page_number,
                        #[trigger] fewer[i],
                        before[j],
                    );
                assert(all[i] == fewer[i]);
            } else {
                assert(all[n - 1] == item);
            }
        }
    }
}

/// The annotations come in the order of their items: those of the first items come first.
pub proof fn law_annotations_keep_their_order(
    file: FileView,
    geom: PageGeometry,
    page_number: usize,
    items: Seq<ObjectView>,
    k: nat,
    n: nat,
)
    requires
        k <= n <= items.len(),
        annotations::annotations_among(file, geom, page_number, items, n) is Ok,
    ensures
        annotations::annotations_among(file, geom, page_number, items, k) matches Ok(first)
            && first.is_prefix_of(
            annotations::annotations_among(file, geom, page_number, items, n)->Ok_0,
        ),
    decreases n,
{
    if k < n {
        law_annotations_keep_their_order(file, geom, page_number, items, k, (n - 1) as nat);
    }
}

/// The annotations of a page are those in its own list.
pub proof fn law_page_has_its_annotations(
    file: FileView,
    page_number: usize,
    id: ObjectId,
    offset: Float,
    view: page::PlanView,
    dict: DictView,
    listed: ObjectView,
    items: Seq<ObjectView>,
    annots: Seq<AnnotationView>,
)
    requires
        page::planned(file, page_number, id, offset) == Ok::<_, ErrorView>(view),
        file::page_dictionary(file, id) == Ok::<DictView, ErrorView>(dict),
        object::named(dict, "Annots"@) == Some(listed),
        file::dereferenced(file, listed) == Ok::<_, ErrorView>(ObjectView::Array(items)),
        annotations::annotations_among(file, view.frame.geom, page_number, items, items.len())
            is Ok,
    ensures
        forall|i: int|
            0 <= i < items.len() && proper(file, #[trigger] items[i]) ==> has_annotation(
                file,
                view.frame.geom,
                page_number,
                items[i],
                view.annots,
            ),
        forall|j: int|
            0 <= j < view.annots.len() ==> of_some_item(
                file,
                view.frame.geom,
                page_number,
                items,
                #[trigger] view.annots[j],
            ),
        view.annots.len() <= items.len(),
{
    law_items_are_annotations(
        file,
        view.frame.geom,
        page_number,
        items,
        items.len(),
        view.annots,
    );
    assert(items.take(items.len() as int) =~= items);
}

/// Whether a link is that of an annotation: there, to where it leads.
pub open spec fn links(annot: AnnotationView, link: HyperlinkView) -> bool {
    &&& annot.uri == Some(link.uri)
    &&& link.place == annot.place
    &&& link.page_number == annot.page_number
}

/// Whether one of the links is that of an annotation.
pub open spec fn has_link(annot: AnnotationView, all: Seq<HyperlinkView>) -> bool {
    exists|k: int| 0 <= k < all.len() && links(annot, #[trigger] all[k])
}

/// Whether a link is that of one of the annotations.
pub open spec fn links_some(annots: Seq<AnnotationView>, link: HyperlinkView) -> bool {
    exists|j: int| 0 <= j < annots.len() && links(#[trigger] annots[j], link)
}

/// Every annotation that leads somewhere is a link, at the same place, and there are no
/// others; links keep the order of their annotations.
pub proof fn law_links_are_annotations(annots: Seq<AnnotationView>)
    ensures
        forall|j: int|
            0 <= j < annots.len() && (#[trigger] annots[j]).uri is Some ==> has_link(
                annots[j],
                annotations::links_among(annots),
            ),
        forall|k: int|
            0 <= k < annotations::links_among(annots).len() ==> links_some(
                annots,
                #[trigger] annotations::links_among(annots)[k],
            ),
        (forall|j: int| 0 <= j < annots.len() ==> (#[trigger] annots[j]).uri is Some)
            ==> annotations::links_among(annots).len() == annots.len(),
        annots.len() > 0 ==> annotations::links_among(annots.drop_last()).is_prefix_of(
            annotations::links_among(annots),
        ),
        annotations::links_among(annots).len() <= annots.len(),
    decreases annots.len(),
{
    let all = annotations::links_among(annots);
    if annots.len() > 0 {
        let fewer = annots.drop_last();
        let before = annotations::links_among(fewer);
        law_links_are_annotations(fewer);
        assert forall|j: int| 0 <= j < annots.len() && (#[trigger] annots[j]).uri is Some implies has_link(
            annots[j],
            all,
        ) by {
            if j < fewer.len() {
                assert(fewer[j] == annots[j]);
                let k = choose|k: int| 0 <= k < before.len() && links(fewer[j], #[trigger] before[k]);
                assert(all[k] == before[k]);
            } else {
                assert(links(annots[j], all[before.len() as int]));
            }
        }
        assert forall|k: int| 0 <= k < all.len() implies links_some(annots, #[trigger] all[k]) by {
            if k < before.len() {
                assert(all[k] == before[k]);
                let j = choose|j: int| 0 <= j < fewer.len() && links(#[trigger] fewer[j], before[k]);
                assert(annots[j] == fewer[j]);
            } else {
                assert(links(annots[annots.len() - 1], all[k]));
            }
        }
        if forall|j: int| 0 <= j < annots.len() ==> (#[trigger] annots[j]).uri is Some {
            assert forall|j: int| 0 <= j < fewer.len() implies (#[trigger] fewer[j]).uri is Some by {
                assert(fewer[j] == annots[j]);
            }
        }
    }
}

/// A page that does nothing but use an image shows it once, as large as the unit square of
/// the file, and the image is one of that page.
pub proof fn law_plain_image(
    scene: Scene,
    content: ContentView,
    op: OperationView,
    resources: DictView,
    page_number: usize,
    name: Seq<char>,
    target: ObjectView,
    dict: DictView,
    form: ContentView,
)
    requires
        content::operations_of(content) == Some(seq![op]),
        uses_stream(scene.file, resources, op, name, target, dict, form, "Image"@),
        corners_are_finite(scene.geom, Transform::neutral()),
    ensures
        images::images_in(scene, content, resources, page_number) matches Ok(shown) && {
            &&& shown.len() == 1
            &&& shown[0].page_number == page_number
            &&& shown[0].name == name
            &&& just_around(shown[0].place, scene.geom, Transform::neutral())
        },
{
    let start = Progress {
        ctm: Transform::neutral(),
        saved: Seq::empty(),
        images: Seq::empty(),
        budget: MAX_XOBJECT_INVOCATIONS_PER_PAGE as nat,
    };
    let ops = seq![op];
    assert(images::walked(scene, ops, 0, resources, 0, Seq::empty(), start) == Ok::<
        _,
        crate::parse::forms::Failure<Progress>,
    >(start));
    law_used_image_is_shown(
        scene,
        ops,
        0,
        resources,
        0,
        Seq::empty(),
        start,
        start,
        name,
        target,
        dict,
        form,
    );
}

/// A page is as large as its frame, begins at its own upper left corner, and has the boxes
/// of its frame and what was found on it.
pub proof fn law_page_has_its_frame(page: Page, view: page::PlanView, output: CollectorView)
    requires
        page::completes(page, view, output),
    ensures
        page.width == view.frame.geom.width && page.height == view.frame.geom.height,
        page.bbox.x0.zero() && page.bbox.top.zero(),
        page.bbox.x1 == page.width && page.bbox.bottom == page.height,
        page.mediabox == view.frame.mediabox && page.cropbox == view.frame.cropbox,
        page.trimbox == view.frame.trimbox && page.bleedbox == view.frame.bleedbox,
        page.artbox == view.frame.artbox,
        page.rotation == view.frame.geom.rotation,
        page.doctop_offset == view.frame.geom.doctop_offset,
        page.page_number == view.page_number,
        page.chars@.len() == output.chars.len(),
        page.lines@.len() == output.lines.len(),
        page.rects@.len() == output.rects.len(),
        page.curves@.len() == output.curves.len(),
        page.annots@.len() == view.annots.len(),
        page.hyperlinks@.len() <= page.annots@.len(),
        view.images matches Ok(images) ==> page.images@.len() == images.len(),
{
    law_links_are_annotations(view.annots);
    assert(types::seen(page.chars@).len() == page.chars@.len());
    assert(types::seen(page.lines@).len() == page.lines@.len());
    assert(types::seen(page.rects@).len() == page.rects@.len());
    assert(types::seen(page.curves@).len() == page.curves@.len());
    assert(types::seen(page.annots@).len() == page.annots@.len());
    assert(types::seen(page.hyperlinks@).len() == page.hyperlinks@.len());
    assert(types::seen(page.images@).len() == page.images@.len());
}

/// The images of a page are those that its own content shows, with the resources that it
/// has itself or from above.
pub proof fn law_page_shows_its_own_content(
    file: FileView,
    page_number: usize,
    id: ObjectId,
    offset: Float,
    view: page::PlanView,
    content: ContentView,
    given: ObjectView,
    resources: DictView,
)
    requires
        page::planned(file, page_number, id, offset) == Ok::<_, ErrorView>(view),
        file.contents.contains_pair(file::slot(id), content),
        file::inherited(file, id, "Resources"@, Seq::empty()) == Ok::<_, ErrorView>(Some(given)),
        file::dictionary_of(file, given) == Ok::<_, ErrorView>(resources),
    ensures
        view.images == images::images_in(
            Scene { file, geom: view.frame.geom },
            content,
            resources,
            page_number,
        ),
        view.page_number == page_number,
{
}

} // verus!
