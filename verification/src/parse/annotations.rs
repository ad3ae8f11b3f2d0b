//! The annotations of a page.

use super::numbers;
use super::numbers::obj_to_box;
use super::numbers::raw_box_to_bbox;
use super::numbers::RawBox;
use super::page_geometry::PageGeometry;
use crate::error::Error;
use crate::error::ErrorView;
use crate::pdf::file;
use crate::pdf::file::FileView;
use crate::pdf::file::PdfFile;
use crate::pdf::object;
use crate::pdf::object::DictView;
use crate::pdf::object::ObjectView;
use crate::pdf::object::PdfDictionary;
use crate::pdf::object::PdfObject;
use crate::pdf::text;
use crate::pdf::text::decode_pdf_string;
use crate::pdf::text::obj_to_name_string;
use crate::types;
use crate::types::copy_text;
use crate::types::Annotation;
use crate::types::AnnotationView;
use crate::types::BBox;
use crate::types::Hyperlink;
use crate::types::HyperlinkView;
use vstd::prelude::*;

verus! {

/// The text that a dictionary has under a key.
pub open spec fn text_at(dict: DictView, key: Seq<char>) -> Option<Seq<char>> {
    match object::named(dict, key) {
        Some(o) => text::object_text(o),
        None => None,
    }
}

/// Where the action of an annotation leads.
pub open spec fn action_uri(file: FileView, dict: DictView) -> Option<Seq<char>> {
    match object::named(dict, "A"@) {
        Some(o) => match file::dictionary_of(file, o) {
            Ok(action) => text_at(action, "URI"@),
            Err(_) => None,
        },
        None => None,
    }
}

/// The box of an annotation, if it has a proper one.
pub open spec fn rect_of(dict: DictView) -> Option<RawBox> {
    match object::named(dict, "Rect"@) {
        Some(o) => match numbers::box_of(o) {
            Ok(raw) => Some(raw),
            Err(_) => None,
        },
        None => None,
    }
}

/// An annotation with the given box.
pub open spec fn annotation(
    file: FileView,
    geom: PageGeometry,
    page_number: usize,
    dict: DictView,
    raw: RawBox,
) -> AnnotationView {
    AnnotationView {
        object_type: "annot"@,
        page_number,
        place: geom.place(numbers::box_on_page(raw, geom)),
        subtype: match object::named(dict, "Subtype"@) {
            Some(o) => match text::name_text(o) {
                Some(name) => name,
                None => "Annot"@,
            },
            None => "Annot"@,
        },
        uri: action_uri(file, dict),
        title: text_at(dict, "T"@),
        contents: text_at(dict, "Contents"@),
    }
}

/// The link that an annotation is, if it leads anywhere.
pub open spec fn hyperlink(annot: AnnotationView) -> Option<HyperlinkView> {
    match annot.uri {
        Some(uri) => Some(
            HyperlinkView {
                object_type: "hyperlink"@,
                page_number: annot.page_number,
                place: annot.place,
                uri,
            },
        ),
        None => None,
    }
}

/// The annotation that an item is: a dictionary with a proper box.
pub open spec fn annotation_at(
    file: FileView,
    geom: PageGeometry,
    page_number: usize,
    item: ObjectView,
) -> Result<Option<AnnotationView>, ErrorView> {
    match file::dereferenced(file, item) {
        Err(e) => Err(e),
        Ok(ObjectView::Dictionary(dict)) => match rect_of(dict) {
            Some(raw) => Ok(Some(annotation(file, geom, page_number, dict, raw))),
            None => Ok(None),
        },
        Ok(_) => Ok(None),
    }
}

/// The annotations among the first `n` items.
pub open spec fn annotations_among(
    file: FileView,
    geom: PageGeometry,
    page_number: usize,
    items: Seq<ObjectView>,
    n: nat,
) -> Result<Seq<AnnotationView>, ErrorView>
    decreases n,
{
    if n == 0 || n > items.len() {
        Ok(Seq::empty())
    } else {
        match annotations_among(file, geom, page_number, items, (n - 1) as nat) {
            Err(e) => Err(e),
            Ok(before) => match annotation_at(file, geom, page_number, items[n - 1]) {
                Err(e) => Err(e),
                Ok(Some(annot)) => Ok(before.push(annot)),
                Ok(None) => Ok(before),
            },
        }
    }
}

/// The links among annotations.
pub open spec fn links_among(annots: Seq<AnnotationView>) -> Seq<HyperlinkView>
    decreases annots.len(),
{
    if annots.len() == 0 {
        Seq::empty()
    } else {
        let before = links_among(annots.drop_last());
        match hyperlink(annots.last()) {
            Some(link) => before.push(link),
            None => before,
        }
    }
}

/// The annotations of a page.
pub open spec fn annotations_of(
    file: FileView,
    page: DictView,
    geom: PageGeometry,
    page_number: usize,
) -> Result<Seq<AnnotationView>, ErrorView> {
    match object::named(page, "Annots"@) {
        None => Ok(Seq::empty()),
        Some(o) => match file::dereferenced(file, o) {
            Err(e) => Err(e),
            Ok(ObjectView::Array(items)) => annotations_among(
                file,
                geom,
                page_number,
                items,
                items.len(),
            ),
            Ok(_) => Ok(Seq::empty()),
        },
    }
}

/// Once the reading has failed, it has failed for good.
proof fn lemma_stopped(
    file: FileView,
    geom: PageGeometry,
    page_number: usize,
    items: Seq<ObjectView>,
    k: nat,
    n: nat,
)
    requires
        0 < k <= n <= items.len(),
        annotations_among(file, geom, page_number, items, k) is Err,
    ensures
        annotations_among(file, geom, page_number, items, n) == annotations_among(
            file,
            geom,
            page_number,
            items,
            k,
        ),
    decreases n,
{
    if k < n {
        lemma_stopped(file, geom, page_number, items, k, (n - 1) as nat);
    }
}

fn decoded_at(dict: &PdfDictionary, key: &str) -> (r: Option<String>)
    ensures
        types::seen_text(r) == text_at(dict@, key@),
{
    match dict.get(key) {
        Some(o) => decode_pdf_string(o),
        None => None,
    }
}

fn find_uri(file: &PdfFile, dict: &PdfDictionary) -> (r: Option<String>)
    ensures
        types::seen_text(r) == action_uri(file@, dict@),
{
    match dict.get("A") {
        Some(o) => match file.object_to_dict(o) {
            Ok(action) => decoded_at(action, "URI"),
            Err(_) => None,
        },
        None => None,
    }
}

fn find_rect(dict: &PdfDictionary) -> (r: Option<RawBox>)
    ensures
        r == rect_of(dict@),
{
    match dict.get("Rect") {
        Some(o) => match obj_to_box(o) {
            Ok(raw) => Some(raw),
            Err(_) => None,
        },
        None => None,
    }
}

fn make_annotation(
    file: &PdfFile,
    geom: PageGeometry,
    page_number: usize,
    dict: &PdfDictionary,
    bbox: BBox,
    Ghost(raw): Ghost<RawBox>,
) -> (r: Annotation)
    requires
        bbox == numbers::box_on_page(raw, geom),
    ensures
        r@ == annotation(file@, geom, page_number, dict@, raw),
{
    let subtype: String = match dict.get("Subtype") {
        Some(o) => match obj_to_name_string(o) {
            Some(name) => name,
            None => "Annot".to_owned(),
        },
        None => "Annot".to_owned(),
    };
    Annotation {
        object_type: "annot".to_owned(),
        page_number,
        x0: bbox.x0,
        top: bbox.top,
        x1: bbox.x1,
        bottom: bbox.bottom,
        y0: geom.height.sub(bbox.bottom),
        y1: geom.height.sub(bbox.top),
        doctop: geom.doctop(bbox.top),
        width: bbox.width(),
        height: bbox.height(),
        subtype,
        uri: find_uri(file, dict),
        title: decoded_at(dict, "T"),
        contents: decoded_at(dict, "Contents"),
    }
}

fn find_annotation(file: &PdfFile, geom: PageGeometry, page_number: usize, item: &PdfObject) -> (r:
    Result<Option<Annotation>, Error>)
    ensures
        match annotation_at(file@, geom, page_number, item@) {
            Ok(Some(annot)) => r matches Ok(Some(found)) && found@ == annot,
            Ok(None) => r matches Ok(None),
            Err(e) => r matches Err(error) && error@ == e,
        },
{
    let dict: &PdfDictionary = match file.deref_object(item) {
        Err(e) => {
            return Err(e);
        },
        Ok(PdfObject::Dictionary(dict)) => dict,
        Ok(_) => {
            return Ok(None);
        },
    };
    let raw: RawBox = match find_rect(dict) {
        Some(raw) => raw,
        None => {
            return Ok(None);
        },
    };
    match raw_box_to_bbox(raw, geom) {
        Some(bbox) => Ok(
            Some(make_annotation(file, geom, page_number, dict, bbox, Ghost(raw))),
        ),
        None => Ok(None),
    }
}

fn make_link(annot: &Annotation) -> (r: Option<Hyperlink>)
    ensures
        match hyperlink(annot@) {
            Some(link) => r matches Some(found) && found@ == link,
            None => r is None,
        },
{
    match copy_text(&annot.uri) {
        Some(uri) => Some(
            Hyperlink {
                object_type: "hyperlink".to_owned(),
                page_number: annot.page_number,
                x0: annot.x0,
                top: annot.top,
                x1: annot.x1,
                bottom: annot.bottom,
                y0: annot.y0,
                y1: annot.y1,
                doctop: annot.doctop,
                width: annot.width,
                height: annot.height,
                uri,
            },
        ),
        None => None,
    }
}

/// The annotations of a page, and those of them that are links.
pub fn collect_annotations(
    file: &PdfFile,
    page: &PdfDictionary,
    geom: PageGeometry,
    page_number: usize,
) -> (r: Result<(Vec<Annotation>, Vec<Hyperlink>), Error>)
    ensures
        match annotations_of(file@, page@, geom, page_number) {
            Ok(annots) => r matches Ok((found, links)) && types::seen(found@) == annots
                && types::seen(links@) == links_among(annots),
            Err(e) => r matches Err(error) && error@ == e,
        },
{
    let mut annots: Vec<Annotation> = Vec::new();
    let mut links: Vec<Hyperlink> = Vec::new();
    assert(types::seen(annots@) =~= Seq::<AnnotationView>::empty());
    assert(types::seen(links@) =~= Seq::<HyperlinkView>::empty());
    let list: &PdfObject = match page.get("Annots") {
        Some(list) => list,
        None => {
            return Ok((annots, links));
        },
    };
    let items: &Vec<PdfObject> = match file.deref_object(list) {
        Err(e) => {
            return Err(e);
        },
        Ok(PdfObject::Array(items)) => items,
        Ok(_) => {
            return Ok((annots, links));
        },
    };
    let ghost all = types::seen(items@);
    proof {
        object::lemma_array_view(*items);
    }
    let n: usize = items.len();
    for i in 0..n
        invariant
            n == items@.len(),
            all == types::seen(items@),
            annotations_of(file@, page@, geom, page_number) == annotations_among(
                file@,
                geom,
                page_number,
                all,
                n as nat,
            ),
            annotations_among(file@, geom, page_number, all, i as nat) == Ok::<
                Seq<AnnotationView>,
                ErrorView,
            >(types::seen(annots@)),
            types::seen(links@) == links_among(types::seen(annots@)),
    {
        assert(all[i as int] == items@[i as int]@);
        match find_annotation(file, geom, page_number, &items[i]) {
            Err(e) => {
                proof {
                    lemma_stopped(file@, geom, page_number, all, (i + 1) as nat, n as nat);
                }
                return Err(e);
            },
            Ok(None) => (),
            Ok(Some(annot)) => {
                let ghost before = types::seen(annots@);
                let link: Option<Hyperlink> = make_link(&annot);
                proof {
                    types::lemma_seen_push(annots@, annot);
                    assert(before.push(annot@).drop_last() =~= before);
                }
                annots.push(annot);
                if let Some(link) = link {
                    proof {
                        types::lemma_seen_push(links@, link);
                    }
                    links.push(link);
                }
            },
        }
    }
    Ok((annots, links))
}

} // verus!
