//! A page with everything on it.

use super::annotations;
use super::annotations::collect_annotations;
use super::collector::CollectorOutput;
use super::collector::CollectorView;
use super::images;
use super::images::collect_images;
use super::numbers;
use super::numbers::obj_to_box;
use super::numbers::raw_box_to_bbox;
use super::numbers::RawBox;
use super::page_geometry::PageGeometry;
use crate::error::Error;
use crate::error::ErrorView;
use crate::float::Float;
use crate::pdf::file;
use crate::pdf::file::slot_of;
use crate::pdf::file::FileView;
use crate::pdf::file::PdfFile;
use crate::pdf::object;
use crate::pdf::object::obj_to_i64;
use crate::pdf::object::ContentView;
use crate::pdf::object::DictView;
use crate::pdf::object::ObjectId;
use crate::pdf::object::ObjectView;
use crate::pdf::object::PdfContent;
use crate::pdf::object::PdfDictionary;
use crate::pdf::object::PdfObject;
use crate::strings;
use crate::types;
use crate::types::Annotation;
use crate::types::AnnotationView;
use crate::types::BBox;
use crate::types::Hyperlink;
use crate::types::HyperlinkView;
use crate::types::ImageObject;
use crate::types::ImageView;
use crate::types::Page;
use vstd::prelude::*;

verus! {

/// The remainder of a division by 360 that has the sign of the dividend.
pub open spec fn remainder(x: int) -> int {
    if x >= 0 {
        x % 360
    } else {
        -((-x) % 360)
    }
}

/// The rotation that a page has.
pub open spec fn rotation_of(object: Option<ObjectView>) -> i32 {
    match object {
        Some(o) => match object::whole(o) {
            Some(v) => remainder((v as i32) as int) as i32,
            None => 0,
        },
        None => 0,
    }
}

/// The frame of a page: how it is turned, and its boxes.
#[derive(Clone, Copy, PartialEq, Eq, Structural, Debug)]
pub struct Frame {
    pub geom: PageGeometry,
    pub mediabox: BBox,
    pub cropbox: BBox,
    pub trimbox: Option<BBox>,
    pub bleedbox: Option<BBox>,
    pub artbox: Option<BBox>,
}

/// The box that a page has under a key, if any.
pub open spec fn page_box(file: FileView, id: ObjectId, key: Seq<char>, geom: PageGeometry) -> Result<
    Option<BBox>,
    ErrorView,
> {
    match file::inherited(file, id, key, Seq::empty()) {
        Err(e) => Err(e),
        Ok(None) => Ok(None),
        Ok(Some(o)) => match numbers::box_of(o) {
            Err(e) => Err(e),
            Ok(raw) => Ok(Some(numbers::box_on_page(raw, geom))),
        },
    }
}

/// The geometry of a page.
pub open spec fn geometry_of(file: FileView, id: ObjectId, page_number: usize, offset: Float) -> Result<
    (PageGeometry, RawBox),
    ErrorView,
> {
    match (
        file::inherited(file, id, "Rotate"@, Seq::empty()),
        file::inherited(file, id, "MediaBox"@, Seq::empty()),
    ) {
        (Err(e), _) => Err(e),
        (_, Err(e)) => Err(e),
        (_, Ok(None)) => Err(
            ErrorView::Message(
                "page "@ + strings::decimal(page_number as nat) + " missing MediaBox"@,
            ),
        ),
        (Ok(rotate), Ok(Some(o))) => match numbers::box_of(o) {
            Err(e) => Err(e),
            Ok(raw) => Ok((PageGeometry::of_box(raw, rotation_of(rotate), offset), raw)),
        },
    }
}

/// The frame of a page.
pub open spec fn frame_of(file: FileView, id: ObjectId, page_number: usize, offset: Float) -> Result<
    Frame,
    ErrorView,
> {
    match geometry_of(file, id, page_number, offset) {
        Err(e) => Err(e),
        Ok((geom, raw)) => match (
            page_box(file, id, "CropBox"@, geom),
            page_box(file, id, "TrimBox"@, geom),
            page_box(file, id, "BleedBox"@, geom),
            page_box(file, id, "ArtBox"@, geom),
        ) {
            (Err(e), _, _, _) => Err(e),
            (_, Err(e), _, _) => Err(e),
            (_, _, Err(e), _) => Err(e),
            (_, _, _, Err(e)) => Err(e),
            (Ok(crop), Ok(trimbox), Ok(bleedbox), Ok(artbox)) => {
                let mediabox = numbers::box_on_page(raw, geom);
                Ok(
                    Frame {
                        geom,
                        mediabox,
                        cropbox: match crop {
                            Some(b) => b,
                            None => mediabox,
                        },
                        trimbox,
                        bleedbox,
                        artbox,
                    },
                )
            },
        },
    }
}

/// The resources of a page; none where it has none.
pub open spec fn resources_of(file: FileView, id: ObjectId) -> Result<DictView, ErrorView> {
    match file::inherited(file, id, "Resources"@, Seq::empty()) {
        Err(e) => Err(e),
        Ok(None) => Ok(Seq::empty()),
        Ok(Some(o)) => file::dictionary_of(file, o),
    }
}

/// The content of a page; none where the file has none for it.
pub open spec fn content_of(file: FileView, id: ObjectId) -> ContentView {
    if file.contents.contains_key(file::slot(id)) {
        file.contents[file::slot(id)]
    } else {
        ContentView::Bytes(Seq::empty())
    }
}

/// What is known of a page before its text is extracted.
pub struct PlanView {
    pub page_number: usize,
    pub frame: Frame,
    pub images: Result<Seq<ImageView>, ErrorView>,
    pub annots: Seq<AnnotationView>,
}

/// What is known of a page before its text is extracted.
pub open spec fn planned(file: FileView, page_number: usize, id: ObjectId, offset: Float) -> Result<
    PlanView,
    ErrorView,
> {
    match frame_of(file, id, page_number, offset) {
        Err(e) => Err(e),
        Ok(frame) => match (file::page_dictionary(file, id), resources_of(file, id)) {
            (Err(e), _) => Err(e),
            (_, Err(e)) => Err(e),
            (Ok(page), Ok(resources)) => Ok(
                PlanView {
                    page_number,
                    frame,
                    images: images::images_in(
                        images::Scene { file, geom: frame.geom },
                        content_of(file, id),
                        resources,
                        page_number,
                    ),
                    annots: match annotations::annotations_of(file, page, frame.geom, page_number) {
                        Ok(annots) => annots,
                        Err(_) => Seq::empty(),
                    },
                },
            ),
        },
    }
}

/// What is known of a page before its text is extracted.
#[derive(Debug)]
pub struct PagePlan {
    pub page_number: usize,
    pub frame: Frame,
    pub images: Result<Vec<ImageObject>, Error>,
    pub annots: Vec<Annotation>,
    pub hyperlinks: Vec<Hyperlink>,
}

impl PagePlan {
    /// Whether this is what is known.
    pub open spec fn shows(self, view: PlanView) -> bool {
        &&& self.page_number == view.page_number
        &&& self.frame == view.frame
        &&& images::seen_images(self.images) == view.images
        &&& types::seen(self.annots@) == view.annots
        &&& types::seen(self.hyperlinks@) == annotations::links_among(view.annots)
    }
}

fn rotation_from(object: Option<&PdfObject>) -> (r: i32)
    ensures
        r == rotation_of(object::seen_object(object)),
{
    match object {
        Some(o) => match obj_to_i64(o) {
            Some(v) => {
                let x: i32 = v as i32;
                if x >= 0 {
                    x % 360
                } else {
                    let up: i64 = -(x as i64);
                    -((up % 360) as i32)
                }
            },
            None => 0,
        },
        None => 0,
    }
}

fn find_page_box(file: &PdfFile, id: ObjectId, key: &str, geom: PageGeometry) -> (r: Result<
    Option<BBox>,
    Error,
>)
    ensures
        match page_box(file@, id, key@, geom) {
            Ok(b) => r == Ok::<Option<BBox>, Error>(b),
            Err(e) => r matches Err(error) && error@ == e,
        },
{
    match file.get_inherited_object(id, key) {
        Err(e) => Err(e),
        Ok(None) => Ok(None),
        Ok(Some(o)) => match obj_to_box(o) {
            Err(e) => Err(e),
            Ok(raw) => Ok(raw_box_to_bbox(raw, geom)),
        },
    }
}

fn find_geometry(file: &PdfFile, id: ObjectId, page_number: usize, offset: Float) -> (r: Result<
    (PageGeometry, RawBox),
    Error,
>)
    ensures
        match geometry_of(file@, id, page_number, offset) {
            Ok(found) => r == Ok::<(PageGeometry, RawBox), Error>(found),
            Err(e) => r matches Err(error) && error@ == e,
        },
{
    let rotation: i32 = match file.get_inherited_object(id, "Rotate") {
        Err(e) => {
            return Err(e);
        },
        Ok(o) => rotation_from(o),
    };
    let media_box: &PdfObject = match file.get_inherited_object(id, "MediaBox") {
        Err(e) => {
            return Err(e);
        },
        Ok(None) => {
            return Err(
                Error::Message(
                    strings::joined(
                        strings::joined("page ", strings::to_decimal(page_number).as_str()).as_str(),
                        " missing MediaBox",
                    ),
                ),
            );
        },
        Ok(Some(o)) => o,
    };
    match obj_to_box(media_box) {
        Err(e) => Err(e),
        Ok(raw) => Ok((PageGeometry::from_media_box(raw, rotation, offset), raw)),
    }
}

fn find_frame(file: &PdfFile, id: ObjectId, page_number: usize, offset: Float) -> (r: Result<
    Frame,
    Error,
>)
    ensures
        match frame_of(file@, id, page_number, offset) {
            Ok(frame) => r == Ok::<Frame, Error>(frame),
            Err(e) => r matches Err(error) && error@ == e,
        },
{
    let (geom, raw) = match find_geometry(file, id, page_number, offset) {
        Err(e) => {
            return Err(e);
        },
        Ok(found) => found,
    };
    let mediabox: BBox = match raw_box_to_bbox(raw, geom) {
        Some(b) => b,
        None => geom.page_bbox(),
    };
    let cropbox: BBox = match find_page_box(file, id, "CropBox", geom) {
        Err(e) => {
            return Err(e);
        },
        Ok(Some(b)) => b,
        Ok(None) => mediabox,
    };
    let trimbox: Option<BBox> = match find_page_box(file, id, "TrimBox", geom) {
        Err(e) => {
            return Err(e);
        },
        Ok(b) => b,
    };
    let bleedbox: Option<BBox> = match find_page_box(file, id, "BleedBox", geom) {
        Err(e) => {
            return Err(e);
        },
        Ok(b) => b,
    };
    let artbox: Option<BBox> = match find_page_box(file, id, "ArtBox", geom) {
        Err(e) => {
            return Err(e);
        },
        Ok(b) => b,
    };
    Ok(Frame { geom, mediabox, cropbox, trimbox, bleedbox, artbox })
}

/// Reads what there is to know of a page before its text is extracted.
pub fn plan_page(file: &PdfFile, page_number: usize, page_id: ObjectId, doctop_offset: Float) -> (r:
    Result<PagePlan, Error>)
    ensures
        match planned(file@, page_number, page_id, doctop_offset) {
            Ok(view) => r matches Ok(plan) && plan.shows(view),
            Err(e) => r matches Err(error) && error@ == e,
        },
{
    broadcast use vstd::std_specs::hash::group_hash_axioms;

    let frame: Frame = match find_frame(file, page_id, page_number, doctop_offset) {
        Err(e) => {
            return Err(e);
        },
        Ok(frame) => frame,
    };
    let page: &PdfDictionary = match file.page_dict(page_id) {
        Err(e) => {
            return Err(e);
        },
        Ok(page) => page,
    };
    let none: PdfDictionary = PdfDictionary::new();
    let resources: &PdfDictionary = match file.get_inherited_object(page_id, "Resources") {
        Err(e) => {
            return Err(e);
        },
        Ok(None) => &none,
        Ok(Some(o)) => match file.object_to_dict(o) {
            Err(e) => {
                return Err(e);
            },
            Ok(dict) => dict,
        },
    };
    let images: Result<Vec<ImageObject>, Error> = match file.contents.get(&slot_of(page_id)) {
        Some(content) => collect_images(file, content, resources, frame.geom, page_number),
        None => {
            let empty: PdfContent = PdfContent::empty();
            collect_images(file, &empty, resources, frame.geom, page_number)
        },
    };
    let (annots, hyperlinks) = match collect_annotations(file, page, frame.geom, page_number) {
        Ok(found) => found,
        Err(_) => (Vec::new(), Vec::new()),
    };
    proof {
        assert(annots@.len() == 0 ==> types::seen(annots@) =~= Seq::<AnnotationView>::empty());
        assert(hyperlinks@.len() == 0 ==> types::seen(hyperlinks@) =~= Seq::<HyperlinkView>::empty());
    }
    Ok(PagePlan { page_number, frame, images, annots, hyperlinks })
}

/// Whether a page is the one planned, with the given text and drawings.
pub open spec fn completes(page: Page, view: PlanView, output: CollectorView) -> bool {
    let frame = view.frame;
    &&& page.page_number == view.page_number
    &&& page.rotation == frame.geom.rotation
    &&& page.width == frame.geom.width
    &&& page.height == frame.geom.height
    &&& page.bbox == frame.geom.whole_page()
    &&& page.mediabox == frame.mediabox
    &&& page.cropbox == frame.cropbox
    &&& page.trimbox == frame.trimbox
    &&& page.bleedbox == frame.bleedbox
    &&& page.artbox == frame.artbox
    &&& page.doctop_offset == frame.geom.doctop_offset
    &&& page.is_original
    &&& types::seen(page.chars@) == output.chars
    &&& types::seen(page.lines@) == output.lines
    &&& types::seen(page.rects@) == output.rects
    &&& types::seen(page.curves@) == output.curves
    &&& types::seen(page.images@) == (match view.images {
        Ok(images) => images,
        Err(_) => Seq::empty(),
    })
    &&& types::seen(page.annots@) == view.annots
    &&& types::seen(page.hyperlinks@) == annotations::links_among(view.annots)
}

/// What is taken over of the text and drawings that were extracted: nothing where the
/// extraction failed, or where the images could not be read, so that it was not tried.
pub open spec fn usable(view: PlanView, output: Option<CollectorView>) -> CollectorView {
    match output {
        Some(o) => if view.images is Ok {
            o
        } else {
            CollectorView::empty(view.frame.geom, view.page_number)
        },
        None => CollectorView::empty(view.frame.geom, view.page_number),
    }
}

impl PagePlan {
    /// Whether text and drawings may be extracted: only where the images could be read.
    pub fn extracts(&self) -> (r: bool)
        ensures
            r == (self.images is Ok),
    {
        self.images.is_ok()
    }

    /// What collects the text and drawings of the page.
    pub fn collector(&self) -> (r: CollectorOutput)
        ensures
            r@ == CollectorView::empty(self.frame.geom, self.page_number),
    {
        CollectorOutput::new(self.frame.geom, self.page_number)
    }

    /// The page with the text and drawings that were extracted, if that did not fail.
    pub fn complete(self, extracted: Option<CollectorOutput>) -> (r: Page)
        ensures
            forall|view: PlanView| #[trigger]
                self.shows(view) ==> completes(
                    r,
                    view,
                    usable(
                        view,
                        match extracted {
                            Some(o) => Some(o@),
                            None => None,
                        },
                    ),
                ),
    {
        let ok: bool = self.images.is_ok();
        let geom: PageGeometry = self.frame.geom;
        let output: CollectorOutput = match extracted {
            Some(o) => {
                if ok {
                    o
                } else {
                    CollectorOutput::new(geom, self.page_number)
                }
            },
            None => CollectorOutput::new(geom, self.page_number),
        };
        let (chars, lines, rects, curves) = output.finish();
        let images: Vec<ImageObject> = match self.images {
            Ok(images) => images,
            Err(_) => Vec::new(),
        };
        assert(images@.len() == 0 ==> types::seen(images@) =~= Seq::<ImageView>::empty());
        Page {
            page_number: self.page_number,
            rotation: geom.rotation,
            width: geom.width,
            height: geom.height,
            bbox: geom.page_bbox(),
            mediabox: self.frame.mediabox,
            cropbox: self.frame.cropbox,
            trimbox: self.frame.trimbox,
            bleedbox: self.frame.bleedbox,
            artbox: self.frame.artbox,
            doctop_offset: geom.doctop_offset,
            is_original: true,
            chars,
            lines,
            rects,
            curves,
            images,
            annots: self.annots,
            hyperlinks: self.hyperlinks,
        }
    }
}

/// Whether a page is the one planned with what `extract` makes of its content. Content is
/// extracted only where the images could be read.
pub open spec fn made_with<F: Fn(CollectorOutput, usize) -> Option<CollectorOutput>>(
    extract: F,
    view: PlanView,
    page: Page,
) -> bool {
    let nothing = CollectorView::empty(view.frame.geom, view.page_number);
    if view.images is Ok {
        exists|start: CollectorOutput, end: Option<CollectorOutput>|
            {
                &&& start@ == nothing
                &&& #[trigger] call_ensures(extract, (start, view.page_number), end)
                &&& completes(
                    page,
                    view,
                    match end {
                        Some(o) => o@,
                        None => nothing,
                    },
                )
            }
    } else {
        completes(page, view, nothing)
    }
}

/// A page whose images cannot be read, be it that forms are nested without end, has neither
/// text nor drawings nor images; its boxes and annotations are there all the same.
pub proof fn law_unreadable_content_is_left_out<
    F: Fn(CollectorOutput, usize) -> Option<CollectorOutput>,
>(extract: F, view: PlanView, page: Page)
    requires
        view.images is Err,
        made_with(extract, view, page),
    ensures
        page.chars@.len() == 0,
        page.lines@.len() == 0,
        page.rects@.len() == 0,
        page.curves@.len() == 0,
        page.images@.len() == 0,
        page.mediabox == view.frame.mediabox,
        types::seen(page.annots@) == view.annots,
{
    assert(types::seen(page.chars@).len() == page.chars@.len());
    assert(types::seen(page.lines@).len() == page.lines@.len());
    assert(types::seen(page.rects@).len() == page.rects@.len());
    assert(types::seen(page.curves@).len() == page.curves@.len());
    assert(types::seen(page.images@).len() == page.images@.len());
}

/// Reads a page. What extracts its text and drawings is given the number of the page and
/// an empty collector, and gives the collector back, or nothing where it fails.
pub fn parse_page<F: Fn(CollectorOutput, usize) -> Option<CollectorOutput>>(
    file: &PdfFile,
    page_number: usize,
    page_id: ObjectId,
    doctop_offset: Float,
    extract: &F,
) -> (r: Result<Page, Error>)
    requires
        forall|start: CollectorOutput, n: usize| #[trigger] call_requires(*extract, (start, n)),
    ensures
        match planned(file@, page_number, page_id, doctop_offset) {
            Ok(view) => r matches Ok(page) && made_with(*extract, view, page),
            Err(e) => r matches Err(error) && error@ == e,
        },
{
    let plan: PagePlan = match plan_page(file, page_number, page_id, doctop_offset) {
        Ok(plan) => plan,
        Err(e) => {
            return Err(e);
        },
    };
    let extracted: Option<CollectorOutput> = if plan.extracts() {
        extract(plan.collector(), page_number)
    } else {
        None
    };
    Ok(plan.complete(extracted))
}

} // verus!
