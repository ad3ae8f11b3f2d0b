//! The images that the content of a page shows.

use super::collector;
use super::forms;
use super::forms::close_form;
use super::forms::find_xobject;
use super::forms::open_form;
use super::forms::subtype_of;
use super::forms::MAX_FORM_XOBJECT_DEPTH;
use super::forms::MAX_XOBJECT_INVOCATIONS_PER_PAGE;
use super::numbers;
use super::numbers::transform_from_operands;
use super::page_geometry::PageGeometry;
use crate::error::Error;
use crate::error::ErrorView;
use crate::error::FileError;
use crate::float::Float;
use crate::float::ONE;
use crate::geometry;
use crate::geometry::bbox_from_points;
use crate::pdf::content;
use crate::pdf::content::read_operations;
use crate::pdf::file;
use crate::pdf::file::FileView;
use crate::pdf::file::PdfFile;
use crate::pdf::object;
use crate::pdf::object::obj_to_bool;
use crate::pdf::object::obj_to_i64;
use crate::pdf::object::ContentView;
use crate::pdf::object::DictView;
use crate::pdf::object::ObjectId;
use crate::pdf::object::ObjectView;
use crate::pdf::object::OperationView;
use crate::pdf::object::PdfContent;
use crate::pdf::object::PdfDictionary;
use crate::pdf::object::PdfObject;
use crate::pdf::object::PdfOperation;
use crate::pdf::text;
use crate::pdf::text::color_space_name;
use crate::pdf::text::obj_to_name_string;
use crate::strings;
use crate::transform::Transform;
use crate::types;
use crate::types::BBox;
use crate::types::ImageObject;
use crate::types::ImageView;
use crate::types::Point;
use vstd::prelude::*;

verus! {

/// The integer that a dictionary has under a key.
pub open spec fn whole_at(dict: DictView, key: Seq<char>) -> Option<i64> {
    match object::named(dict, key) {
        Some(o) => object::whole(o),
        None => None,
    }
}

/// The number of pixels that a dictionary has under a key; none where it is missing.
pub open spec fn pixels(dict: DictView, key: Seq<char>) -> u32 {
    match whole_at(dict, key) {
        Some(v) => v as u32,
        None => 0,
    }
}

/// The corners of the unit square on the page.
pub open spec fn image_corners(geom: PageGeometry, ctm: Transform) -> Seq<Point> {
    let zero = Float { bits: 0 };
    let one = Float { bits: ONE };
    seq![
        collector::placed(geom, ctm, zero, zero),
        collector::placed(geom, ctm, one, zero),
        collector::placed(geom, ctm, one, one),
        collector::placed(geom, ctm, zero, one),
    ]
}

/// An image that is shown with the given matrix, before it is known on which page.
pub open spec fn shown_image(
    geom: PageGeometry,
    name: Seq<char>,
    dict: DictView,
    ctm: Transform,
) -> ImageView {
    ImageView {
        object_type: "image"@,
        page_number: 0,
        place: geom.place(geometry::hull_of_points(image_corners(geom, ctm))->0),
        name,
        srcsize: (pixels(dict, "Width"@), pixels(dict, "Height"@)),
        bits: whole_at(dict, "BitsPerComponent"@),
        colorspace: match object::named(dict, "ColorSpace"@) {
            Some(o) => Some(text::space_name(o)),
            None => None,
        },
        imagemask: match object::named(dict, "ImageMask"@) {
            Some(o) => object::truth(o),
            None => None,
        },
        mcid: None,
        tag: None,
    }
}

/// What is fixed while the content of a page is read.
#[verifier::ext_equal]
pub struct Scene {
    pub file: FileView,
    pub geom: PageGeometry,
}

/// How far the reading of content has come: the matrix, those saved, the images shown so
/// far, and how many XObjects may still be used.
#[verifier::ext_equal]
pub struct Progress {
    pub ctm: Transform,
    pub saved: Seq<Transform>,
    pub images: Seq<ImageView>,
    pub budget: nat,
}

/// The matrix after the last saved one has been restored.
pub open spec fn restored(saved: Seq<Transform>) -> Transform {
    if saved.len() > 0 {
        saved.last()
    } else {
        Transform::neutral()
    }
}

/// The saved matrices without the last.
pub open spec fn popped(saved: Seq<Transform>) -> Seq<Transform> {
    if saved.len() > 0 {
        saved.drop_last()
    } else {
        saved
    }
}

/// The name that an operation has as its first operand.
pub open spec fn operand_name(op: OperationView) -> Option<Seq<char>> {
    if op.1.len() > 0 {
        text::name_text(op.1[0])
    } else {
        None
    }
}

/// The matrix that is in effect in a form.
pub open spec fn form_ctm(ctm: Transform, matrix: Option<Transform>) -> Transform {
    match matrix {
        Some(m) => m.then_apply(ctm),
        None => ctm,
    }
}

/// How far the reading has come after the first `n` operations.
pub open spec fn walked(
    scene: Scene,
    ops: Seq<OperationView>,
    n: nat,
    resources: DictView,
    depth: nat,
    active: Seq<ObjectId>,
    start: Progress,
) -> Result<Progress, forms::Failure<Progress>>
    decreases MAX_FORM_XOBJECT_DEPTH - depth, n,
{
    if n == 0 || n > ops.len() {
        Ok(start)
    } else {
        let op = ops[n - 1];
        match walked(scene, ops, (n - 1) as nat, resources, depth, active, start) {
            Err(e) => Err(e),
            Ok(s) => if op.0 == "q"@ {
                Ok(Progress { saved: s.saved.push(s.ctm), ..s })
            } else if op.0 == "Q"@ {
                Ok(Progress { ctm: restored(s.saved), saved: popped(s.saved), ..s })
            } else if op.0 == "cm"@ {
                if op.1.len() == 6 {
                    match numbers::matrix(op.1) {
                        Ok(m) => Ok(Progress { ctm: m.then_apply(s.ctm), ..s }),
                        Err(error) => Err(forms::Failure { error, at: s, active }),
                    }
                } else {
                    Ok(s)
                }
            } else if op.0 == "Do"@ {
                match operand_name(op) {
                    None => Ok(s),
                    Some(name) => match used(scene, resources, name, depth, active, s) {
                        Err(e) => Err(e),
                        Ok(Use::Done(after)) => Ok(after),
                        Ok(Use::Form(form, after)) => if depth < MAX_FORM_XOBJECT_DEPTH {
                            match walked(
                                scene,
                                form.ops,
                                form.ops.len(),
                                form.resources,
                                depth + 1,
                                form.active,
                                Progress {
                                    ctm: form_ctm(s.ctm, form.matrix),
                                    saved: Seq::empty(),
                                    ..after
                                },
                            ) {
                                Ok(inner) => Ok(
                                    Progress { images: inner.images, budget: inner.budget, ..s },
                                ),
                                Err(f) => Err(left_form(f, form.id, s)),
                            }
                        } else {
                            Ok(s)
                        },
                    },
                }
            } else {
                Ok(s)
            },
        }
    }
}

/// A failure in a form as one in the content that uses it: the form is read no more.
pub open spec fn left_form(
    f: forms::Failure<Progress>,
    id: Option<ObjectId>,
    s: Progress,
) -> forms::Failure<Progress> {
    forms::Failure {
        error: f.error,
        at: Progress { images: f.at.images, budget: f.at.budget, ..s },
        active: forms::deactivated(f.active, id),
    }
}

/// What the use of an XObject comes to: it is done with, or a form is to be read.
pub enum Use {
    Done(Progress),
    Form(forms::FormView, Progress),
}

/// What the use of an XObject comes to.
pub open spec fn used(
    scene: Scene,
    resources: DictView,
    name: Seq<char>,
    depth: nat,
    active: Seq<ObjectId>,
    s: Progress,
) -> Result<Use, forms::Failure<Progress>> {
    match forms::xobject(scene.file, resources, name) {
        Err(error) => Err(forms::Failure { error, at: s, active }),
        Ok(None) => Ok(Use::Done(s)),
        Ok(Some(target)) => if s.budget == 0 {
            Err(
                forms::Failure {
                    error: ErrorView::Message(
                        "page exceeds maximum of 10000 XObject invocations"@,
                    ),
                    at: s,
                    active,
                },
            )
        } else {
            let after = Progress { budget: (s.budget - 1) as nat, ..s };
            match file::dereferenced(scene.file, target) {
                Err(error) => Err(forms::Failure { error, at: after, active }),
                Ok(ObjectView::Stream(dict, form)) => if forms::subtype(dict) == Some("Image"@) {
                    Ok(
                        Use::Done(
                            Progress {
                                images: after.images.push(
                                    shown_image(scene.geom, name, dict, s.ctm),
                                ),
                                ..after
                            },
                        ),
                    )
                } else if forms::subtype(dict) == Some("Form"@) {
                    match forms::opened(scene.file, resources, target, dict, form, depth, active) {
                        Err(error) => Err(
                            forms::Failure {
                                error,
                                at: after,
                                active: forms::left_active(
                                    scene.file,
                                    resources,
                                    target,
                                    dict,
                                    depth,
                                    active,
                                ),
                            },
                        ),
                        Ok(opened) => Ok(Use::Form(opened, after)),
                    }
                } else {
                    Ok(Use::Done(after))
                },
                Ok(_) => Ok(Use::Done(after)),
            }
        },
    }
}

/// The images that the content of a page shows.
pub open spec fn images_in(
    scene: Scene,
    content: ContentView,
    resources: DictView,
    page_number: usize,
) -> Result<Seq<ImageView>, ErrorView> {
    match content::operations_of(content) {
        None => Err(ErrorView::Lopdf(FileError::InvalidContentStream)),
        Some(ops) => match walked(
            scene,
            ops,
            ops.len(),
            resources,
            0,
            Seq::empty(),
            Progress {
                ctm: Transform::neutral(),
                saved: Seq::empty(),
                images: Seq::empty(),
                budget: MAX_XOBJECT_INVOCATIONS_PER_PAGE as nat,
            },
        ) {
            Ok(s) => Ok(numbered(s.images, page_number)),
            Err(f) => Err(f.error),
        },
    }
}

/// The images as those of a page.
pub open spec fn numbered(images: Seq<ImageView>, page_number: usize) -> Seq<ImageView> {
    images.map_values(|image: ImageView| ImageView { page_number, ..image })
}

/// Reading shows nothing twice and takes nothing back: the images shown before come first,
/// and every further one is paid for with the use of an XObject.
pub proof fn law_images_are_paid_for(
    scene: Scene,
    ops: Seq<OperationView>,
    n: nat,
    resources: DictView,
    depth: nat,
    active: Seq<ObjectId>,
    start: Progress,
)
    requires
        walked(scene, ops, n, resources, depth, active, start) is Ok,
    ensures
        start.images.is_prefix_of(
            walked(scene, ops, n, resources, depth, active, start)->Ok_0.images,
        ),
        walked(scene, ops, n, resources, depth, active, start)->Ok_0.images.len() + walked(
            scene,
            ops,
            n,
            resources,
            depth,
            active,
            start,
        )->Ok_0.budget <= start.images.len() + start.budget,
    decreases MAX_FORM_XOBJECT_DEPTH - depth, n,
{
    if 0 < n <= ops.len() {
        let op = ops[n - 1];
        law_images_are_paid_for(scene, ops, (n - 1) as nat, resources, depth, active, start);
        let s = walked(scene, ops, (n - 1) as nat, resources, depth, active, start)->Ok_0;
        reveal_strlit("q");
        reveal_strlit("Q");
        reveal_strlit("cm");
        reveal_strlit("Do");
        if op.0 == "Do"@ {
            assert("Do"@[0] == 'D' && "q"@[0] == 'q' && "Q"@[0] == 'Q' && "cm"@[0] == 'c');
            if let Some(name) = operand_name(op) {
                if let Ok(Use::Form(form, after)) = used(scene, resources, name, depth, active, s) {
                    if depth < MAX_FORM_XOBJECT_DEPTH {
                        let inner = Progress {
                            ctm: form_ctm(s.ctm, form.matrix),
                            saved: Seq::empty(),
                            ..after
                        };
                        law_images_are_paid_for(
                            scene,
                            form.ops,
                            form.ops.len(),
                            form.resources,
                            depth + 1,
                            form.active,
                            inner,
                        );
                    }
                }
            }
        }
    }
}

/// A page shows at most as many images as it may use XObjects.
pub proof fn law_images_are_limited(
    scene: Scene,
    content: ContentView,
    resources: DictView,
    page_number: usize,
)
    requires
        images_in(scene, content, resources, page_number) is Ok,
    ensures
        images_in(scene, content, resources, page_number)->Ok_0.len()
            <= MAX_XOBJECT_INVOCATIONS_PER_PAGE,
{
    let ops = content::operations_of(content)->0;
    law_images_are_paid_for(
        scene,
        ops,
        ops.len(),
        resources,
        0,
        Seq::empty(),
        Progress {
            ctm: Transform::neutral(),
            saved: Seq::empty(),
            images: Seq::empty(),
            budget: MAX_XOBJECT_INVOCATIONS_PER_PAGE as nat,
        },
    );
}

struct ImageWalker<'a> {
    file: &'a PdfFile,
    geom: PageGeometry,
    images: Vec<ImageObject>,
    active_forms: Vec<ObjectId>,
    remaining_xobject_invocations: usize,
}

fn whole_of(dict: &PdfDictionary, key: &str) -> (r: Option<i64>)
    ensures
        r == whole_at(dict@, key@),
{
    match dict.get(key) {
        Some(o) => obj_to_i64(o),
        None => None,
    }
}

fn pixels_of(dict: &PdfDictionary, key: &str) -> (r: u32)
    ensures
        r == pixels(dict@, key@),
{
    match whole_of(dict, key) {
        Some(v) => v as u32,
        None => 0,
    }
}

/// The name that an operation has as its first operand.
pub fn first_name(operands: &Vec<PdfObject>) -> (r: Option<String>)
    ensures
        types::seen_text(r) == (if operands@.len() > 0 {
            text::name_text(operands@[0]@)
        } else {
            None
        }),
{
    if operands.len() > 0 {
        obj_to_name_string(&operands[0])
    } else {
        None
    }
}

impl<'a> ImageWalker<'a> {
    spec fn scene(self) -> Scene {
        Scene { file: self.file@, geom: self.geom }
    }

    /// Whether the reading stopped as described.
    spec fn stopped(
        self,
        f: forms::Failure<Progress>,
        r: Result<(), Error>,
    ) -> bool {
        &&& r matches Err(error) && error@ == f.error
        &&& types::seen(self.images@) == f.at.images
        &&& self.remaining_xobject_invocations == f.at.budget
        &&& self.active_forms@ == f.active
    }

    spec fn progress(self, ctm: Transform, saved: Seq<Transform>) -> Progress {
        Progress {
            ctm,
            saved,
            images: types::seen(self.images@),
            budget: self.remaining_xobject_invocations as nat,
        }
    }

    fn walk_stream(
        &mut self,
        ops: &Vec<PdfOperation>,
        resources: &PdfDictionary,
        initial_ctm: Transform,
        form_depth: usize,
    ) -> (r: Result<(), Error>)
        requires
            form_depth <= MAX_FORM_XOBJECT_DEPTH,
        ensures
            final(self).scene() == old(self).scene(),
            match walked(
                old(self).scene(),
                types::seen(ops@),
                ops@.len(),
                resources@,
                form_depth as nat,
                old(self).active_forms@,
                old(self).progress(initial_ctm, Seq::empty()),
            ) {
                Ok(s) => r is Ok && final(self).active_forms@ == old(self).active_forms@
                    && final(self).progress(s.ctm, s.saved) == s,
                Err(f) => final(self).stopped(f, r),
            },
        decreases MAX_FORM_XOBJECT_DEPTH - form_depth, 1int,
    {
        let ghost scene = self.scene();
        let ghost active = self.active_forms@;
        let ghost start = self.progress(initial_ctm, Seq::empty());
        let ghost all = types::seen(ops@);
        let n: usize = ops.len();
        let mut ctm: Transform = initial_ctm;
        let mut stack: Vec<Transform> = Vec::new();
        assert(stack@ =~= Seq::<Transform>::empty());
        for i in 0..n
            invariant
                n == ops@.len(),
                all == types::seen(ops@),
                form_depth <= MAX_FORM_XOBJECT_DEPTH,
                self.scene() == scene,
                self.active_forms@ == active,
                scene == old(self).scene(),
                active == old(self).active_forms@,
                start == old(self).progress(initial_ctm, Seq::empty()),
                walked(scene, all, i as nat, resources@, form_depth as nat, active, start) == Ok::<
                    Progress,
                    forms::Failure<Progress>,
                >(self.progress(ctm, stack@)),
        {
            let op: &PdfOperation = &ops[i];
            let ghost s = self.progress(ctm, stack@);
            let ghost next = walked(
                scene,
                all,
                (i + 1) as nat,
                resources@,
                form_depth as nat,
                active,
                start,
            );
            proof {
                object::lemma_operation_view(*op);
                assert(all[i as int] == op@);
                if next is Err {
                    lemma_stopped(
                        scene,
                        all,
                        (i + 1) as nat,
                        n as nat,
                        resources@,
                        form_depth as nat,
                        active,
                        start,
                    );
                }
            }
            if strings::same_text(op.operator.as_str(), "q") {
                stack.push(ctm);
                assert(next == Ok::<Progress, forms::Failure<Progress>>(self.progress(ctm, stack@)));
            } else if strings::same_text(op.operator.as_str(), "Q") {
                ctm = match stack.pop() {
                    Some(m) => m,
                    None => Transform::identity(),
                };
                assert(stack@ =~= popped(s.saved));
                assert(next == Ok::<Progress, forms::Failure<Progress>>(self.progress(ctm, stack@)));
            } else if strings::same_text(op.operator.as_str(), "cm") {
                if op.operands.len() == 6 {
                    match transform_from_operands(&op.operands) {
                        Ok(m) => {
                            ctm = ctm.pre_transform(m);
                        },
                        Err(e) => {
                            return Err(e);
                        },
                    }
                }
                assert(next == Ok::<Progress, forms::Failure<Progress>>(self.progress(ctm, stack@)));
            } else if strings::same_text(op.operator.as_str(), "Do") {
                if let Some(name) = first_name(&op.operands) {
                    assert(operand_name(op@) == Some(name@));
                    match self.handle_xobject(
                        resources,
                        name.as_str(),
                        ctm,
                        form_depth,
                        Ghost(stack@),
                    ) {
                        Ok(()) => (),
                        Err(e) => {
                            return Err(e);
                        },
                    }
                } else {
                    assert(operand_name(op@) is None);
                }
                assert(next == Ok::<Progress, forms::Failure<Progress>>(self.progress(ctm, stack@)));
            }
        }
        Ok(())
    }

    fn handle_xobject(
        &mut self,
        resources: &PdfDictionary,
        name: &str,
        ctm: Transform,
        form_depth: usize,
        Ghost(saved): Ghost<Seq<Transform>>,
    ) -> (r: Result<(), Error>)
        requires
            form_depth <= MAX_FORM_XOBJECT_DEPTH,
        ensures
            final(self).scene() == old(self).scene(),
            match finished(
                old(self).scene(),
                resources@,
                name@,
                form_depth as nat,
                old(self).active_forms@,
                old(self).progress(ctm, saved),
            ) {
                Ok(s) => r is Ok && final(self).active_forms@ == old(self).active_forms@
                    && final(self).progress(ctm, saved) == s,
                Err(f) => final(self).stopped(f, r),
            },
            used(
                old(self).scene(),
                resources@,
                name@,
                form_depth as nat,
                old(self).active_forms@,
                old(self).progress(ctm, saved),
            ) is Err ==> final(self).images@ == old(self).images@,
        decreases MAX_FORM_XOBJECT_DEPTH - form_depth, 0int,
    {
        let target: &PdfObject = match find_xobject(self.file, resources, name) {
            Err(e) => {
                return Err(e);
            },
            Ok(None) => {
                return Ok(());
            },
            Ok(Some(target)) => target,
        };
        if self.remaining_xobject_invocations == 0 {
            return Err(Error::message("page exceeds maximum of 10000 XObject invocations"));
        }
        self.remaining_xobject_invocations = self.remaining_xobject_invocations - 1;
        let file: &'a PdfFile = self.file;
        let stream: &crate::pdf::object::PdfStream = match file.deref_object(target) {
            Err(e) => {
                return Err(e);
            },
            Ok(PdfObject::Stream(stream)) => stream,
            Ok(_) => {
                return Ok(());
            },
        };
        let subtype: String = match subtype_of(&stream.dict) {
            Some(subtype) => subtype,
            None => {
                return Ok(());
            },
        };
        if strings::same_text(subtype.as_str(), "Image") {
            self.push_image(name, &stream.dict, ctm);
            Ok(())
        } else if strings::same_text(subtype.as_str(), "Form") {
            proof {
                reveal_strlit("Image");
                reveal_strlit("Form");
            }
            let form: forms::OpenForm = match open_form(
                file,
                resources,
                target,
                stream,
                form_depth,
                &mut self.active_forms,
            ) {
                Ok(form) => form,
                Err(e) => {
                    return Err(e);
                },
            };
            let next_ctm: Transform = match form.matrix {
                Some(m) => ctm.pre_transform(m),
                None => ctm,
            };
            proof {
                forms::law_opened_forms_close(
                    old(self).file@,
                    resources@,
                    target@,
                    form_depth as nat,
                    old(self).active_forms@,
                );
            }
            let result: Result<(), Error> = self.walk_stream(
                &form.ops,
                form.resources,
                next_ctm,
                form_depth + 1,
            );
            close_form(&mut self.active_forms, form.id);
            result
        } else {
            Ok(())
        }
    }

    fn push_image(&mut self, name: &str, dict: &PdfDictionary, ctm: Transform)
        ensures
            final(self).scene() == old(self).scene(),
            final(self).active_forms@ == old(self).active_forms@,
            final(self).remaining_xobject_invocations == old(self).remaining_xobject_invocations,
            types::seen(final(self).images@) == types::seen(old(self).images@).push(
                shown_image(old(self).geom, name@, dict@, ctm),
            ),
    {
        let zero: Float = Float { bits: 0 };
        let one: Float = Float { bits: ONE };
        let mut corners: Vec<Point> = Vec::new();
        corners.push(self.map_image_point(&ctm, zero, zero));
        corners.push(self.map_image_point(&ctm, one, zero));
        corners.push(self.map_image_point(&ctm, one, one));
        corners.push(self.map_image_point(&ctm, zero, one));
        assert(corners@ =~= image_corners(self.geom, ctm));
        assert(geometry::hull_of_points(corners@) is Some);
        let bbox: BBox = match bbox_from_points(&corners) {
            Some(bbox) => bbox,
            None => {
                return;
            },
        };
        let image: ImageObject = ImageObject {
            object_type: "image".to_owned(),
            page_number: 0,
            x0: bbox.x0,
            top: bbox.top,
            x1: bbox.x1,
            bottom: bbox.bottom,
            y0: self.geom.height.sub(bbox.bottom),
            y1: self.geom.height.sub(bbox.top),
            doctop: self.geom.doctop(bbox.top),
            width: bbox.width(),
            height: bbox.height(),
            name: name.to_owned(),
            srcsize: (pixels_of(dict, "Width"), pixels_of(dict, "Height")),
            bits: whole_of(dict, "BitsPerComponent"),
            colorspace: match dict.get("ColorSpace") {
                Some(o) => Some(color_space_name(o)),
                None => None,
            },
            imagemask: match dict.get("ImageMask") {
                Some(o) => obj_to_bool(o),
                None => None,
            },
            mcid: None,
            tag: None,
        };
        proof {
            types::lemma_seen_push(self.images@, image);
        }
        self.images.push(image);
    }

    fn map_image_point(&self, ctm: &Transform, x: Float, y: Float) -> (r: Point)
        ensures
            r == collector::placed(self.geom, *ctm, x, y),
    {
        let raw: Point = ctm.transform_point(x, y);
        self.geom.map_raw_point(raw.x, raw.y)
    }
}

/// How far the reading has come once an XObject has been used.
pub open spec fn finished(
    scene: Scene,
    resources: DictView,
    name: Seq<char>,
    depth: nat,
    active: Seq<ObjectId>,
    s: Progress,
) -> Result<Progress, forms::Failure<Progress>> {
    match used(scene, resources, name, depth, active, s) {
        Err(f) => Err(f),
        Ok(Use::Done(after)) => Ok(after),
        Ok(Use::Form(form, after)) => match walked(
            scene,
            form.ops,
            form.ops.len(),
            form.resources,
            depth + 1,
            form.active,
            Progress { ctm: form_ctm(s.ctm, form.matrix), saved: Seq::empty(), ..after },
        ) {
            Ok(inner) => Ok(Progress { images: inner.images, budget: inner.budget, ..s }),
            Err(f) => Err(left_form(f, form.id, s)),
        },
    }
}

/// Once the reading has failed, it has failed for good.
proof fn lemma_stopped(
    scene: Scene,
    ops: Seq<OperationView>,
    k: nat,
    n: nat,
    resources: DictView,
    depth: nat,
    active: Seq<ObjectId>,
    start: Progress,
)
    requires
        0 < k <= n <= ops.len(),
        walked(scene, ops, k, resources, depth, active, start) is Err,
    ensures
        walked(scene, ops, n, resources, depth, active, start) == walked(
            scene,
            ops,
            k,
            resources,
            depth,
            active,
            start,
        ),
    decreases n,
{
    if k < n {
        lemma_stopped(scene, ops, k, (n - 1) as nat, resources, depth, active, start);
    }
}

/// What is seen of the result of looking for images.
pub open spec fn seen_images(r: Result<Vec<ImageObject>, Error>) -> Result<
    Seq<ImageView>,
    ErrorView,
> {
    match r {
        Ok(images) => Ok(types::seen(images@)),
        Err(e) => Err(e@),
    }
}

/// The images that content shows.
pub fn collect_images(
    file: &PdfFile,
    content: &PdfContent,
    resources: &PdfDictionary,
    geom: PageGeometry,
    page_number: usize,
) -> (r: Result<Vec<ImageObject>, Error>)
    ensures
        seen_images(r) == images_in(
            (Scene { file: file@, geom }),
            content@,
            resources@,
            page_number,
        ),
{
    let ops: Vec<PdfOperation> = match read_operations(content) {
        Some(ops) => ops,
        None => {
            return Err(Error::Lopdf(FileError::InvalidContentStream));
        },
    };
    let mut walker: ImageWalker = ImageWalker {
        file,
        geom,
        images: Vec::new(),
        active_forms: Vec::new(),
        remaining_xobject_invocations: MAX_XOBJECT_INVOCATIONS_PER_PAGE,
    };
    let ghost before = walker.progress(Transform::neutral(), Seq::empty());
    assert(before.images =~= Seq::<ImageView>::empty());
    assert(walker.active_forms@ =~= Seq::<ObjectId>::empty());
    match walker.walk_stream(&ops, resources, Transform::identity(), 0) {
        Ok(()) => Ok(number_images(walker.images, page_number)),
        Err(e) => Err(e),
    }
}

/// The images as those of a page.
fn number_images(images: Vec<ImageObject>, page_number: usize) -> (r: Vec<ImageObject>)
    ensures
        types::seen(r@) == numbered(types::seen(images@), page_number),
{
    let ghost all = types::seen(images@);
    let mut images: Vec<ImageObject> = images;
    let n: usize = images.len();
    for i in 0..n
        invariant
            n == images@.len(),
            n == all.len(),
            types::seen(images@) =~= numbered(all, page_number).take(i as int) + all.skip(
                i as int,
            ),
    {
        let ghost before = images@;
        assert(types::seen(before)[i as int] == all[i as int]);
        images[i].page_number = page_number;
        assert(images@ =~= before.update(i as int, images@[i as int]));
        assert(images@[i as int]@ == numbered(all, page_number)[i as int]);
        assert(types::seen(images@) =~= types::seen(before).update(
            i as int,
            numbered(all, page_number)[i as int],
        ));
    }
    assert(types::seen(images@) =~= numbered(all, page_number));
    images
}

} // verus!
