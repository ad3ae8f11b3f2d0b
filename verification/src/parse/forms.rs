//! The XObjects that content refers to, and the content of those that are forms.

use super::numbers;
use super::numbers::transform_from_obj;
use crate::error::Error;
use crate::error::ErrorView;
use crate::error::FileError;
use crate::pdf::content;
use crate::pdf::content::read_operations;
use crate::pdf::file;
use crate::pdf::file::holds_id;
use crate::pdf::file::FileView;
use crate::pdf::file::PdfFile;
use crate::pdf::object;
use crate::pdf::object::obj_to_reference;
use crate::pdf::object::ContentView;
use crate::pdf::object::DictView;
use crate::pdf::object::ObjectId;
use crate::pdf::object::ObjectView;
use crate::pdf::object::OperationView;
use crate::pdf::object::PdfDictionary;
use crate::pdf::object::PdfObject;
use crate::pdf::object::PdfOperation;
use crate::pdf::object::PdfStream;
use crate::pdf::text;
use crate::pdf::text::obj_to_name_string;
use crate::strings;
use crate::transform::Transform;
use crate::types;
use vstd::prelude::*;

verus! {

/// How deeply forms may be nested.
pub const MAX_FORM_XOBJECT_DEPTH: usize = 64;

/// How many XObjects the content of a page may use.
pub const MAX_XOBJECT_INVOCATIONS_PER_PAGE: usize = 10_000;

/// What the resources have under a name, if anything.
pub open spec fn xobject(file: FileView, resources: DictView, name: Seq<char>) -> Result<
    Option<ObjectView>,
    ErrorView,
> {
    match object::named(resources, "XObject"@) {
        None => Ok(None),
        Some(all) => match file::dictionary_of(file, all) {
            Err(e) => Err(e),
            Ok(dict) => Ok(object::named(dict, name)),
        },
    }
}

/// What the resources have under a name, if anything.
pub fn find_xobject<'a>(file: &'a PdfFile, resources: &'a PdfDictionary, name: &str) -> (r: Result<
    Option<&'a PdfObject>,
    Error,
>)
    ensures
        file::seen_inherited(r) == xobject(file@, resources@, name@),
{
    match resources.get("XObject") {
        None => Ok(None),
        Some(all) => match file.object_to_dict(all) {
            Err(e) => Err(e),
            Ok(dict) => Ok(dict.get(name)),
        },
    }
}

/// What kind of XObject a stream is.
pub open spec fn subtype(dict: DictView) -> Option<Seq<char>> {
    match object::named(dict, "Subtype"@) {
        Some(o) => text::name_text(o),
        None => None,
    }
}

/// What kind of XObject a stream is.
pub fn subtype_of(dict: &PdfDictionary) -> (r: Option<String>)
    ensures
        types::seen_text(r) == subtype(dict@),
{
    match dict.get("Subtype") {
        Some(o) => obj_to_name_string(o),
        None => None,
    }
}

/// A form whose content is about to be read.
pub struct FormView {
    pub ops: Seq<OperationView>,
    pub resources: DictView,
    pub matrix: Option<Transform>,
    pub id: Option<ObjectId>,
    pub active: Seq<ObjectId>,
}

/// Why the reading of content stopped, how far it had come, and which forms count as being
/// read.
pub struct Failure<S> {
    pub error: ErrorView,
    pub at: S,
    pub active: Seq<ObjectId>,
}

/// The ids of the forms being read once the one with the given id is read no more.
pub open spec fn without_id(active: Seq<ObjectId>, id: ObjectId) -> Seq<ObjectId>
    decreases active.len(),
{
    if active.len() == 0 {
        Seq::empty()
    } else {
        let before = without_id(active.drop_last(), id);
        if active.last() == id {
            before
        } else {
            before.push(active.last())
        }
    }
}

/// The ids of the forms being read once a form is read no more.
pub open spec fn deactivated(active: Seq<ObjectId>, id: Option<ObjectId>) -> Seq<ObjectId> {
    match id {
        Some(id) => without_id(active, id),
        None => active,
    }
}

/// Taking an id off undoes what putting it on did.
pub proof fn law_closing_undoes_opening(active: Seq<ObjectId>, id: ObjectId)
    requires
        !active.contains(id),
    ensures
        without_id(active.push(id), id) == active,
{
    lemma_without_missing(active, id);
    assert(active.push(id).drop_last() =~= active);
}

proof fn lemma_without_missing(active: Seq<ObjectId>, id: ObjectId)
    requires
        !active.contains(id),
    ensures
        without_id(active, id) == active,
    decreases active.len(),
{
    if active.len() > 0 {
        assert(active.last() == active[active.len() - 1]);
        assert forall|i: int| 0 <= i < active.drop_last().len() implies active.drop_last()[i] != id by {
            assert(active[i] != id);
        }
        lemma_without_missing(active.drop_last(), id);
        assert(active.drop_last().push(active.last()) =~= active);
    } else {
        assert(active =~= Seq::<ObjectId>::empty());
    }
}

/// Takes an id off the forms being read.
pub fn close_form(active: &mut Vec<ObjectId>, id: Option<ObjectId>)
    ensures
        final(active)@ == deactivated(old(active)@, id),
{
    let id: ObjectId = match id {
        Some(id) => id,
        None => {
            return;
        },
    };
    let mut out: Vec<ObjectId> = Vec::new();
    for i in 0..active.len()
        invariant
            active@ == old(active)@,
            out@ == without_id(active@.take(i as int), id),
    {
        assert(active@.take(i + 1).drop_last() =~= active@.take(i as int));
        if active[i].0 != id.0 || active[i].1 != id.1 {
            out.push(active[i]);
        }
    }
    assert(active@.take(active@.len() as int) =~= active@);
    *active = out;
}

/// The ids of the forms being read once `target` is read too.
pub open spec fn activated(active: Seq<ObjectId>, target: ObjectView) -> Seq<ObjectId> {
    match object::target(target) {
        Some(id) => active.push(id),
        None => active,
    }
}

/// The resources of a form: its own, else those of what uses it.
pub open spec fn form_resources(file: FileView, dict: DictView, outer: DictView) -> Result<
    DictView,
    ErrorView,
> {
    match object::named(dict, "Resources"@) {
        Some(o) => file::dictionary_of(file, o),
        None => Ok(outer),
    }
}

/// The matrix of a form, if it has one.
pub open spec fn form_matrix(dict: DictView) -> Result<Option<Transform>, ErrorView> {
    match object::named(dict, "Matrix"@) {
        Some(o) => match numbers::matrix_of(o) {
            Ok(m) => Ok(Some(m)),
            Err(e) => Err(e),
        },
        None => Ok(None),
    }
}

/// The form that `target` leads to. It may not be nested too deeply nor within itself.
pub open spec fn opened(
    file: FileView,
    outer: DictView,
    target: ObjectView,
    dict: DictView,
    form: ContentView,
    depth: nat,
    active: Seq<ObjectId>,
) -> Result<FormView, ErrorView> {
    if depth >= MAX_FORM_XOBJECT_DEPTH {
        Err(ErrorView::Message("Form XObject nesting exceeds maximum depth of 64"@))
    } else if object::target(target) matches Some(id) && active.contains(id) {
        Err(ErrorView::Message("cyclic Form XObject reference"@))
    } else {
        match (form_resources(file, dict, outer), form_matrix(dict), content::operations_of(form)) {
            (Err(e), _, _) => Err(e),
            (_, Err(e), _) => Err(e),
            (_, _, None) => Err(ErrorView::Lopdf(FileError::InvalidContentStream)),
            (Ok(resources), Ok(matrix), Some(ops)) => Ok(
                FormView {
                    ops,
                    resources,
                    matrix,
                    id: object::target(target),
                    active: activated(active, target),
                },
            ),
        }
    }
}

/// The ids of the forms being read once a form could not be opened. One whose resources or
/// whose matrix could not be read still counts.
pub open spec fn left_active(
    file: FileView,
    outer: DictView,
    target: ObjectView,
    dict: DictView,
    depth: nat,
    active: Seq<ObjectId>,
) -> Seq<ObjectId> {
    if depth >= MAX_FORM_XOBJECT_DEPTH || (object::target(target) matches Some(id)
        && active.contains(id)) {
        active
    } else if form_resources(file, dict, outer) is Err || form_matrix(dict) is Err {
        activated(active, target)
    } else {
        active
    }
}

/// A form is read only where fewer than the maximum are open around it, and never within
/// itself: the forms being read are all different, and at most as many as they are deep.
pub proof fn law_forms_nest(
    file: FileView,
    outer: DictView,
    target: ObjectView,
    dict: DictView,
    form: ContentView,
    depth: nat,
    active: Seq<ObjectId>,
)
    requires
        opened(file, outer, target, dict, form, depth, active) is Ok,
        active.no_duplicates(),
        active.len() <= depth,
    ensures
        depth + 1 <= MAX_FORM_XOBJECT_DEPTH,
        opened(file, outer, target, dict, form, depth, active)->Ok_0.active.no_duplicates(),
        opened(file, outer, target, dict, form, depth, active)->Ok_0.active.len() <= depth + 1,
{
    if let Some(id) = object::target(target) {
        assert forall|i: int, j: int|
            0 <= i < j < active.push(id).len() implies active.push(id)[i] != active.push(id)[j] by {
            assert(active.push(id)[i] == active[i]);
        }
    }
}

/// A form whose content is about to be read.
pub struct OpenForm<'a> {
    pub ops: Vec<PdfOperation>,
    pub resources: &'a PdfDictionary,
    pub matrix: Option<Transform>,
    pub id: Option<ObjectId>,
}

/// Whether a form opened is the one described, and `active` are the forms being read then.
pub open spec fn is_opened(form: OpenForm, view: FormView, active: Seq<ObjectId>) -> bool {
    &&& types::seen(form.ops@) == view.ops
    &&& form.resources@ == view.resources
    &&& form.matrix == view.matrix
    &&& form.id == view.id
    &&& active == view.active
}

/// The form that `target` leads to. It may not be nested too deeply nor within itself.
pub fn open_form<'a>(
    file: &'a PdfFile,
    outer: &'a PdfDictionary,
    target: &PdfObject,
    stream: &'a PdfStream,
    depth: usize,
    active: &mut Vec<ObjectId>,
) -> (r: Result<OpenForm<'a>, Error>)
    ensures
        match opened(
            file@,
            outer@,
            target@,
            stream.dict@,
            stream.content@,
            depth as nat,
            old(active)@,
        ) {
            Ok(view) => r matches Ok(form) && is_opened(form, view, final(active)@) && depth
                < MAX_FORM_XOBJECT_DEPTH,
            Err(e) => r matches Err(error) && error@ == e && final(active)@ == left_active(
                file@,
                outer@,
                target@,
                stream.dict@,
                depth as nat,
                old(active)@,
            ),
        },
{
    if depth >= MAX_FORM_XOBJECT_DEPTH {
        return Err(Error::message("Form XObject nesting exceeds maximum depth of 64"));
    }
    let id: Option<ObjectId> = obj_to_reference(target);
    if let Some(id) = id {
        if holds_id(active, id) {
            return Err(Error::message("cyclic Form XObject reference"));
        }
        active.push(id);
    }
    let resources: &PdfDictionary = match stream.dict.get("Resources") {
        Some(o) => match file.object_to_dict(o) {
            Ok(dict) => dict,
            Err(e) => {
                return Err(e);
            },
        },
        None => outer,
    };
    let matrix: Option<Transform> = match stream.dict.get("Matrix") {
        Some(o) => match transform_from_obj(o) {
            Ok(m) => Some(m),
            Err(e) => {
                return Err(e);
            },
        },
        None => None,
    };
    let ops: Vec<PdfOperation> = match read_operations(&stream.content) {
        Some(ops) => ops,
        None => {
            proof {
                if let Some(id) = id {
                    law_closing_undoes_opening(old(active)@, id);
                }
            }
            close_form(active, id);
            return Err(Error::Lopdf(FileError::InvalidContentStream));
        },
    };
    Ok(OpenForm { ops, resources, matrix, id })
}

/// The form that `target` leads to, if it leads to one.
pub open spec fn form_at(
    file: FileView,
    outer: DictView,
    target: ObjectView,
    depth: nat,
    active: Seq<ObjectId>,
) -> Result<Option<FormView>, ErrorView> {
    match file::dereferenced(file, target) {
        Err(e) => Err(e),
        Ok(ObjectView::Stream(dict, form)) => if subtype(dict) == Some("Form"@) {
            match opened(file, outer, target, dict, form, depth, active) {
                Err(e) => Err(e),
                Ok(view) => Ok(Some(view)),
            }
        } else {
            Ok(None)
        },
        Ok(_) => Ok(None),
    }
}

/// Once a form that was opened is read no more, the forms being read are those from before.
pub proof fn law_opened_forms_close(
    file: FileView,
    outer: DictView,
    target: ObjectView,
    depth: nat,
    active: Seq<ObjectId>,
)
    ensures
        form_at(file, outer, target, depth, active) matches Ok(Some(view)) ==> deactivated(
            view.active,
            view.id,
        ) == active,
{
    if let Some(id) = object::target(target) {
        if !active.contains(id) {
            law_closing_undoes_opening(active, id);
        }
    }
}

/// The ids of the forms being read once a form could not be opened.
pub open spec fn left_active_at(
    file: FileView,
    outer: DictView,
    target: ObjectView,
    depth: nat,
    active: Seq<ObjectId>,
) -> Seq<ObjectId> {
    match file::dereferenced(file, target) {
        Ok(ObjectView::Stream(dict, _)) => if subtype(dict) == Some("Form"@) {
            left_active(file, outer, target, dict, depth, active)
        } else {
            active
        },
        _ => active,
    }
}

/// The form that `target` leads to, if it leads to one.
pub fn find_form<'a>(
    file: &'a PdfFile,
    outer: &'a PdfDictionary,
    target: &'a PdfObject,
    depth: usize,
    active: &mut Vec<ObjectId>,
) -> (r: Result<Option<OpenForm<'a>>, Error>)
    ensures
        match form_at(file@, outer@, target@, depth as nat, old(active)@) {
            Err(e) => r matches Err(error) && error@ == e && final(active)@ == left_active_at(
                file@,
                outer@,
                target@,
                depth as nat,
                old(active)@,
            ),
            Ok(None) => r matches Ok(None) && final(active)@ == old(active)@,
            Ok(Some(view)) => r matches Ok(Some(form)) && is_opened(form, view, final(active)@)
                && depth < MAX_FORM_XOBJECT_DEPTH,
        },
{
    let stream: &PdfStream = match file.deref_object(target) {
        Err(e) => {
            return Err(e);
        },
        Ok(PdfObject::Stream(stream)) => stream,
        Ok(_) => {
            return Ok(None);
        },
    };
    let is_form: bool = match subtype_of(&stream.dict) {
        Some(name) => strings::same_text(name.as_str(), "Form"),
        None => false,
    };
    if !is_form {
        return Ok(None);
    }
    match open_form(file, outer, target, stream, depth, active) {
        Ok(form) => Ok(Some(form)),
        Err(e) => Err(e),
    }
}

} // verus!
