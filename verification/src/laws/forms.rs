//! What holds of the forms that content uses.

use crate::error::ErrorView;
use crate::parse::forms;
use crate::parse::forms::MAX_FORM_XOBJECT_DEPTH;
use crate::pdf::content;
use crate::pdf::file;
use crate::pdf::file::FileView;
use crate::pdf::object;
use crate::pdf::object::ContentView;
use crate::pdf::object::DictView;
use crate::pdf::object::ObjectId;
use crate::pdf::object::ObjectView;
use crate::pdf::object::OperationView;
use crate::transform::Transform;
use vstd::prelude::*;

verus! {

/// Whether an object is an array of the six numbers of a matrix.
pub open spec fn six(o: ObjectView, m: Transform) -> bool {
    o matches ObjectView::Array(items) && {
        &&& items.len() == 6
        &&& object::number(items[0]) == Some(m.m11)
        &&& object::number(items[1]) == Some(m.m12)
        &&& object::number(items[2]) == Some(m.m21)
        &&& object::number(items[3]) == Some(m.m22)
        &&& object::number(items[4]) == Some(m.m31)
        &&& object::number(items[5]) == Some(m.m32)
    }
}

/// A form that is neither nested too deeply nor within itself can be read: it has the
/// resources and the matrix of its own dictionary, the resources of what uses it where it
/// has none, and the operations of its own content.
pub proof fn law_form_has_its_own(
    file: FileView,
    outer: DictView,
    target: ObjectView,
    dict: DictView,
    form: ContentView,
    depth: nat,
    active: Seq<ObjectId>,
    ops: Seq<OperationView>,
)
    requires
        depth < MAX_FORM_XOBJECT_DEPTH,
        target matches ObjectView::Reference(id) ==> !active.contains(id),
        content::operations_of(form) == Some(ops),
    ensures
        ({
            let r = forms::opened(file, outer, target, dict, form, depth, active);
            &&& object::named(dict, "Resources"@) is None && object::named(dict, "Matrix"@) is None
                ==> r is Ok
            &&& r matches Ok(view) ==> {
                &&& view.ops == ops
                &&& object::named(dict, "Resources"@) is None ==> view.resources == outer
                &&& object::named(dict, "Resources"@) matches Some(o) ==> file::dictionary_of(
                    file,
                    o,
                ) == Ok::<DictView, ErrorView>(view.resources)
                &&& object::named(dict, "Matrix"@) is None ==> view.matrix is None
                &&& object::named(dict, "Matrix"@) matches Some(o) ==> (view.matrix matches Some(
                    m,
                ) && six(o, m))
                &&& target matches ObjectView::Reference(id) ==> view.active == active.push(id)
            }
            &&& object::named(dict, "Resources"@) is None ==> (object::named(dict, "Matrix"@)
                matches Some(o) ==> forall|m: Transform| #[trigger] six(o, m) ==> r is Ok)
        }),
{
}

/// A form that is being read, or is nested too deeply, is not read again.
pub proof fn law_form_within_itself_is_refused(
    file: FileView,
    outer: DictView,
    id: ObjectId,
    dict: DictView,
    form: ContentView,
    depth: nat,
    active: Seq<ObjectId>,
)
    ensures
        active.contains(id) || depth >= MAX_FORM_XOBJECT_DEPTH ==> forms::opened(
            file,
            outer,
            ObjectView::Reference(id),
            dict,
            form,
            depth,
            active,
        ) is Err,
{
}

} // verus!
