//! A file: its objects, and how to get from one to another.

use super::object;
use super::object::obj_to_reference;
use super::object::ContentView;
use super::object::DictView;
use super::object::ObjectId;
use super::object::ObjectView;
use super::object::PdfContent;
use super::object::PdfDictionary;
use super::object::PdfObject;
use crate::error::Error;
use crate::error::ErrorView;
use crate::error::FileError;
use std::collections::HashMap;
use vstd::prelude::*;

verus! {

/// How many references may follow one another.
pub const REFERENCE_LIMIT: usize = 128;

/// How many nodes of the page tree a page may have above it.
pub const MAX_PAGE_PARENT_DEPTH: usize = 256;

/// What an object is stored under.
pub open spec fn slot(id: ObjectId) -> u64 {
    (id.0 * 0x1_0000 + id.1) as u64
}

pub fn slot_of(id: ObjectId) -> (r: u64)
    ensures
        r == slot(id),
{
    id.0 as u64 * 0x1_0000 + id.1 as u64
}

/// A file: its objects, its trailer, and the content of its pages.
#[derive(Debug)]
pub struct PdfFile {
    pub objects: HashMap<u64, PdfObject>,
    pub trailer: PdfDictionary,
    pub contents: HashMap<u64, PdfContent>,
}

/// What is seen of a [`PdfFile`].
pub struct FileView {
    pub objects: Map<u64, ObjectView>,
    pub trailer: DictView,
    pub contents: Map<u64, ContentView>,
}

impl View for PdfFile {
    type V = FileView;

    open spec fn view(&self) -> FileView {
        FileView {
            objects: self.objects@.map_values(|o: PdfObject| o@),
            trailer: self.trailer@,
            contents: self.contents@.map_values(|c: PdfContent| c@),
        }
    }
}

/// What is seen of the result of looking for an object.
pub open spec fn seen_found(r: Result<&PdfObject, Error>) -> Result<ObjectView, ErrorView> {
    match r {
        Ok(o) => Ok(o@),
        Err(e) => Err(e@),
    }
}

/// The object that an object leads to once `followed` references have been followed.
pub open spec fn resolved(file: FileView, object: ObjectView, followed: nat) -> Result<
    ObjectView,
    ErrorView,
>
    decreases REFERENCE_LIMIT + 1 - followed,
{
    match object {
        ObjectView::Reference(id) => if !file.objects.contains_key(slot(id)) {
            Err(ErrorView::Lopdf(FileError::ObjectNotFound(id)))
        } else if followed >= REFERENCE_LIMIT {
            Err(ErrorView::Lopdf(FileError::ReferenceLimit))
        } else {
            resolved(file, file.objects[slot(id)], followed + 1)
        },
        _ => Ok(object),
    }
}

/// The object with the given id, or that to which it leads.
pub open spec fn object_at(file: FileView, id: ObjectId) -> Result<ObjectView, ErrorView> {
    if file.objects.contains_key(slot(id)) {
        resolved(file, file.objects[slot(id)], 0)
    } else {
        Err(ErrorView::Lopdf(FileError::ObjectNotFound(id)))
    }
}

/// The object itself, or that to which a reference leads.
pub open spec fn dereferenced(file: FileView, object: ObjectView) -> Result<ObjectView, ErrorView> {
    match object {
        ObjectView::Reference(id) => object_at(file, id),
        _ => Ok(object),
    }
}

/// The dictionary that an object is or leads to; that of a stream too.
pub open spec fn dictionary_of(file: FileView, object: ObjectView) -> Result<DictView, ErrorView> {
    match dereferenced(file, object) {
        Ok(ObjectView::Dictionary(dict)) => Ok(dict),
        Ok(ObjectView::Stream(dict, _)) => Ok(dict),
        Ok(other) => Err(ErrorView::Type("expected dictionary, got "@, Some(other))),
        Err(e) => Err(e),
    }
}

/// The dictionary of a page or of a node of the page tree.
pub open spec fn page_dictionary(file: FileView, id: ObjectId) -> Result<DictView, ErrorView> {
    match object_at(file, id) {
        Ok(ObjectView::Dictionary(dict)) => Ok(dict),
        Ok(ObjectView::Stream(dict, _)) => Ok(dict),
        Ok(other) => Err(ErrorView::Type("page object is not a dictionary: "@, Some(other))),
        Err(e) => Err(e),
    }
}

/// The node above a page or a node of the page tree.
pub open spec fn parent(dict: DictView) -> Option<ObjectId> {
    match object::named(dict, "Parent"@) {
        Some(o) => object::target(o),
        None => None,
    }
}

/// What a page has under a key: its own value, or that of the nearest node above it.
/// `above` are the nodes below this one.
pub open spec fn inherited(file: FileView, id: ObjectId, key: Seq<char>, above: Seq<ObjectId>) -> Result<
    Option<ObjectView>,
    ErrorView,
>
    decreases MAX_PAGE_PARENT_DEPTH - above.len(),
{
    if above.len() >= MAX_PAGE_PARENT_DEPTH {
        Err(ErrorView::Message("page Parent chain exceeds maximum depth of 256"@))
    } else if above.contains(id) {
        Err(ErrorView::Message("cyclic page Parent chain"@))
    } else {
        match page_dictionary(file, id) {
            Err(e) => Err(e),
            Ok(dict) => match object::named(dict, key) {
                Some(value) => match dereferenced(file, value) {
                    Ok(o) => Ok(Some(o)),
                    Err(e) => Err(e),
                },
                None => match parent(dict) {
                    Some(next) => inherited(file, next, key, above.push(id)),
                    None => Ok(None),
                },
            },
        }
    }
}

/// Whether each node is the one above the node before it, where none but the last has a
/// value under the key.
pub open spec fn ascends(file: FileView, nodes: Seq<ObjectId>, key: Seq<char>) -> bool {
    forall|k: int|
        0 <= k < nodes.len() - 1 ==> (page_dictionary(file, #[trigger] nodes[k]) matches Ok(dict)
            && object::named(dict, key) is None && parent(dict) == Some(nodes[k + 1]))
}

/// What a page has under a key is the value of the nearest node that has one, counted from
/// the page itself upwards; it has none only where no node up to the topmost has one. No
/// node is passed twice.
pub proof fn law_nearest_value(file: FileView, id: ObjectId, key: Seq<char>) -> (nodes: Seq<ObjectId>)
    requires
        inherited(file, id, key, Seq::empty()) is Ok,
    ensures
        0 < nodes.len() <= MAX_PAGE_PARENT_DEPTH,
        nodes[0] == id,
        nodes.no_duplicates(),
        ascends(file, nodes, key),
        page_dictionary(file, nodes.last()) matches Ok(dict) && match inherited(
            file,
            id,
            key,
            Seq::empty(),
        )->Ok_0 {
            Some(value) => object::named(dict, key) matches Some(o) && dereferenced(file, o) == Ok::<
                ObjectView,
                ErrorView,
            >(value),
            None => object::named(dict, key) is None && parent(dict) is None,
        },
{
    lemma_climb(file, id, key, Seq::empty())
}

proof fn lemma_climb(file: FileView, id: ObjectId, key: Seq<char>, above: Seq<ObjectId>) -> (nodes:
    Seq<ObjectId>)
    requires
        inherited(file, id, key, above) is Ok,
    ensures
        0 < nodes.len() <= MAX_PAGE_PARENT_DEPTH - above.len(),
        nodes[0] == id,
        nodes.no_duplicates(),
        forall|k: int| 0 <= k < nodes.len() ==> !above.contains(#[trigger] nodes[k]),
        ascends(file, nodes, key),
        page_dictionary(file, nodes.last()) matches Ok(dict) && match inherited(
            file,
            id,
            key,
            above,
        )->Ok_0 {
            Some(value) => object::named(dict, key) matches Some(o) && dereferenced(file, o) == Ok::<
                ObjectView,
                ErrorView,
            >(value),
            None => object::named(dict, key) is None && parent(dict) is None,
        },
    decreases MAX_PAGE_PARENT_DEPTH - above.len(),
{
    let dict = page_dictionary(file, id)->Ok_0;
    match (object::named(dict, key), parent(dict)) {
        (None, Some(next)) => {
            let rest = lemma_climb(file, next, key, above.push(id));
            let nodes = seq![id] + rest;
            assert forall|k: int| 0 <= k < nodes.len() implies !above.contains(
                #[trigger] nodes[k],
            ) by {
                if k > 0 {
                    let x = rest[k - 1];
                    if above.contains(x) {
                        let j = choose|j: int| 0 <= j < above.len() && above[j] == x;
                        assert(above.push(id)[j] == x);
                    }
                }
            }
            assert(above.push(id)[above.len() as int] == id);
            assert forall|a: int, b: int|
                0 <= a < nodes.len() && 0 <= b < nodes.len() && a != b implies nodes[a] != nodes[b] by {
                if a > 0 {
                    assert(rest[a - 1] != id);
                }
                if b > 0 {
                    assert(rest[b - 1] != id);
                }
            }
            assert forall|k: int| 0 <= k < nodes.len() - 1 implies (page_dictionary(
                file,
                #[trigger] nodes[k],
            ) matches Ok(dict) && object::named(dict, key) is None && parent(dict) == Some(
                nodes[k + 1],
            )) by {
                if k > 0 {
                    assert(nodes[k] == rest[k - 1]);
                    assert(nodes[k + 1] == rest[k]);
                }
            }
            assert(nodes.last() == rest.last());
            nodes
        },
        _ => {
            let nodes = seq![id];
            assert(nodes.last() == id);
            nodes
        },
    }
}

impl PdfFile {
    /// The object with the given id, or that to which it leads.
    pub fn get_object(&self, id: ObjectId) -> (r: Result<&PdfObject, Error>)
        ensures
            seen_found(r) == object_at(self@, id),
    {
        broadcast use vstd::std_specs::hash::group_hash_axioms;

        let mut object: &PdfObject = match self.objects.get(&slot_of(id)) {
            Some(o) => o,
            None => {
                return Err(Error::Lopdf(FileError::ObjectNotFound(id)));
            },
        };
        let mut followed: usize = 0;
        loop
            invariant
                followed <= REFERENCE_LIMIT,
                resolved(self@, object@, followed as nat) == object_at(self@, id),
            decreases REFERENCE_LIMIT + 1 - followed,
        {
            match object {
                PdfObject::Reference(next) => {
                    match self.objects.get(&slot_of(*next)) {
                        Some(o) => {
                            if followed >= REFERENCE_LIMIT {
                                return Err(Error::Lopdf(FileError::ReferenceLimit));
                            }
                            object = o;
                            followed = followed + 1;
                        },
                        None => {
                            return Err(Error::Lopdf(FileError::ObjectNotFound(*next)));
                        },
                    }
                },
                _ => {
                    return Ok(object);
                },
            }
        }
    }

    /// The object itself, or that to which a reference leads.
    pub fn deref_object<'a>(&'a self, object: &'a PdfObject) -> (r: Result<&'a PdfObject, Error>)
        ensures
            seen_found(r) == dereferenced(self@, object@),
    {
        match object {
            PdfObject::Reference(id) => self.get_object(*id),
            _ => Ok(object),
        }
    }

    /// The dictionary that an object is or leads to; that of a stream too.
    pub fn object_to_dict<'a>(&'a self, object: &'a PdfObject) -> (r: Result<
        &'a PdfDictionary,
        Error,
    >)
        ensures
            seen_dictionary(r) == dictionary_of(self@, object@),
    {
        match self.deref_object(object) {
            Ok(PdfObject::Dictionary(dict)) => Ok(dict),
            Ok(PdfObject::Stream(stream)) => Ok(&stream.dict),
            Ok(other) => Err(Error::wrong_object("expected dictionary, got ", other)),
            Err(e) => Err(e),
        }
    }

    /// The dictionary of a page or of a node of the page tree.
    pub fn page_dict(&self, id: ObjectId) -> (r: Result<&PdfDictionary, Error>)
        ensures
            seen_dictionary(r) == page_dictionary(self@, id),
    {
        match self.get_object(id) {
            Ok(PdfObject::Dictionary(dict)) => Ok(dict),
            Ok(PdfObject::Stream(stream)) => Ok(&stream.dict),
            Ok(other) => Err(Error::wrong_object("page object is not a dictionary: ", other)),
            Err(e) => Err(e),
        }
    }

    /// What a page has under a key: its own value, or that of the nearest node above it.
    pub fn get_inherited_object(&self, id: ObjectId, key: &str) -> (r: Result<
        Option<&PdfObject>,
        Error,
    >)
        ensures
            seen_inherited(r) == inherited(self@, id, key@, Seq::empty()),
    {
        let mut visited: Vec<ObjectId> = Vec::new();
        let mut current: ObjectId = id;
        assert(visited@ =~= Seq::empty());
        while visited.len() < MAX_PAGE_PARENT_DEPTH
            invariant
                visited@.len() <= MAX_PAGE_PARENT_DEPTH,
                inherited(self@, id, key@, Seq::empty()) == inherited(
                    self@,
                    current,
                    key@,
                    visited@,
                ),
            decreases MAX_PAGE_PARENT_DEPTH - visited@.len(),
        {
            if holds_id(&visited, current) {
                return Err(Error::message("cyclic page Parent chain"));
            }
            let dict: &PdfDictionary = match self.page_dict(current) {
                Ok(dict) => dict,
                Err(e) => {
                    return Err(e);
                },
            };
            if let Some(value) = dict.get(key) {
                return match self.deref_object(value) {
                    Ok(o) => Ok(Some(o)),
                    Err(e) => Err(e),
                };
            }
            let next: Option<ObjectId> = match dict.get("Parent") {
                Some(o) => obj_to_reference(o),
                None => None,
            };
            match next {
                Some(next) => {
                    visited.push(current);
                    current = next;
                },
                None => {
                    return Ok(None);
                },
            }
        }
        Err(Error::message("page Parent chain exceeds maximum depth of 256"))
    }
}

/// What is seen of the result of looking for a dictionary.
pub open spec fn seen_dictionary(r: Result<&PdfDictionary, Error>) -> Result<DictView, ErrorView> {
    match r {
        Ok(d) => Ok(d@),
        Err(e) => Err(e@),
    }
}

/// What is seen of the result of looking for an inherited value.
pub open spec fn seen_inherited(r: Result<Option<&PdfObject>, Error>) -> Result<
    Option<ObjectView>,
    ErrorView,
> {
    match r {
        Ok(o) => Ok(object::seen_object(o)),
        Err(e) => Err(e@),
    }
}

/// Whether an id is among the given ones.
pub fn holds_id(ids: &Vec<ObjectId>, id: ObjectId) -> (r: bool)
    ensures
        r == ids@.contains(id),
{
    for i in 0..ids.len()
        invariant
            forall|k: int| 0 <= k < i ==> ids@[k] != id,
    {
        if ids[i].0 == id.0 && ids[i].1 == id.1 {
            assert(ids@[i as int] == id);
            return true;
        }
    }
    false
}

} // verus!
