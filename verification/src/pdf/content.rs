//! The operations in a content stream.

use super::object::copy_operations;
use super::object::ContentView;
use super::object::Entry;
use super::object::Notation;
use super::object::OperationView;
use super::object::PdfContent;
use super::object::PdfDictionary;
use super::object::PdfObject;
use super::object::PdfOperation;
use crate::float::convert::Single;
use crate::types;
use lopdf::content::Content;
use lopdf::Object;
use vstd::prelude::*;

verus! {

/// An object as the crate that reads files has it.
#[verifier::external_type_specification]
#[verifier::external_body]
pub struct ExObject(lopdf::Object);

/// A dictionary as the crate that reads files has it.
#[verifier::external_type_specification]
#[verifier::external_body]
pub struct ExDictionary(lopdf::Dictionary);

/// The operations that the bytes of a content stream stand for, if any.
pub uninterp spec fn decoded_content(bytes: Seq<u8>) -> Option<Seq<OperationView>>;

/// What is seen of operations that may be missing.
pub open spec fn seen_operations(ops: Option<Vec<PdfOperation>>) -> Option<Seq<OperationView>> {
    match ops {
        Some(list) => Some(types::seen(list@)),
        None => None,
    }
}

/// An operand of `lopdf` as an object of this library: it holds the same values. No operand
/// is a stream where there is no image.
#[verifier::external_body]
fn from_lopdf(object: lopdf::Object) -> (r: PdfObject) {
    match object {
        Object::Null => PdfObject::Null,
        Object::Boolean(b) => PdfObject::Boolean(b),
        Object::Integer(i) => PdfObject::Integer(i),
        Object::Real(r) => PdfObject::Real(Single { bits: r.to_bits() }),
        Object::Name(n) => PdfObject::Name(n),
        Object::String(s, lopdf::StringFormat::Literal) => PdfObject::Text(s, Notation::Literal),
        Object::String(s, _) => PdfObject::Text(s, Notation::Hexadecimal),
        Object::Array(a) => PdfObject::Array(a.into_iter().map(from_lopdf).collect()),
        Object::Dictionary(d) => PdfObject::Dictionary(dictionary_from_lopdf(d)),
        Object::Stream(_) => PdfObject::Null,
        Object::Reference(id) => PdfObject::Reference(id),
    }
}

/// A dictionary of `lopdf` as one of this library, with the same entries.
#[verifier::external_body]
fn dictionary_from_lopdf(dict: lopdf::Dictionary) -> (r: PdfDictionary) {
    let entries = dict.into_iter().map(|(key, value)| Entry { key, value: from_lopdf(value) });
    PdfDictionary { entries: entries.collect() }
}

/// `lopdf::content::Content::decode` reads operations. It is left out where an image may be
/// among the bytes: reading the data of one, behind `BI` and `ID`, may panic.
#[verifier::external_body]
fn decode(bytes: &Vec<u8>) -> (r: Option<Vec<PdfOperation>>)
    requires
        !super::object::mentions_image(bytes@),
    ensures
        seen_operations(r) == decoded_content(bytes@),
{
    let content = Content::decode(bytes).ok()?;
    let convert = |op: lopdf::content::Operation| PdfOperation {
        operator: op.operator,
        operands: op.operands.into_iter().map(from_lopdf).collect(),
    };
    Some(content.operations.into_iter().map(convert).collect())
}

/// The bytes of a form: without its filters where they could be undone, else as they stand.
pub fn form_bytes(undone: Option<Vec<u8>>, raw: Vec<u8>) -> (r: Vec<u8>)
    ensures
        r@ == (match undone {
            Some(bytes) => bytes@,
            None => raw@,
        }),
{
    match undone {
        Some(bytes) => bytes,
        None => raw,
    }
}

/// The operations that content stands for, if any.
pub open spec fn operations_of(content: ContentView) -> Option<Seq<OperationView>> {
    match content {
        ContentView::Bytes(bytes) => decoded_content(bytes),
        ContentView::Operations(ops) => Some(ops),
        ContentView::Unreadable => None,
    }
}

/// The operations that content stands for, if any.
pub fn read_operations(content: &PdfContent) -> (r: Option<Vec<PdfOperation>>)
    ensures
        seen_operations(r) == operations_of(content@),
{
    match content {
        PdfContent::Bytes(plain) => decode(plain.as_vec()),
        PdfContent::Operations(ops) => {
            proof {
                super::object::lemma_operations_view(*ops);
            }
            Some(copy_operations(ops))
        },
        PdfContent::Unreadable => None,
    }
}

} // verus!
