//! What can go wrong.

use crate::pdf::object::ObjectId;
use crate::pdf::object::ObjectView;
use crate::pdf::object::PdfObject;
use vstd::prelude::*;

verus! {

/// What can be wrong with a file.
#[derive(Clone, Copy, Debug)]
pub enum FileError {
    /// There is no such object.
    ObjectNotFound(ObjectId),
    /// References lead to references for too long.
    ReferenceLimit,
    /// A content stream does not consist of operations.
    InvalidContentStream,
}

#[derive(Debug)]
pub enum Error {
    Lopdf(FileError),
    /// What was extracted from a page could not be taken over.
    PdfExtract(String),
    /// Comma-separated values could not be written, with the reason.
    Csv(String),
    InvalidPage { page_number: usize },
    InvalidBBox(String),
    /// An object is not of the kind expected; the object itself, where it is shown behind
    /// the text.
    Type(String, Option<PdfObject>),
    Unsupported(String),
    Message(String),
}

/// What is seen of an [`Error`].
pub enum ErrorView {
    Lopdf(FileError),
    PdfExtract(Seq<char>),
    Csv(Seq<char>),
    InvalidPage { page_number: usize },
    InvalidBBox(Seq<char>),
    Type(Seq<char>, Option<ObjectView>),
    Unsupported(Seq<char>),
    Message(Seq<char>),
}

impl View for Error {
    type V = ErrorView;

    open spec fn view(&self) -> ErrorView {
        match *self {
            Error::Lopdf(e) => ErrorView::Lopdf(e),
            Error::PdfExtract(text) => ErrorView::PdfExtract(text@),
            Error::Csv(text) => ErrorView::Csv(text@),
            Error::InvalidPage { page_number } => ErrorView::InvalidPage { page_number },
            Error::InvalidBBox(text) => ErrorView::InvalidBBox(text@),
            Error::Type(text, None) => ErrorView::Type(text@, None),
            Error::Type(text, Some(object)) => ErrorView::Type(text@, Some(object@)),
            Error::Unsupported(text) => ErrorView::Unsupported(text@),
            Error::Message(text) => ErrorView::Message(text@),
        }
    }
}

impl Error {
    /// The error with the given text.
    pub fn message(text: &str) -> (r: Error)
        ensures
            r@ == ErrorView::Message(text@),
    {
        Error::Message(text.to_owned())
    }

    /// The error that says what is not of the kind expected.
    pub fn wrong_type(text: &str) -> (r: Error)
        ensures
            r@ == ErrorView::Type(text@, None),
    {
        Error::Type(text.to_owned(), None)
    }

    /// The error that shows an object that is not of the kind expected.
    pub fn wrong_object(text: &str, object: &PdfObject) -> (r: Error)
        ensures
            r@ == ErrorView::Type(text@, Some(object@)),
    {
        Error::Type(text.to_owned(), Some(object.copy()))
    }
}

} // verus!
