//! The objects of a PDF file.

pub mod content;
pub mod file;
pub mod object;
pub mod text;
