//! What is on the pages of a file.

pub mod annotations;
pub mod collector;
pub mod document;
pub mod forms;
pub mod free_text;
pub mod images;
pub mod metadata;
pub mod numbers;
pub mod page;
pub mod page_geometry;
pub mod page_paths;
pub mod type3;
