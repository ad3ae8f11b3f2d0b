//! Page geometry and table extraction for PDF documents.

pub mod clustering;
pub mod error;
pub mod float;
pub mod geometry;
pub mod laws;
pub mod order;
pub mod parse;
pub mod pdf;
pub mod strings;
pub mod table;
pub mod transform;
pub mod types;
