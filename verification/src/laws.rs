//! What holds of the library as a whole, over all inputs.

pub mod cells;
pub mod chars;
pub mod drawing;
pub mod edges;
pub mod forms;
pub mod glyphs;
pub mod images;
pub mod notes;
pub mod pages;
pub mod places;
pub mod texts;
pub mod words;
