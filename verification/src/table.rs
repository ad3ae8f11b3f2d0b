//! Tables on a page.

pub mod cells;
pub mod components;
pub mod csv_text;
pub mod edges;
pub mod finder;
pub mod grid;
pub mod intersections;
pub mod settings;
pub mod word_edges;

pub use csv_text::table_rows_to_csv;
pub use finder::TableFinder;
pub use grid::CellGroup;
pub use grid::Table;
pub use intersections::Crossing;
pub use intersections::Intersection;
pub use settings::ExplicitLine;
pub use settings::TableSettings;
pub use settings::TableStrategy;
