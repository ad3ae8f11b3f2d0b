//! How tables are looked for.

use crate::error::Error;
use crate::float::Float;
use crate::float::ONE;
use crate::strings;
use crate::types::Edge;
use crate::types::EdgeView;
use crate::types::TextOptions;
use vstd::prelude::*;

verus! {

/// The bits of three.
pub const THREE: u64 = 0x4008_0000_0000_0000;

/// Where the boundaries of cells come from.
#[derive(Clone, Copy, PartialEq, Eq, Structural, Debug)]
pub enum TableStrategy {
    Lines,
    LinesStrict,
    Text,
    Explicit,
}

impl Default for TableStrategy {
    fn default() -> (r: TableStrategy)
        ensures
            r == TableStrategy::Lines,
    {
        TableStrategy::Lines
    }
}

impl TableStrategy {
    /// The strategy that a name stands for.
    pub open spec fn named(name: Seq<char>) -> Option<TableStrategy> {
        if name == "lines"@ {
            Some(TableStrategy::Lines)
        } else if name == "lines_strict"@ {
            Some(TableStrategy::LinesStrict)
        } else if name == "text"@ {
            Some(TableStrategy::Text)
        } else if name == "explicit"@ {
            Some(TableStrategy::Explicit)
        } else {
            None
        }
    }

    /// The strategy that `s` names.
    pub fn from_str(s: &str) -> (r: Result<TableStrategy, Error>)
        ensures
            match TableStrategy::named(s@) {
                Some(strategy) => r == Ok::<TableStrategy, Error>(strategy),
                None => r matches Err(Error::Message(text)) && text@
                    == "unknown table strategy: "@ + s@,
            },
    {
        if strings::same_text(s, "lines") {
            Ok(TableStrategy::Lines)
        } else if strings::same_text(s, "lines_strict") {
            Ok(TableStrategy::LinesStrict)
        } else if strings::same_text(s, "text") {
            Ok(TableStrategy::Text)
        } else if strings::same_text(s, "explicit") {
            Ok(TableStrategy::Explicit)
        } else {
            Err(Error::Message(strings::joined("unknown table strategy: ", s)))
        }
    }
}

impl std::str::FromStr for TableStrategy {
    type Err = Error;

    fn from_str(s: &str) -> (r: Result<TableStrategy, Error>)
        ensures
            match TableStrategy::named(s@) {
                Some(strategy) => r == Ok::<TableStrategy, Error>(strategy),
                None => r matches Err(Error::Message(text)) && text@
                    == "unknown table strategy: "@ + s@,
            },
    {
        TableStrategy::from_str(s)
    }
}

/// A boundary that the caller gives.
#[derive(Clone, Debug)]
pub enum ExplicitLine {
    Position(Float),
    Edge(Edge),
}

/// What is seen of an [`ExplicitLine`].
pub enum ExplicitLineView {
    Position(Float),
    Edge(EdgeView),
}

impl View for ExplicitLine {
    type V = ExplicitLineView;

    open spec fn view(&self) -> ExplicitLineView {
        match *self {
            ExplicitLine::Position(x) => ExplicitLineView::Position(x),
            ExplicitLine::Edge(edge) => ExplicitLineView::Edge(edge@),
        }
    }
}

#[derive(Clone, Debug)]
pub struct TableSettings {
    pub vertical_strategy: TableStrategy,
    pub horizontal_strategy: TableStrategy,
    pub explicit_vertical_lines: Vec<ExplicitLine>,
    pub explicit_horizontal_lines: Vec<ExplicitLine>,
    pub snap_tolerance: Float,
    pub snap_x_tolerance: Option<Float>,
    pub snap_y_tolerance: Option<Float>,
    pub join_tolerance: Float,
    pub join_x_tolerance: Option<Float>,
    pub join_y_tolerance: Option<Float>,
    pub edge_min_length: Float,
    pub edge_min_length_prefilter: Float,
    pub min_words_vertical: usize,
    pub min_words_horizontal: usize,
    pub intersection_tolerance: Float,
    pub intersection_x_tolerance: Option<Float>,
    pub intersection_y_tolerance: Option<Float>,
    pub text_options: TextOptions,
}

/// The first number where it is there, else the second.
pub open spec fn either(special: Option<Float>, general: Float) -> Float {
    match special {
        Some(x) => x,
        None => general,
    }
}

fn choose_either(special: Option<Float>, general: Float) -> (r: Float)
    ensures
        r == either(special, general),
{
    match special {
        Some(x) => x,
        None => general,
    }
}

impl Default for TableSettings {
    fn default() -> (r: TableSettings)
        ensures
            r.vertical_strategy == TableStrategy::Lines,
            r.horizontal_strategy == TableStrategy::Lines,
            r.explicit_vertical_lines@.len() == 0,
            r.explicit_horizontal_lines@.len() == 0,
            r.snap_tolerance == (Float { bits: THREE }),
            r.snap_x_tolerance is None,
            r.snap_y_tolerance is None,
            r.join_tolerance == (Float { bits: THREE }),
            r.join_x_tolerance is None,
            r.join_y_tolerance is None,
            r.edge_min_length == (Float { bits: THREE }),
            r.edge_min_length_prefilter == (Float { bits: ONE }),
            r.min_words_vertical == 3,
            r.min_words_horizontal == 1,
            r.intersection_tolerance == (Float { bits: THREE }),
            r.intersection_x_tolerance is None,
            r.intersection_y_tolerance is None,
            r.text_options == (TextOptions {
                layout: false,
                layout_width: None,
                layout_height: None,
                layout_bbox: None,
            }),
    {
        TableSettings {
            vertical_strategy: TableStrategy::Lines,
            horizontal_strategy: TableStrategy::Lines,
            explicit_vertical_lines: Vec::new(),
            explicit_horizontal_lines: Vec::new(),
            snap_tolerance: Float { bits: THREE },
            snap_x_tolerance: None,
            snap_y_tolerance: None,
            join_tolerance: Float { bits: THREE },
            join_x_tolerance: None,
            join_y_tolerance: None,
            edge_min_length: Float { bits: THREE },
            edge_min_length_prefilter: Float { bits: ONE },
            min_words_vertical: 3,
            min_words_horizontal: 1,
            intersection_tolerance: Float { bits: THREE },
            intersection_x_tolerance: None,
            intersection_y_tolerance: None,
            text_options: TextOptions {
                layout: false,
                layout_width: None,
                layout_height: None,
                layout_bbox: None,
            },
        }
    }
}

impl TableSettings {
    pub fn snap_x_tolerance(&self) -> (r: Float)
        ensures
            r == either(self.snap_x_tolerance, self.snap_tolerance),
    {
        choose_either(self.snap_x_tolerance, self.snap_tolerance)
    }

    pub fn snap_y_tolerance(&self) -> (r: Float)
        ensures
            r == either(self.snap_y_tolerance, self.snap_tolerance),
    {
        choose_either(self.snap_y_tolerance, self.snap_tolerance)
    }

    pub fn join_x_tolerance(&self) -> (r: Float)
        ensures
            r == either(self.join_x_tolerance, self.join_tolerance),
    {
        choose_either(self.join_x_tolerance, self.join_tolerance)
    }

    pub fn join_y_tolerance(&self) -> (r: Float)
        ensures
            r == either(self.join_y_tolerance, self.join_tolerance),
    {
        choose_either(self.join_y_tolerance, self.join_tolerance)
    }

    pub fn intersection_x_tolerance(&self) -> (r: Float)
        ensures
            r == either(self.intersection_x_tolerance, self.intersection_tolerance),
    {
        choose_either(self.intersection_x_tolerance, self.intersection_tolerance)
    }

    pub fn intersection_y_tolerance(&self) -> (r: Float)
        ensures
            r == either(self.intersection_y_tolerance, self.intersection_tolerance),
    {
        choose_either(self.intersection_y_tolerance, self.intersection_tolerance)
    }
}

} // verus!
