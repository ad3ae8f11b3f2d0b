//! Finding the tables of a page.

use super::cells;
use super::cells::intersections_to_cells;
use super::components;
use super::components::cells_to_tables;
use super::components::merge_bboxes;
use super::edges;
use super::edges::filter_edges;
use super::edges::merge_edges;
use super::grid::Table;
use super::intersections;
use super::intersections::edges_to_intersections;
use super::intersections::Crossing;
use super::settings;
use super::settings::ExplicitLine;
use super::settings::ExplicitLineView;
use super::settings::TableSettings;
use super::settings::TableStrategy;
use super::word_edges;
use super::word_edges::words_to_edges_h;
use super::word_edges::words_to_edges_v;
use crate::error::Error;
use crate::float::Float;
use crate::types;
use crate::types::BBox;
use crate::types::Char;
use crate::types::Edge;
use crate::types::EdgeView;
use crate::types::Orientation;
use crate::types::Page;
use crate::types::TextOptions;
use crate::types::Word;
use vstd::prelude::*;

verus! {

/// The edge of a table that the caller gives: across the whole page where only its
/// position is given, and none where its orientation is another.
pub open spec fn explicit_edge(
    page: BBox,
    line: ExplicitLineView,
    orientation: Orientation,
) -> Option<EdgeView> {
    match line {
        ExplicitLineView::Position(at) => Some(
            match orientation {
                Orientation::Vertical => EdgeView {
                    x0: at,
                    top: page.top,
                    x1: at,
                    bottom: page.bottom,
                    width: Float { bits: 0 },
                    height: page.high(),
                    orientation,
                    object_type: "explicit"@,
                },
                Orientation::Horizontal => EdgeView {
                    x0: page.x0,
                    top: at,
                    x1: page.x1,
                    bottom: at,
                    width: page.wide(),
                    height: Float { bits: 0 },
                    orientation,
                    object_type: "explicit"@,
                },
            },
        ),
        ExplicitLineView::Edge(edge) => if edge.orientation == orientation {
            Some(edge)
        } else {
            None
        },
    }
}

/// The edges of one orientation that the caller gives.
pub open spec fn explicit_edges(
    page: BBox,
    lines: Seq<ExplicitLineView>,
    orientation: Orientation,
) -> Seq<EdgeView>
    decreases lines.len(),
{
    if lines.len() == 0 {
        Seq::empty()
    } else {
        let before = explicit_edges(page, lines.drop_last(), orientation);
        match explicit_edge(page, lines.last(), orientation) {
            Some(edge) => before.push(edge),
            None => before,
        }
    }
}

/// Whether the settings ask for the words of a page.
pub open spec fn asks_for_words(settings: TableSettings) -> bool {
    settings.vertical_strategy == TableStrategy::Text || settings.horizontal_strategy
        == TableStrategy::Text
}

/// The edges of one orientation that a strategy finds.
pub open spec fn found_edges(
    page: Page,
    settings: TableSettings,
    words: Seq<Word>,
    orientation: Orientation,
) -> Seq<EdgeView> {
    let (strategy, lines) = match orientation {
        Orientation::Vertical => (
            settings.vertical_strategy,
            settings.explicit_vertical_lines,
        ),
        Orientation::Horizontal => (
            settings.horizontal_strategy,
            settings.explicit_horizontal_lines,
        ),
    };
    let min_length = settings.edge_min_length_prefilter;
    let found = match strategy {
        TableStrategy::Lines => page.all_edges().filter(
            edges::selects(Some(orientation), None, min_length),
        ),
        TableStrategy::LinesStrict => page.all_edges().filter(
            edges::selects(Some(orientation), Some("line"@), min_length),
        ),
        TableStrategy::Text => match orientation {
            Orientation::Vertical => word_edges::vertical_edges(
                words,
                settings.min_words_vertical,
            ),
            Orientation::Horizontal => word_edges::horizontal_edges(
                words,
                settings.min_words_horizontal,
            ),
        },
        TableStrategy::Explicit => Seq::empty(),
    };
    found + explicit_edges(page.bbox, types::seen(lines@), orientation)
}

/// The edges that tables on the page are made of: vertical and horizontal ones, merged,
/// without those that are too short.
pub open spec fn table_edges(page: Page, settings: TableSettings, words: Seq<Word>) -> Seq<
    EdgeView,
> {
    edges::merged(
        found_edges(page, settings, words, Orientation::Vertical) + found_edges(
            page,
            settings,
            words,
            Orientation::Horizontal,
        ),
        settings::either(settings.snap_x_tolerance, settings.snap_tolerance),
        settings::either(settings.snap_y_tolerance, settings.snap_tolerance),
        settings::either(settings.join_x_tolerance, settings.join_tolerance),
        settings::either(settings.join_y_tolerance, settings.join_tolerance),
    ).filter(edges::selects(None, None, settings.edge_min_length))
}

/// What is looked for in one direction runs in that direction: drawn, suggested by words,
/// or given.
pub proof fn law_found_run_along(
    page: Page,
    settings: TableSettings,
    words: Seq<Word>,
    orientation: Orientation,
)
    ensures
        forall|i: int|
            0 <= i < found_edges(page, settings, words, orientation).len() ==> (
            #[trigger] found_edges(page, settings, words, orientation)[i]).orientation
                == orientation,
{
    broadcast use vstd::seq_lib::group_filter_ensures;

    let lines = match orientation {
        Orientation::Vertical => settings.explicit_vertical_lines,
        Orientation::Horizontal => settings.explicit_horizontal_lines,
    };
    word_edges::lemma_run_along(words, settings.min_words_horizontal, settings.min_words_vertical);
    lemma_given_run_along(page.bbox, types::seen(lines@), orientation);
}

proof fn lemma_given_run_along(
    page: BBox,
    lines: Seq<ExplicitLineView>,
    orientation: Orientation,
)
    ensures
        forall|i: int|
            0 <= i < explicit_edges(page, lines, orientation).len() ==> (#[trigger] explicit_edges(
                page,
                lines,
                orientation,
            )[i]).orientation == orientation,
    decreases lines.len(),
{
    if lines.len() > 0 {
        lemma_given_run_along(page, lines.drop_last(), orientation);
    }
}

/// No edge that tables are made of is shorter than the settings ask for.
pub proof fn law_edges_are_long_enough(page: Page, settings: TableSettings, words: Seq<Word>)
    ensures
        forall|i: int|
            0 <= i < table_edges(page, settings, words).len()
                ==> settings.edge_min_length.at_most(
                edges::extent(#[trigger] table_edges(page, settings, words)[i]),
            ),
{
    broadcast use vstd::seq_lib::group_filter_ensures;

}

/// What is wrong with the settings: too few explicit lines where only they are used.
pub open spec fn complaint(settings: TableSettings) -> Option<Seq<char>> {
    if settings.vertical_strategy == TableStrategy::Explicit
        && settings.explicit_vertical_lines@.len() < 2 {
        Some("explicit vertical strategy requires at least two explicit vertical lines"@)
    } else if settings.horizontal_strategy == TableStrategy::Explicit
        && settings.explicit_horizontal_lines@.len() < 2 {
        Some("explicit horizontal strategy requires at least two explicit horizontal lines"@)
    } else {
        None
    }
}

/// Where only explicit lines are used, one line is too few and two are enough; where they
/// are not all that is used, none is needed.
pub proof fn law_two_lines_are_enough(settings: TableSettings)
    ensures
        settings.vertical_strategy is Explicit && settings.explicit_vertical_lines@.len() <= 1
            ==> complaint(settings) is Some,
        settings.horizontal_strategy is Explicit && settings.explicit_horizontal_lines@.len() <= 1
            ==> complaint(settings) is Some,
        (settings.vertical_strategy is Explicit ==> settings.explicit_vertical_lines@.len() >= 2)
            && (settings.horizontal_strategy is Explicit
            ==> settings.explicit_horizontal_lines@.len() >= 2) ==> complaint(settings) is None,
{
}

/// The edges of one orientation that the caller gives.
fn given_edges(page: BBox, lines: &Vec<ExplicitLine>, orientation: Orientation) -> (r: Vec<Edge>)
    ensures
        types::seen(r@) == explicit_edges(page, types::seen(lines@), orientation),
{
    let mut out: Vec<Edge> = Vec::new();
    let n: usize = lines.len();
    let ghost all = types::seen(lines@);
    for i in 0..n
        invariant
            n == lines@.len(),
            all == types::seen(lines@),
            types::seen(out@) == explicit_edges(page, all.take(i as int), orientation),
    {
        assert(all.take(i + 1).drop_last() =~= all.take(i as int));
        assert(all[i as int] == lines@[i as int]@);
        match &lines[i] {
            ExplicitLine::Position(at) => {
                let edge: Edge = match orientation {
                    Orientation::Vertical => Edge {
                        x0: *at,
                        top: page.top,
                        x1: *at,
                        bottom: page.bottom,
                        width: Float { bits: 0 },
                        height: page.height(),
                        orientation,
                        object_type: "explicit".to_owned(),
                    },
                    Orientation::Horizontal => Edge {
                        x0: page.x0,
                        top: *at,
                        x1: page.x1,
                        bottom: *at,
                        width: page.width(),
                        height: Float { bits: 0 },
                        orientation,
                        object_type: "explicit".to_owned(),
                    },
                };
                proof {
                    types::lemma_seen_push(out@, edge);
                }
                out.push(edge);
            },
            ExplicitLine::Edge(given) => {
                if given.orientation == orientation {
                    let edge: Edge = given.copy();
                    proof {
                        types::lemma_seen_push(out@, edge);
                    }
                    out.push(edge);
                }
            },
        }
    }
    assert(all.take(n as int) =~= all);
    out
}

/// The edges of one orientation that a strategy finds.
fn find_edges(
    page: &Page,
    settings: &TableSettings,
    words: &Vec<Word>,
    orientation: Orientation,
) -> (r: Vec<Edge>)
    ensures
        types::seen(r@) == found_edges(*page, *settings, words@, orientation),
{
    let strategy: TableStrategy = match orientation {
        Orientation::Vertical => settings.vertical_strategy,
        Orientation::Horizontal => settings.horizontal_strategy,
    };
    let min_length: Float = settings.edge_min_length_prefilter;
    let mut out: Vec<Edge> = match strategy {
        TableStrategy::Lines => filter_edges(&page.edges(), Some(orientation), None, min_length),
        TableStrategy::LinesStrict => filter_edges(
            &page.edges(),
            Some(orientation),
            Some("line"),
            min_length,
        ),
        TableStrategy::Text => match orientation {
            Orientation::Vertical => words_to_edges_v(words, settings.min_words_vertical),
            Orientation::Horizontal => words_to_edges_h(words, settings.min_words_horizontal),
        },
        TableStrategy::Explicit => {
            let none: Vec<Edge> = Vec::new();
            assert(types::seen(none@) =~= Seq::<EdgeView>::empty());
            none
        },
    };
    let mut given: Vec<Edge> = match orientation {
        Orientation::Vertical => given_edges(
            page.bbox,
            &settings.explicit_vertical_lines,
            orientation,
        ),
        Orientation::Horizontal => given_edges(
            page.bbox,
            &settings.explicit_horizontal_lines,
            orientation,
        ),
    };
    proof {
        types::lemma_seen_add(out@, given@);
    }
    out.append(&mut given);
    out
}

/// The edges that tables on the page are made of, given the words of the page.
pub fn edges_with_words(page: &Page, settings: &TableSettings, words: &Vec<Word>) -> (r: Vec<Edge>)
    ensures
        types::seen(r@) == table_edges(*page, *settings, words@),
{
    let mut found: Vec<Edge> = find_edges(page, settings, words, Orientation::Vertical);
    let mut horizontal: Vec<Edge> = find_edges(page, settings, words, Orientation::Horizontal);
    proof {
        types::lemma_seen_add(found@, horizontal@);
    }
    found.append(&mut horizontal);
    let merged: Vec<Edge> = merge_edges(
        &found,
        settings.snap_x_tolerance(),
        settings.snap_y_tolerance(),
        settings.join_x_tolerance(),
        settings.join_y_tolerance(),
    );
    filter_edges(&merged, None, None, settings.edge_min_length)
}

/// The edges that tables on the page are made of. `extract_words` puts the words of the
/// page together; it is asked only where a strategy goes by the text.
pub fn get_edges<F: Fn(&Vec<Char>, &TextOptions, bool) -> Vec<Word>>(
    page: &Page,
    settings: &TableSettings,
    extract_words: F,
) -> (r: Result<Vec<Edge>, Error>)
    requires
        asks_for_words(*settings) ==> call_requires(
            extract_words,
            (&page.chars, &settings.text_options, false),
        ),
    ensures
        match complaint(*settings) {
            Some(text) => r matches Err(Error::Message(message)) && message@ == text,
            None => r matches Ok(edges) && exists|words: Vec<Word>|
                words_of(*page, *settings, extract_words, words) && types::seen(edges@)
                    == table_edges(*page, *settings, #[trigger] words@),
        },
{
    if settings.vertical_strategy == TableStrategy::Explicit
        && settings.explicit_vertical_lines.len() < 2 {
        return Err(
            Error::Message(
                "explicit vertical strategy requires at least two explicit vertical lines".to_owned(),
            ),
        );
    }
    if settings.horizontal_strategy == TableStrategy::Explicit
        && settings.explicit_horizontal_lines.len() < 2 {
        return Err(
            Error::Message(
                "explicit horizontal strategy requires at least two explicit horizontal lines".to_owned(),
            ),
        );
    }
    let words: Vec<Word> = if settings.vertical_strategy == TableStrategy::Text
        || settings.horizontal_strategy == TableStrategy::Text {
        extract_words(&page.chars, &settings.text_options, false)
    } else {
        Vec::new()
    };
    assert(words_of(*page, *settings, extract_words, words));
    Ok(edges_with_words(page, settings, &words))
}

/// Whether `words` are those that the page is searched with: what `extract_words` gave
/// for its characters where the settings ask for words, else none.
pub open spec fn words_of<F: Fn(&Vec<Char>, &TextOptions, bool) -> Vec<Word>>(
    page: Page,
    settings: TableSettings,
    extract_words: F,
    words: Vec<Word>,
) -> bool {
    if asks_for_words(settings) {
        call_ensures(extract_words, (&page.chars, &settings.text_options, false), words)
    } else {
        words@.len() == 0
    }
}

/// The tables of a page, and what they were found by.
#[derive(Clone, Debug)]
pub struct TableFinder {
    pub settings: TableSettings,
    pub edges: Vec<Edge>,
    pub intersections: Vec<Crossing>,
    pub cells: Vec<BBox>,
    pub tables: Vec<Table>,
}

/// What the tables consist of.
pub open spec fn table_cells(tables: Seq<Table>) -> Seq<Seq<BBox>> {
    tables.map_values(|t: Table| t.cells@)
}

impl TableFinder {
    /// Whether everything has been found from the edges.
    pub open spec fn consistent(self) -> bool {
        &&& types::seen(self.intersections@) == intersections::crossings_of(
            types::seen(self.edges@),
            settings::either(
                self.settings.intersection_x_tolerance,
                self.settings.intersection_tolerance,
            ),
            settings::either(
                self.settings.intersection_y_tolerance,
                self.settings.intersection_tolerance,
            ),
        )
        &&& self.cells@ == cells::all_cells(types::seen(self.intersections@))
        &&& table_cells(self.tables@) == components::tables_of(self.cells@)
        &&& forall|t: int|
            0 <= t < self.tables@.len() ==> (#[trigger] self.tables@[t]).bbox
                == components::around_all(self.tables@[t].cells@)
    }

    /// Finds the tables of a page. `extract_words` puts the words of the page together; it
    /// is asked only where a strategy goes by the text.
    pub fn new<F: Fn(&Vec<Char>, &TextOptions, bool) -> Vec<Word>>(
        page: &Page,
        settings: TableSettings,
        extract_words: F,
    ) -> (r: Result<TableFinder, Error>)
        requires
            asks_for_words(settings) ==> call_requires(
                extract_words,
                (&page.chars, &settings.text_options, false),
            ),
        ensures
            match complaint(settings) {
                Some(text) => r matches Err(Error::Message(message)) && message@ == text,
                None => r matches Ok(finder) && finder.settings == settings
                    && finder.consistent() && exists|words: Vec<Word>|
                    words_of(*page, settings, extract_words, words) && types::seen(finder.edges@)
                        == table_edges(*page, settings, #[trigger] words@),
            },
    {
        let edges: Vec<Edge> = match get_edges(page, &settings, extract_words) {
            Ok(edges) => edges,
            Err(error) => {
                return Err(error);
            },
        };
        let intersections: Vec<Crossing> = edges_to_intersections(
            &edges,
            settings.intersection_x_tolerance(),
            settings.intersection_y_tolerance(),
        );
        let cells: Vec<BBox> = intersections_to_cells(&intersections);
        proof {
            cells::law_cells_are_framed(types::seen(intersections@));
            assert forall|i: int| 0 <= i < cells@.len() implies components::numeric(
                #[trigger] cells@[i],
            ) by {
                assert(cells::proper(cells@[i]));
            }
        }
        let groups: Vec<Vec<BBox>> = cells_to_tables(&cells);
        let ghost wanted = components::cell_lists(groups@);
        let mut tables: Vec<Table> = Vec::new();
        let mut rest: Vec<Vec<BBox>> = groups;
        let n: usize = rest.len();
        for i in 0..n
            invariant
                n == wanted.len(),
                rest@.len() == n - i,
                components::cell_lists(rest@) =~= wanted.skip(i as int),
                table_cells(tables@) =~= wanted.take(i as int),
                forall|t: int|
                    0 <= t < tables@.len() ==> (#[trigger] tables@[t]).bbox
                        == components::around_all(tables@[t].cells@),
        {
            let ghost before = components::cell_lists(rest@);
            assert(before[0] == rest@[0]@);
            let group: Vec<BBox> = rest.remove(0);
            assert(components::cell_lists(rest@) =~= before.skip(1));
            assert(before.skip(1) =~= wanted.skip(i + 1));
            let bbox: BBox = merge_bboxes(&group);
            let ghost done = table_cells(tables@);
            let ghost cells = group@;
            tables.push(Table { cells: group, bbox });
            assert(table_cells(tables@) =~= done.push(cells));
            assert(wanted[i as int] == cells);
        }
        assert(table_cells(tables@) =~= wanted);
        Ok(TableFinder { settings, edges, intersections, cells, tables })
    }
}

/// Settings in which each tolerance for one direction is left to the one for both, and the
/// settings in which it is given for each direction, with the same numbers, find the same
/// edges; a tolerance for one direction counts before the one for both.
pub proof fn law_tolerances_for_both_directions(
    page: Page,
    words: Seq<Word>,
    both: TableSettings,
    each: TableSettings,
)
    requires
        both.snap_x_tolerance is None && both.snap_y_tolerance is None,
        both.join_x_tolerance is None && both.join_y_tolerance is None,
        each == (TableSettings {
            snap_x_tolerance: Some(both.snap_tolerance),
            snap_y_tolerance: Some(both.snap_tolerance),
            join_x_tolerance: Some(both.join_tolerance),
            join_y_tolerance: Some(both.join_tolerance),
            snap_tolerance: each.snap_tolerance,
            join_tolerance: each.join_tolerance,
            ..both
        }),
    ensures
        table_edges(page, both, words) == table_edges(page, each, words),
{
    assert(found_edges(page, both, words, Orientation::Vertical) == found_edges(
        page,
        each,
        words,
        Orientation::Vertical,
    ));
    assert(found_edges(page, both, words, Orientation::Horizontal) == found_edges(
        page,
        each,
        words,
        Orientation::Horizontal,
    ));
}

/// Edges are moved, joined and crossed by the tolerances that the settings give for the
/// direction in question, and those shorter than asked for are left out.
pub proof fn law_tolerances_are_those_given(
    page: Page,
    words: Seq<Word>,
    settings: TableSettings,
    snap: (Float, Float),
    join: (Float, Float),
)
    requires
        settings.snap_x_tolerance == Some(snap.0) && settings.snap_y_tolerance == Some(snap.1),
        settings.join_x_tolerance == Some(join.0) && settings.join_y_tolerance == Some(join.1),
    ensures
        ({
            let all = found_edges(page, settings, words, Orientation::Vertical) + found_edges(
                page,
                settings,
                words,
                Orientation::Horizontal,
            );
            let near = edges::merged(all, snap.0, snap.1, join.0, join.1);
            forall|i: int|
                0 <= i < near.len() && settings.edge_min_length.at_most(
                    edges::extent(#[trigger] near[i]),
                ) ==> table_edges(page, settings, words).contains(near[i])
        }),
{
    let all = found_edges(page, settings, words, Orientation::Vertical) + found_edges(
        page,
        settings,
        words,
        Orientation::Horizontal,
    );
    let near = edges::merged(all, snap.0, snap.1, join.0, join.1);
    let picks = edges::selects(None, None, settings.edge_min_length);
    near.filter_lemma(picks);
    assert forall|i: int|
        0 <= i < near.len() && settings.edge_min_length.at_most(
            edges::extent(#[trigger] near[i]),
        ) implies table_edges(page, settings, words).contains(near[i]) by {
        assert(picks(near[i]));
    }
}

/// Crossings are looked for by the tolerances given for each direction, else by the one for
/// both.
pub proof fn law_crossings_are_found_by_their_tolerances(found: TableFinder, x: Float, y: Float)
    requires
        found.consistent(),
        found.settings.intersection_x_tolerance == Some(x) || (
        found.settings.intersection_x_tolerance is None && found.settings.intersection_tolerance
            == x),
        found.settings.intersection_y_tolerance == Some(y) || (
        found.settings.intersection_y_tolerance is None && found.settings.intersection_tolerance
            == y),
    ensures
        types::seen(found.intersections@) == intersections::crossings_of(
            types::seen(found.edges@),
            x,
            y,
        ),
{
}

} // verus!
