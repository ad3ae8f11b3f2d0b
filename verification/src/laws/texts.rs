//! What holds of the text in the cells of tables.

use crate::float::laws;
use crate::float::Float;
use crate::table::components;
use crate::table::grid;
use crate::types::BBox;
use crate::types::CharView;
use vstd::prelude::*;

verus! {

/// Whether a coordinate is finite, and so is twice as much.
pub open spec fn moderate(x: Float) -> bool {
    x.finite() && x.plus(x).finite()
}

/// Whether a character has moderate coordinates, the smaller ones first.
pub open spec fn ordinary(c: CharView) -> bool {
    &&& moderate(c.place.x0) && moderate(c.place.x1)
    &&& moderate(c.place.top) && moderate(c.place.bottom)
    &&& c.place.x0.at_most(c.place.x1)
    &&& c.place.top.at_most(c.place.bottom)
}

/// Whether a cell has its smaller coordinates first.
pub open spec fn upright(b: BBox) -> bool {
    b.x0.at_most(b.x1) && b.top.at_most(b.bottom)
}

/// A character that reaches beyond no side of a cell, and does not end at its right or lower
/// side, is in the cell.
pub proof fn law_character_within_a_cell(c: CharView, cell: BBox)
    requires
        ordinary(c),
        upright(cell),
        cell.x0.at_most(c.place.x0),
        c.place.x1.less(cell.x1),
        cell.top.at_most(c.place.top),
        c.place.bottom.less(cell.bottom),
    ensures
        grid::inside(c, cell),
{
    laws::law_middle_lies_between(c.place.x0, c.place.x1);
    laws::law_middle_lies_between(c.place.top, c.place.bottom);
}

/// A character that lies beside a cell, above or below it is not in it.
pub proof fn law_character_outside_a_cell(c: CharView, cell: BBox)
    requires
        ordinary(c),
        upright(cell),
        c.place.x1.less(cell.x0) || cell.x1.at_most(c.place.x0) || c.place.bottom.less(cell.top)
            || cell.bottom.at_most(c.place.top),
    ensures
        !grid::inside(c, cell),
{
    laws::law_middle_lies_between(c.place.x0, c.place.x1);
    laws::law_middle_lies_between(c.place.top, c.place.bottom);
}

/// No character is in two cells of which one lies beside or below the other, also where they
/// have a side in common.
pub proof fn law_no_character_in_two_cells(c: CharView, a: BBox, b: BBox)
    requires
        upright(a),
        upright(b),
        a.x1.at_most(b.x0) || a.bottom.at_most(b.top),
    ensures
        !(grid::inside(c, a) && grid::inside(c, b)),
{
}

/// Which corners of a cell are named makes no difference.
pub proof fn law_corners_may_be_swapped(c: CharView, a: BBox, b: BBox)
    requires
        !a.x0.nan() && !a.x1.nan() && !a.top.nan() && !a.bottom.nan(),
        b == (BBox { x0: a.x1, x1: a.x0, ..a }) || b == (BBox {
            top: a.bottom,
            bottom: a.top,
            ..a
        }),
    ensures
        grid::inside(c, a) == grid::inside(c, b),
{
}

proof fn lemma_present(cells: Seq<Option<BBox>>, j: int)
    requires
        0 <= j < cells.len(),
        cells[j] is Some,
    ensures
        grid::present(cells).contains(cells[j]->0),
    decreases cells.len(),
{
    let all = grid::present(cells);
    let front = grid::present(cells.drop_last());
    if j == cells.len() - 1 {
        assert(all[all.len() - 1] == cells[j]->0);
    } else {
        lemma_present(cells.drop_last(), j);
        let k = choose|k: int| 0 <= k < front.len() && front[k] == cells[j]->0;
        assert(all[k] == cells[j]->0);
    }
}

/// Whether every cell that is there has its smaller coordinates first.
pub open spec fn all_upright(cells: Seq<BBox>) -> bool {
    forall|k: int| 0 <= k < cells.len() ==> upright(#[trigger] cells[k])
}

/// What is in a cell is in its row: the rectangle of a row or column holds all of its cells.
pub proof fn law_what_is_in_a_cell_is_in_its_row(
    cells: Seq<BBox>,
    rows: bool,
    i: int,
    j: int,
    c: CharView,
)
    requires
        0 <= i < grid::lanes(cells, rows).len(),
        0 <= j < grid::lanes(cells, rows)[i].cells.len(),
        grid::lanes(cells, rows)[i].cells[j] is Some,
        upright(grid::lanes(cells, rows)[i].cells[j]->0),
        grid::inside(c, grid::lanes(cells, rows)[i].cells[j]->0),
    ensures
        grid::inside(c, grid::lanes(cells, rows)[i].bbox),
{
    let lane = grid::lanes(cells, rows)[i];
    let cell = lane.cells[j]->0;
    let there = grid::present(lane.cells);
    lemma_present(lane.cells, j);
    let k = choose|k: int| 0 <= k < there.len() && there[k] == cell;
    components::law_bounds_are_least_and_greatest(there);
    let r = components::around_all(there);
    assert(lane.bbox == r);
    assert(components::across(there[k], cell.x0) && components::across(there[k], cell.x1));
    assert(components::down(there[k], cell.top) && components::down(there[k], cell.bottom));
    assert(r.x0.at_most(cell.x0) && cell.x1.at_most(r.x1));
    assert(r.top.at_most(cell.top) && cell.bottom.at_most(r.bottom));
}

} // verus!
