//! The rows and columns of a table, and the text in its cells.

use super::components;
use super::components::merge_bboxes;
use super::csv_text;
use super::csv_text::table_rows_to_csv;
use super::edges;
use super::edges::is_close;
use crate::clustering;
use crate::error::Error;
use crate::float::arith;
use crate::float::Float;
use crate::float::TWO;
use crate::order;
use crate::types;
use crate::types::BBox;
use crate::types::Char;
use crate::types::CharView;
use crate::types::Page;
use crate::types::TextOptions;
use vstd::prelude::*;

verus! {

/// A row or a column of a table; a place without a cell is empty.
#[derive(Clone, Debug)]
pub struct CellGroup {
    pub cells: Vec<Option<BBox>>,
    pub bbox: BBox,
}

/// What is seen of a [`CellGroup`].
#[verifier::ext_equal]
pub struct CellGroupView {
    pub cells: Seq<Option<BBox>>,
    pub bbox: BBox,
}

impl View for CellGroup {
    type V = CellGroupView;

    open spec fn view(&self) -> CellGroupView {
        CellGroupView { cells: self.cells@, bbox: self.bbox }
    }
}

#[derive(Clone, Debug)]
pub struct Table {
    pub cells: Vec<BBox>,
    pub bbox: BBox,
}

/// Where a cell begins: along the rows where `across`, else along the columns.
pub open spec fn begin(cell: BBox, across: bool) -> Float {
    if across {
        cell.x0
    } else {
        cell.top
    }
}

fn begin_of(cell: BBox, across: bool) -> (r: Float)
    ensures
        r == begin(cell, across),
{
    if across {
        cell.x0
    } else {
        cell.top
    }
}

/// Where the cells begin.
pub open spec fn begins(cells: Seq<BBox>, across: bool) -> Seq<Float> {
    cells.map_values(|c: BBox| begin(c, across))
}

/// What cells are sorted by: the row or column they are in, then their place there.
pub open spec fn lane_keys(cells: Seq<BBox>, rows: bool) -> Seq<order::Key> {
    cells.map_values(
        |c: BBox| (begin(c, !rows).rank() as i64, begin(c, rows).rank() as i64),
    )
}

/// The cells by rows or by columns.
pub open spec fn lined_up(cells: Seq<BBox>, rows: bool) -> Seq<BBox> {
    order::picked(cells, order::stable_order(lane_keys(cells, rows)))
}

/// The numbers without those that are close to the one kept before them.
pub open spec fn spaced(xs: Seq<Float>) -> Seq<Float>
    decreases xs.len(),
{
    if xs.len() == 0 {
        Seq::empty()
    } else {
        let before = spaced(xs.drop_last());
        if before.len() > 0 && edges::close(xs.last(), before.last()) {
            before
        } else {
            before.push(xs.last())
        }
    }
}

/// Where cells begin along their rows or columns, from the least to the greatest.
pub open spec fn stops(cells: Seq<BBox>, rows: bool) -> Seq<Float> {
    let xs = begins(lined_up(cells, rows), rows);
    spaced(order::picked(xs, order::stable_order(clustering::rank_keys(xs))))
}

/// The first cell from `from` on that begins close to `x`.
pub open spec fn slot(cells: Seq<BBox>, x: Float, rows: bool, from: int) -> Option<BBox>
    decreases cells.len() - from,
{
    if from < 0 || from >= cells.len() {
        None
    } else if edges::close(begin(cells[from], rows), x) {
        Some(cells[from])
    } else {
        slot(cells, x, rows, from + 1)
    }
}

/// The cell at each stop.
pub open spec fn lane(cells: Seq<BBox>, at: Seq<Float>, rows: bool) -> Seq<Option<BBox>> {
    at.map_values(|x: Float| slot(cells, x, rows, 0))
}

/// The cells that are there.
pub open spec fn present(cells: Seq<Option<BBox>>) -> Seq<BBox>
    decreases cells.len(),
{
    if cells.len() == 0 {
        Seq::empty()
    } else {
        match cells.last() {
            Some(c) => present(cells.drop_last()).push(c),
            None => present(cells.drop_last()),
        }
    }
}

/// The row or column that the given cells make up.
pub open spec fn lane_group(cells: Seq<BBox>, at: Seq<Float>, rows: bool) -> CellGroupView {
    let places = lane(cells, at, rows);
    CellGroupView { cells: places, bbox: components::around_all(present(places)) }
}

/// The cells of each row or column, by their places among the cells lined up.
pub open spec fn lane_places(cells: Seq<BBox>, rows: bool) -> Seq<Seq<usize>> {
    clustering::clusters(begins(lined_up(cells, rows), !rows), Float { bits: 0 })
}

/// The rows or the columns of a table.
pub open spec fn lanes(cells: Seq<BBox>, rows: bool) -> Seq<CellGroupView> {
    lane_places(cells, rows).map_values(
        |places: Seq<usize>|
            lane_group(order::picked(lined_up(cells, rows), places), stops(cells, rows), rows),
    )
}

fn merged_optional_bbox(cells: &Vec<Option<BBox>>) -> (r: BBox)
    ensures
        r == components::around_all(present(cells@)),
{
    let mut selected: Vec<BBox> = Vec::new();
    for i in 0..cells.len()
        invariant
            selected@ == present(cells@.take(i as int)),
    {
        assert(cells@.take(i + 1).drop_last() =~= cells@.take(i as int));
        if let Some(c) = cells[i] {
            selected.push(c);
        }
    }
    assert(cells@.take(cells@.len() as int) =~= cells@);
    merge_bboxes(&selected)
}

fn pick_cells(cells: &Vec<BBox>, p: &Vec<usize>) -> (r: Vec<BBox>)
    requires
        forall|i: int| 0 <= i < p@.len() ==> #[trigger] p@[i] < cells@.len(),
    ensures
        r@ == order::picked(cells@, p@),
{
    let mut out: Vec<BBox> = Vec::new();
    let n: usize = p.len();
    for i in 0..n
        invariant
            n == p@.len(),
            forall|i: int| 0 <= i < p@.len() ==> #[trigger] p@[i] < cells@.len(),
            out@ =~= order::picked(cells@, p@).take(i as int),
    {
        out.push(cells[p[i]]);
    }
    assert(out@ =~= order::picked(cells@, p@));
    out
}

fn line_up(cells: &Vec<BBox>, rows: bool) -> (r: Vec<BBox>)
    ensures
        r@ == lined_up(cells@, rows),
{
    let mut keys: Vec<order::Key> = Vec::new();
    let n: usize = cells.len();
    for i in 0..n
        invariant
            n == cells@.len(),
            keys@ =~= lane_keys(cells@, rows).take(i as int),
    {
        keys.push((begin_of(cells[i], !rows).total_rank(), begin_of(cells[i], rows).total_rank()));
    }
    assert(keys@ =~= lane_keys(cells@, rows));
    pick_cells(cells, &order::sort_order(&keys))
}

fn begins_of(cells: &Vec<BBox>, across: bool) -> (r: Vec<Float>)
    ensures
        r@ == begins(cells@, across),
{
    let mut out: Vec<Float> = Vec::new();
    let n: usize = cells.len();
    for i in 0..n
        invariant
            n == cells@.len(),
            out@ =~= begins(cells@, across).take(i as int),
    {
        out.push(begin_of(cells[i], across));
    }
    assert(out@ =~= begins(cells@, across));
    out
}

/// The numbers in order, without those that are close to the one kept before them.
fn space_out(xs: &Vec<Float>) -> (r: Vec<Float>)
    ensures
        r@ == spaced(order::picked(xs@, order::stable_order(clustering::rank_keys(xs@)))),
{
    let mut keys: Vec<order::Key> = Vec::new();
    let n: usize = xs.len();
    for i in 0..n
        invariant
            n == xs@.len(),
            keys@ =~= clustering::rank_keys(xs@).take(i as int),
    {
        keys.push((xs[i].total_rank(), 0));
    }
    assert(keys@ =~= clustering::rank_keys(xs@));
    let p: Vec<usize> = order::sort_order(&keys);
    let ghost sorted = order::picked(xs@, p@);
    let mut out: Vec<Float> = Vec::new();
    for i in 0..n
        invariant
            n == xs@.len(),
            n == p@.len(),
            sorted == order::picked(xs@, p@),
            forall|i: int| 0 <= i < n ==> #[trigger] p@[i] < n,
            out@ == spaced(sorted.take(i as int)),
    {
        assert(sorted.take(i + 1).drop_last() =~= sorted.take(i as int));
        let x: Float = xs[p[i]];
        assert(sorted[i as int] == x);
        if !(out.len() > 0 && is_close(x, out[out.len() - 1])) {
            out.push(x);
        }
    }
    assert(sorted.take(n as int) =~= sorted);
    out
}

fn find_slot(cells: &Vec<BBox>, x: Float, rows: bool) -> (r: Option<BBox>)
    ensures
        r == slot(cells@, x, rows, 0),
{
    let n: usize = cells.len();
    let mut i: usize = 0;
    while i < n
        invariant
            i <= n,
            n == cells@.len(),
            slot(cells@, x, rows, 0) == slot(cells@, x, rows, i as int),
        decreases n - i,
    {
        if is_close(begin_of(cells[i], rows), x) {
            return Some(cells[i]);
        }
        i = i + 1;
    }
    None
}

/// Whether a character's middle lies in a rectangle.
pub open spec fn inside(c: CharView, bbox: BBox) -> bool {
    let b = bbox.upright();
    let two = Float { bits: TWO };
    let v_mid = c.place.top.plus(c.place.bottom).over(two);
    let h_mid = c.place.x0.plus(c.place.x1).over(two);
    &&& b.x0.at_most(h_mid)
    &&& h_mid.less(b.x1)
    &&& b.top.at_most(v_mid)
    &&& v_mid.less(b.bottom)
}

/// Whether a character's middle lies in the given rectangle.
pub open spec fn lies_in(bbox: BBox) -> spec_fn(CharView) -> bool {
    |c: CharView| inside(c, bbox)
}

/// Whether a character's middle lies in a rectangle.
pub fn char_in_bbox(ch: &Char, bbox: BBox) -> (r: bool)
    ensures
        r == inside(ch@, bbox),
{
    let b: BBox = bbox.normalized();
    let two: Float = Float { bits: TWO };
    let v_mid: Float = ch.top.add(ch.bottom).div(two);
    let h_mid: Float = ch.x0.add(ch.x1).div(two);
    b.x0.le(h_mid) && h_mid.lt(b.x1) && b.top.le(v_mid) && v_mid.lt(b.bottom)
}

fn chars_in(chars: &Vec<Char>, bbox: BBox) -> (r: Vec<Char>)
    ensures
        types::seen(r@) == types::seen(chars@).filter(lies_in(bbox)),
{
    let mut out: Vec<Char> = Vec::new();
    let n: usize = chars.len();
    let ghost all = types::seen(chars@);
    for i in 0..n
        invariant
            n == chars@.len(),
            all == types::seen(chars@),
            types::seen(out@) == all.take(i as int).filter(lies_in(bbox)),
    {
        reveal(Seq::filter);
        assert(all.take(i + 1).drop_last() =~= all.take(i as int));
        if char_in_bbox(&chars[i], bbox) {
            let c: Char = chars[i].copy();
            proof {
                types::lemma_seen_push(out@, c);
            }
            out.push(c);
        }
    }
    assert(all.take(n as int) =~= all);
    out
}

/// The options for the text of one cell: a layout is that of the cell.
pub open spec fn cell_options(options: TextOptions, cell: BBox) -> TextOptions {
    if options.layout {
        TextOptions {
            layout: true,
            layout_width: Some(cell.wide()),
            layout_height: Some(cell.high()),
            layout_bbox: Some(cell),
        }
    } else {
        options
    }
}

/// Text that keeps its layout is laid out in the cell it is in; other text does not depend
/// on the cell.
pub proof fn law_layout_is_that_of_the_cell(options: TextOptions, cell: BBox, other: BBox)
    ensures
        cell_options(options, cell).layout == options.layout,
        options.layout ==> cell_options(options, cell).layout_bbox == Some(cell) && cell_options(
            options,
            cell,
        ).layout_width == Some(cell.x1.minus(cell.x0)) && cell_options(options, cell).layout_height
            == Some(cell.bottom.minus(cell.top)),
        !options.layout ==> cell_options(options, cell) == cell_options(options, other),
{
}

/// Whether `text` is what `extract_text` made of the given characters.
pub open spec fn made_from<F: Fn(&Vec<Char>, &TextOptions) -> String>(
    extract_text: F,
    chars: Seq<CharView>,
    options: TextOptions,
    text: String,
) -> bool {
    exists|list: Vec<Char>|
        types::seen(list@) == chars && #[trigger] call_ensures(
            extract_text,
            (&list, &options),
            text,
        )
}

/// Whether `text` is what a cell holds: nothing where there is no cell, an empty text where
/// no character lies in it, else what `extract_text` made of the characters in it.
pub open spec fn cell_text<F: Fn(&Vec<Char>, &TextOptions) -> String>(
    extract_text: F,
    row_chars: Seq<CharView>,
    options: TextOptions,
    cell: Option<BBox>,
    text: Option<String>,
) -> bool {
    match cell {
        None => text is None,
        Some(bbox) => {
            let chars = row_chars.filter(lies_in(bbox));
            if chars.len() == 0 {
                text matches Some(s) && s@.len() == 0
            } else {
                text matches Some(s) && made_from(
                    extract_text,
                    chars,
                    cell_options(options, bbox),
                    s,
                )
            }
        },
    }
}

/// Whether `texts` are what the cells of a row hold.
pub open spec fn row_texts<F: Fn(&Vec<Char>, &TextOptions) -> String>(
    extract_text: F,
    chars: Seq<CharView>,
    options: TextOptions,
    row: CellGroupView,
    texts: Seq<Option<String>>,
) -> bool {
    let row_chars = chars.filter(lies_in(row.bbox));
    &&& texts.len() == row.cells.len()
    &&& forall|j: int|
        0 <= j < texts.len() ==> cell_text(
            extract_text,
            row_chars,
            options,
            row.cells[j],
            #[trigger] texts[j],
        )
}

/// Whether `texts` are what the cells of a table hold.
pub open spec fn table_texts<F: Fn(&Vec<Char>, &TextOptions) -> String>(
    extract_text: F,
    chars: Seq<CharView>,
    options: TextOptions,
    cells: Seq<BBox>,
    texts: Seq<Vec<Option<String>>>,
) -> bool {
    let rows = lanes(cells, true);
    &&& texts.len() == rows.len()
    &&& forall|i: int|
        0 <= i < texts.len() ==> row_texts(
            extract_text,
            chars,
            options,
            rows[i],
            #[trigger] texts[i]@,
        )
}

/// All rows of a table have the same number of places, and so have all columns.
pub proof fn law_lanes_are_even(cells: Seq<BBox>, rows: bool)
    ensures
        forall|i: int|
            0 <= i < lanes(cells, rows).len() ==> #[trigger] lanes(cells, rows)[i].cells.len()
                == stops(cells, rows).len(),
{
}

/// Every cell of a row or column begins close to the stop at whose place it stands.
pub proof fn law_cells_stand_at_stops(cells: Seq<BBox>, rows: bool, i: int, j: int)
    requires
        0 <= i < lanes(cells, rows).len(),
        0 <= j < stops(cells, rows).len(),
    ensures
        lanes(cells, rows)[i].cells[j] matches Some(cell) ==> edges::close(
            begin(cell, rows),
            stops(cells, rows)[j],
        ),
{
    let group = order::picked(lined_up(cells, rows), lane_places(cells, rows)[i]);
    lemma_slot_found(group, stops(cells, rows)[j], rows, 0);
}

/// Whether all cells begin at finite coordinates, of which no two that differ are close:
/// along the rows where `across`, else along the columns.
pub open spec fn well_spaced(cells: Seq<BBox>, across: bool) -> bool {
    &&& forall|i: int| 0 <= i < cells.len() ==> begin(#[trigger] cells[i], across).finite()
    &&& forall|i: int, j: int|
        0 <= i < cells.len() && 0 <= j < cells.len() && edges::close(
            begin(#[trigger] cells[i], across),
            begin(#[trigger] cells[j], across),
        ) ==> begin(cells[i], across).same(begin(cells[j], across))
}

/// Whether no two cells begin at the same place.
pub open spec fn one_at_each_place(cells: Seq<BBox>) -> bool {
    forall|i: int, j: int|
        0 <= i < j < cells.len() ==> !((#[trigger] cells[i]).x0.same((#[trigger] cells[j]).x0)
            && cells[i].top.same(cells[j].top))
}

proof fn lemma_lined_up(cells: Seq<BBox>, rows: bool)
    requires
        cells.len() <= usize::MAX,
    ensures
        lined_up(cells, rows).len() == cells.len(),
        forall|c: BBox| lined_up(cells, rows).contains(c) <==> cells.contains(c),
{
    let keys = lane_keys(cells, rows);
    let p = order::stable_order(keys);
    order::law_stable_order_exists(keys);
    order::law_stable_order_lists_all(keys, p);
    let all = lined_up(cells, rows);
    assert forall|c: BBox| all.contains(c) <==> cells.contains(c) by {
        if all.contains(c) {
            let i = choose|i: int| 0 <= i < all.len() && all[i] == c;
            assert(cells[p[i] as int] == c);
        }
        if cells.contains(c) {
            let i = choose|i: int| 0 <= i < cells.len() && cells[i] == c;
            assert(p.contains(i as usize));
            let k = choose|k: int| 0 <= k < p.len() && p[k] == i as usize;
            assert(all[k] == c);
        }
    }
}

proof fn lemma_same_begins(cells: Seq<BBox>, others: Seq<BBox>, across: bool)
    requires
        forall|c: BBox| cells.contains(c) <==> others.contains(c),
    ensures
        forall|v: int|
            clustering::orders(begins(cells, across)).contains(v) <==> clustering::orders(
                begins(others, across),
            ).contains(v),
{
    let a = clustering::orders(begins(cells, across));
    let b = clustering::orders(begins(others, across));
    assert forall|v: int| a.contains(v) <==> b.contains(v) by {
        if a.contains(v) {
            let i = choose|i: int| 0 <= i < a.len() && a[i] == v;
            assert(cells.contains(cells[i]));
            let j = choose|j: int| 0 <= j < others.len() && others[j] == cells[i];
            assert(b[j] == v);
        }
        if b.contains(v) {
            let i = choose|i: int| 0 <= i < b.len() && b[i] == v;
            assert(others.contains(others[i]));
            let j = choose|j: int| 0 <= j < cells.len() && cells[j] == others[i];
            assert(a[j] == v);
        }
    }
}

proof fn lemma_same_is_close(a: Float, b: Float)
    requires
        a.finite(),
        b.finite(),
        a.same(b),
    ensures
        edges::close(a, b),
{
    arith::law_equal_numbers_differ_by_zero(a, b);
}

proof fn lemma_spaced(xs: Seq<Float>)
    requires
        forall|k: int| 0 <= k < xs.len() ==> (#[trigger] xs[k]).finite(),
        forall|k: int, l: int|
            0 <= k < xs.len() && 0 <= l < xs.len() && edges::close(
                #[trigger] xs[k],
                #[trigger] xs[l],
            ) ==> xs[k].same(xs[l]),
        forall|k: int, l: int|
            0 <= k < l < xs.len() ==> (#[trigger] xs[k]).order() <= (#[trigger] xs[l]).order(),
    ensures
        clustering::rising(clustering::orders(spaced(xs))),
        forall|k: int| 0 <= k < spaced(xs).len() ==> xs.contains(#[trigger] spaced(xs)[k]),
        forall|k: int|
            0 <= k < xs.len() ==> clustering::orders(spaced(xs)).contains(
                (#[trigger] xs[k]).order(),
            ),
        xs.len() > 0 ==> spaced(xs).len() > 0 && spaced(xs).last().order() == xs.last().order(),
    decreases xs.len(),
{
    if xs.len() > 0 {
        let front = xs.drop_last();
        let x = xs.last();
        let before = spaced(front);
        let after = spaced(xs);
        assert forall|k: int, l: int|
            0 <= k < front.len() && 0 <= l < front.len() && edges::close(
                #[trigger] front[k],
                #[trigger] front[l],
            ) implies front[k].same(front[l]) by {
            assert(front[k] == xs[k] && front[l] == xs[l]);
        }
        assert forall|k: int, l: int| 0 <= k < l < front.len() implies (#[trigger] front[k]).order()
            <= (#[trigger] front[l]).order() by {
            assert(front[k] == xs[k] && front[l] == xs[l]);
        }
        lemma_spaced(front);
        let old_orders = clustering::orders(before);
        let new_orders = clustering::orders(after);
        assert forall|k: int| 0 <= k < before.len() implies xs.contains(#[trigger] before[k]) by {
            let i = choose|i: int| 0 <= i < front.len() && front[i] == before[k];
            assert(front.contains(before[k]));
            assert(xs[i] == before[k]);
        }
        assert(xs[xs.len() - 1] == x);
        if before.len() > 0 {
            let y = before.last();
            assert(xs.contains(y));
            let i = choose|i: int| 0 <= i < xs.len() && xs[i] == y;
            if y.same(x) {
                assert(xs[i].finite() && xs[xs.len() - 1].finite());
                lemma_same_is_close(x, y);
            }
            assert(edges::close(x, y) <==> x.same(y));
            assert(xs[xs.len() - 2] == front.last());
            assert(y.order() <= x.order());
            assert(y.order() == x.order() <==> y.same(x)) by {
                assert(xs[i].finite() && xs[xs.len() - 1].finite());
            }
        }
        if before.len() > 0 && edges::close(x, before.last()) {
            assert(old_orders[before.len() - 1] == x.order());
            assert forall|k: int| 0 <= k < xs.len() implies new_orders.contains(
                (#[trigger] xs[k]).order(),
            ) by {
                if k < front.len() {
                    assert(front[k] == xs[k]);
                }
            }
        } else {
            assert(new_orders =~= old_orders.push(x.order()));
            assert forall|k: int| 0 <= k < xs.len() implies new_orders.contains(
                (#[trigger] xs[k]).order(),
            ) by {
                if k < front.len() {
                    assert(front[k] == xs[k]);
                    let i = choose|i: int|
                        0 <= i < old_orders.len() && old_orders[i] == xs[k].order();
                    assert(old_orders.contains(front[k].order()));
                    assert(new_orders[i] == xs[k].order());
                } else {
                    assert(new_orders[before.len() as int] == x.order());
                }
            }
            assert forall|i: int, j: int| 0 <= i < j < new_orders.len() implies #[trigger] new_orders[i]
                < #[trigger] new_orders[j] by {
                if j < before.len() {
                    assert(old_orders[i] < old_orders[j]);
                } else {
                    assert(old_orders[before.len() - 1] < x.order());
                    if i < before.len() - 1 {
                        assert(old_orders[i] < old_orders[before.len() - 1]);
                    }
                }
            }
        }
    }
}

proof fn lemma_stops(cells: Seq<BBox>, rows: bool)
    requires
        cells.len() <= usize::MAX,
        well_spaced(cells, rows),
    ensures
        clustering::rising(clustering::orders(stops(cells, rows))),
        forall|v: int|
            clustering::orders(stops(cells, rows)).contains(v) <==> clustering::orders(
                begins(cells, rows),
            ).contains(v),
        forall|k: int|
            0 <= k < stops(cells, rows).len() ==> begins(cells, rows).contains(
                #[trigger] stops(cells, rows)[k],
            ),
{
    let line = lined_up(cells, rows);
    let xs = begins(line, rows);
    let keys = clustering::rank_keys(xs);
    let p = order::stable_order(keys);
    let sorted = order::picked(xs, p);
    lemma_lined_up(cells, rows);
    order::law_stable_order_exists(keys);
    order::law_stable_order_lists_all(keys, p);
    assert forall|k: int| 0 <= k < xs.len() implies begins(cells, rows).contains(
        #[trigger] xs[k],
    ) && xs[k].finite() by {
        assert(line.contains(line[k]) && cells.contains(line[k]));
        let i = choose|i: int| 0 <= i < cells.len() && cells[i] == line[k];
        assert(begin(cells[i], rows).finite());
        assert(begins(cells, rows)[i] == xs[k]);
    }
    clustering::law_ranks_sort_numbers(xs, p);
    assert forall|k: int| 0 <= k < sorted.len() implies xs.contains(#[trigger] sorted[k])
        && sorted[k].finite() by {
        assert(xs[p[k] as int] == sorted[k]);
    }
    assert forall|k: int, l: int|
        0 <= k < sorted.len() && 0 <= l < sorted.len() && edges::close(
            #[trigger] sorted[k],
            #[trigger] sorted[l],
        ) implies sorted[k].same(sorted[l]) by {
        assert(begins(cells, rows).contains(xs[p[k] as int]));
        assert(begins(cells, rows).contains(xs[p[l] as int]));
        let i = choose|i: int| 0 <= i < cells.len() && begins(cells, rows)[i] == sorted[k];
        let j = choose|j: int| 0 <= j < cells.len() && begins(cells, rows)[j] == sorted[l];
        assert(edges::close(begin(cells[i], rows), begin(cells[j], rows)));
    }
    assert forall|k: int, l: int| 0 <= k < l < sorted.len() implies (#[trigger] sorted[k]).order()
        <= (#[trigger] sorted[l]).order() by {
        assert(xs[p[k] as int].order() <= xs[p[l] as int].order());
    }
    lemma_spaced(sorted);
    lemma_same_begins(cells, line, rows);
    let at = clustering::orders(stops(cells, rows));
    let all = clustering::orders(xs);
    assert forall|v: int| at.contains(v) <==> all.contains(v) by {
        if at.contains(v) {
            let k = choose|k: int| 0 <= k < at.len() && at[k] == v;
            assert(sorted.contains(spaced(sorted)[k]));
            let i = choose|i: int| 0 <= i < sorted.len() && sorted[i] == spaced(sorted)[k];
            assert(all[p[i] as int] == v);
        }
        if all.contains(v) {
            let i = choose|i: int| 0 <= i < all.len() && all[i] == v;
            assert(p.contains(i as usize));
            let k = choose|k: int| 0 <= k < p.len() && p[k] == i as usize;
            assert(sorted[k].order() == v);
        }
    }
    assert forall|k: int| 0 <= k < stops(cells, rows).len() implies begins(cells, rows).contains(
        #[trigger] stops(cells, rows)[k],
    ) by {
        assert(sorted.contains(spaced(sorted)[k]));
        let i = choose|i: int| 0 <= i < sorted.len() && sorted[i] == spaced(sorted)[k];
        assert(begins(cells, rows).contains(xs[p[i] as int]));
    }
}

/// Where the cells of each row or column begin across it.
pub open spec fn lane_heads(cells: Seq<BBox>, rows: bool) -> Seq<int> {
    clustering::heads(begins(lined_up(cells, rows), !rows), lane_places(cells, rows))
}

proof fn lemma_lane_heads(cells: Seq<BBox>, rows: bool)
    requires
        cells.len() <= usize::MAX,
        well_spaced(cells, !rows),
    ensures
        clustering::even(begins(lined_up(cells, rows), !rows), lane_places(cells, rows)),
        lane_heads(cells, rows) == clustering::orders(stops(cells, !rows)),
        forall|x: usize|
            x < cells.len() ==> #[trigger] clustering::in_a_group(lane_places(cells, rows), x),
        forall|i: int, j: int|
            0 <= i < lane_places(cells, rows).len() && 0 <= j < lane_places(cells, rows)[i].len()
                ==> #[trigger] lane_places(cells, rows)[i][j] < cells.len(),
{
    let line = lined_up(cells, rows);
    let xs = begins(line, !rows);
    let groups = lane_places(cells, rows);
    lemma_lined_up(cells, rows);
    assert forall|k: int| 0 <= k < xs.len() implies (#[trigger] xs[k]).finite() by {
        assert(line.contains(line[k]) && cells.contains(line[k]));
        let i = choose|i: int| 0 <= i < cells.len() && cells[i] == line[k];
        assert(begin(cells[i], !rows).finite());
    }
    clustering::law_exact_clusters(xs);
    clustering::law_clusters_list_all(xs, Float { bits: 0 });
    lemma_stops(cells, !rows);
    lemma_same_begins(cells, line, !rows);
    let heads = lane_heads(cells, rows);
    let all = clustering::orders(xs);
    assert forall|v: int| heads.contains(v) <==> all.contains(v) by {
        if heads.contains(v) {
            let i = choose|i: int| 0 <= i < heads.len() && heads[i] == v;
            assert(groups[i].len() > 0);
            assert(groups[i][0] < xs.len());
            assert(all[groups[i][0] as int] == v);
        }
        if all.contains(v) {
            let k = choose|k: int| 0 <= k < all.len() && all[k] == v;
            assert(clustering::in_a_group(groups, k as usize));
            let i = choose|i: int|
                0 <= i < groups.len() && (#[trigger] groups[i]).contains(k as usize);
            let j = choose|j: int| 0 <= j < groups[i].len() && groups[i][j] == k as usize;
            assert(xs[groups[i][j] as int].order() == heads[i]);
        }
    }
    clustering::law_rising_unique(heads, clustering::orders(stops(cells, !rows)));
}

/// There are as many columns as there are different places where cells begin along the
/// rows, and every row has one place for each column; the same holds of the rows and the
/// places of a column.
pub proof fn law_lanes_are_counted(cells: Seq<BBox>, rows: bool)
    requires
        cells.len() <= usize::MAX,
        well_spaced(cells, rows),
    ensures
        lanes(cells, !rows).len() == clustering::orders(begins(cells, rows)).to_set().len(),
        forall|i: int|
            0 <= i < lanes(cells, rows).len() ==> (#[trigger] lanes(cells, rows)[i]).cells.len()
                == lanes(cells, !rows).len(),
{
    lemma_lane_heads(cells, !rows);
    lemma_stops(cells, rows);
    let at = clustering::orders(stops(cells, rows));
    let all = clustering::orders(begins(cells, rows));
    assert(lanes(cells, !rows).len() == lane_heads(cells, !rows).len());
    assert(at.no_duplicates());
    at.unique_seq_to_set();
    assert(at.to_set() =~= all.to_set());
}

/// Whether a cell begins at the `i`-th row or column and at its `j`-th place.
pub open spec fn stands_at(cells: Seq<BBox>, rows: bool, i: int, j: int, cell: BBox) -> bool {
    &&& cells.contains(cell)
    &&& begin(cell, !rows).order() == stops(cells, !rows)[i].order()
    &&& begin(cell, rows).order() == stops(cells, rows)[j].order()
}

proof fn lemma_slot_found(cells: Seq<BBox>, x: Float, rows: bool, from: int)
    requires
        0 <= from,
    ensures
        match slot(cells, x, rows, from) {
            Some(cell) => cells.contains(cell) && edges::close(begin(cell, rows), x),
            None => forall|k: int|
                from <= k < cells.len() ==> !edges::close(begin(#[trigger] cells[k], rows), x),
        },
    decreases cells.len() - from,
{
    if from < cells.len() {
        if edges::close(begin(cells[from], rows), x) {
            assert(cells.contains(cells[from]));
        } else {
            lemma_slot_found(cells, x, rows, from + 1);
        }
    }
}

proof fn lemma_place(cells: Seq<BBox>, rows: bool, i: int, j: int)
    requires
        cells.len() <= usize::MAX,
        well_spaced(cells, true),
        well_spaced(cells, false),
        0 <= i < lanes(cells, rows).len(),
        0 <= j < stops(cells, rows).len(),
    ensures
        match lanes(cells, rows)[i].cells[j] {
            Some(cell) => stands_at(cells, rows, i, j, cell),
            None => forall|cell: BBox| !stands_at(cells, rows, i, j, cell),
        },
{
    let line = lined_up(cells, rows);
    let groups = lane_places(cells, rows);
    let group = order::picked(line, groups[i]);
    let x = stops(cells, rows)[j];
    let heads = lane_heads(cells, rows);
    lemma_lined_up(cells, rows);
    lemma_lane_heads(cells, rows);
    lemma_stops(cells, rows);
    lemma_slot_found(group, x, rows, 0);
    assert(begins(cells, rows).contains(x));
    let s = choose|s: int| 0 <= s < cells.len() && begins(cells, rows)[s] == x;
    assert(begin(cells[s], rows) == x);
    assert(lanes(cells, rows).len() == heads.len());
    assert(clustering::orders(stops(cells, !rows))[i] == stops(cells, !rows)[i].order());
    match slot(group, x, rows, 0) {
        Some(cell) => {
            let k = choose|k: int| 0 <= k < group.len() && group[k] == cell;
            assert(groups[i][k] < cells.len());
            assert(line[groups[i][k] as int] == cell);
            assert(line.contains(cell) && cells.contains(cell));
            assert(begins(line, !rows)[groups[i][k] as int].order() == heads[i]);
            let t = choose|t: int| 0 <= t < cells.len() && cells[t] == cell;
            assert(edges::close(begin(cells[t], rows), begin(cells[s], rows)));
        },
        None => {
            assert forall|cell: BBox| !stands_at(cells, rows, i, j, cell) by {
                if stands_at(cells, rows, i, j, cell) {
                    assert(line.contains(cell));
                    let k = choose|k: int| 0 <= k < line.len() && line[k] == cell;
                    assert(clustering::in_a_group(groups, k as usize));
                    let g = choose|g: int|
                        0 <= g < groups.len() && (#[trigger] groups[g]).contains(k as usize);
                    let m = choose|m: int| 0 <= m < groups[g].len() && groups[g][m] == k as usize;
                    assert(begins(line, !rows)[groups[g][m] as int].order() == heads[g]);
                    lemma_stops(cells, !rows);
                    assert(heads[g] == heads[i]);
                    assert(g == i);
                    assert(group[m] == cell);
                    let t = choose|t: int| 0 <= t < cells.len() && cells[t] == cell;
                    assert(begin(cells[t], rows).finite() && begin(cells[s], rows).finite());
                    lemma_same_is_close(begin(cell, rows), x);
                    assert(!edges::close(begin(group[m], rows), x));
                }
            }
        },
    }
}

/// The columns are the transpose of the rows: every row has a place for each column, every
/// column one for each row, and where a row and a column cross, both have the same cell.
pub proof fn law_columns_are_the_transpose_of_rows(cells: Seq<BBox>)
    requires
        cells.len() <= usize::MAX,
        well_spaced(cells, true),
        well_spaced(cells, false),
        one_at_each_place(cells),
    ensures
        ({
            let rows = lanes(cells, true);
            let columns = lanes(cells, false);
            &&& forall|i: int|
                0 <= i < rows.len() ==> (#[trigger] rows[i]).cells.len() == columns.len()
            &&& forall|j: int|
                0 <= j < columns.len() ==> (#[trigger] columns[j]).cells.len() == rows.len()
            &&& forall|i: int, j: int|
                0 <= i < rows.len() && 0 <= j < columns.len() ==> (#[trigger] columns[j]).cells[i]
                    == (#[trigger] rows[i]).cells[j]
        }),
{
    let rows = lanes(cells, true);
    let columns = lanes(cells, false);
    law_lanes_are_counted(cells, true);
    law_lanes_are_counted(cells, false);
    lemma_lane_heads(cells, true);
    lemma_lane_heads(cells, false);
    assert(rows.len() == lane_heads(cells, true).len());
    assert(columns.len() == lane_heads(cells, false).len());
    assert forall|i: int, j: int| 0 <= i < rows.len() && 0 <= j < columns.len() implies (
    #[trigger] columns[j]).cells[i] == (#[trigger] rows[i]).cells[j] by {
        lemma_place(cells, true, i, j);
        lemma_place(cells, false, j, i);
        match rows[i].cells[j] {
            Some(a) => {
                assert(stands_at(cells, false, j, i, a));
                let b = columns[j].cells[i]->0;
                assert(stands_at(cells, false, j, i, b));
                let s = choose|s: int| 0 <= s < cells.len() && cells[s] == a;
                let t = choose|t: int| 0 <= t < cells.len() && cells[t] == b;
                assert(begin(cells[s], true).finite() && begin(cells[t], true).finite());
                assert(begin(cells[s], false).finite() && begin(cells[t], false).finite());
                assert(cells[s].x0.same(cells[t].x0) && cells[s].top.same(cells[t].top));
                assert(s == t);
            },
            None => {
                if columns[j].cells[i] is Some {
                    assert(stands_at(cells, true, i, j, columns[j].cells[i]->0));
                }
            },
        }
    }
}

/// Rows follow each other from the top to the bottom, and the cells of a row from the left
/// to the right: cells of one row begin at one height, those of a later row further down,
/// and a later place in a row is further to the right. Each cell has a place in a row.
pub proof fn law_rows_go_down_and_places_to_the_right(cells: Seq<BBox>)
    requires
        cells.len() <= usize::MAX,
        well_spaced(cells, true),
        well_spaced(cells, false),
    ensures
        forall|i: int, j: int, k: int, l: int|
            #![trigger lanes(cells, true)[i].cells[j], lanes(cells, true)[k].cells[l]]
            0 <= i < lanes(cells, true).len() && 0 <= k < lanes(cells, true).len() && 0 <= j
                < lanes(cells, true)[i].cells.len() && 0 <= l < lanes(cells, true)[k].cells.len()
                && lanes(cells, true)[i].cells[j] is Some && lanes(cells, true)[k].cells[l] is Some
                ==> {
                let a = lanes(cells, true)[i].cells[j]->0;
                let b = lanes(cells, true)[k].cells[l]->0;
                &&& cells.contains(a)
                &&& i == k ==> a.top.same(b.top)
                &&& i < k ==> a.top.less(b.top)
                &&& j == l ==> a.x0.same(b.x0)
                &&& j < l ==> a.x0.less(b.x0)
            },
        forall|n: int|
            0 <= n < cells.len() ==> has_place(lanes(cells, true), #[trigger] cells[n]),
{
    let rows = lanes(cells, true);
    lemma_stops(cells, true);
    lemma_stops(cells, false);
    lemma_lane_heads(cells, true);
    let across = stops(cells, true);
    let down = stops(cells, false);
    assert(rows.len() == lane_heads(cells, true).len());
    assert(rows.len() == down.len());
    assert forall|i: int, j: int, k: int, l: int|
        #![trigger rows[i].cells[j], rows[k].cells[l]]
        0 <= i < rows.len() && 0 <= k < rows.len() && 0 <= j < rows[i].cells.len() && 0 <= l
            < rows[k].cells.len() && rows[i].cells[j] is Some && rows[k].cells[l] is Some implies {
        let a = rows[i].cells[j]->0;
        let b = rows[k].cells[l]->0;
        &&& cells.contains(a)
        &&& i == k ==> a.top.same(b.top)
        &&& i < k ==> a.top.less(b.top)
        &&& j == l ==> a.x0.same(b.x0)
        &&& j < l ==> a.x0.less(b.x0)
    } by {
        lemma_place(cells, true, i, j);
        lemma_place(cells, true, k, l);
        let a = rows[i].cells[j]->0;
        let b = rows[k].cells[l]->0;
        let s = choose|s: int| 0 <= s < cells.len() && cells[s] == a;
        let t = choose|t: int| 0 <= t < cells.len() && cells[t] == b;
        assert(begin(cells[s], true).finite() && begin(cells[t], true).finite());
        assert(begin(cells[s], false).finite() && begin(cells[t], false).finite());
        let ys = clustering::orders(down);
        let xs = clustering::orders(across);
        assert(ys[i] == down[i].order() && ys[k] == down[k].order());
        assert(xs[j] == across[j].order() && xs[l] == across[l].order());
    }
    assert forall|n: int| 0 <= n < cells.len() implies has_place(rows, #[trigger] cells[n]) by {
        let c = cells[n];
        let ys = clustering::orders(down);
        let xs = clustering::orders(across);
        assert(clustering::orders(begins(cells, false))[n] == c.top.order());
        assert(clustering::orders(begins(cells, true))[n] == c.x0.order());
        assert(ys.contains(c.top.order()) && xs.contains(c.x0.order()));
        let i = choose|i: int| 0 <= i < ys.len() && ys[i] == c.top.order();
        let j = choose|j: int| 0 <= j < xs.len() && xs[j] == c.x0.order();
        lemma_place(cells, true, i, j);
        assert(cells.contains(c));
        assert(stands_at(cells, true, i, j, c));
        let d = rows[i].cells[j]->0;
        let s = choose|s: int| 0 <= s < cells.len() && cells[s] == d;
        assert(begin(cells[s], true).finite() && begin(cells[n], true).finite());
        assert(begin(cells[s], false).finite() && begin(cells[n], false).finite());
        assert(begins_like(rows[i].cells[j], c));
    }
}

/// Whether there is a cell that begins where the given one does.
pub open spec fn begins_like(place: Option<BBox>, cell: BBox) -> bool {
    place matches Some(c) && c.x0.same(cell.x0) && c.top.same(cell.top)
}

/// Whether a cell that begins where the given one does has a place in one of the rows.
pub open spec fn has_place(rows: Seq<CellGroupView>, cell: BBox) -> bool {
    exists|i: int, j: int|
        0 <= i < rows.len() && 0 <= j < rows[i].cells.len() && #[trigger] begins_like(
            rows[i].cells[j],
            cell,
        )
}

/// Rows and columns have at least one place, and there are none without cells.
pub proof fn law_lanes_have_places(cells: Seq<BBox>, rows: bool)
    requires
        cells.len() <= usize::MAX,
    ensures
        cells.len() == 0 ==> lanes(cells, rows).len() == 0,
        cells.len() > 0 ==> lanes(cells, rows).len() > 0 && stops(cells, rows).len() > 0,
{
    lemma_lined_up(cells, rows);
    let line = lined_up(cells, rows);
    let across = begins(line, !rows);
    let p = order::stable_order(clustering::rank_keys(across));
    order::law_stable_order_exists(clustering::rank_keys(across));
    clustering::law_chains_cut_the_order(across, p, Float { bits: 0 });
    let along = begins(line, rows);
    let q = order::stable_order(clustering::rank_keys(along));
    order::law_stable_order_exists(clustering::rank_keys(along));
    lemma_spaced_len(order::picked(along, q));
}

proof fn lemma_spaced_len(xs: Seq<Float>)
    ensures
        xs.len() > 0 ==> spaced(xs).len() > 0,
    decreases xs.len(),
{
    if xs.len() > 0 {
        lemma_spaced_len(xs.drop_last());
    }
}

proof fn lemma_even(rows: Seq<Vec<Option<String>>>, n: nat)
    requires
        forall|i: int| 0 <= i < rows.len() ==> #[trigger] rows[i]@.len() == n,
    ensures
        csv_text::even_rows(rows) == rows.len(),
    decreases rows.len(),
{
    if rows.len() > 0 {
        let front = rows.drop_last();
        assert forall|i: int| 0 <= i < front.len() implies #[trigger] front[i]@.len() == n by {
            assert(front[i] == rows[i]);
        }
        lemma_even(front, n);
        assert(rows[rows.len() - 1] == rows.last());
    }
}

fn text_of_cell<F: Fn(&Vec<Char>, &TextOptions) -> String>(
    extract_text: &F,
    row_chars: &Vec<Char>,
    options: &TextOptions,
    cell: Option<BBox>,
) -> (text: Option<String>)
    requires
        forall|chars: Vec<Char>, o: TextOptions| #[trigger]
            call_requires(*extract_text, (&chars, &o)),
    ensures
        cell_text(*extract_text, types::seen(row_chars@), *options, cell, text),
{
    let bbox: BBox = match cell {
        None => {
            return None;
        },
        Some(bbox) => bbox,
    };
    let cell_chars: Vec<Char> = chars_in(row_chars, bbox);
    assert(types::seen(cell_chars@).len() == cell_chars@.len());
    if cell_chars.len() == 0 {
        return Some(String::new());
    }
    let text_options: TextOptions = if options.layout {
        TextOptions {
            layout: true,
            layout_width: Some(bbox.width()),
            layout_height: Some(bbox.height()),
            layout_bbox: Some(bbox),
        }
    } else {
        *options
    };
    let text: String = extract_text(&cell_chars, &text_options);
    assert(call_ensures(*extract_text, (&cell_chars, &cell_options(*options, bbox)), text));
    assert(made_from(
        *extract_text,
        types::seen(row_chars@).filter(lies_in(bbox)),
        cell_options(*options, bbox),
        text,
    ));
    Some(text)
}

impl Table {
    /// The rows, from the top to the bottom.
    pub fn rows(&self) -> (r: Vec<CellGroup>)
        ensures
            types::seen(r@) == lanes(self.cells@, true),
    {
        self.get_rows_or_cols(true)
    }

    /// The columns, from the left to the right.
    pub fn columns(&self) -> (r: Vec<CellGroup>)
        ensures
            types::seen(r@) == lanes(self.cells@, false),
    {
        self.get_rows_or_cols(false)
    }

    pub fn row_count(&self) -> (r: usize)
        ensures
            r == lanes(self.cells@, true).len(),
    {
        let rows: Vec<CellGroup> = self.rows();
        assert(types::seen(rows@).len() == rows@.len());
        rows.len()
    }

    pub fn column_count(&self) -> (r: usize)
        ensures
            r == lanes(self.cells@, false).len(),
    {
        let columns: Vec<CellGroup> = self.columns();
        assert(types::seen(columns@).len() == columns@.len());
        columns.len()
    }

    /// The number of rows and the number of columns.
    pub fn shape(&self) -> (r: (usize, usize))
        ensures
            r.0 == lanes(self.cells@, true).len(),
            r.1 == lanes(self.cells@, false).len(),
    {
        (self.row_count(), self.column_count())
    }

    /// The text of the cells as comma-separated values, one line for each row.
    pub fn extract_csv<F: Fn(&Vec<Char>, &TextOptions) -> String>(
        &self,
        page: &Page,
        options: &TextOptions,
        extract_text: F,
    ) -> (r: Result<String, Error>)
        requires
            forall|chars: Vec<Char>, o: TextOptions| #[trigger]
                call_requires(extract_text, (&chars, &o)),
        ensures
            r matches Ok(text) && exists|texts: Vec<Vec<Option<String>>>|
                table_texts(
                    extract_text,
                    types::seen(page.chars@),
                    *options,
                    self.cells@,
                    #[trigger] texts@,
                ) && text@ == csv_text::csv_text(csv_text::all_fields(texts@))
                    && csv_text::csv_records(text@) == csv_text::all_fields(texts@),
            self.cells@.len() == 0 ==> r->Ok_0@.len() == 0,
    {
        let texts: Vec<Vec<Option<String>>> = self.extract(page, options, extract_text);
        proof {
            law_lanes_are_even(self.cells@, true);
            assert forall|i: int| 0 <= i < texts@.len() implies #[trigger] texts@[i]@.len() == stops(
                self.cells@,
                true,
            ).len() by {
                assert(row_texts(
                    extract_text,
                    types::seen(page.chars@),
                    *options,
                    lanes(self.cells@, true)[i],
                    texts@[i]@,
                ));
            }
            lemma_even(texts@, stops(self.cells@, true).len());
            assert(self.cells.len() == self.cells@.len());
            law_lanes_have_places(self.cells@, true);
            let all = csv_text::all_fields(texts@);
            assert forall|i: int| 0 <= i < all.len() implies csv_text::read_record(
                #[trigger] all[i],
            ) == all[i] by {
                assert(texts@[i]@.len() > 0);
            }
            assert(csv_text::read_records(all) =~= all);
            if self.cells@.len() == 0 {
                assert(all.len() == 0);
            }
        }
        table_rows_to_csv(texts.as_slice())
    }

    /// The text of the cells, row by row. `extract_text` puts the characters of a cell
    /// together.
    pub fn extract<F: Fn(&Vec<Char>, &TextOptions) -> String>(
        &self,
        page: &Page,
        options: &TextOptions,
        extract_text: F,
    ) -> (r: Vec<Vec<Option<String>>>)
        requires
            forall|chars: Vec<Char>, o: TextOptions| #[trigger]
                call_requires(extract_text, (&chars, &o)),
        ensures
            table_texts(extract_text, types::seen(page.chars@), *options, self.cells@, r@),
    {
        let rows: Vec<CellGroup> = self.rows();
        let ghost wanted = lanes(self.cells@, true);
        let ghost chars = types::seen(page.chars@);
        assert(types::seen(rows@).len() == rows@.len());
        let mut out: Vec<Vec<Option<String>>> = Vec::new();
        for i in 0..rows.len()
            invariant
                wanted == types::seen(rows@),
                wanted.len() == rows@.len(),
                chars == types::seen(page.chars@),
                forall|chars: Vec<Char>, o: TextOptions| #[trigger]
                    call_requires(extract_text, (&chars, &o)),
                out@.len() == i,
                forall|k: int|
                    0 <= k < i ==> row_texts(
                        extract_text,
                        chars,
                        *options,
                        wanted[k],
                        #[trigger] out@[k]@,
                    ),
        {
            let row: &CellGroup = &rows[i];
            assert(wanted[i as int] == row@);
            let row_chars: Vec<Char> = chars_in(&page.chars, row.bbox);
            let mut texts: Vec<Option<String>> = Vec::new();
            for j in 0..row.cells.len()
                invariant
                    forall|chars: Vec<Char>, o: TextOptions| #[trigger]
                        call_requires(extract_text, (&chars, &o)),
                    types::seen(row_chars@) == chars.filter(lies_in(row.bbox)),
                    texts@.len() == j,
                    forall|k: int|
                        0 <= k < j ==> cell_text(
                            extract_text,
                            chars.filter(lies_in(row.bbox)),
                            *options,
                            row.cells@[k],
                            #[trigger] texts@[k],
                        ),
            {
                let text: Option<String> = text_of_cell(
                    &extract_text,
                    &row_chars,
                    options,
                    row.cells[j],
                );
                texts.push(text);
            }
            out.push(texts);
        }
        out
    }

    fn get_rows_or_cols(&self, rows: bool) -> (r: Vec<CellGroup>)
        ensures
            types::seen(r@) == lanes(self.cells@, rows),
    {
        let cells: Vec<BBox> = line_up(&self.cells, rows);
        let xs: Vec<Float> = space_out(&begins_of(&cells, rows));
        let anti: Vec<Float> = begins_of(&cells, !rows);
        let groups: Vec<Vec<usize>> = clustering::cluster_items(&anti, Float { bits: 0 });
        let ghost wanted = lanes(self.cells@, rows);
        let ghost places = clustering::places(groups@);
        proof {
            clustering::law_clusters_list_all(anti@, Float { bits: 0 });
        }
        let mut out: Vec<CellGroup> = Vec::new();
        for i in 0..groups.len()
            invariant
                wanted == lanes(self.cells@, rows),
                places == clustering::places(groups@),
                places == lane_places(self.cells@, rows),
                cells@ == lined_up(self.cells@, rows),
                xs@ == stops(self.cells@, rows),
                forall|a: int, b: int|
                    0 <= a < places.len() && 0 <= b < places[a].len() ==> #[trigger] places[a][b]
                        < cells@.len(),
                types::seen(out@) =~= wanted.take(i as int),
        {
            assert(places[i as int] == groups@[i as int]@);
            let group: Vec<BBox> = pick_cells(&cells, &groups[i]);
            let mut row_cells: Vec<Option<BBox>> = Vec::new();
            let ghost goal = lane(group@, xs@, rows);
            let n: usize = xs.len();
            for j in 0..n
                invariant
                    n == xs@.len(),
                    goal == lane(group@, xs@, rows),
                    row_cells@ =~= goal.take(j as int),
            {
                row_cells.push(find_slot(&group, xs[j], rows));
            }
            assert(row_cells@ =~= goal);
            let bbox: BBox = merged_optional_bbox(&row_cells);
            let next: CellGroup = CellGroup { cells: row_cells, bbox };
            proof {
                types::lemma_seen_push(out@, next);
                assert(wanted[i as int] == next@);
            }
            out.push(next);
        }
        assert(wanted.take(wanted.len() as int) =~= wanted);
        out
    }
}

} // verus!
