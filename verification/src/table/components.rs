//! Cells that hang together by their corners.

use super::intersections;
use super::intersections::key_of_point;
use crate::float::Float;
use crate::geometry;
use crate::order;
use crate::types::BBox;
use crate::types::Point;
use vstd::prelude::*;

verus! {

/// What the four corners of a cell are compared by.
pub open spec fn corners(cell: BBox) -> Seq<order::Key> {
    seq![
        intersections::point_key(Point { x: cell.x0, y: cell.top }),
        intersections::point_key(Point { x: cell.x0, y: cell.bottom }),
        intersections::point_key(Point { x: cell.x1, y: cell.top }),
        intersections::point_key(Point { x: cell.x1, y: cell.bottom }),
    ]
}

/// Whether two cells have a corner in common.
pub open spec fn linked(a: BBox, b: BBox) -> bool {
    exists|i: int, j: int|
        0 <= i < 4 && 0 <= j < 4 && #[trigger] corners(a)[i] == #[trigger] corners(b)[j]
}

/// Whether a cell has a corner in common with one of the given cells.
pub open spec fn touches(cells: Seq<BBox>, cell: BBox) -> bool {
    exists|k: int| 0 <= k < cells.len() && linked(#[trigger] cells[k], cell)
}

/// Whether all coordinates of a cell are numbers.
pub open spec fn numeric(cell: BBox) -> bool {
    !cell.x0.nan() && !cell.top.nan() && !cell.x1.nan() && !cell.bottom.nan()
}

pub open spec fn all_numeric(cells: Seq<BBox>) -> bool {
    forall|i: int| 0 <= i < cells.len() ==> numeric(#[trigger] cells[i])
}

/// The place of the first cell that equals `target`, at or behind `from`.
pub open spec fn first_equal(cells: Seq<BBox>, target: BBox, from: int) -> int
    decreases cells.len() - from,
{
    if 0 <= from < cells.len() && !cells[from].same(target) {
        first_equal(cells, target, from + 1)
    } else {
        from
    }
}

/// The cells without the first one that equals `target`.
pub open spec fn without(cells: Seq<BBox>, target: BBox) -> Seq<BBox> {
    let at = first_equal(cells, target, 0);
    if 0 <= at < cells.len() {
        cells.remove(at)
    } else {
        cells
    }
}

/// Cells that are left, and those taken.
#[verifier::ext_equal]
pub struct Split {
    pub left: Seq<BBox>,
    pub taken: Seq<BBox>,
}

/// One look at each cell of `pass`: it is taken where none has been, or where it touches
/// those taken.
pub open spec fn gathered(start: Split, pass: Seq<BBox>) -> Split
    decreases pass.len(),
{
    if pass.len() == 0 {
        start
    } else {
        let before = gathered(start, pass.drop_last());
        let cell = pass.last();
        if before.taken.len() == 0 || touches(before.taken, cell) {
            Split { left: without(before.left, cell), taken: before.taken.push(cell) }
        } else {
            before
        }
    }
}

/// The groups of cells that hang together, behind those in `done`: `taken` grows for as
/// long as a look at all the cells left takes another one, and is a group then.
pub open spec fn grouped(start: Split, done: Seq<Seq<BBox>>) -> Seq<Seq<BBox>>
    decreases start.left.len(), start.taken.len(),
    when all_numeric(start.left)
{
    if start.left.len() == 0 {
        if start.taken.len() == 0 {
            done
        } else {
            done.push(start.taken)
        }
    } else {
        let after = gathered(start, start.left);
        proof {
            assert(start.left.take(start.left.len() as int) =~= start.left);
            lemma_gathered(start, start.left, start.left);
        }
        if after.taken.len() == start.taken.len() {
            grouped(Split { left: start.left, taken: Seq::empty() }, done.push(start.taken))
        } else {
            grouped(after, done)
        }
    }
}

/// How many of the cells equal `target`.
pub open spec fn count(cells: Seq<BBox>, target: BBox) -> nat
    decreases cells.len(),
{
    if cells.len() == 0 {
        0
    } else {
        count(cells.drop_last(), target) + (if cells.last().same(target) {
            1nat
        } else {
            0nat
        })
    }
}

pub proof fn lemma_count_add(a: Seq<BBox>, b: Seq<BBox>, target: BBox)
    ensures
        count(a + b, target) == count(a, target) + count(b, target),
    decreases b.len(),
{
    if b.len() == 0 {
        assert(a + b =~= a);
    } else {
        assert((a + b).drop_last() =~= a + b.drop_last());
        lemma_count_add(a, b.drop_last(), target);
    }
}

proof fn lemma_count_one(cell: BBox, target: BBox)
    ensures
        count(seq![cell], target) == (if cell.same(target) {
            1nat
        } else {
            0nat
        }),
{
    assert(seq![cell].drop_last() =~= Seq::<BBox>::empty());
    assert(count(seq![cell].drop_last(), target) == 0);
}

proof fn lemma_first_equal(cells: Seq<BBox>, target: BBox, from: int)
    requires
        0 <= from <= cells.len(),
        count(cells.skip(from), target) > 0,
    ensures
        from <= first_equal(cells, target, from) < cells.len(),
        cells[first_equal(cells, target, from)].same(target),
    decreases cells.len() - from,
{
    let rest = cells.skip(from);
    if rest.len() > 0 && !cells[from].same(target) {
        assert(rest =~= seq![cells[from]] + cells.skip(from + 1));
        lemma_count_add(seq![cells[from]], cells.skip(from + 1), target);
        lemma_count_one(cells[from], target);
        lemma_first_equal(cells, target, from + 1);
    }
}

proof fn lemma_same_count(cells: Seq<BBox>, a: BBox, b: BBox)
    requires
        a.same(b),
    ensures
        count(cells, a) == count(cells, b),
    decreases cells.len(),
{
    if cells.len() > 0 {
        lemma_same_count(cells.drop_last(), a, b);
    }
}

proof fn lemma_without(cells: Seq<BBox>, cell: BBox)
    requires
        numeric(cell),
        count(cells, cell) > 0,
    ensures
        without(cells, cell).len() + 1 == cells.len(),
        forall|target: BBox|
            count(cells, target) == #[trigger] count(without(cells, cell), target) + (
            if cell.same(target) {
                1nat
            } else {
                0nat
            }),
        all_numeric(cells) ==> all_numeric(without(cells, cell)),
        forall|i: int|
            0 <= i < without(cells, cell).len() ==> cells.contains(
                #[trigger] without(cells, cell)[i],
            ),
{
    assert(cells.skip(0) =~= cells);
    lemma_first_equal(cells, cell, 0);
    let at = first_equal(cells, cell, 0);
    let gone = cells[at];
    let rest = without(cells, cell);
    assert forall|target: BBox|
        count(cells, target) == #[trigger] count(rest, target) + (if cell.same(target) {
            1nat
        } else {
            0nat
        }) by {
        assert(cells =~= cells.take(at) + seq![gone] + cells.skip(at + 1));
        assert(rest =~= cells.take(at) + cells.skip(at + 1));
        lemma_count_add(cells.take(at) + seq![gone], cells.skip(at + 1), target);
        lemma_count_add(cells.take(at), seq![gone], target);
        lemma_count_add(cells.take(at), cells.skip(at + 1), target);
        lemma_count_one(gone, target);
        assert(gone.same(target) == cell.same(target));
    }
    assert forall|i: int| 0 <= i < rest.len() implies cells.contains(#[trigger] rest[i]) by {
        if i < at {
            assert(rest[i] == cells[i]);
        } else {
            assert(rest[i] == cells[i + 1]);
        }
    }
    if all_numeric(cells) {
        assert forall|i: int| 0 <= i < rest.len() implies numeric(#[trigger] rest[i]) by {
            assert(cells.contains(rest[i]));
        }
    }
}

/// A look at the first cells of those left loses none: each cell is either still left or
/// has been taken.
pub proof fn lemma_gathered(start: Split, pass: Seq<BBox>, all: Seq<BBox>)
    requires
        all == start.left,
        all_numeric(all),
        pass.len() <= all.len(),
        pass == all.take(pass.len() as int),
    ensures
        ({
            let after = gathered(start, pass);
            let fresh = after.taken.skip(start.taken.len() as int);
            &&& start.taken.len() <= after.taken.len()
            &&& after.taken.take(start.taken.len() as int) == start.taken
            &&& after.left.len() + fresh.len() == all.len()
            &&& all_numeric(after.left)
            &&& forall|target: BBox|
                #[trigger] count(all, target) == count(after.left, target) + count(fresh, target)
            &&& forall|target: BBox| #[trigger] count(fresh, target) <= count(pass, target)
            &&& forall|i: int| 0 <= i < fresh.len() ==> pass.contains(#[trigger] fresh[i])
            &&& forall|i: int|
                0 <= i < after.left.len() ==> all.contains(#[trigger] after.left[i])
            &&& start.taken.len() == 0 && pass.len() > 0 ==> fresh.len() > 0
            &&& after.taken.len() == start.taken.len() ==> after == start
        }),
    decreases pass.len(),
{
    let n = start.taken.len() as int;
    if pass.len() == 0 {
        assert(start.taken.skip(n) =~= Seq::<BBox>::empty());
        assert(start.taken.take(n) =~= start.taken);
    } else {
        let front = pass.drop_last();
        assert(front =~= all.take(front.len() as int));
        lemma_gathered(start, front, all);
        let before = gathered(start, front);
        let cell = pass.last();
        let after = gathered(start, pass);
        let old_fresh = before.taken.skip(n);
        let fresh = after.taken.skip(n);
        assert forall|i: int| 0 <= i < old_fresh.len() implies pass.contains(
            #[trigger] old_fresh[i],
        ) by {
            let k = choose|k: int| 0 <= k < front.len() && front[k] == old_fresh[i];
            assert(pass[k] == old_fresh[i]);
        }
        if before.taken.len() == 0 || touches(before.taken, cell) {
            // The cell is still left: fewer of its equals have been taken than were seen.
            let rest = all.skip(pass.len() as int);
            assert(all =~= front + seq![cell] + rest);
            lemma_count_add(front + seq![cell], rest, cell);
            lemma_count_add(front, seq![cell], cell);
            lemma_count_one(cell, cell);
            assert(all[pass.len() - 1] == cell);
            assert(numeric(cell));
            assert(count(before.left, cell) > 0) by {
                assert(count(all, cell) == count(before.left, cell) + count(old_fresh, cell));
                assert(count(old_fresh, cell) <= count(front, cell));
            }
            lemma_without(before.left, cell);
            assert(fresh =~= old_fresh.push(cell));
            assert(after.taken.take(n) =~= start.taken);
            assert forall|target: BBox| #[trigger]
                count(all, target) == count(after.left, target) + count(fresh, target) by {
                assert(count(before.left, target) == count(without(before.left, cell), target) + (
                if cell.same(target) {
                    1nat
                } else {
                    0nat
                }));
                assert(fresh.drop_last() =~= old_fresh);
                assert(count(all, target) == count(before.left, target) + count(
                    old_fresh,
                    target,
                ));
            }
            assert forall|target: BBox| #[trigger] count(fresh, target) <= count(pass, target) by {
                assert(fresh.drop_last() =~= old_fresh);
                assert(count(old_fresh, target) <= count(front, target));
            }
            assert forall|i: int| 0 <= i < fresh.len() implies pass.contains(
                #[trigger] fresh[i],
            ) by {
                if i < old_fresh.len() {
                    assert(fresh[i] == old_fresh[i]);
                } else {
                    assert(fresh[i] == pass[pass.len() - 1]);
                }
            }
            assert forall|i: int| 0 <= i < after.left.len() implies all.contains(
                #[trigger] after.left[i],
            ) by {
                assert(before.left.contains(after.left[i]));
                let k = choose|k: int|
                    0 <= k < before.left.len() && before.left[k] == after.left[i];
                assert(all.contains(before.left[k]));
            }
        } else {
            assert forall|target: BBox| #[trigger] count(fresh, target) <= count(pass, target) by {
                assert(count(old_fresh, target) <= count(front, target));
            }
        }
    }
}

/// Whether each cell but the first touches those before it.
pub open spec fn hangs_together(group: Seq<BBox>) -> bool {
    forall|k: int| 0 < k < group.len() ==> touches(group.take(k), #[trigger] group[k])
}

/// Whether no cell of the one group has a corner in common with a cell of the other.
pub open spec fn separate(a: Seq<BBox>, b: Seq<BBox>) -> bool {
    forall|i: int, j: int|
        0 <= i < a.len() && 0 <= j < b.len() ==> !linked(#[trigger] a[i], #[trigger] b[j])
}

/// How many cells of all groups equal `target`.
pub open spec fn total(groups: Seq<Seq<BBox>>, target: BBox) -> nat
    decreases groups.len(),
{
    if groups.len() == 0 {
        0
    } else {
        total(groups.drop_last(), target) + count(groups.last(), target)
    }
}

/// Whether all cells of the one sequence occur in the other.
pub open spec fn drawn_from(group: Seq<BBox>, cells: Seq<BBox>) -> bool {
    forall|i: int| 0 <= i < group.len() ==> cells.contains(#[trigger] group[i])
}

/// Whether the groups hang together, are not empty, consist of the given cells, and no
/// two of them have a corner in common.
pub open spec fn sound_groups(groups: Seq<Seq<BBox>>, cells: Seq<BBox>) -> bool {
    &&& forall|g: int|
        0 <= g < groups.len() ==> hangs_together(#[trigger] groups[g]) && groups[g].len() > 0
            && drawn_from(groups[g], cells)
    &&& forall|g: int, h: int|
        0 <= g < groups.len() && 0 <= h < groups.len() && g != h ==> separate(
            #[trigger] groups[g],
            #[trigger] groups[h],
        )
}

/// Whether no group has a corner in common with any of the cells.
pub open spec fn apart_from(groups: Seq<Seq<BBox>>, cells: Seq<BBox>) -> bool {
    forall|g: int| 0 <= g < groups.len() ==> separate(#[trigger] groups[g], cells)
}

proof fn lemma_linked_symmetric(a: BBox, b: BBox)
    ensures
        linked(a, b) == linked(b, a),
{
    if linked(a, b) {
        let (i, j) = choose|i: int, j: int|
            0 <= i < 4 && 0 <= j < 4 && #[trigger] corners(a)[i] == #[trigger] corners(b)[j];
        assert(corners(b)[j] == corners(a)[i]);
    }
    if linked(b, a) {
        let (i, j) = choose|i: int, j: int|
            0 <= i < 4 && 0 <= j < 4 && #[trigger] corners(b)[i] == #[trigger] corners(a)[j];
        assert(corners(a)[j] == corners(b)[i]);
    }
}

proof fn lemma_gathered_hangs(start: Split, pass: Seq<BBox>)
    requires
        hangs_together(start.taken),
    ensures
        hangs_together(gathered(start, pass).taken),
    decreases pass.len(),
{
    if pass.len() > 0 {
        lemma_gathered_hangs(start, pass.drop_last());
        let before = gathered(start, pass.drop_last()).taken;
        let after = gathered(start, pass).taken;
        if after.len() > before.len() {
            assert forall|k: int| 0 < k < after.len() implies touches(
                after.take(k),
                #[trigger] after[k],
            ) by {
                assert(after.take(k) =~= before.take(k));
                if k < before.len() {
                    assert(after[k] == before[k]);
                } else {
                    assert(before.take(k) =~= before);
                }
            }
        }
    }
}

proof fn lemma_nothing_touches(start: Split, pass: Seq<BBox>)
    requires
        start.taken.len() > 0,
        gathered(start, pass).taken.len() == start.taken.len(),
    ensures
        gathered(start, pass) == start,
        forall|i: int| 0 <= i < pass.len() ==> !touches(start.taken, #[trigger] pass[i]),
    decreases pass.len(),
{
    if pass.len() > 0 {
        lemma_taken_grows(start, pass.drop_last());
        lemma_nothing_touches(start, pass.drop_last());
        assert forall|i: int| 0 <= i < pass.len() implies !touches(
            start.taken,
            #[trigger] pass[i],
        ) by {
            if i < pass.len() - 1 {
                assert(pass[i] == pass.drop_last()[i]);
            }
        }
    }
}

proof fn lemma_taken_grows(start: Split, pass: Seq<BBox>)
    ensures
        gathered(start, pass).taken.len() >= start.taken.len(),
    decreases pass.len(),
{
    if pass.len() > 0 {
        lemma_taken_grows(start, pass.drop_last());
    }
}

/// What `grouped` keeps while it works.
proof fn lemma_grouped(start: Split, done: Seq<Seq<BBox>>, cells: Seq<BBox>)
    requires
        all_numeric(start.left),
        sound_groups(done, cells),
        apart_from(done, start.left),
        apart_from(done, start.taken),
        hangs_together(start.taken),
        drawn_from(start.left, cells),
        drawn_from(start.taken, cells),
    ensures
        sound_groups(grouped(start, done), cells),
        forall|target: BBox| #[trigger]
            total(grouped(start, done), target) == total(done, target) + count(
                start.taken,
                target,
            ) + count(start.left, target),
    decreases start.left.len(), start.taken.len(),
{
    if start.left.len() == 0 {
        if start.taken.len() > 0 {
            lemma_one_more_group(done, start.taken, cells);
            assert forall|target: BBox| #[trigger]
                total(done.push(start.taken), target) == total(done, target) + count(
                    start.taken,
                    target,
                ) by {
                assert(done.push(start.taken).drop_last() =~= done);
            }
        }
    } else {
        let after = gathered(start, start.left);
        assert(start.left.take(start.left.len() as int) =~= start.left);
        lemma_gathered(start, start.left, start.left);
        let n = start.taken.len() as int;
        let fresh = after.taken.skip(n);
        if after.taken.len() == start.taken.len() {
            lemma_nothing_touches(start, start.left);
            lemma_one_more_group(done, start.taken, cells);
            let more = done.push(start.taken);
            let next = Split { left: start.left, taken: Seq::empty() };
            assert forall|g: int| 0 <= g < more.len() implies separate(
                #[trigger] more[g],
                start.left,
            ) by {
                if g < done.len() {
                    assert(more[g] == done[g]);
                } else {
                    assert forall|i: int, j: int|
                        0 <= i < start.taken.len() && 0 <= j < start.left.len() implies !linked(
                        #[trigger] start.taken[i],
                        #[trigger] start.left[j],
                    ) by {
                        assert(!touches(start.taken, start.left[j]));
                    }
                }
            }
            lemma_grouped(next, more, cells);
            assert forall|target: BBox| #[trigger]
                total(grouped(start, done), target) == total(done, target) + count(
                    start.taken,
                    target,
                ) + count(start.left, target) by {
                assert(more.drop_last() =~= done);
                assert(count(next.taken, target) == 0);
                assert(total(grouped(next, more), target) == total(more, target) + count(
                    next.taken,
                    target,
                ) + count(next.left, target));
            }
        } else {
            lemma_gathered_hangs(start, start.left);
            assert(after.taken =~= start.taken + fresh);
            assert forall|i: int| 0 <= i < after.taken.len() implies cells.contains(
                #[trigger] after.taken[i],
            ) by {
                if i < n {
                    assert(after.taken[i] == start.taken[i]);
                } else {
                    assert(after.taken[i] == fresh[i - n]);
                    let k = choose|k: int|
                        0 <= k < start.left.len() && start.left[k] == fresh[i - n];
                    assert(start.left.contains(fresh[i - n]));
                    assert(cells.contains(start.left[k]));
                }
            }
            assert forall|i: int| 0 <= i < after.left.len() implies cells.contains(
                #[trigger] after.left[i],
            ) by {
                assert(start.left.contains(after.left[i]));
                let k = choose|k: int| 0 <= k < start.left.len() && start.left[k] == after.left[i];
                assert(cells.contains(start.left[k]));
            }
            assert forall|g: int| 0 <= g < done.len() implies separate(
                #[trigger] done[g],
                after.left,
            ) && separate(done[g], after.taken) by {
                assert(separate(done[g], start.left));
                assert(separate(done[g], start.taken));
                assert forall|i: int, j: int|
                    0 <= i < done[g].len() && 0 <= j < after.left.len() implies !linked(
                    #[trigger] done[g][i],
                    #[trigger] after.left[j],
                ) by {
                    assert(start.left.contains(after.left[j]));
                    let k = choose|k: int|
                        0 <= k < start.left.len() && start.left[k] == after.left[j];
                    assert(!linked(done[g][i], start.left[k]));
                }
                assert forall|i: int, j: int|
                    0 <= i < done[g].len() && 0 <= j < after.taken.len() implies !linked(
                    #[trigger] done[g][i],
                    #[trigger] after.taken[j],
                ) by {
                    if j < n {
                        assert(after.taken[j] == start.taken[j]);
                    } else {
                        assert(after.taken[j] == fresh[j - n]);
                        assert(start.left.contains(fresh[j - n]));
                        let k = choose|k: int|
                            0 <= k < start.left.len() && start.left[k] == fresh[j - n];
                        assert(!linked(done[g][i], start.left[k]));
                    }
                }
            }
            lemma_grouped(after, done, cells);
            assert forall|target: BBox| #[trigger]
                total(grouped(start, done), target) == total(done, target) + count(
                    start.taken,
                    target,
                ) + count(start.left, target) by {
                lemma_count_add(start.taken, fresh, target);
                assert(count(start.left, target) == count(after.left, target) + count(
                    fresh,
                    target,
                ));
                assert(total(grouped(after, done), target) == total(done, target) + count(
                    after.taken,
                    target,
                ) + count(after.left, target));
            }
        }
    }
}

proof fn lemma_one_more_group(done: Seq<Seq<BBox>>, group: Seq<BBox>, cells: Seq<BBox>)
    requires
        sound_groups(done, cells),
        apart_from(done, group),
        hangs_together(group),
        group.len() > 0,
        drawn_from(group, cells),
    ensures
        sound_groups(done.push(group), cells),
{
    let more = done.push(group);
    assert forall|g: int| 0 <= g < more.len() implies hangs_together(#[trigger] more[g])
        && more[g].len() > 0 && drawn_from(more[g], cells) by {
        if g < done.len() {
            assert(more[g] == done[g]);
        }
    }
    assert forall|g: int, h: int|
        0 <= g < more.len() && 0 <= h < more.len() && g != h implies separate(
        #[trigger] more[g],
        #[trigger] more[h],
    ) by {
        if g < done.len() && h < done.len() {
            assert(more[g] == done[g] && more[h] == done[h]);
        } else if g < done.len() {
            assert(separate(done[g], group));
        } else {
            assert(separate(done[h], group));
            assert forall|i: int, j: int|
                0 <= i < group.len() && 0 <= j < done[h].len() implies !linked(
                #[trigger] group[i],
                #[trigger] done[h][j],
            ) by {
                lemma_linked_symmetric(group[i], done[h][j]);
                assert(!linked(done[h][j], group[i]));
            }
        }
    }
}

/// The groups of cells that hang together.
pub open spec fn groups_of(cells: Seq<BBox>) -> Seq<Seq<BBox>> {
    grouped(Split { left: cells, taken: Seq::empty() }, Seq::empty())
}

/// The groups consist of the given cells, each hangs together by common corners, no two of
/// them have a corner in common, and no cell is lost or added.
pub proof fn law_groups(cells: Seq<BBox>)
    requires
        all_numeric(cells),
    ensures
        sound_groups(groups_of(cells), cells),
        forall|target: BBox| #[trigger]
            total(groups_of(cells), target) == count(cells, target),
{
    let start = Split { left: cells, taken: Seq::empty() };
    lemma_grouped(start, Seq::empty(), cells);
    assert forall|target: BBox| #[trigger]
        total(groups_of(cells), target) == count(cells, target) by {
        assert(count(start.taken, target) == 0);
        assert(total(Seq::<Seq<BBox>>::empty(), target) == 0);
    }
}

/// The rectangle around cells, whichever of their corners are named; all zero where there
/// are none.
pub open spec fn around_all(cells: Seq<BBox>) -> BBox {
    match geometry::hull(cells.map_values(|c: BBox| c.upright())) {
        Some(b) => b,
        None => {
            let zero = Float { bits: 0 };
            BBox { x0: zero, top: zero, x1: zero, bottom: zero }
        },
    }
}

/// Whether a coordinate stands at the left or at the right of a cell.
pub open spec fn across(cell: BBox, f: Float) -> bool {
    f == cell.x0 || f == cell.x1
}

/// Whether a coordinate stands at the top or at the bottom of a cell.
pub open spec fn down(cell: BBox, f: Float) -> bool {
    f == cell.top || f == cell.bottom
}

/// The rectangle around cells has the least and the greatest of their coordinates: each of
/// its sides stands at a side of a cell, and no side of a cell that is a number lies
/// outside. Around no cells it is all zero.
pub proof fn law_bounds_are_least_and_greatest(cells: Seq<BBox>)
    ensures
        cells.len() == 0 ==> around_all(cells) == (BBox {
            x0: Float { bits: 0 },
            top: Float { bits: 0 },
            x1: Float { bits: 0 },
            bottom: Float { bits: 0 },
        }),
        cells.len() > 0 ==> {
            let r = around_all(cells);
            &&& exists|k: int| 0 <= k < cells.len() && #[trigger] across(cells[k], r.x0)
            &&& exists|k: int| 0 <= k < cells.len() && #[trigger] across(cells[k], r.x1)
            &&& exists|k: int| 0 <= k < cells.len() && #[trigger] down(cells[k], r.top)
            &&& exists|k: int| 0 <= k < cells.len() && #[trigger] down(cells[k], r.bottom)
            &&& forall|k: int, f: Float|
                0 <= k < cells.len() && #[trigger] across(cells[k], f) && !f.nan() ==> r.x0.at_most(
                    f,
                ) && f.at_most(r.x1)
            &&& forall|k: int, f: Float|
                0 <= k < cells.len() && #[trigger] down(cells[k], f) && !f.nan() ==> r.top.at_most(f)
                    && f.at_most(r.bottom)
        },
    decreases cells.len(),
{
    let turned = cells.map_values(|c: BBox| c.upright());
    if cells.len() > 0 {
        let last = cells.last();
        let rest = cells.drop_last();
        let r = around_all(cells);
        law_bounds_are_least_and_greatest(rest);
        assert(turned.drop_last() =~= rest.map_values(|c: BBox| c.upright()));
        let end = cells.len() - 1;
        assert(cells[end] == last);
        assert(forall|k: int| 0 <= k < end ==> cells[k] == #[trigger] rest[k]);
        if rest.len() == 0 {
            assert(turned.drop_last() =~= Seq::<BBox>::empty());
            assert(r == last.upright());
            assert(across(cells[end], r.x0) && across(cells[end], r.x1));
            assert(down(cells[end], r.top) && down(cells[end], r.bottom));
        } else {
            let before = around_all(rest);
            assert(r == before.around(last.upright()));
            let a = choose|k: int| 0 <= k < rest.len() && #[trigger] across(rest[k], before.x0);
            let b = choose|k: int| 0 <= k < rest.len() && #[trigger] across(rest[k], before.x1);
            let c = choose|k: int| 0 <= k < rest.len() && #[trigger] down(rest[k], before.top);
            let d = choose|k: int| 0 <= k < rest.len() && #[trigger] down(rest[k], before.bottom);
            assert(across(cells[end], r.x0) || across(cells[a], r.x0));
            assert(across(cells[end], r.x1) || across(cells[b], r.x1));
            assert(down(cells[end], r.top) || down(cells[c], r.top));
            assert(down(cells[end], r.bottom) || down(cells[d], r.bottom));
            assert forall|k: int, f: Float|
                0 <= k < cells.len() && #[trigger] across(cells[k], f) && !f.nan() implies r.x0.at_most(
                f,
            ) && f.at_most(r.x1) by {
                if k < end {
                    assert(across(rest[k], f));
                }
            }
            assert forall|k: int, f: Float|
                0 <= k < cells.len() && #[trigger] down(cells[k], f) && !f.nan() implies r.top.at_most(
                f,
            ) && f.at_most(r.bottom) by {
                if k < end {
                    assert(down(rest[k], f));
                }
            }
        }
    } else {
        assert(turned =~= Seq::<BBox>::empty());
    }
}

proof fn lemma_bounds_of_fewer(cells: Seq<BBox>, others: Seq<BBox>)
    requires
        cells.len() > 0,
        forall|c: BBox| cells.contains(c) ==> others.contains(c),
    ensures
        others.len() > 0,
        around_all(others).x0.order() <= around_all(cells).x0.order(),
        around_all(others).top.order() <= around_all(cells).top.order(),
        !around_all(cells).x1.nan() ==> around_all(cells).x1.at_most(around_all(others).x1),
        !around_all(cells).bottom.nan() ==> around_all(cells).bottom.at_most(
            around_all(others).bottom,
        ),
{
    let r = around_all(cells);
    law_bounds_are_least_and_greatest(cells);
    law_bounds_are_least_and_greatest(others);
    assert(cells.contains(cells[0]));
    let a = choose|k: int| 0 <= k < cells.len() && #[trigger] across(cells[k], r.x0);
    let b = choose|k: int| 0 <= k < cells.len() && #[trigger] across(cells[k], r.x1);
    let c = choose|k: int| 0 <= k < cells.len() && #[trigger] down(cells[k], r.top);
    let d = choose|k: int| 0 <= k < cells.len() && #[trigger] down(cells[k], r.bottom);
    assert(others.contains(cells[a]) && others.contains(cells[b]));
    assert(others.contains(cells[c]) && others.contains(cells[d]));
    let i = choose|i: int| 0 <= i < others.len() && others[i] == cells[a];
    assert(across(others[i], r.x0));
    let i = choose|i: int| 0 <= i < others.len() && others[i] == cells[b];
    assert(across(others[i], r.x1));
    let i = choose|i: int| 0 <= i < others.len() && others[i] == cells[c];
    assert(down(others[i], r.top));
    let i = choose|i: int| 0 <= i < others.len() && others[i] == cells[d];
    assert(down(others[i], r.bottom));
}

/// The rectangle around cells does not depend on their order, nor on how often each is
/// given: its sides are equal, or are both no numbers.
pub proof fn law_bounds_in_any_order(cells: Seq<BBox>, others: Seq<BBox>)
    requires
        forall|c: BBox| cells.contains(c) <==> others.contains(c),
    ensures
        around_all(cells).x0.order() == around_all(others).x0.order(),
        around_all(cells).top.order() == around_all(others).top.order(),
        around_all(cells).x1.order() == around_all(others).x1.order(),
        around_all(cells).bottom.order() == around_all(others).bottom.order(),
{
    law_bounds_are_least_and_greatest(cells);
    law_bounds_are_least_and_greatest(others);
    if cells.len() > 0 {
        lemma_bounds_of_fewer(cells, others);
        lemma_bounds_of_fewer(others, cells);
    } else if others.len() > 0 {
        assert(others.contains(others[0]));
    }
}

/// The rectangle around cells, whichever of their corners are named; all zero where there
/// are none.
pub fn merge_bboxes(cells: &Vec<BBox>) -> (r: BBox)
    ensures
        r == around_all(cells@),
{
    let ghost goal = cells@.map_values(|c: BBox| c.upright());
    let mut boxes: Vec<BBox> = Vec::new();
    let n: usize = cells.len();
    for i in 0..n
        invariant
            n == cells@.len(),
            goal == cells@.map_values(|c: BBox| c.upright()),
            boxes@ =~= goal.take(i as int),
    {
        boxes.push(cells[i].normalized());
    }
    assert(boxes@ =~= goal);
    match geometry::union_all(&boxes) {
        Some(b) => b,
        None => {
            let zero: Float = Float { bits: 0 };
            BBox { x0: zero, top: zero, x1: zero, bottom: zero }
        },
    }
}

/// What tables are sorted by: the top, then the left of the rectangle around them.
pub open spec fn table_key(cells: Seq<BBox>) -> order::Key {
    (around_all(cells).top.rank() as i64, around_all(cells).x0.rank() as i64)
}

/// Whether a group is more than a single cell.
pub open spec fn several() -> spec_fn(Seq<BBox>) -> bool {
    |group: Seq<BBox>| group.len() > 1
}

/// The groups by their place on the page.
pub open spec fn in_page_order(groups: Seq<Seq<BBox>>) -> Seq<Seq<BBox>> {
    order::picked(
        groups,
        order::stable_order(groups.map_values(|g: Seq<BBox>| table_key(g))),
    )
}

/// The tables that cells form: the groups of several cells that hang together, by their
/// place on the page.
pub open spec fn tables_of(cells: Seq<BBox>) -> Seq<Seq<BBox>> {
    in_page_order(groups_of(cells).filter(several()))
}

/// What is seen of lists of cells.
pub open spec fn cell_lists(groups: Seq<Vec<BBox>>) -> Seq<Seq<BBox>> {
    groups.map_values(|g: Vec<BBox>| g@)
}

/// Takes the first cell that equals `target` out of the cells.
pub fn remove_bbox(items: &mut Vec<BBox>, target: BBox)
    ensures
        final(items)@ == without(old(items)@, target),
{
    let n: usize = items.len();
    let mut at: usize = 0;
    while at < n && !items[at].equals(target)
        invariant
            at <= n,
            n == items@.len(),
            first_equal(items@, target, 0) == first_equal(items@, target, at as int),
        decreases n - at,
    {
        at = at + 1;
    }
    if at < n {
        items.remove(at);
    }
}

/// The corners of cells, sorted.
struct Corners {
    keys: Vec<order::Key>,
}

impl Corners {
    spec fn holds(self, key: order::Key) -> bool {
        self.keys@.contains(key)
    }

    spec fn sorted(self) -> bool {
        forall|i: int, j: int|
            0 <= i < j < self.keys@.len() ==> order::key_less(
                #[trigger] self.keys@[i],
                #[trigger] self.keys@[j],
            )
    }

    fn new() -> (r: Corners)
        ensures
            r.sorted(),
            forall|key: order::Key| !r.holds(key),
    {
        Corners { keys: Vec::new() }
    }

    /// Where a key is, or where it belongs.
    fn place(&self, key: order::Key) -> (at: usize)
        requires
            self.sorted(),
        ensures
            at <= self.keys@.len(),
            forall|i: int| 0 <= i < at ==> order::key_less(#[trigger] self.keys@[i], key),
            forall|i: int|
                at <= i < self.keys@.len() ==> !order::key_less(#[trigger] self.keys@[i], key),
            self.holds(key) <==> at < self.keys@.len() && self.keys@[at as int] == key,
    {
        let mut lo: usize = 0;
        let mut hi: usize = self.keys.len();
        while lo < hi
            invariant
                lo <= hi <= self.keys@.len(),
                self.sorted(),
                forall|i: int| 0 <= i < lo ==> order::key_less(#[trigger] self.keys@[i], key),
                forall|i: int|
                    hi <= i < self.keys@.len() ==> !order::key_less(#[trigger] self.keys@[i], key),
            decreases hi - lo,
        {
            let mid: usize = lo + (hi - lo) / 2;
            let k: order::Key = self.keys[mid];
            if k.0 < key.0 || (k.0 == key.0 && k.1 < key.1) {
                lo = mid + 1;
            } else {
                hi = mid;
            }
        }
        proof {
            if self.holds(key) {
                let i = choose|i: int| 0 <= i < self.keys@.len() && self.keys@[i] == key;
                if i != lo {
                    assert(order::key_less(self.keys@[lo as int], self.keys@[i]));
                }
            }
        }
        lo
    }

    fn has(&self, key: order::Key) -> (r: bool)
        requires
            self.sorted(),
        ensures
            r == self.holds(key),
    {
        let at: usize = self.place(key);
        at < self.keys.len() && self.keys[at].0 == key.0 && self.keys[at].1 == key.1
    }

    fn add(&mut self, key: order::Key)
        requires
            old(self).sorted(),
        ensures
            final(self).sorted(),
            forall|k: order::Key|
                #[trigger] final(self).holds(k) <==> old(self).holds(k) || k == key,
    {
        let at: usize = self.place(key);
        let ghost before = self.keys@;
        if !(at < self.keys.len() && self.keys[at].0 == key.0 && self.keys[at].1 == key.1) {
            self.keys.insert(at, key);
            let ghost after = self.keys@;
            assert(after == before.insert(at as int, key));
            assert forall|i: int, j: int| 0 <= i < j < after.len() implies order::key_less(
                #[trigger] after[i],
                #[trigger] after[j],
            ) by {
                let i0 = if i > at { i - 1 } else { i };
                let j0 = if j > at { j - 1 } else { j };
                if i != at {
                    assert(after[i] == before[i0]);
                }
                if j != at {
                    assert(after[j] == before[j0]);
                }
            }
            assert forall|k: order::Key| #[trigger]
                self.holds(k) <==> old(self).holds(k) || k == key by {
                if after.contains(k) {
                    let i = choose|i: int| 0 <= i < after.len() && after[i] == k;
                    if i < at {
                        assert(before[i] == k);
                    } else if i > at {
                        assert(before[i - 1] == k);
                    }
                }
                if before.contains(k) {
                    let i = choose|i: int| 0 <= i < before.len() && before[i] == k;
                    if i < at {
                        assert(after[i] == k);
                    } else {
                        assert(after[i + 1] == k);
                    }
                }
                assert(after[at as int] == key);
            }
        }
    }

    /// Whether these are the corners of the given cells.
    spec fn of(self, cells: Seq<BBox>) -> bool {
        &&& self.sorted()
        &&& forall|key: order::Key|
            #[trigger] self.holds(key) <==> exists|k: int, i: int|
                0 <= k < cells.len() && 0 <= i < 4 && #[trigger] corners(cells[k])[i] == key
    }

    fn touched_by(&self, cell: BBox, Ghost(cells): Ghost<Seq<BBox>>) -> (r: bool)
        requires
            self.of(cells),
        ensures
            r == touches(cells, cell),
    {
        let r: bool = self.has(key_of_point(Point { x: cell.x0, y: cell.top })) || self.has(
            key_of_point(Point { x: cell.x0, y: cell.bottom }),
        ) || self.has(key_of_point(Point { x: cell.x1, y: cell.top })) || self.has(
            key_of_point(Point { x: cell.x1, y: cell.bottom }),
        );
        proof {
            let own = corners(cell);
            assert(r == exists|j: int| 0 <= j < 4 && self.holds(#[trigger] own[j])) by {
                assert(own[0] == own[0] && own[1] == own[1] && own[2] == own[2] && own[3]
                    == own[3]);
            }
            if r {
                let j = choose|j: int| 0 <= j < 4 && self.holds(#[trigger] own[j]);
                let (k, i) = choose|k: int, i: int|
                    0 <= k < cells.len() && 0 <= i < 4 && #[trigger] corners(cells[k])[i] == own[j];
                assert(linked(cells[k], cell));
            }
            if touches(cells, cell) {
                let k = choose|k: int| 0 <= k < cells.len() && linked(#[trigger] cells[k], cell);
                let (i, j) = choose|i: int, j: int|
                    0 <= i < 4 && 0 <= j < 4 && #[trigger] corners(cells[k])[i]
                        == #[trigger] corners(cell)[j];
                assert(self.holds(own[j]));
            }
        }
        r
    }

    fn add_cell(&mut self, cell: BBox, Ghost(cells): Ghost<Seq<BBox>>)
        requires
            old(self).of(cells),
        ensures
            final(self).of(cells.push(cell)),
    {
        self.add(key_of_point(Point { x: cell.x0, y: cell.top }));
        self.add(key_of_point(Point { x: cell.x0, y: cell.bottom }));
        self.add(key_of_point(Point { x: cell.x1, y: cell.top }));
        self.add(key_of_point(Point { x: cell.x1, y: cell.bottom }));
        proof {
            let more = cells.push(cell);
            let own = corners(cell);
            assert forall|key: order::Key| #[trigger] self.holds(key) <==> exists|k: int, i: int|
                0 <= k < more.len() && 0 <= i < 4 && #[trigger] corners(more[k])[i] == key by {
                assert(self.holds(key) <==> old(self).holds(key) || key == own[0] || key == own[1]
                    || key == own[2] || key == own[3]);
                if old(self).holds(key) {
                    let (k, i) = choose|k: int, i: int|
                        0 <= k < cells.len() && 0 <= i < 4 && #[trigger] corners(cells[k])[i]
                            == key;
                    assert(corners(more[k])[i] == key);
                }
                let n = cells.len() as int;
                assert(corners(more[n])[0] == own[0]);
                assert(corners(more[n])[1] == own[1]);
                assert(corners(more[n])[2] == own[2]);
                assert(corners(more[n])[3] == own[3]);
                if exists|k: int, i: int|
                    0 <= k < more.len() && 0 <= i < 4 && #[trigger] corners(more[k])[i] == key {
                    let (k, i) = choose|k: int, i: int|
                        0 <= k < more.len() && 0 <= i < 4 && #[trigger] corners(more[k])[i] == key;
                    if k < n {
                        assert(corners(cells[k])[i] == key);
                        assert(old(self).holds(key));
                    }
                }
            }
        }
    }
}

fn copy_cells(cells: &Vec<BBox>) -> (r: Vec<BBox>)
    ensures
        r@ == cells@,
{
    let mut out: Vec<BBox> = Vec::new();
    let n: usize = cells.len();
    for i in 0..n
        invariant
            n == cells@.len(),
            out@ =~= cells@.take(i as int),
    {
        out.push(cells[i]);
    }
    assert(out@ =~= cells@);
    out
}

/// The groups of cells that hang together.
fn group_cells(cells: &Vec<BBox>) -> (r: Vec<Vec<BBox>>)
    requires
        all_numeric(cells@),
    ensures
        cell_lists(r@) == groups_of(cells@),
{
    let ghost goal = groups_of(cells@);
    let mut remaining: Vec<BBox> = copy_cells(cells);
    let mut corner_set: Corners = Corners::new();
    let mut current: Vec<BBox> = Vec::new();
    let mut done: Vec<Vec<BBox>> = Vec::new();
    assert(cell_lists(done@) =~= Seq::<Seq<BBox>>::empty());
    assert(current@ =~= Seq::<BBox>::empty());
    while remaining.len() > 0
        invariant
            all_numeric(remaining@),
            corner_set.of(current@),
            goal == grouped(Split { left: remaining@, taken: current@ }, cell_lists(done@)),
        decreases remaining@.len(), current@.len(),
    {
        let initial: usize = current.len();
        let snapshot: Vec<BBox> = copy_cells(&remaining);
        let ghost start = Split { left: remaining@, taken: current@ };
        assert(snapshot@.take(snapshot@.len() as int) =~= snapshot@);
        proof {
            lemma_gathered(start, start.left, start.left);
        }
        for i in 0..snapshot.len()
            invariant
                corner_set.of(current@),
                gathered(start, snapshot@.take(i as int)) == (Split {
                    left: remaining@,
                    taken: current@,
                }),
        {
            let cell: BBox = snapshot[i];
            assert(snapshot@.take(i + 1).drop_last() =~= snapshot@.take(i as int));
            if current.len() == 0 || corner_set.touched_by(cell, Ghost(current@)) {
                corner_set.add_cell(cell, Ghost(current@));
                current.push(cell);
                remove_bbox(&mut remaining, cell);
            }
        }
        if current.len() == initial {
            let ghost before = cell_lists(done@);
            done.push(current);
            assert(cell_lists(done@) =~= before.push(start.taken));
            corner_set = Corners::new();
            current = Vec::new();
            assert(current@ =~= Seq::<BBox>::empty());
        }
    }
    if current.len() > 0 {
        let ghost before = cell_lists(done@);
        let ghost last = current@;
        done.push(current);
        assert(cell_lists(done@) =~= before.push(last));
    }
    done
}

/// The tables that cells form: the groups of several cells that hang together, by their
/// place on the page.
pub fn cells_to_tables(cells: &Vec<BBox>) -> (r: Vec<Vec<BBox>>)
    requires
        all_numeric(cells@),
    ensures
        cell_lists(r@) == tables_of(cells@),
{
    let groups: Vec<Vec<BBox>> = group_cells(cells);
    let ghost all = cell_lists(groups@);
    let mut large: Vec<Vec<BBox>> = Vec::new();
    assert(cell_lists(large@) =~= all.take(0).filter(several())) by {
        reveal(Seq::filter);
    }
    for i in 0..groups.len()
        invariant
            all == cell_lists(groups@),
            cell_lists(large@) == all.take(i as int).filter(several()),
    {
        reveal(Seq::filter);
        assert(all.take(i + 1).drop_last() =~= all.take(i as int));
        assert(all[i as int] == groups@[i as int]@);
        if groups[i].len() > 1 {
            let ghost before = cell_lists(large@);
            let group: Vec<BBox> = copy_cells(&groups[i]);
            large.push(group);
            assert(cell_lists(large@) =~= before.push(all[i as int]));
        }
    }
    assert(all.take(all.len() as int) =~= all);
    let ghost tables = cell_lists(large@);
    let ghost wanted = tables.map_values(|g: Seq<BBox>| table_key(g));
    let n: usize = large.len();
    let mut keys: Vec<order::Key> = Vec::new();
    for i in 0..n
        invariant
            n == large@.len(),
            tables == cell_lists(large@),
            wanted == tables.map_values(|g: Seq<BBox>| table_key(g)),
            keys@ =~= wanted.take(i as int),
    {
        let b: BBox = merge_bboxes(&large[i]);
        assert(tables[i as int] == large@[i as int]@);
        keys.push((b.top.total_rank(), b.x0.total_rank()));
    }
    assert(keys@ =~= wanted);
    let p: Vec<usize> = order::sort_order(&keys);
    let ghost goal = order::picked(tables, p@);
    let mut out: Vec<Vec<BBox>> = Vec::new();
    for i in 0..n
        invariant
            n == large@.len(),
            n == p@.len(),
            tables == cell_lists(large@),
            goal == order::picked(tables, p@),
            forall|i: int| 0 <= i < n ==> #[trigger] p@[i] < n,
            cell_lists(out@) =~= goal.take(i as int),
    {
        let group: Vec<BBox> = copy_cells(&large[p[i]]);
        assert(goal[i as int] == group@);
        let ghost before = cell_lists(out@);
        out.push(group);
        assert(cell_lists(out@) =~= before.push(group@));
    }
    assert(cell_lists(out@) =~= goal);
    out
}

/// Where the groups that a filter keeps have been.
proof fn kept_places(groups: Seq<Seq<BBox>>) -> (idx: Seq<int>)
    ensures
        idx.len() == groups.filter(several()).len(),
        forall|k: int|
            0 <= k < idx.len() ==> 0 <= #[trigger] idx[k] < groups.len() && groups.filter(
                several(),
            )[k] == groups[idx[k]] && groups[idx[k]].len() > 1,
        forall|a: int, b: int| 0 <= a < b < idx.len() ==> #[trigger] idx[a] < #[trigger] idx[b],
        forall|g: int| 0 <= g < groups.len() && groups[g].len() > 1 ==> #[trigger] idx.contains(g),
    decreases groups.len(),
{
    reveal(Seq::filter);
    if groups.len() == 0 {
        Seq::empty()
    } else {
        let front = groups.drop_last();
        let before = kept_places(front);
        let n = groups.len() - 1;
        if groups.last().len() > 1 {
            let idx = before.push(n);
            assert forall|g: int| 0 <= g < groups.len() && groups[g].len() > 1 implies #[trigger]
                idx.contains(g) by {
                if g < n {
                    assert(front[g] == groups[g]);
                    assert(before.contains(g));
                    let k = choose|k: int| 0 <= k < before.len() && before[k] == g;
                    assert(idx[k] == g);
                } else {
                    assert(idx[before.len() as int] == g);
                }
            }
            assert forall|k: int| 0 <= k < idx.len() implies 0 <= #[trigger] idx[k] < groups.len()
                && groups.filter(several())[k] == groups[idx[k]] && groups[idx[k]].len() > 1 by {
                if k < before.len() {
                    assert(idx[k] == before[k]);
                    assert(front[before[k]] == groups[before[k]]);
                }
            }
            idx
        } else {
            assert forall|g: int| 0 <= g < groups.len() && groups[g].len() > 1 implies #[trigger]
                before.contains(g) by {
                assert(front[g] == groups[g]);
            }
            assert forall|k: int| 0 <= k < before.len() implies 0 <= #[trigger] before[k]
                < groups.len() && groups.filter(several())[k] == groups[before[k]]
                && groups[before[k]].len() > 1 by {
                assert(front[before[k]] == groups[before[k]]);
            }
            before
        }
    }
}

proof fn lemma_count_some(cells: Seq<BBox>, target: BBox) -> (k: int)
    requires
        count(cells, target) > 0,
    ensures
        0 <= k < cells.len(),
        cells[k].same(target),
    decreases cells.len(),
{
    if cells.last().same(target) {
        cells.len() - 1
    } else {
        lemma_count_some(cells.drop_last(), target)
    }
}

proof fn lemma_some_count(cells: Seq<BBox>, target: BBox, k: int)
    requires
        0 <= k < cells.len(),
        cells[k].same(target),
    ensures
        count(cells, target) > 0,
    decreases cells.len(),
{
    if k < cells.len() - 1 {
        lemma_some_count(cells.drop_last(), target, k);
    }
}

proof fn lemma_two_count(cells: Seq<BBox>, target: BBox, i: int, j: int)
    requires
        0 <= i < j < cells.len(),
        cells[i].same(target),
        cells[j].same(target),
    ensures
        count(cells, target) >= 2,
    decreases cells.len(),
{
    if j < cells.len() - 1 {
        lemma_two_count(cells.drop_last(), target, i, j);
    } else {
        lemma_some_count(cells.drop_last(), target, i);
    }
}

proof fn lemma_count_bound(cells: Seq<BBox>, target: BBox)
    ensures
        count(cells, target) <= cells.len(),
    decreases cells.len(),
{
    if cells.len() > 0 {
        lemma_count_bound(cells.drop_last(), target);
    }
}

proof fn lemma_total_some(groups: Seq<Seq<BBox>>, target: BBox) -> (g: int)
    requires
        total(groups, target) > 0,
    ensures
        0 <= g < groups.len(),
        count(groups[g], target) > 0,
    decreases groups.len(),
{
    if count(groups.last(), target) > 0 {
        groups.len() - 1
    } else {
        lemma_total_some(groups.drop_last(), target)
    }
}

proof fn lemma_total_in_one(groups: Seq<Seq<BBox>>, target: BBox, g: int)
    requires
        0 <= g < groups.len(),
        forall|h: int| 0 <= h < groups.len() && h != g ==> count(#[trigger] groups[h], target) == 0,
    ensures
        total(groups, target) == count(groups[g], target),
    decreases groups.len(),
{
    let front = groups.drop_last();
    if g == groups.len() - 1 {
        lemma_total_nowhere(front, target);
    } else {
        assert forall|h: int| 0 <= h < front.len() && h != g implies count(
            #[trigger] front[h],
            target,
        ) == 0 by {
            assert(front[h] == groups[h]);
        }
        lemma_total_in_one(front, target, g);
        assert(groups[groups.len() - 1] == groups.last());
    }
}

proof fn lemma_total_nowhere(groups: Seq<Seq<BBox>>, target: BBox)
    requires
        forall|h: int| 0 <= h < groups.len() ==> count(#[trigger] groups[h], target) == 0,
    ensures
        total(groups, target) == 0,
    decreases groups.len(),
{
    if groups.len() > 0 {
        let front = groups.drop_last();
        assert forall|h: int| 0 <= h < front.len() implies count(#[trigger] front[h], target)
            == 0 by {
            assert(front[h] == groups[h]);
        }
        lemma_total_nowhere(front, target);
        assert(groups[groups.len() - 1] == groups.last());
    }
}

/// Equal cells have equal corners.
proof fn lemma_same_corners(a: BBox, b: BBox)
    requires
        a.same(b),
    ensures
        corners(a) == corners(b),
        linked(a, b),
{
    assert(corners(a) =~= corners(b));
    assert(corners(a)[0] == corners(b)[0]);
}

/// Two cells with a corner in common are in one group of several cells.
proof fn lemma_linked_together(cells: Seq<BBox>, i: int, j: int) -> (g: int)
    requires
        all_numeric(cells),
        0 <= i < j < cells.len(),
        linked(cells[i], cells[j]),
    ensures
        0 <= g < groups_of(cells).len(),
        groups_of(cells)[g].len() > 1,
        count(groups_of(cells)[g], cells[i]) > 0,
        count(groups_of(cells)[g], cells[j]) > 0,
{
    let groups = groups_of(cells);
    let a = cells[i];
    let b = cells[j];
    law_groups(cells);
    assert(numeric(a) && numeric(b));
    lemma_some_count(cells, a, i);
    lemma_some_count(cells, b, j);
    assert(total(groups, a) == count(cells, a));
    assert(total(groups, b) == count(cells, b));
    let g = lemma_total_some(groups, a);
    let h = lemma_total_some(groups, b);
    let k = lemma_count_some(groups[g], a);
    let l = lemma_count_some(groups[h], b);
    lemma_same_corners(groups[g][k], a);
    lemma_same_corners(groups[h][l], b);
    let (x, y) = choose|x: int, y: int|
        0 <= x < 4 && 0 <= y < 4 && #[trigger] corners(a)[x] == #[trigger] corners(b)[y];
    assert(corners(groups[g][k])[x] == corners(groups[h][l])[y]);
    assert(linked(groups[g][k], groups[h][l]));
    if g != h {
        assert(separate(groups[g], groups[h]));
    }
    if groups[g].len() <= 1 {
        assert(k == l);
        assert(a.same(b));
        lemma_two_count(cells, a, i, j);
        assert forall|o: int| 0 <= o < groups.len() && o != g implies count(
            #[trigger] groups[o],
            a,
        ) == 0 by {
            if count(groups[o], a) > 0 {
                let m = lemma_count_some(groups[o], a);
                lemma_same_corners(groups[o][m], groups[g][k]);
                assert(separate(groups[o], groups[g]));
            }
        }
        lemma_total_in_one(groups, a, g);
        lemma_count_bound(groups[g], a);
    }
    g
}

/// Whether some table has cells equal to both.
pub open spec fn in_one_table(tables: Seq<Seq<BBox>>, a: BBox, b: BBox) -> bool {
    exists|t: int|
        0 <= t < tables.len() && count(#[trigger] tables[t], a) > 0 && count(tables[t], b) > 0
}

/// Tables consist of the given cells, have several cells, hang together by common corners,
/// and no two of them have a corner in common; two cells with a corner in common are in
/// one table.
pub proof fn law_tables(cells: Seq<BBox>)
    requires
        all_numeric(cells),
        groups_of(cells).len() <= usize::MAX,
    ensures
        sound_groups(tables_of(cells), cells),
        forall|t: int| 0 <= t < tables_of(cells).len() ==> #[trigger] tables_of(cells)[t].len() > 1,
        forall|i: int, j: int|
            0 <= i < j < cells.len() && linked(#[trigger] cells[i], #[trigger] cells[j])
                ==> in_one_table(tables_of(cells), cells[i], cells[j]),
{
    law_groups(cells);
    let groups = groups_of(cells);
    let kept = groups.filter(several());
    let idx = kept_places(groups);
    lemma_filter_shorter(groups);
    let keys = kept.map_values(|g: Seq<BBox>| table_key(g));
    let p = order::stable_order(keys);
    order::law_stable_order_exists(keys);
    order::law_stable_order_lists_all(keys, p);
    let tables = tables_of(cells);
    assert forall|t: int| 0 <= t < tables.len() implies {
        &&& #[trigger] tables[t] == groups[idx[p[t] as int]]
        &&& 0 <= idx[p[t] as int] < groups.len()
        &&& tables[t].len() > 1
    } by {
        assert(tables[t] == kept[p[t] as int]);
        assert(0 <= idx[p[t] as int] < groups.len());
    }
    assert forall|t: int| 0 <= t < tables.len() implies hangs_together(#[trigger] tables[t])
        && tables[t].len() > 0 && drawn_from(tables[t], cells) by {
        assert(tables[t] == groups[idx[p[t] as int]]);
    }
    assert forall|s: int, t: int|
        0 <= s < tables.len() && 0 <= t < tables.len() && s != t implies separate(
        #[trigger] tables[s],
        #[trigger] tables[t],
    ) by {
        assert(tables[s] == groups[idx[p[s] as int]]);
        assert(tables[t] == groups[idx[p[t] as int]]);
        assert(p[s] != p[t]);
        if p[s] < p[t] {
            assert(idx[p[s] as int] < idx[p[t] as int]);
        } else {
            assert(idx[p[t] as int] < idx[p[s] as int]);
        }
    }
    assert forall|i: int, j: int|
        0 <= i < j < cells.len() && linked(
            #[trigger] cells[i],
            #[trigger] cells[j],
        ) implies in_one_table(tables, cells[i], cells[j]) by {
        let g = lemma_linked_together(cells, i, j);
        assert(idx.contains(g));
        let k = choose|k: int| 0 <= k < idx.len() && idx[k] == g;
        assert(p.contains(k as usize));
        let t = choose|t: int| 0 <= t < p.len() && p[t] == k as usize;
        assert(tables[t] == groups[idx[p[t] as int]]);
        assert(count(tables[t], cells[i]) > 0);
    }
}

proof fn lemma_filter_shorter(groups: Seq<Seq<BBox>>)
    ensures
        groups.filter(several()).len() <= groups.len(),
    decreases groups.len(),
{
    reveal(Seq::filter);
    if groups.len() > 0 {
        lemma_filter_shorter(groups.drop_last());
    }
}

/// Whether a point is a corner of a cell.
pub open spec fn at_corner(cell: BBox, x: Float, y: Float) -> bool {
    (x.same(cell.x0) || x.same(cell.x1)) && (y.same(cell.top) || y.same(cell.bottom))
}

/// Whether two cells have a corner at the same point.
pub open spec fn meet(a: BBox, b: BBox) -> bool {
    exists|x: Float, y: Float| #[trigger] at_corner(a, x, y) && at_corner(b, x, y)
}

/// The number of the corner of a cell that lies at a point.
spec fn corner_number(cell: BBox, x: Float, y: Float) -> int {
    if x.same(cell.x0) {
        if y.same(cell.top) {
            0
        } else {
            1
        }
    } else {
        if y.same(cell.top) {
            2
        } else {
            3
        }
    }
}

/// Cells have a corner at the same point exactly where they have one in common.
pub proof fn law_meeting_cells_are_linked(a: BBox, b: BBox)
    requires
        numeric(a),
        numeric(b),
    ensures
        meet(a, b) == linked(a, b),
{
    if meet(a, b) {
        let (x, y) = choose|x: Float, y: Float| #[trigger]
            at_corner(a, x, y) && at_corner(b, x, y);
        let key = intersections::point_key(Point { x, y });
        assert(corners(a)[corner_number(a, x, y)] == key);
        assert(corners(b)[corner_number(b, x, y)] == key);
    }
    if linked(a, b) {
        let (i, j) = choose|i: int, j: int|
            0 <= i < 4 && 0 <= j < 4 && #[trigger] corners(a)[i] == #[trigger] corners(b)[j];
        let x = if i < 2 {
            a.x0
        } else {
            a.x1
        };
        let y = if i == 0 || i == 2 {
            a.top
        } else {
            a.bottom
        };
        assert(at_corner(a, x, y));
        assert(corners(a)[i] == intersections::point_key(Point { x, y }));
        assert(at_corner(b, x, y));
    }
}

/// Two cells that have a corner at the same point are in one table.
pub proof fn law_cells_that_meet_are_in_one_table(cells: Seq<BBox>, i: int, j: int)
    requires
        all_numeric(cells),
        groups_of(cells).len() <= usize::MAX,
        0 <= i < j < cells.len(),
        meet(cells[i], cells[j]),
    ensures
        in_one_table(tables_of(cells), cells[i], cells[j]),
{
    law_meeting_cells_are_linked(cells[i], cells[j]);
    law_tables(cells);
}

/// Every cell of a table but the first has a corner where one of those before it has one.
pub proof fn law_tables_hang_together(cells: Seq<BBox>, t: int, k: int) -> (m: int)
    requires
        all_numeric(cells),
        groups_of(cells).len() <= usize::MAX,
        0 <= t < tables_of(cells).len(),
        0 < k < tables_of(cells)[t].len(),
    ensures
        0 <= m < k,
        meet(tables_of(cells)[t][m], tables_of(cells)[t][k]),
{
    law_tables(cells);
    let group = tables_of(cells)[t];
    assert(hangs_together(group));
    let before = group.take(k);
    let m = choose|m: int| 0 <= m < before.len() && linked(#[trigger] before[m], group[k]);
    assert(before[m] == group[m]);
    assert(cells.contains(group[m]) && cells.contains(group[k]));
    law_meeting_cells_are_linked(group[m], group[k]);
    m
}

/// No two cells of different tables have a corner at the same point.
pub proof fn law_tables_do_not_meet(cells: Seq<BBox>, s: int, t: int, i: int, j: int)
    requires
        all_numeric(cells),
        groups_of(cells).len() <= usize::MAX,
        0 <= s < tables_of(cells).len(),
        0 <= t < tables_of(cells).len(),
        s != t,
        0 <= i < tables_of(cells)[s].len(),
        0 <= j < tables_of(cells)[t].len(),
    ensures
        !meet(tables_of(cells)[s][i], tables_of(cells)[t][j]),
{
    law_tables(cells);
    let a = tables_of(cells)[s][i];
    let b = tables_of(cells)[t][j];
    assert(cells.contains(a) && cells.contains(b));
    law_meeting_cells_are_linked(a, b);
    assert(separate(tables_of(cells)[s], tables_of(cells)[t]));
}

/// Tables come from the top of the page to its bottom, and those that begin at the same
/// height from the left to the right.
pub proof fn law_tables_come_in_page_order(cells: Seq<BBox>, s: int, t: int)
    requires
        all_numeric(cells),
        groups_of(cells).len() <= usize::MAX,
        0 <= s < t < tables_of(cells).len(),
    ensures
        around_all(tables_of(cells)[s]).top.at_most(around_all(tables_of(cells)[t]).top),
        around_all(tables_of(cells)[s]).top == around_all(tables_of(cells)[t]).top ==> around_all(
            tables_of(cells)[s],
        ).x0.at_most(around_all(tables_of(cells)[t]).x0),
{
    law_tables(cells);
    let kept = groups_of(cells).filter(several());
    lemma_filter_shorter(groups_of(cells));
    let keys = kept.map_values(|g: Seq<BBox>| table_key(g));
    let p = order::stable_order(keys);
    order::law_stable_order_exists(keys);
    let tables = tables_of(cells);
    assert(order::comes_before(keys, p[s], p[t]));
    assert(tables[s] == kept[p[s] as int] && tables[t] == kept[p[t] as int]);
    lemma_bounds_are_numbers(tables[s], cells);
    lemma_bounds_are_numbers(tables[t], cells);
}

proof fn lemma_bounds_are_numbers(group: Seq<BBox>, cells: Seq<BBox>)
    requires
        all_numeric(cells),
        drawn_from(group, cells),
        group.len() > 0,
    ensures
        !around_all(group).top.nan(),
        !around_all(group).x0.nan(),
{
    law_bounds_are_least_and_greatest(group);
    let r = around_all(group);
    let k = choose|k: int| 0 <= k < group.len() && #[trigger] across(group[k], r.x0);
    let l = choose|l: int| 0 <= l < group.len() && #[trigger] down(group[l], r.top);
    assert(cells.contains(group[k]) && cells.contains(group[l]));
}

} // verus!
