//! The cells between crossings.

use super::intersections;
use super::intersections::key_of_point;
use super::intersections::Crossing;
use super::intersections::CrossingView;
use crate::float::Float;
use crate::order;
use crate::types;
use crate::types::BBox;
use crate::types::Edge;
use crate::types::EdgeView;
use vstd::prelude::*;

verus! {

/// What a crossing is found by.
pub open spec fn key_at(crossings: Seq<CrossingView>, i: int) -> order::Key {
    intersections::point_key(crossings[i].point)
}

/// Whether some edge of the one list has the place of some edge of the other.
pub open spec fn share_edge(a: Seq<EdgeView>, b: Seq<EdgeView>) -> bool {
    exists|i: int, j: int|
        0 <= i < a.len() && 0 <= j < b.len() && intersections::edge_key(#[trigger] a[i])
            == intersections::edge_key(#[trigger] b[j])
}

/// Whether one edge goes through both crossings: a vertical one where they lie below each
/// other, else a horizontal one where they lie beside each other.
pub open spec fn connected(crossings: Seq<CrossingView>, a: int, b: int) -> bool {
    if key_at(crossings, a).0 == key_at(crossings, b).0 {
        share_edge(crossings[a].edges.vertical, crossings[b].edges.vertical)
    } else if key_at(crossings, a).1 == key_at(crossings, b).1 {
        share_edge(crossings[a].edges.horizontal, crossings[b].edges.horizontal)
    } else {
        false
    }
}

/// Whether `c` is the crossing below `r` and beside `b`, connected to both.
pub open spec fn completes(crossings: Seq<CrossingView>, b: int, r: int, c: int) -> bool {
    &&& 0 <= c < crossings.len()
    &&& key_at(crossings, c) == (key_at(crossings, r).0, key_at(crossings, b).1)
    &&& connected(crossings, c, r)
    &&& connected(crossings, c, b)
}

/// Whether `r` lies to the right of `i` and is the third corner of a cell that has `i` and,
/// below it, `b` as corners.
pub open spec fn closes(crossings: Seq<CrossingView>, i: int, b: int, r: int) -> bool {
    &&& key_at(crossings, r).1 == key_at(crossings, i).1
    &&& connected(crossings, i, r)
    &&& exists|c: int| completes(crossings, b, r, c)
}

/// The first crossing from `from` on that closes a cell.
pub open spec fn first_closing(crossings: Seq<CrossingView>, i: int, b: int, from: int) -> Option<
    int,
>
    decreases crossings.len() - from,
{
    if from >= crossings.len() {
        None
    } else if closes(crossings, i, b, from) {
        Some(from)
    } else {
        first_closing(crossings, i, b, from + 1)
    }
}

/// The cell with the corners `i`, `b` below it and `r` to the right of it.
pub open spec fn cell_between(crossings: Seq<CrossingView>, i: int, b: int, r: int) -> BBox {
    BBox {
        x0: crossings[i].point.x,
        top: crossings[i].point.y,
        x1: crossings[r].point.x,
        bottom: crossings[b].point.y,
    }
}

/// The cells whose first corner is `i` and whose corner below it comes before `end`: the
/// narrowest one for each corner below.
pub open spec fn cells_from(crossings: Seq<CrossingView>, i: int, end: int) -> Seq<BBox>
    decreases end,
{
    if end <= i + 1 || end <= 0 {
        Seq::empty()
    } else {
        let b = end - 1;
        let before = cells_from(crossings, i, b);
        if key_at(crossings, b).0 == key_at(crossings, i).0 && connected(crossings, i, b) {
            match first_closing(crossings, i, b, i + 1) {
                Some(r) => before.push(cell_between(crossings, i, b, r)),
                None => before,
            }
        } else {
            before
        }
    }
}

/// The cells whose first corner comes before `n`.
pub open spec fn cells_before(crossings: Seq<CrossingView>, n: int) -> Seq<BBox>
    decreases n,
{
    if n <= 0 {
        Seq::empty()
    } else {
        cells_before(crossings, n - 1) + cells_from(crossings, n - 1, crossings.len() as int)
    }
}

/// All cells.
pub open spec fn all_cells(crossings: Seq<CrossingView>) -> Seq<BBox> {
    cells_before(crossings, crossings.len() as int)
}

/// Whether a cell lies between four crossings, each connected to the two beside it.
pub open spec fn framed(
    crossings: Seq<CrossingView>,
    cell: BBox,
    i: int,
    b: int,
    r: int,
    c: int,
) -> bool {
    &&& 0 <= i < b < crossings.len()
    &&& i < r < crossings.len()
    &&& cell == cell_between(crossings, i, b, r)
    &&& key_at(crossings, b).0 == key_at(crossings, i).0
    &&& key_at(crossings, r).1 == key_at(crossings, i).1
    &&& connected(crossings, i, b)
    &&& connected(crossings, i, r)
    &&& completes(crossings, b, r, c)
}

pub open spec fn is_framed(crossings: Seq<CrossingView>, cell: BBox) -> bool {
    exists|i: int, b: int, r: int, c: int| framed(crossings, cell, i, b, r, c)
}

/// Whether all coordinates are numbers, and the smaller ones come first.
pub open spec fn proper(cell: BBox) -> bool {
    cell.x0.less(cell.x1) && cell.top.less(cell.bottom)
}

proof fn lemma_first_closing(crossings: Seq<CrossingView>, i: int, b: int, from: int)
    requires
        0 <= from,
    ensures
        first_closing(crossings, i, b, from) matches Some(r) ==> from <= r < crossings.len()
            && closes(crossings, i, b, r),
    decreases crossings.len() - from,
{
    if from < crossings.len() && !closes(crossings, i, b, from) {
        lemma_first_closing(crossings, i, b, from + 1);
    }
}

proof fn lemma_cells_from(crossings: Seq<CrossingView>, i: int, end: int)
    requires
        0 <= i < crossings.len(),
        end <= crossings.len(),
        intersections::ascending(crossings),
        intersections::consistent(crossings),
    ensures
        forall|k: int|
            0 <= k < cells_from(crossings, i, end).len() ==> is_framed(
                crossings,
                #[trigger] cells_from(crossings, i, end)[k],
            ) && proper(cells_from(crossings, i, end)[k]),
    decreases end,
{
    if end > i + 1 && end > 0 {
        let b = end - 1;
        let before = cells_from(crossings, i, b);
        lemma_cells_from(crossings, i, b);
        if key_at(crossings, b).0 == key_at(crossings, i).0 && connected(crossings, i, b) {
            lemma_first_closing(crossings, i, b, i + 1);
            if let Some(r) = first_closing(crossings, i, b, i + 1) {
                let cell = cell_between(crossings, i, b, r);
                let c = choose|c: int| completes(crossings, b, r, c);
                assert(framed(crossings, cell, i, b, r, c));
                assert(intersections::consistent_at(crossings[i]));
                assert(intersections::consistent_at(crossings[b]));
                assert(intersections::consistent_at(crossings[r]));
                assert(order::key_less(
                    intersections::point_key(crossings[i].point),
                    intersections::point_key(crossings[b].point),
                ));
                assert(order::key_less(
                    intersections::point_key(crossings[i].point),
                    intersections::point_key(crossings[r].point),
                ));
                lemma_order_bounds(crossings[i].point.x);
                lemma_order_bounds(crossings[i].point.y);
                lemma_order_bounds(crossings[r].point.x);
                lemma_order_bounds(crossings[r].point.y);
                lemma_order_bounds(crossings[b].point.x);
                lemma_order_bounds(crossings[b].point.y);
                assert(proper(cell));
                let all = cells_from(crossings, i, end);
                assert forall|k: int| 0 <= k < all.len() implies is_framed(
                    crossings,
                    #[trigger] all[k],
                ) && proper(all[k]) by {
                    if k < before.len() {
                        assert(all[k] == before[k]);
                    }
                }
            }
        }
    }
}

proof fn lemma_order_bounds(x: Float)
    ensures
        i64::MIN <= x.order() <= i64::MAX,
{
}

proof fn lemma_cells_before(crossings: Seq<CrossingView>, n: int)
    requires
        0 <= n <= crossings.len(),
        intersections::ascending(crossings),
        intersections::consistent(crossings),
    ensures
        forall|k: int|
            0 <= k < cells_before(crossings, n).len() ==> is_framed(
                crossings,
                #[trigger] cells_before(crossings, n)[k],
            ) && proper(cells_before(crossings, n)[k]),
    decreases n,
{
    if n > 0 {
        lemma_cells_before(crossings, n - 1);
        lemma_cells_from(crossings, n - 1, crossings.len() as int);
        let a = cells_before(crossings, n - 1);
        let b = cells_from(crossings, n - 1, crossings.len() as int);
        assert forall|k: int| 0 <= k < (a + b).len() implies is_framed(
            crossings,
            #[trigger] (a + b)[k],
        ) && proper((a + b)[k]) by {
            if k < a.len() {
                assert((a + b)[k] == a[k]);
            } else {
                assert((a + b)[k] == b[k - a.len()]);
            }
        }
    }
}

/// Every cell lies between four crossings, each connected to the two beside it; its
/// coordinates are numbers, and the smaller ones come first.
pub proof fn law_cells_are_framed(crossings: Seq<CrossingView>)
    requires
        intersections::ascending(crossings),
        intersections::consistent(crossings),
    ensures
        forall|k: int|
            0 <= k < all_cells(crossings).len() ==> is_framed(
                crossings,
                #[trigger] all_cells(crossings)[k],
            ) && proper(all_cells(crossings)[k]),
{
    lemma_cells_before(crossings, crossings.len() as int);
}

fn edges_share(a: &Vec<Edge>, b: &Vec<Edge>) -> (r: bool)
    ensures
        r == share_edge(types::seen(a@), types::seen(b@)),
{
    let ghost sa = types::seen(a@);
    let ghost sb = types::seen(b@);
    for i in 0..a.len()
        invariant
            sa == types::seen(a@),
            sb == types::seen(b@),
            forall|k: int, j: int|
                0 <= k < i && 0 <= j < sb.len() ==> intersections::edge_key(#[trigger] sa[k])
                    != intersections::edge_key(#[trigger] sb[j]),
    {
        for j in 0..b.len()
            invariant
                i < a@.len(),
                sa == types::seen(a@),
                sb == types::seen(b@),
                forall|l: int|
                    0 <= l < j ==> intersections::edge_key(sa[i as int])
                        != intersections::edge_key(#[trigger] sb[l]),
        {
            assert(sa[i as int] == a@[i as int]@);
            assert(sb[j as int] == b@[j as int]@);
            if a[i].x0.order_key() == b[j].x0.order_key() && a[i].top.order_key()
                == b[j].top.order_key() && a[i].x1.order_key() == b[j].x1.order_key()
                && a[i].bottom.order_key() == b[j].bottom.order_key() {
                return true;
            }
        }
    }
    false
}

/// Whether one edge goes through both crossings.
pub fn edge_connects(a: usize, b: usize, crossings: &Vec<Crossing>) -> (r: bool)
    requires
        a < crossings@.len(),
        b < crossings@.len(),
    ensures
        r == connected(types::seen(crossings@), a as int, b as int),
{
    let ka: order::Key = key_of_point(crossings[a].point);
    let kb: order::Key = key_of_point(crossings[b].point);
    if ka.0 == kb.0 {
        edges_share(&crossings[a].edges.vertical, &crossings[b].edges.vertical)
    } else if ka.1 == kb.1 {
        edges_share(&crossings[a].edges.horizontal, &crossings[b].edges.horizontal)
    } else {
        false
    }
}

/// The crossing with the given key.
fn find_crossing(crossings: &Vec<Crossing>, key: order::Key) -> (r: Option<usize>)
    requires
        intersections::ascending(types::seen(crossings@)),
    ensures
        match r {
            Some(c) => c < crossings@.len() && key_at(types::seen(crossings@), c as int) == key,
            None => forall|c: int|
                0 <= c < crossings@.len() ==> #[trigger] key_at(types::seen(crossings@), c) != key,
        },
{
    let ghost all = types::seen(crossings@);
    let mut lo: usize = 0;
    let mut hi: usize = crossings.len();
    while lo < hi
        invariant
            lo <= hi <= crossings@.len(),
            all == types::seen(crossings@),
            intersections::ascending(all),
            forall|c: int| 0 <= c < lo ==> order::key_less(#[trigger] key_at(all, c), key),
            forall|c: int|
                hi <= c < all.len() ==> order::key_less(key, #[trigger] key_at(all, c)),
        decreases hi - lo,
    {
        let mid: usize = lo + (hi - lo) / 2;
        let k: order::Key = key_of_point(crossings[mid].point);
        assert(k == key_at(all, mid as int));
        if k.0 == key.0 && k.1 == key.1 {
            return Some(mid);
        }
        if k.0 < key.0 || (k.0 == key.0 && k.1 < key.1) {
            assert forall|c: int| 0 <= c < mid + 1 implies order::key_less(
                #[trigger] key_at(all, c),
                key,
            ) by {
                if c < mid {
                    assert(order::key_less(
                        intersections::point_key(all[c].point),
                        intersections::point_key(all[mid as int].point),
                    ));
                }
            }
            lo = mid + 1;
        } else {
            assert forall|c: int| mid <= c < all.len() implies order::key_less(
                key,
                #[trigger] key_at(all, c),
            ) by {
                if c > mid {
                    assert(order::key_less(
                        intersections::point_key(all[mid as int].point),
                        intersections::point_key(all[c].point),
                    ));
                }
            }
            hi = mid;
        }
    }
    None
}

fn does_close(crossings: &Vec<Crossing>, i: usize, b: usize, r: usize) -> (res: bool)
    requires
        intersections::ascending(types::seen(crossings@)),
        i < crossings@.len(),
        b < crossings@.len(),
        r < crossings@.len(),
    ensures
        res == closes(types::seen(crossings@), i as int, b as int, r as int),
{
    let ghost all = types::seen(crossings@);
    let ki: order::Key = key_of_point(crossings[i].point);
    let kb: order::Key = key_of_point(crossings[b].point);
    let kr: order::Key = key_of_point(crossings[r].point);
    if kr.1 != ki.1 || !edge_connects(i, r, crossings) {
        return false;
    }
    match find_crossing(crossings, (kr.0, kb.1)) {
        None => {
            assert forall|c: int| !completes(all, b as int, r as int, c) by {
                if 0 <= c < all.len() {
                    assert(key_at(all, c) != (kr.0, kb.1));
                }
            }
            false
        },
        Some(c) => {
            let found: bool = edge_connects(c, r, crossings) && edge_connects(c, b, crossings);
            proof {
                assert(found ==> completes(all, b as int, r as int, c as int));
                assert forall|d: int| completes(all, b as int, r as int, d) implies d == c by {
                    if d < c {
                        assert(order::key_less(
                            intersections::point_key(all[d].point),
                            intersections::point_key(all[c as int].point),
                        ));
                    } else if d > c {
                        assert(order::key_less(
                            intersections::point_key(all[c as int].point),
                            intersections::point_key(all[d].point),
                        ));
                    }
                }
            }
            found
        },
    }
}

/// All cells between the crossings.
pub fn intersections_to_cells(crossings: &Vec<Crossing>) -> (res: Vec<BBox>)
    requires
        intersections::ascending(types::seen(crossings@)),
    ensures
        res@ == all_cells(types::seen(crossings@)),
{
    let ghost all = types::seen(crossings@);
    let n: usize = crossings.len();
    let mut out: Vec<BBox> = Vec::new();
    for i in 0..n
        invariant
            n == crossings@.len(),
            all == types::seen(crossings@),
            intersections::ascending(all),
            out@ == cells_before(all, i as int),
    {
        let ghost before = out@;
        let key: order::Key = key_of_point(crossings[i].point);
        for b in i + 1..n
            invariant
                n == crossings@.len(),
                i < n,
                all == types::seen(crossings@),
                intersections::ascending(all),
                key == key_at(all, i as int),
                out@ =~= before + cells_from(all, i as int, b as int),
        {
            let kb: order::Key = key_of_point(crossings[b].point);
            if kb.0 == key.0 && edge_connects(i, b, crossings) {
                let mut r: usize = i + 1;
                while r < n && !does_close(crossings, i, b, r)
                    invariant
                        i < r <= n,
                        i < n,
                        b < n,
                        n == crossings@.len(),
                        all == types::seen(crossings@),
                        intersections::ascending(all),
                        first_closing(all, i as int, b as int, i + 1) == first_closing(
                            all,
                            i as int,
                            b as int,
                            r as int,
                        ),
                    decreases n - r,
                {
                    r = r + 1;
                }
                if r < n {
                    out.push(
                        BBox::new(
                            crossings[i].point.x,
                            crossings[i].point.y,
                            crossings[r].point.x,
                            crossings[b].point.y,
                        ),
                    );
                }
            }
        }
    }
    out
}

/// Whether a cell has its upper left corner at one crossing and its lower left at another.
pub open spec fn between(crossings: Seq<CrossingView>, cell: BBox, i: int, m: int) -> bool {
    &&& cell.x0 == crossings[i].point.x
    &&& cell.top == crossings[i].point.y
    &&& cell.bottom == crossings[m].point.y
    &&& key_at(crossings, m).0 == key_at(crossings, i).0
}

/// Whether a cell begins at a crossing and ends at one below it that comes before `end`.
pub open spec fn begun_at(crossings: Seq<CrossingView>, cell: BBox, i: int, end: int) -> bool {
    exists|m: int| i < m < end && #[trigger] between(crossings, cell, i, m)
}

/// Whether a cell begins at one of the first `n` crossings.
pub open spec fn begun_before(crossings: Seq<CrossingView>, cell: BBox, n: int) -> bool {
    exists|i: int, m: int| 0 <= i < n && #[trigger] between(crossings, cell, i, m)
}

proof fn lemma_order_from(crossings: Seq<CrossingView>, i: int, end: int)
    requires
        intersections::ascending(crossings),
        intersections::consistent(crossings),
        0 <= i < crossings.len(),
        end <= crossings.len(),
    ensures
        forall|k: int|
            0 <= k < cells_from(crossings, i, end).len() ==> begun_at(
                crossings,
                #[trigger] cells_from(crossings, i, end)[k],
                i,
                end,
            ),
        forall|k: int, l: int|
            0 <= k < l < cells_from(crossings, i, end).len() ==> (#[trigger] cells_from(
                crossings,
                i,
                end,
            )[k]).bottom.less((#[trigger] cells_from(crossings, i, end)[l]).bottom),
    decreases end,
{
    if end > i + 1 {
        let b = end - 1;
        lemma_order_from(crossings, i, b);
        let before = cells_from(crossings, i, b);
        let after = cells_from(crossings, i, end);
        assert forall|k: int| 0 <= k < after.len() implies begun_at(
            crossings,
            #[trigger] after[k],
            i,
            end,
        ) by {
            if k < before.len() {
                assert(after[k] == before[k]);
                let m = choose|m: int| i < m < b && #[trigger] between(crossings, before[k], i, m);
                assert(between(crossings, after[k], i, m));
            } else {
                assert(between(crossings, after[k], i, b));
            }
        }
        assert forall|k: int, l: int| 0 <= k < l < after.len() implies (
        #[trigger] after[k]).bottom.less((#[trigger] after[l]).bottom) by {
            assert(after[k] == before[k]);
            if l < before.len() {
                assert(after[l] == before[l]);
            } else {
                let m = choose|m: int| i < m < b && #[trigger] between(crossings, before[k], i, m);
                assert(intersections::consistent_at(crossings[m]));
                assert(intersections::consistent_at(crossings[b]));
                assert(order::key_less(
                    intersections::point_key(crossings[m].point),
                    intersections::point_key(crossings[b].point),
                ));
            }
        }
    }
}

/// Whether a cell comes before another one: further to the left, else further up, else
/// ending further up.
pub open spec fn precedes(a: BBox, b: BBox) -> bool {
    ||| a.x0.less(b.x0)
    ||| a.x0.same(b.x0) && a.top.less(b.top)
    ||| a.x0.same(b.x0) && a.top.same(b.top) && a.bottom.less(b.bottom)
}

proof fn lemma_order_before(crossings: Seq<CrossingView>, n: int)
    requires
        intersections::ascending(crossings),
        intersections::consistent(crossings),
        n <= crossings.len(),
    ensures
        forall|k: int|
            0 <= k < cells_before(crossings, n).len() ==> begun_before(
                crossings,
                #[trigger] cells_before(crossings, n)[k],
                n,
            ),
        forall|k: int, l: int|
            0 <= k < l < cells_before(crossings, n).len() ==> precedes(
                #[trigger] cells_before(crossings, n)[k],
                #[trigger] cells_before(crossings, n)[l],
            ),
    decreases n,
{
    if n > 0 {
        lemma_order_before(crossings, n - 1);
        let end = crossings.len() as int;
        lemma_order_from(crossings, n - 1, end);
        let before = cells_before(crossings, n - 1);
        let more = cells_from(crossings, n - 1, end);
        let after = cells_before(crossings, n);
        assert forall|k: int| 0 <= k < after.len() implies begun_before(
            crossings,
            #[trigger] after[k],
            n,
        ) by {
            if k < before.len() {
                assert(after[k] == before[k]);
                let (i, m) = choose|i: int, m: int|
                    0 <= i < n - 1 && #[trigger] between(crossings, before[k], i, m);
                assert(between(crossings, after[k], i, m));
            } else {
                assert(after[k] == more[k - before.len()]);
                let m = choose|m: int|
                    n - 1 < m < end && #[trigger] between(
                        crossings,
                        more[k - before.len()],
                        n - 1,
                        m,
                    );
                assert(between(crossings, after[k], n - 1, m));
            }
        }
        assert(intersections::consistent_at(crossings[n - 1]));
        assert forall|k: int, l: int| 0 <= k < l < after.len() implies precedes(
            #[trigger] after[k],
            #[trigger] after[l],
        ) by {
            if l < before.len() {
                assert(after[k] == before[k] && after[l] == before[l]);
            } else {
                assert(after[l] == more[l - before.len()]);
                if k < before.len() {
                    assert(after[k] == before[k]);
                    let (i, m) = choose|i: int, m: int|
                        0 <= i < n - 1 && #[trigger] between(crossings, before[k], i, m);
                    assert(intersections::consistent_at(crossings[i]));
                    assert(order::key_less(
                        intersections::point_key(crossings[i].point),
                        intersections::point_key(crossings[n - 1].point),
                    ));
                } else {
                    assert(after[k] == more[k - before.len()]);
                }
            }
        }
    }
}

/// Cells come from the left to the right, those that begin at the same distance from the
/// left from the top to the bottom; no cell comes twice.
pub proof fn law_cells_come_in_order(crossings: Seq<CrossingView>, k: int, l: int)
    requires
        intersections::ascending(crossings),
        intersections::consistent(crossings),
        0 <= k < l < all_cells(crossings).len(),
    ensures
        precedes(all_cells(crossings)[k], all_cells(crossings)[l]),
{
    lemma_order_before(crossings, crossings.len() as int);
}

} // verus!
