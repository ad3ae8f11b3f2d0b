//! What holds of the edges that tables are looked for in.

use crate::float::laws;
use crate::float::Float;
use crate::geometry;
use crate::order;
use crate::table::edges;
use crate::table::finder;
use crate::table::settings::ExplicitLineView;
use crate::table::settings::TableSettings;
use crate::table::settings::TableStrategy;
use crate::table::word_edges;
use crate::types;
use crate::types::BBox;
use crate::types::EdgeView;
use crate::types::Line;
use crate::types::Orientation;
use crate::types::Page;
use crate::types::Point;
use crate::types::RectObject;
use crate::types::Word;
use vstd::prelude::*;

verus! {

/// One ten-thousandth.
pub open spec fn hair() -> Float {
    Float { bits: 0x3f1a_36e2_eb1c_432d }
}

/// A drawn line keeps its place as an edge; it is horizontal where its ends are equally high
/// and vertical where they differ by a ten-thousandth or more.
pub proof fn law_line_directions(line: Line)
    requires
        line.top.finite() && line.bottom.finite(),
    ensures
        ({
            let e = edges::edge_of_line(line);
            &&& e.x0 == line.x0 && e.x1 == line.x1
            &&& e.top == line.top && e.bottom == line.bottom
            &&& e.width == line.width && e.height == line.height
            &&& line.top.same(line.bottom) ==> e.orientation == Orientation::Horizontal
            &&& hair().at_most(line.top.minus(line.bottom)) ==> e.orientation
                == Orientation::Vertical
            &&& hair().at_most(line.bottom.minus(line.top)) ==> e.orientation
                == Orientation::Vertical
        }),
{
    laws::law_difference_tells_the_order(line.top, line.bottom);
    laws::law_distance_is_symmetric(line.top, line.bottom);
}

/// Whether an edge runs from one corner to another in a direction.
pub open spec fn runs(
    e: EdgeView,
    x0: Float,
    top: Float,
    x1: Float,
    bottom: Float,
    orientation: Orientation,
) -> bool {
    e.x0 == x0 && e.top == top && e.x1 == x1 && e.bottom == bottom && e.orientation == orientation
}

/// Whether some of the edges runs from one corner to another in a direction.
pub open spec fn some_runs(
    all: Seq<EdgeView>,
    x0: Float,
    top: Float,
    x1: Float,
    bottom: Float,
    orientation: Orientation,
) -> bool {
    exists|e: EdgeView| #[trigger] all.contains(e) && runs(e, x0, top, x1, bottom, orientation)
}

proof fn lemma_in_sum(a: Seq<EdgeView>, b: Seq<EdgeView>, e: EdgeView)
    ensures
        (a + b).contains(e) <==> a.contains(e) || b.contains(e),
{
    if a.contains(e) {
        let k = choose|k: int| 0 <= k < a.len() && a[k] == e;
        assert((a + b)[k] == e);
    }
    if b.contains(e) {
        let k = choose|k: int| 0 <= k < b.len() && b[k] == e;
        assert((a + b)[a.len() + k] == e);
    }
    if (a + b).contains(e) {
        let k = choose|k: int| 0 <= k < (a + b).len() && (a + b)[k] == e;
        if k < a.len() {
            assert(a[k] == e);
        } else {
            assert(b[k - a.len()] == e);
        }
    }
}

proof fn lemma_sides_listed(rects: Seq<RectObject>, k: int, e: EdgeView)
    requires
        0 <= k < rects.len(),
        geometry::sides(rects[k]).contains(e),
    ensures
        edges::edges_of_rects(rects).contains(e),
    decreases rects.len(),
{
    let front = edges::edges_of_rects(rects.drop_last());
    lemma_in_sum(front, geometry::sides(rects.last()), e);
    if k < rects.len() - 1 {
        lemma_sides_listed(rects.drop_last(), k, e);
    }
}

/// The edges of a page hold all four sides of each of its rectangles: the upper and the lower
/// one from left to right, the left and the right one from top to bottom.
pub proof fn law_rectangles_have_four_sides(page: Page, k: int)
    requires
        0 <= k < page.rects@.len(),
    ensures
        ({
            let r = page.rects@[k];
            let all = page.all_edges();
            &&& some_runs(all, r.x0, r.top, r.x1, r.top, Orientation::Horizontal)
            &&& some_runs(all, r.x0, r.bottom, r.x1, r.bottom, Orientation::Horizontal)
            &&& some_runs(all, r.x0, r.top, r.x0, r.bottom, Orientation::Vertical)
            &&& some_runs(all, r.x1, r.top, r.x1, r.bottom, Orientation::Vertical)
        }),
{
    let r = page.rects@[k];
    let four = geometry::sides(r);
    let all = page.all_edges();
    let lines = edges::edges_of_lines(page.lines@);
    let rects = edges::edges_of_rects(page.rects@);
    let curves = edges::edges_of_curves(page.curves@);
    assert forall|i: int| 0 <= i < 4 implies all.contains(#[trigger] four[i]) by {
        assert(four.contains(four[i]));
        lemma_sides_listed(page.rects@, k, four[i]);
        lemma_in_sum(lines, rects, four[i]);
        lemma_in_sum(lines + rects, curves, four[i]);
    }
    assert(all.contains(four[0]) && all.contains(four[1]));
    assert(all.contains(four[2]) && all.contains(four[3]));
    assert(runs(four[0], r.x0, r.top, r.x1, r.top, Orientation::Horizontal));
    assert(runs(four[1], r.x0, r.bottom, r.x1, r.bottom, Orientation::Horizontal));
    assert(runs(four[2], r.x0, r.top, r.x0, r.bottom, Orientation::Vertical));
    assert(runs(four[3], r.x1, r.top, r.x1, r.bottom, Orientation::Vertical));
}

/// The edges of a page hold each of its lines.
pub proof fn law_lines_are_edges(page: Page, k: int)
    requires
        0 <= k < page.lines@.len(),
    ensures
        ({
            let l = page.lines@[k];
            ||| some_runs(page.all_edges(), l.x0, l.top, l.x1, l.bottom, Orientation::Horizontal)
            ||| some_runs(page.all_edges(), l.x0, l.top, l.x1, l.bottom, Orientation::Vertical)
        }),
{
    let l = page.lines@[k];
    let e = edges::edge_of_line(l);
    let lines = edges::edges_of_lines(page.lines@);
    let rects = edges::edges_of_rects(page.rects@);
    let curves = edges::edges_of_curves(page.curves@);
    assert(lines[k] == e);
    assert(lines.contains(e));
    lemma_in_sum(lines, rects, e);
    lemma_in_sum(lines + rects, curves, e);
    assert(page.all_edges().contains(e));
    assert(runs(e, l.x0, l.top, l.x1, l.bottom, e.orientation));
}

proof fn lemma_segment(pts: Seq<Point>, k: int, orientation: Orientation)
    requires
        0 <= k < pts.len() - 1,
        edges::direction(pts[k], pts[k + 1]) == Some(orientation),
    ensures
        edges::edges_of_points(pts).contains(
            edges::edge_between(pts[k], pts[k + 1], orientation),
        ),
    decreases pts.len(),
{
    let all = edges::edges_of_points(pts);
    let front = edges::edges_of_points(pts.drop_last());
    let e = edges::edge_between(pts[k], pts[k + 1], orientation);
    if k == pts.len() - 2 {
        assert(all.last() == e);
        assert(all[all.len() - 1] == e);
    } else {
        lemma_segment(pts.drop_last(), k, orientation);
        let i = choose|i: int| 0 <= i < front.len() && front[i] == e;
        assert(all[i] == e);
    }
}

/// Two points of a curve, one behind the other, that lie exactly below or beside each other
/// have an edge between them, from the smaller to the greater coordinates.
pub proof fn law_straight_parts_of_curves(pts: Seq<Point>, k: int)
    requires
        0 <= k < pts.len() - 1,
        pts[k].x.finite() && pts[k].y.finite(),
        pts[k + 1].x.finite() && pts[k + 1].y.finite(),
    ensures
        ({
            let p = pts[k];
            let q = pts[k + 1];
            let all = edges::edges_of_points(pts);
            let x0 = p.x.smaller(q.x);
            let x1 = p.x.larger(q.x);
            let top = p.y.smaller(q.y);
            let bottom = p.y.larger(q.y);
            &&& p.x.same(q.x) ==> some_runs(all, x0, top, x1, bottom, Orientation::Vertical)
            &&& p.y.same(q.y) && hair().at_most(p.x.minus(q.x).absolute()) ==> some_runs(
                all,
                x0,
                top,
                x1,
                bottom,
                Orientation::Horizontal,
            )
        }),
{
    let p = pts[k];
    let q = pts[k + 1];
    let all = edges::edges_of_points(pts);
    laws::law_difference_tells_the_order(p.x, q.x);
    laws::law_difference_tells_the_order(p.y, q.y);
    if p.x.same(q.x) {
        lemma_segment(pts, k, Orientation::Vertical);
        let e = edges::edge_between(p, q, Orientation::Vertical);
        assert(all.contains(e) && runs(e, e.x0, e.top, e.x1, e.bottom, Orientation::Vertical));
    } else if p.y.same(q.y) && hair().at_most(p.x.minus(q.x).absolute()) {
        lemma_segment(pts, k, Orientation::Horizontal);
        let e = edges::edge_between(p, q, Orientation::Horizontal);
        assert(all.contains(e) && runs(e, e.x0, e.top, e.x1, e.bottom, Orientation::Horizontal));
    }
}

/// How long an edge is along its direction.
pub open spec fn length(e: EdgeView) -> Float {
    match e.orientation {
        Orientation::Horizontal => e.width,
        Orientation::Vertical => e.height,
    }
}

proof fn lemma_chosen(all: Seq<EdgeView>, wanted: spec_fn(EdgeView) -> bool, e: EdgeView)
    ensures
        all.filter(wanted).contains(e) <==> all.contains(e) && wanted(e),
    decreases all.len(),
{
    reveal(Seq::filter);
    let some = all.filter(wanted);
    if all.len() > 0 {
        let front = all.drop_last();
        let before = front.filter(wanted);
        lemma_chosen(front, wanted, e);
        assert(all[all.len() - 1] == all.last());
        if front.contains(e) {
            let k = choose|k: int| 0 <= k < front.len() && front[k] == e;
            assert(all[k] == e);
        }
        if before.contains(e) {
            let k = choose|k: int| 0 <= k < before.len() && before[k] == e;
            assert(some[k] == e);
        }
        if all.contains(e) && !front.contains(e) {
            let k = choose|k: int| 0 <= k < all.len() && all[k] == e;
            assert(k == all.len() - 1) by {
                if k < all.len() - 1 {
                    assert(front[k] == e);
                }
            }
            if wanted(e) {
                assert(some[some.len() - 1] == e);
            }
        }
        if some.contains(e) {
            let k = choose|k: int| 0 <= k < some.len() && some[k] == e;
            if k < before.len() {
                assert(before[k] == e);
            } else {
                assert(all[all.len() - 1] == e);
            }
        }
    }
}

/// The strategy and the given lines for a direction.
pub open spec fn plan(settings: TableSettings, orientation: Orientation) -> (
    TableStrategy,
    Seq<ExplicitLineView>,
) {
    match orientation {
        Orientation::Vertical => (
            settings.vertical_strategy,
            types::seen(settings.explicit_vertical_lines@),
        ),
        Orientation::Horizontal => (
            settings.horizontal_strategy,
            types::seen(settings.explicit_horizontal_lines@),
        ),
    }
}

/// Looking for lines finds each edge of the page that runs in the direction looked for and is
/// long enough; looking strictly finds those of them that are lines, and looking for text or
/// given lines only finds none of them. What is found is among these or given by the caller.
pub proof fn law_strategies_find_edges(
    page: Page,
    settings: TableSettings,
    words: Seq<Word>,
    orientation: Orientation,
    e: EdgeView,
)
    requires
        page.all_edges().contains(e),
        e.orientation == orientation,
        settings.edge_min_length_prefilter.at_most(length(e)),
    ensures
        ({
            let (strategy, lines) = plan(settings, orientation);
            let found = finder::found_edges(page, settings, words, orientation);
            &&& strategy == TableStrategy::Lines ==> found.contains(e)
            &&& strategy == TableStrategy::LinesStrict && e.object_type == "line"@
                ==> found.contains(e)
        }),
{
    let (strategy, lines) = plan(settings, orientation);
    let given = finder::explicit_edges(page.bbox, lines, orientation);
    let any = edges::selects(Some(orientation), None, settings.edge_min_length_prefilter);
    let drawn = edges::selects(
        Some(orientation),
        Some("line"@),
        settings.edge_min_length_prefilter,
    );
    lemma_chosen(page.all_edges(), any, e);
    lemma_chosen(page.all_edges(), drawn, e);
    lemma_in_sum(page.all_edges().filter(any), given, e);
    lemma_in_sum(page.all_edges().filter(drawn), given, e);
}

/// What the strategies that look for lines find runs in the direction looked for, is long
/// enough and is drawn on the page, unless the caller gave it; the strict one takes lines
/// only.
pub proof fn law_found_edges_are_there(
    page: Page,
    settings: TableSettings,
    words: Seq<Word>,
    orientation: Orientation,
    e: EdgeView,
)
    requires
        finder::found_edges(page, settings, words, orientation).contains(e),
        !finder::explicit_edges(page.bbox, plan(settings, orientation).1, orientation).contains(e),
    ensures
        ({
            let strategy = plan(settings, orientation).0;
            &&& strategy == TableStrategy::Lines || strategy == TableStrategy::LinesStrict ==> {
                &&& page.all_edges().contains(e)
                &&& e.orientation == orientation
                &&& settings.edge_min_length_prefilter.at_most(length(e))
            }
            &&& strategy == TableStrategy::LinesStrict ==> e.object_type == "line"@
            &&& strategy != TableStrategy::Explicit
        }),
{
    let (strategy, lines) = plan(settings, orientation);
    let given = finder::explicit_edges(page.bbox, lines, orientation);
    let any = edges::selects(Some(orientation), None, settings.edge_min_length_prefilter);
    let drawn = edges::selects(
        Some(orientation),
        Some("line"@),
        settings.edge_min_length_prefilter,
    );
    lemma_chosen(page.all_edges(), any, e);
    lemma_chosen(page.all_edges(), drawn, e);
    lemma_in_sum(page.all_edges().filter(any), given, e);
    lemma_in_sum(page.all_edges().filter(drawn), given, e);
    lemma_in_sum(Seq::<EdgeView>::empty(), given, e);
}

proof fn lemma_given(page: BBox, lines: Seq<ExplicitLineView>, orientation: Orientation, k: int)
    requires
        0 <= k < lines.len(),
        finder::explicit_edge(page, lines[k], orientation) is Some,
    ensures
        finder::explicit_edges(page, lines, orientation).contains(
            finder::explicit_edge(page, lines[k], orientation)->0,
        ),
    decreases lines.len(),
{
    let all = finder::explicit_edges(page, lines, orientation);
    let front = finder::explicit_edges(page, lines.drop_last(), orientation);
    let e = finder::explicit_edge(page, lines[k], orientation)->0;
    if k == lines.len() - 1 {
        assert(all[all.len() - 1] == e);
    } else {
        lemma_given(page, lines.drop_last(), orientation, k);
        let i = choose|i: int| 0 <= i < front.len() && front[i] == e;
        assert(all[i] == e);
    }
}

/// A line that the caller gives by its position is found with every strategy: across the
/// whole page, at that position. One given as an edge is found as it is, where it runs in
/// the direction looked for.
pub proof fn law_given_lines_are_found(
    page: Page,
    settings: TableSettings,
    words: Seq<Word>,
    orientation: Orientation,
    k: int,
)
    requires
        0 <= k < plan(settings, orientation).1.len(),
    ensures
        ({
            let found = finder::found_edges(page, settings, words, orientation);
            let b = page.bbox;
            match plan(settings, orientation).1[k] {
                ExplicitLineView::Position(at) => match orientation {
                    Orientation::Vertical => some_runs(found, at, b.top, at, b.bottom, orientation),
                    Orientation::Horizontal => some_runs(found, b.x0, at, b.x1, at, orientation),
                },
                ExplicitLineView::Edge(e) => e.orientation == orientation ==> found.contains(e),
            }
        }),
{
    let (strategy, lines) = plan(settings, orientation);
    let found = finder::found_edges(page, settings, words, orientation);
    let given = finder::explicit_edges(page.bbox, lines, orientation);
    if let Some(e) = finder::explicit_edge(page.bbox, lines[k], orientation) {
        lemma_given(page.bbox, lines, orientation, k);
        let i = choose|i: int| 0 <= i < given.len() && given[i] == e;
        assert(found[found.len() - given.len() + i] == e);
        assert(found.contains(e));
        assert(runs(e, e.x0, e.top, e.x1, e.bottom, e.orientation));
    }
}

/// Whether an edge lies on the line of another and covers it.
pub open spec fn covers(f: EdgeView, e: EdgeView) -> bool {
    &&& f.orientation == e.orientation
    &&& match e.orientation {
        Orientation::Horizontal => f.top.order() == e.top.order() && f.x0.at_most(e.x0)
            && e.x1.at_most(f.x1),
        Orientation::Vertical => f.x0.order() == e.x0.order() && f.top.at_most(e.top)
            && e.bottom.at_most(f.bottom),
    }
}

/// Whether one of the edges covers another.
pub open spec fn some_covers(all: Seq<EdgeView>, e: EdgeView) -> bool {
    exists|i: int| 0 <= i < all.len() && covers(#[trigger] all[i], e)
}

/// Whether an edge has coordinates that are numbers where it begins and ends.
pub open spec fn numbered(e: EdgeView) -> bool {
    &&& !e.x0.nan() && !e.x1.nan()
    &&& !e.top.nan() && !e.bottom.nan()
}

/// Whether edges all run in one direction on one line, and have numbers.
pub open spec fn on_one_line(all: Seq<EdgeView>, orientation: Orientation, key: order::Key) -> bool {
    forall|i: int|
        0 <= i < all.len() ==> (#[trigger] all[i]).orientation == orientation && edges::group_key(
            all[i],
        ) == key && numbered(all[i])
}

proof fn lemma_same_line(e: EdgeView, f: EdgeView)
    requires
        edges::group_key(e) == edges::group_key(f),
    ensures
        e.orientation == f.orientation,
        e.orientation == Orientation::Horizontal ==> e.top.order() == f.top.order(),
        e.orientation == Orientation::Vertical ==> e.x0.order() == f.x0.order(),
{
    assert(i64::MIN <= e.top.order() <= i64::MAX && i64::MIN <= f.top.order() <= i64::MAX);
    assert(i64::MIN <= e.x0.order() <= i64::MAX && i64::MIN <= f.x0.order() <= i64::MAX);
}

proof fn lemma_start_order(e: EdgeView, f: EdgeView, orientation: Orientation)
    requires
        numbered(e) && numbered(f),
        !order::key_less(
            edges::start_key(f, orientation),
            edges::start_key(e, orientation),
        ),
    ensures
        orientation == Orientation::Horizontal ==> e.x0.at_most(f.x0),
        orientation == Orientation::Vertical ==> e.top.at_most(f.top),
{
    assert(i64::MIN <= e.x0.rank() <= i64::MAX && i64::MIN <= f.x0.rank() <= i64::MAX);
    assert(i64::MIN <= e.top.rank() <= i64::MAX && i64::MIN <= f.top.rank() <= i64::MAX);
}

/// Whether the first edge begins no later than the second.
pub open spec fn not_later(e: EdgeView, f: EdgeView, orientation: Orientation) -> bool {
    match orientation {
        Orientation::Horizontal => e.x0.at_most(f.x0),
        Orientation::Vertical => e.top.at_most(f.top),
    }
}

proof fn lemma_joined_covers(
    all: Seq<EdgeView>,
    orientation: Orientation,
    tolerance: Float,
    key: order::Key,
)
    requires
        on_one_line(all, orientation, key),
        order::ascending(edges::start_keys(all, orientation)),
    ensures
        ({
            let joined = edges::joined_in_order(all, orientation, tolerance);
            &&& on_one_line(joined, orientation, key)
            &&& forall|i: int| 0 <= i < all.len() ==> some_covers(joined, #[trigger] all[i])
            &&& joined.len() > 0 ==> not_later(joined.last(), all.last(), orientation)
            &&& all.len() > 0 ==> joined.len() > 0
        }),
    decreases all.len(),
{
    if all.len() > 0 {
        let front = all.drop_last();
        let next = all.last();
        let n = all.len() - 1;
        let starts = edges::start_keys(all, orientation);
        assert(all[n] == next);
        assert forall|i: int| 0 <= i < front.len() implies (#[trigger] front[i]).orientation
            == orientation && edges::group_key(front[i]) == key && numbered(front[i]) by {
            assert(front[i] == all[i]);
        }
        assert forall|i: int, j: int| 0 <= i < j < front.len() implies !order::key_less(
            #[trigger] edges::start_keys(front, orientation)[j],
            #[trigger] edges::start_keys(front, orientation)[i],
        ) by {
            assert(!order::key_less(starts[j], starts[i]));
        }
        lemma_joined_covers(front, orientation, tolerance, key);
        let before = edges::joined_in_order(front, orientation, tolerance);
        let joined = edges::joined_in_order(all, orientation, tolerance);
        if front.len() > 0 {
            assert(!order::key_less(starts[n], starts[n - 1]));
            assert(starts[n - 1] == edges::start_key(front.last(), orientation));
            assert(all[n - 1] == front.last());
            lemma_start_order(front.last(), next, orientation);
        }
        let m = before.len() - 1;
        if before.len() > 0 {
            assert(numbered(before[m]) && before[m].orientation == orientation);
            lemma_same_line(before[m], next);
        }
        if before.len() > 0 && edges::reaches(before.last(), next, orientation, tolerance) {
            let longer = edges::stretched(before.last(), next, orientation);
            assert(joined[m] == longer);
            assert(covers(longer, next));
            assert(covers(longer, before[m]));
            assert forall|i: int| 0 <= i < joined.len() implies (#[trigger] joined[i]).orientation
                == orientation && edges::group_key(joined[i]) == key && numbered(joined[i]) by {
                assert(before[i].orientation == orientation);
            }
            assert forall|i: int| 0 <= i < all.len() implies some_covers(
                joined,
                #[trigger] all[i],
            ) by {
                if i < n {
                    assert(front[i] == all[i]);
                    let k = choose|k: int| 0 <= k < before.len() && covers(#[trigger] before[k], all[i]);
                    if k == m {
                        assert(covers(joined[m], all[i]));
                    } else {
                        assert(joined[k] == before[k]);
                    }
                } else {
                    assert(covers(joined[m], all[i]));
                }
            }
        } else {
            assert(joined == before.push(next));
            assert(joined[m + 1] == next);
            assert(covers(next, next));
            assert forall|i: int| 0 <= i < joined.len() implies (#[trigger] joined[i]).orientation
                == orientation && edges::group_key(joined[i]) == key && numbered(joined[i]) by {
                if i <= m {
                    assert(before[i].orientation == orientation);
                }
            }
            assert forall|i: int| 0 <= i < all.len() implies some_covers(
                joined,
                #[trigger] all[i],
            ) by {
                if i < n {
                    assert(front[i] == all[i]);
                    let k = choose|k: int| 0 <= k < before.len() && covers(#[trigger] before[k], all[i]);
                    assert(joined[k] == before[k]);
                } else {
                    assert(covers(joined[m + 1], all[i]));
                }
            }
        }
    }
}

proof fn lemma_group_covers(
    all: Seq<EdgeView>,
    orientation: Orientation,
    tolerance: Float,
    key: order::Key,
    k: int,
)
    requires
        all.len() <= usize::MAX,
        on_one_line(all, orientation, key),
        0 <= k < all.len(),
    ensures
        some_covers(edges::joined_group(all, orientation, tolerance), all[k]),
{
    let keys = edges::start_keys(all, orientation);
    let p = order::stable_order(keys);
    order::law_stable_order_exists(keys);
    order::law_stable_order_lists_all(keys, p);
    order::law_sorted_ascend(keys);
    let sorted = order::picked(all, p);
    assert(edges::start_keys(sorted, orientation) =~= order::picked(keys, p));
    assert forall|i: int| 0 <= i < sorted.len() implies (#[trigger] sorted[i]).orientation
        == orientation && edges::group_key(sorted[i]) == key && numbered(sorted[i]) by {
        assert(sorted[i] == all[p[i] as int]);
    }
    lemma_joined_covers(sorted, orientation, tolerance, key);
    assert(p.contains(k as usize));
    let i = choose|i: int| 0 <= i < p.len() && p[i] == k as usize;
    assert(sorted[i] == all[k]);
}

proof fn lemma_run(all: Seq<EdgeView>, from: int)
    requires
        1 <= from <= all.len(),
    ensures
        from <= edges::run_end(all, from) <= all.len(),
        forall|i: int|
            from <= i < edges::run_end(all, from) ==> edges::group_key(#[trigger] all[i])
                == edges::group_key(all[0]),
    decreases all.len() - from,
{
    if from < all.len() && edges::group_key(all[from]) == edges::group_key(all[0]) {
        lemma_run(all, from + 1);
    }
}

proof fn lemma_runs_cover(all: Seq<EdgeView>, x_tolerance: Float, y_tolerance: Float, k: int)
    requires
        all.len() <= usize::MAX,
        forall|i: int| 0 <= i < all.len() ==> numbered(#[trigger] all[i]),
        0 <= k < all.len(),
    ensures
        some_covers(edges::joined_runs(all, x_tolerance, y_tolerance), all[k]),
    decreases all.len(),
{
    let end = edges::run_end(all, 1);
    lemma_run(all, 1);
    let orientation = all[0].orientation;
    let key = edges::group_key(all[0]);
    let tolerance = match orientation {
        Orientation::Horizontal => x_tolerance,
        Orientation::Vertical => y_tolerance,
    };
    let group = all.take(end);
    let rest = all.skip(end);
    let head = edges::joined_group(group, orientation, tolerance);
    let tail = edges::joined_runs(rest, x_tolerance, y_tolerance);
    assert(edges::joined_runs(all, x_tolerance, y_tolerance) == head + tail);
    if k < end {
        assert forall|i: int| 0 <= i < group.len() implies (#[trigger] group[i]).orientation
            == orientation && edges::group_key(group[i]) == key && numbered(group[i]) by {
            assert(group[i] == all[i]);
            if i > 0 {
                assert(edges::group_key(all[i]) == key);
            }
            lemma_same_line(all[i], all[0]);
            assert(numbered(all[i]));
        }
        lemma_group_covers(group, orientation, tolerance, key, k);
        assert(group[k] == all[k]);
        let i = choose|i: int| 0 <= i < head.len() && covers(#[trigger] head[i], all[k]);
        assert((head + tail)[i] == head[i]);
    } else {
        assert forall|i: int| 0 <= i < rest.len() implies numbered(#[trigger] rest[i]) by {
            assert(rest[i] == all[end + i]);
            assert(numbered(all[end + i]));
        }
        lemma_runs_cover(rest, x_tolerance, y_tolerance, k - end);
        assert(rest[k - end] == all[k]);
        let i = choose|i: int| 0 <= i < tail.len() && covers(#[trigger] tail[i], all[k]);
        assert((head + tail)[head.len() + i] == tail[i]);
    }
}

/// Merging loses no edge: where nothing is to be moved, each edge is covered by one that lies
/// on the same line and reaches at least as far at both ends.
pub proof fn law_merged_edges_cover(
    all: Seq<EdgeView>,
    snap_x: Float,
    snap_y: Float,
    join_x: Float,
    join_y: Float,
    k: int,
)
    requires
        all.len() <= usize::MAX,
        !(Float { bits: 0 }).less(snap_x),
        !(Float { bits: 0 }).less(snap_y),
        forall|i: int| 0 <= i < all.len() ==> numbered(#[trigger] all[i]),
        0 <= k < all.len(),
    ensures
        some_covers(edges::merged(all, snap_x, snap_y, join_x, join_y), all[k]),
{
    let keys = edges::group_keys(all);
    let p = order::stable_order(keys);
    order::law_stable_order_exists(keys);
    order::law_stable_order_lists_all(keys, p);
    let sorted = order::picked(all, p);
    assert forall|i: int| 0 <= i < sorted.len() implies numbered(#[trigger] sorted[i]) by {
        assert(sorted[i] == all[p[i] as int]);
    }
    assert(p.contains(k as usize));
    let i = choose|i: int| 0 <= i < p.len() && p[i] == k as usize;
    assert(sorted[i] == all[k]);
    lemma_runs_cover(sorted, join_x, join_y, i);
}

/// Two edges on one line, the first of which begins first, become one where the second
/// begins no further behind the end of the first than the tolerance for their direction
/// allows, and stay two where it begins further off: horizontal ones go by the first
/// tolerance, vertical ones by the second.
pub proof fn law_two_edges_are_joined(
    a: EdgeView,
    b: EdgeView,
    snap_x: Float,
    snap_y: Float,
    join_x: Float,
    join_y: Float,
)
    requires
        !(Float { bits: 0 }).less(snap_x),
        !(Float { bits: 0 }).less(snap_y),
        a.orientation == b.orientation,
        a.orientation == Orientation::Horizontal ==> a.top.order() == b.top.order() && a.x0.less(
            b.x0,
        ),
        a.orientation == Orientation::Vertical ==> a.x0.order() == b.x0.order() && a.top.less(
            b.top,
        ),
    ensures
        ({
            let joined = edges::merged(seq![a, b], snap_x, snap_y, join_x, join_y);
            match a.orientation {
                Orientation::Horizontal => if b.x0.at_most(a.x1.plus(join_x)) {
                    &&& joined.len() == 1
                    &&& joined[0].x0 == a.x0
                    &&& joined[0].top == a.top
                    &&& a.x1.less(b.x1) ==> joined[0].x1 == b.x1 && joined[0].width == b.x1.minus(
                        a.x0,
                    )
                    &&& !a.x1.less(b.x1) ==> joined[0] == a
                } else {
                    joined == seq![a, b]
                },
                Orientation::Vertical => if b.top.at_most(a.bottom.plus(join_y)) {
                    &&& joined.len() == 1
                    &&& joined[0].x0 == a.x0
                    &&& joined[0].top == a.top
                    &&& a.bottom.less(b.bottom) ==> joined[0].bottom == b.bottom
                        && joined[0].height == b.bottom.minus(a.top)
                    &&& !a.bottom.less(b.bottom) ==> joined[0] == a
                } else {
                    joined == seq![a, b]
                },
            }
        }),
{
    let all = seq![a, b];
    let keys = edges::group_keys(all);
    assert(keys[0] == edges::group_key(a) && keys[1] == edges::group_key(b));
    assert(keys[0] == keys[1]);
    assert forall|i: int, j: int| 0 <= i < j < keys.len() implies !order::key_less(
        #[trigger] keys[j],
        #[trigger] keys[i],
    ) by {
        assert(i == 0 && j == 1);
    }
    order::law_ascending_stay(all, keys);
    reveal_with_fuel(edges::run_end, 3);
    assert(edges::run_end(all, 1) == 2);
    assert(all.take(2) =~= all);
    assert(all.skip(2).len() == 0);
    let orientation = a.orientation;
    let starts = edges::start_keys(all, orientation);
    assert(starts[0] == edges::start_key(a, orientation));
    assert(starts[1] == edges::start_key(b, orientation));
    assert(i64::MIN <= a.x0.rank() <= i64::MAX && i64::MIN <= b.x0.rank() <= i64::MAX);
    assert(i64::MIN <= a.top.rank() <= i64::MAX && i64::MIN <= b.top.rank() <= i64::MAX);
    assert forall|i: int, j: int| 0 <= i < j < starts.len() implies !order::key_less(
        #[trigger] starts[j],
        #[trigger] starts[i],
    ) by {
        assert(i == 0 && j == 1);
    }
    order::law_ascending_stay(all, starts);
    let tolerance = match orientation {
        Orientation::Horizontal => join_x,
        Orientation::Vertical => join_y,
    };
    reveal_with_fuel(edges::joined_in_order, 3);
    let one = all.drop_last();
    assert(one =~= seq![a]);
    assert(one.drop_last().len() == 0);
    assert(edges::joined_in_order(one, orientation, tolerance) =~= seq![a]);
    let group = edges::joined_in_order(all, orientation, tolerance);
    assert(edges::joined_group(all, orientation, tolerance) == group);
    let rest = edges::joined_runs(all.skip(2), join_x, join_y);
    assert(rest.len() == 0);
    assert(edges::joined_runs(all, join_x, join_y) =~= group);
    assert(edges::reaches(a, b, orientation, tolerance) ==> group =~= seq![
        edges::stretched(a, b, orientation),
    ]);
    assert(!edges::reaches(a, b, orientation, tolerance) ==> group =~= seq![a, b]);
}

/// Moving an edge keeps how it runs, how long it is and where it begins and ends along its
/// direction.
pub open spec fn moved_across(e: EdgeView, f: EdgeView) -> bool {
    &&& f.orientation == e.orientation
    &&& f.width == e.width
    &&& f.height == e.height
    &&& f.object_type == e.object_type
    &&& e.orientation == Orientation::Vertical ==> f.top == e.top && f.bottom == e.bottom
    &&& e.orientation == Orientation::Horizontal ==> f.x0 == e.x0 && f.x1 == e.x1
}

pub open spec fn some_moved(all: Seq<EdgeView>, f: EdgeView) -> bool {
    exists|e: EdgeView| #[trigger] all.contains(e) && moved_across(e, f)
}

proof fn lemma_aligned_moved(some: Seq<EdgeView>, groups: Seq<Seq<usize>>)
    requires
        forall|i: int, j: int|
            0 <= i < groups.len() && 0 <= j < groups[i].len() ==> #[trigger] groups[i][j]
                < some.len(),
    ensures
        forall|k: int|
            0 <= k < geometry::all_aligned(some, groups).len() ==> some_moved(
                some,
                #[trigger] geometry::all_aligned(some, groups)[k],
            ),
        geometry::all_aligned(some, groups).len() == crate::clustering::concat(groups).len(),
    decreases groups.len(),
{
    if groups.len() > 0 {
        let front = groups.drop_last();
        assert forall|i: int, j: int|
            0 <= i < front.len() && 0 <= j < front[i].len() implies #[trigger] front[i][j]
            < some.len() by {
            assert(front[i][j] == groups[i][j]);
        }
        lemma_aligned_moved(some, front);
        let a = geometry::all_aligned(some, front);
        let b = geometry::aligned(some, groups.last());
        let all = geometry::all_aligned(some, groups);
        assert(all == a + b);
        assert forall|k: int| 0 <= k < all.len() implies some_moved(some, #[trigger] all[k]) by {
            if k < a.len() {
                assert(all[k] == a[k]);
            } else {
                let j = k - a.len();
                assert(all[k] == b[j]);
                let g = groups.len() - 1;
                assert(groups[g][j] < some.len());
                let e = some[groups[g][j] as int];
                assert(some.contains(e));
                assert(moved_across(e, b[j]));
            }
        }
    }
}

/// Moving edges onto each other makes as many edges as there were; each is one of them, moved
/// across its direction.
pub proof fn law_snapping_moves_across(all: Seq<EdgeView>, x_tolerance: Float, y_tolerance: Float)
    requires
        all.len() <= usize::MAX,
    ensures
        geometry::snapped(all, x_tolerance, y_tolerance).len() == all.len(),
        forall|k: int|
            0 <= k < geometry::snapped(all, x_tolerance, y_tolerance).len() ==> some_moved(
                all,
                #[trigger] geometry::snapped(all, x_tolerance, y_tolerance)[k],
            ),
{
    lemma_snapped_along(all, Orientation::Vertical, x_tolerance);
    lemma_snapped_along(all, Orientation::Horizontal, y_tolerance);
    lemma_two_kinds(all);
    let a = geometry::snapped_along(all, Orientation::Vertical, x_tolerance);
    let b = geometry::snapped_along(all, Orientation::Horizontal, y_tolerance);
    let both = geometry::snapped(all, x_tolerance, y_tolerance);
    assert(both == a + b);
    assert forall|k: int| 0 <= k < both.len() implies some_moved(all, #[trigger] both[k]) by {
        if k < a.len() {
            assert(both[k] == a[k]);
        } else {
            assert(both[k] == b[k - a.len()]);
        }
    }
}

proof fn lemma_two_kinds(all: Seq<EdgeView>)
    ensures
        all.filter(geometry::oriented(Orientation::Vertical)).len() + all.filter(
            geometry::oriented(Orientation::Horizontal),
        ).len() == all.len(),
    decreases all.len(),
{
    reveal(Seq::filter);
    if all.len() > 0 {
        lemma_two_kinds(all.drop_last());
    }
}

proof fn lemma_snapped_along(all: Seq<EdgeView>, orientation: Orientation, tolerance: Float)
    requires
        all.len() <= usize::MAX,
    ensures
        ({
            let some = all.filter(geometry::oriented(orientation));
            let along = geometry::snapped_along(all, orientation, tolerance);
            &&& along.len() == some.len()
            &&& forall|k: int| 0 <= k < along.len() ==> some_moved(all, #[trigger] along[k])
        }),
{
    let some = all.filter(geometry::oriented(orientation));
    lemma_two_kinds(all);
    let keys = geometry::positions(some);
    let groups = crate::clustering::clusters(keys, tolerance);
    let ranks = crate::clustering::rank_keys(keys);
    order::law_stable_order_exists(ranks);
    crate::clustering::law_clusters_list_all(keys, tolerance);
    crate::clustering::law_chains_cut_the_order(keys, order::stable_order(ranks), tolerance);
    lemma_aligned_moved(some, groups);
    let along = geometry::snapped_along(all, orientation, tolerance);
    assert forall|k: int| 0 <= k < along.len() implies some_moved(all, #[trigger] along[k]) by {
        assert(some_moved(some, along[k]));
        let e = choose|e: EdgeView| #[trigger] some.contains(e) && moved_across(e, along[k]);
        lemma_chosen(all, geometry::oriented(orientation), e);
        assert(all.contains(e));
    }
}

/// How far vertical edges are moved does not depend on the tolerance for horizontal ones, nor
/// the other way round.
pub proof fn law_tolerances_go_by_direction(
    all: Seq<EdgeView>,
    x_tolerance: Float,
    other_x: Float,
    y_tolerance: Float,
    other_y: Float,
)
    ensures
        (forall|i: int|
            0 <= i < all.len() ==> (#[trigger] all[i]).orientation == Orientation::Vertical)
            ==> geometry::snapped(all, x_tolerance, y_tolerance) == geometry::snapped(
            all,
            x_tolerance,
            other_y,
        ),
        (forall|i: int|
            0 <= i < all.len() ==> (#[trigger] all[i]).orientation == Orientation::Horizontal)
            ==> geometry::snapped(all, x_tolerance, y_tolerance) == geometry::snapped(
            all,
            other_x,
            y_tolerance,
        ),
{
    if forall|i: int|
        0 <= i < all.len() ==> (#[trigger] all[i]).orientation == Orientation::Vertical {
        lemma_none_of(all, Orientation::Horizontal);
        lemma_nothing_snapped(all, Orientation::Horizontal, y_tolerance);
        lemma_nothing_snapped(all, Orientation::Horizontal, other_y);
    }
    if forall|i: int|
        0 <= i < all.len() ==> (#[trigger] all[i]).orientation == Orientation::Horizontal {
        lemma_none_of(all, Orientation::Vertical);
        lemma_nothing_snapped(all, Orientation::Vertical, x_tolerance);
        lemma_nothing_snapped(all, Orientation::Vertical, other_x);
    }
}

proof fn lemma_none_of(all: Seq<EdgeView>, orientation: Orientation)
    requires
        forall|i: int| 0 <= i < all.len() ==> (#[trigger] all[i]).orientation != orientation,
    ensures
        all.filter(geometry::oriented(orientation)).len() == 0,
    decreases all.len(),
{
    reveal(Seq::filter);
    if all.len() > 0 {
        let front = all.drop_last();
        assert forall|i: int| 0 <= i < front.len() implies (#[trigger] front[i]).orientation
            != orientation by {
            assert(front[i] == all[i]);
        }
        lemma_none_of(front, orientation);
        assert(all[all.len() - 1] == all.last());
    }
}

proof fn lemma_nothing_snapped(all: Seq<EdgeView>, orientation: Orientation, tolerance: Float)
    requires
        all.filter(geometry::oriented(orientation)).len() == 0,
    ensures
        geometry::snapped_along(all, orientation, tolerance) == Seq::<EdgeView>::empty(),
{
    let some = all.filter(geometry::oriented(orientation));
    let keys = geometry::positions(some);
    let ranks = crate::clustering::rank_keys(keys);
    order::law_stable_order_exists(ranks);
    assert(crate::clustering::clusters(keys, tolerance).len() == 0);
    assert(geometry::snapped_along(all, orientation, tolerance) =~= Seq::<EdgeView>::empty());
}

/// Where an edge lies across its direction.
spec fn lying_at(e: EdgeView) -> Float {
    if e.orientation is Vertical {
        e.x0
    } else {
        e.top
    }
}

/// Two parallel edges, the second no further behind the first than the tolerance for their
/// direction, are both moved to the middle between them.
pub proof fn law_near_edges_meet_in_the_middle(
    a: EdgeView,
    b: EdgeView,
    x_tolerance: Float,
    y_tolerance: Float,
)
    requires
        a.orientation == b.orientation,
        a.orientation is Vertical ==> a.x0.rank() <= b.x0.rank() && b.x0.at_most(
            a.x0.plus(x_tolerance),
        ),
        a.orientation is Horizontal ==> a.top.rank() <= b.top.rank() && b.top.at_most(
            a.top.plus(y_tolerance),
        ),
    ensures
        ({
            let s = geometry::snapped(seq![a, b], x_tolerance, y_tolerance);
            let zero = Float { bits: 0 };
            let two = Float::integer(2);
            &&& s.len() == 2
            &&& moved_across(a, s[0]) && moved_across(b, s[1])
            &&& a.orientation is Vertical ==> {
                let middle = zero.plus(a.x0).plus(b.x0).over(two);
                &&& s[0].x0 == a.x0.plus(middle.minus(a.x0))
                &&& s[0].x1 == a.x1.plus(middle.minus(a.x0))
                &&& s[1].x0 == b.x0.plus(middle.minus(b.x0))
                &&& s[1].x1 == b.x1.plus(middle.minus(b.x0))
            }
            &&& a.orientation is Horizontal ==> {
                let middle = zero.plus(a.top).plus(b.top).over(two);
                &&& s[0].top == a.top.plus(middle.minus(a.top))
                &&& s[0].bottom == a.bottom.plus(middle.minus(a.top))
                &&& s[1].top == b.top.plus(middle.minus(b.top))
                &&& s[1].bottom == b.bottom.plus(middle.minus(b.top))
            }
        }),
{
    let all = seq![a, b];
    let o = a.orientation;
    let other = if o is Vertical {
        Orientation::Horizontal
    } else {
        Orientation::Vertical
    };
    let tolerance = if o is Vertical {
        x_tolerance
    } else {
        y_tolerance
    };
    reveal(Seq::filter);
    reveal_with_fuel(Seq::<EdgeView>::filter, 3);
    let one = all.drop_last();
    assert(one =~= seq![a]);
    assert(one.drop_last().len() == 0);
    let some = all.filter(geometry::oriented(o));
    assert(some =~= all);
    let none = all.filter(geometry::oriented(other));
    assert(none.len() == 0);
    lemma_snapped_along(all, other, if o is Vertical {
        y_tolerance
    } else {
        x_tolerance
    });
    let keys = geometry::positions(some);
    assert(keys[0] == lying_at(a) && keys[1] == lying_at(b));
    let ranks = crate::clustering::rank_keys(keys);
    assert(i64::MIN <= a.x0.rank() <= i64::MAX && i64::MIN <= b.x0.rank() <= i64::MAX);
    assert(i64::MIN <= a.top.rank() <= i64::MAX && i64::MIN <= b.top.rank() <= i64::MAX);
    assert(ranks.len() == 2);
    assert(ranks[0] == (lying_at(a).rank() as i64, 0i64));
    assert(ranks[1] == (lying_at(b).rank() as i64, 0i64));
    assert forall|i: int, j: int| 0 <= i < j < ranks.len() implies !order::key_less(
        #[trigger] ranks[j],
        #[trigger] ranks[i],
    ) by {
        assert(i == 0 && j == 1);
    }
    let p = order::stable_order(ranks);
    let count = seq![0usize, 1usize];
    order::law_ascending_stay(count, ranks);
    order::law_stable_order_exists(ranks);
    let same = order::picked(count, p);
    assert(same == count);
    assert(same[0] == count[p[0] as int] && same[1] == count[p[1] as int]);
    assert(p =~= count);
    reveal_with_fuel(crate::clustering::chains, 3);
    let first = p.drop_last();
    assert(first =~= seq![0usize]);
    assert(first.drop_last().len() == 0);
    let groups = crate::clustering::clusters(keys, tolerance);
    assert(crate::clustering::chains(keys, first, tolerance) =~= seq![seq![0usize]]);
    assert(groups =~= seq![count]) by {
        assert(seq![0usize].push(1usize) =~= count);
    }
    reveal_with_fuel(geometry::all_aligned, 2);
    assert(groups.last() == count && groups.drop_last().len() == 0);
    let placed = order::picked(keys, count);
    assert(placed =~= seq![lying_at(a), lying_at(b)]);
    reveal_with_fuel(geometry::sum, 3);
    assert(placed.drop_last() =~= seq![lying_at(a)]);
    assert(placed.drop_last().drop_last().len() == 0);
    let middle = (Float { bits: 0 }).plus(lying_at(a)).plus(lying_at(b)).over(Float::integer(2));
    assert(geometry::average(placed) == middle);
    let along = geometry::snapped_along(all, o, tolerance);
    assert(along =~= geometry::aligned(some, count));
    assert(along.len() == 2);
    assert(along[0] == geometry::moved(a, middle.minus(lying_at(a))));
    assert(along[1] == geometry::moved(b, middle.minus(lying_at(b))));
    let s = geometry::snapped(all, x_tolerance, y_tolerance);
    assert(s =~= along);
}

/// Looking for text finds the edges that as many words suggest as are asked for in the
/// direction looked for, and asks for words; nothing else does.
pub proof fn law_words_are_looked_for(page: Page, settings: TableSettings, words: Seq<Word>)
    ensures
        settings.vertical_strategy is Text ==> forall|e: EdgeView|
            word_edges::vertical_edges(words, settings.min_words_vertical).contains(e)
                ==> #[trigger] finder::found_edges(
                page,
                settings,
                words,
                Orientation::Vertical,
            ).contains(e),
        settings.horizontal_strategy is Text ==> forall|e: EdgeView|
            word_edges::horizontal_edges(words, settings.min_words_horizontal).contains(e)
                ==> #[trigger] finder::found_edges(
                page,
                settings,
                words,
                Orientation::Horizontal,
            ).contains(e),
        settings.vertical_strategy is Text || settings.horizontal_strategy is Text
            ==> finder::asks_for_words(settings),
        !(settings.vertical_strategy is Text) && !(settings.horizontal_strategy is Text)
            ==> !finder::asks_for_words(settings),
        !(settings.vertical_strategy is Text) ==> finder::found_edges(
            page,
            settings,
            words,
            Orientation::Vertical,
        ) == finder::found_edges(page, settings, Seq::empty(), Orientation::Vertical),
        !(settings.horizontal_strategy is Text) ==> finder::found_edges(
            page,
            settings,
            words,
            Orientation::Horizontal,
        ) == finder::found_edges(page, settings, Seq::empty(), Orientation::Horizontal),
{
    let down = finder::explicit_edges(
        page.bbox,
        types::seen(settings.explicit_vertical_lines@),
        Orientation::Vertical,
    );
    let along = finder::explicit_edges(
        page.bbox,
        types::seen(settings.explicit_horizontal_lines@),
        Orientation::Horizontal,
    );
    let columns = word_edges::vertical_edges(words, settings.min_words_vertical);
    let lines = word_edges::horizontal_edges(words, settings.min_words_horizontal);
    assert forall|e: EdgeView| columns.contains(e) implies #[trigger] (columns + down).contains(
        e,
    ) by {
        lemma_in_sum(columns, down, e);
    }
    assert forall|e: EdgeView| lines.contains(e) implies #[trigger] (lines + along).contains(e) by {
        lemma_in_sum(lines, along, e);
    }
}

} // verus!
