//! The edges that the words of a page suggest.

use super::edges::HIGHEST;
use super::edges::LOWEST;
use crate::clustering;
use crate::float::Float;
use crate::float::ONE;
use crate::float::TWO;
use crate::geometry;
use crate::order;
use crate::types;
use crate::types::BBox;
use crate::types::Edge;
use crate::types::EdgeView;
use crate::types::Orientation;
use crate::types::Word;
use vstd::prelude::*;

verus! {

/// The least of numbers, starting from positive infinity.
pub open spec fn least(xs: Seq<Float>) -> Float
    decreases xs.len(),
{
    if xs.len() == 0 {
        Float { bits: HIGHEST }
    } else {
        least(xs.drop_last()).smaller(xs.last())
    }
}

/// The greatest of numbers, starting from negative infinity.
pub open spec fn greatest(xs: Seq<Float>) -> Float
    decreases xs.len(),
{
    if xs.len() == 0 {
        Float { bits: LOWEST }
    } else {
        greatest(xs.drop_last()).larger(xs.last())
    }
}

/// A coordinate of each rectangle.
pub open spec fn each(boxes: Seq<BBox>, coordinate: spec_fn(BBox) -> Float) -> Seq<Float> {
    boxes.map_values(coordinate)
}

pub open spec fn left_of() -> spec_fn(BBox) -> Float {
    |b: BBox| b.x0
}

pub open spec fn right_of() -> spec_fn(BBox) -> Float {
    |b: BBox| b.x1
}

pub open spec fn top_of() -> spec_fn(BBox) -> Float {
    |b: BBox| b.top
}

pub open spec fn bottom_of() -> spec_fn(BBox) -> Float {
    |b: BBox| b.bottom
}

/// The rectangle around the words of a cluster.
pub open spec fn cluster_box(words: Seq<Word>, cluster: Seq<usize>) -> BBox {
    geometry::hull(order::picked(geometry::word_boxes(words), cluster))->0
}

/// The rectangles around those clusters that have at least `threshold` words.
pub open spec fn large_boxes(
    words: Seq<Word>,
    clusters: Seq<Seq<usize>>,
    threshold: usize,
) -> Seq<BBox>
    decreases clusters.len(),
{
    if clusters.len() == 0 {
        Seq::empty()
    } else {
        let before = large_boxes(words, clusters.drop_last(), threshold);
        if clusters.last().len() >= threshold {
            before.push(cluster_box(words, clusters.last()))
        } else {
            before
        }
    }
}

/// The tops of words.
pub open spec fn tops(words: Seq<Word>) -> Seq<Float> {
    words.map_values(|w: Word| w.top)
}

/// The left ends of words.
pub open spec fn lefts(words: Seq<Word>) -> Seq<Float> {
    words.map_values(|w: Word| w.x0)
}

/// The right ends of words.
pub open spec fn rights(words: Seq<Word>) -> Seq<Float> {
    words.map_values(|w: Word| w.x1)
}

/// The middles of words.
pub open spec fn centers(words: Seq<Word>) -> Seq<Float> {
    words.map_values(|w: Word| w.x0.plus(w.x1).over(Float { bits: TWO }))
}

/// A horizontal edge from `x0` to `x1`.
pub open spec fn text_line(x0: Float, x1: Float, y: Float) -> EdgeView {
    EdgeView {
        x0,
        top: y,
        x1,
        bottom: y,
        width: x1.minus(x0),
        height: Float { bits: 0 },
        orientation: Orientation::Horizontal,
        object_type: "text"@,
    }
}

/// A vertical edge from `top` to `bottom`.
pub open spec fn text_column(x: Float, top: Float, bottom: Float) -> EdgeView {
    EdgeView {
        x0: x,
        top,
        x1: x,
        bottom,
        width: Float { bits: 0 },
        height: bottom.minus(top),
        orientation: Orientation::Vertical,
        object_type: "text"@,
    }
}

/// An edge along the top and one along the bottom of each rectangle, all from `x0` to
/// `x1`.
pub open spec fn lines_around(boxes: Seq<BBox>, x0: Float, x1: Float) -> Seq<EdgeView>
    decreases boxes.len(),
{
    if boxes.len() == 0 {
        Seq::empty()
    } else {
        lines_around(boxes.drop_last(), x0, x1).push(text_line(x0, x1, boxes.last().top)).push(
            text_line(x0, x1, boxes.last().bottom),
        )
    }
}

/// The rectangles around those lines of words that are long enough.
pub open spec fn line_boxes(words: Seq<Word>, threshold: usize) -> Seq<BBox> {
    large_boxes(words, clustering::clusters(tops(words), Float { bits: ONE }), threshold)
}

/// The horizontal edges that lines of words suggest.
pub open spec fn horizontal_edges(words: Seq<Word>, threshold: usize) -> Seq<EdgeView> {
    let boxes = line_boxes(words, threshold);
    lines_around(boxes, least(each(boxes, left_of())), greatest(each(boxes, right_of())))
}

/// The words clustered by their left ends, by their right ends and by their middles.
pub open spec fn column_clusters(words: Seq<Word>) -> Seq<Seq<usize>> {
    let one = Float { bits: ONE };
    clustering::clusters(lefts(words), one) + clustering::clusters(rights(words), one)
        + clustering::clusters(centers(words), one)
}

/// What clusters are sorted by so that the largest come first.
pub open spec fn falling(len: nat) -> order::Key {
    (-((len / 0x1_0000_0000) as i64) as i64, -((len % 0x1_0000_0000) as i64) as i64)
}

/// The clusters by falling size.
pub open spec fn by_size(clusters: Seq<Seq<usize>>) -> Seq<Seq<usize>> {
    let keys = clusters.map_values(|c: Seq<usize>| falling(c.len()));
    order::picked(clusters, order::stable_order(keys))
}

/// The rectangles that meet none of those kept before them.
pub open spec fn apart(boxes: Seq<BBox>) -> Seq<BBox>
    decreases boxes.len(),
{
    if boxes.len() == 0 {
        Seq::empty()
    } else {
        let before = apart(boxes.drop_last());
        if exists|i: int| 0 <= i < before.len() && #[trigger] before[i].meets(boxes.last()) {
            before
        } else {
            before.push(boxes.last())
        }
    }
}

/// No two of the rectangles that are kept meet, and each one left out meets one of them.
pub proof fn law_kept_are_apart(boxes: Seq<BBox>)
    ensures
        forall|i: int, j: int|
            0 <= i < j < apart(boxes).len() ==> !(#[trigger] apart(boxes)[i]).meets(
                #[trigger] apart(boxes)[j],
            ),
        forall|k: int|
            0 <= k < boxes.len() ==> apart(boxes).contains(#[trigger] boxes[k]) || exists|i: int|
                0 <= i < apart(boxes).len() && (#[trigger] apart(boxes)[i]).meets(boxes[k]),
    decreases boxes.len(),
{
    if boxes.len() > 0 {
        let front = boxes.drop_last();
        law_kept_are_apart(front);
        let before = apart(front);
        let after = apart(boxes);
        assert forall|k: int| 0 <= k < boxes.len() implies after.contains(#[trigger] boxes[k])
            || exists|i: int| 0 <= i < after.len() && (#[trigger] after[i]).meets(boxes[k]) by {
            if k < front.len() {
                assert(front[k] == boxes[k]);
                if before.contains(front[k]) {
                    let i = choose|i: int| 0 <= i < before.len() && before[i] == front[k];
                    assert(after[i] == boxes[k]);
                } else {
                    let i = choose|i: int|
                        0 <= i < before.len() && (#[trigger] before[i]).meets(front[k]);
                    assert(after[i].meets(boxes[k]));
                }
            } else if after != before {
                assert(after[after.len() - 1] == boxes[k]);
            }
        }
    }
}

/// Whether one of the first `k` rectangles is kept and meets another one.
pub open spec fn kept_before(boxes: Seq<BBox>, k: int, other: BBox) -> bool {
    exists|i: int|
        0 <= i < k && apart(boxes).contains(#[trigger] boxes[i]) && boxes[i].meets(other)
}

/// A rectangle gives way only to those before it.
pub proof fn law_first_come_are_kept(boxes: Seq<BBox>, k: int)
    requires
        0 <= k < boxes.len(),
    ensures
        apart(boxes).contains(boxes[k]) || kept_before(boxes, k, boxes[k]),
    decreases boxes.len(),
{
    let front = boxes.drop_last();
    let before = apart(front);
    let after = apart(boxes);
    assert forall|b: BBox| before.contains(b) implies after.contains(b) by {
        let i = choose|i: int| 0 <= i < before.len() && before[i] == b;
        assert(after[i] == b);
    }
    if k < front.len() {
        law_first_come_are_kept(front, k);
        assert(front[k] == boxes[k]);
        if !before.contains(front[k]) {
            let i = choose|i: int|
                0 <= i < k && before.contains(#[trigger] front[i]) && front[i].meets(front[k]);
            assert(boxes[i] == front[i]);
        }
    } else if after != before {
        assert(after[after.len() - 1] == boxes[k]);
    } else {
        let i = choose|i: int| 0 <= i < before.len() && #[trigger] before[i].meets(boxes.last());
        lemma_kept_are_given(front, i);
        let m = choose|m: int| 0 <= m < front.len() && front[m] == before[i];
        assert(boxes[m] == front[m]);
        assert(before.contains(before[i]));
    }
}

proof fn lemma_kept_are_given(boxes: Seq<BBox>, i: int)
    requires
        0 <= i < apart(boxes).len(),
    ensures
        boxes.contains(apart(boxes)[i]),
    decreases boxes.len(),
{
    if boxes.len() > 0 {
        let front = boxes.drop_last();
        if i < apart(front).len() {
            lemma_kept_are_given(front, i);
            let m = choose|m: int| 0 <= m < front.len() && front[m] == apart(front)[i];
            assert(boxes[m] == front[m]);
        } else {
            assert(boxes[boxes.len() - 1] == boxes.last());
        }
    }
}

/// Columns with more words come before those with fewer, so that these give way to them.
pub proof fn law_large_clusters_come_first(clusters: Seq<Seq<usize>>, i: int, j: int)
    requires
        clusters.len() <= usize::MAX,
        forall|k: int| 0 <= k < clusters.len() ==> (#[trigger] clusters[k]).len() <= usize::MAX,
        0 <= i < j < by_size(clusters).len(),
    ensures
        by_size(clusters)[i].len() >= by_size(clusters)[j].len(),
{
    let keys = clusters.map_values(|c: Seq<usize>| falling(c.len()));
    let p = order::stable_order(keys);
    order::law_stable_order_exists(keys);
    assert(order::comes_before(keys, p[i], p[j]));
    let a = clusters[p[i] as int];
    let b = clusters[p[j] as int];
    assert(by_size(clusters)[i] == a && by_size(clusters)[j] == b);
    assert(a.len() <= usize::MAX && b.len() <= usize::MAX);
    assert(keys[p[i] as int] == falling(a.len()));
    assert(keys[p[j] as int] == falling(b.len()));
    let x = a.len() as int;
    let y = b.len() as int;
    assert(x / 0x1_0000_0000 <= 0xffff_ffff && y / 0x1_0000_0000 <= 0xffff_ffff);
    assert(x == 0x1_0000_0000 * (x / 0x1_0000_0000) + x % 0x1_0000_0000);
    assert(y == 0x1_0000_0000 * (y / 0x1_0000_0000) + y % 0x1_0000_0000);
}

/// The rectangles from left to right.
pub open spec fn from_left(boxes: Seq<BBox>) -> Seq<BBox> {
    order::picked(
        boxes,
        order::stable_order(boxes.map_values(|b: BBox| (b.x0.rank() as i64, 0i64))),
    )
}

/// The rectangles around those columns of words that are high enough, from left to right.
pub open spec fn column_boxes(words: Seq<Word>, threshold: usize) -> Seq<BBox> {
    from_left(apart(large_boxes(words, by_size(column_clusters(words)), threshold)))
}

/// An edge along the left of each rectangle.
pub open spec fn columns_at(boxes: Seq<BBox>, top: Float, bottom: Float) -> Seq<EdgeView> {
    boxes.map_values(|b: BBox| text_column(b.x0, top, bottom))
}

/// The vertical edges that columns of words suggest: one along the left of each, and one
/// along the right of all.
pub open spec fn vertical_edges(words: Seq<Word>, threshold: usize) -> Seq<EdgeView> {
    let boxes = column_boxes(words, threshold);
    let top = least(each(boxes, top_of()));
    let bottom = greatest(each(boxes, bottom_of()));
    if boxes.len() == 0 {
        Seq::empty()
    } else {
        columns_at(boxes, top, bottom).push(
            text_column(greatest(each(boxes, right_of())), top, bottom),
        )
    }
}

proof fn lemma_lines_run_along(boxes: Seq<BBox>, x0: Float, x1: Float)
    ensures
        forall|i: int|
            0 <= i < lines_around(boxes, x0, x1).len() ==> (#[trigger] lines_around(
                boxes,
                x0,
                x1,
            )[i]).orientation == Orientation::Horizontal,
    decreases boxes.len(),
{
    if boxes.len() > 0 {
        lemma_lines_run_along(boxes.drop_last(), x0, x1);
    }
}

/// The horizontal edges that words suggest all begin and end at the same distances from the
/// left: there are two for each line of words, and they reach around all of them.
pub proof fn law_word_lines_span_alike(words: Seq<Word>, threshold: usize)
    ensures
        horizontal_edges(words, threshold).len() == 2 * line_boxes(words, threshold).len(),
        forall|i: int, j: int|
            0 <= i < horizontal_edges(words, threshold).len() && 0 <= j < horizontal_edges(
                words,
                threshold,
            ).len() ==> (#[trigger] horizontal_edges(words, threshold)[i]).x0 == (
            #[trigger] horizontal_edges(words, threshold)[j]).x0 && horizontal_edges(
                words,
                threshold,
            )[i].x1 == horizontal_edges(words, threshold)[j].x1,
{
    let boxes = line_boxes(words, threshold);
    lemma_lines_span(boxes, least(each(boxes, left_of())), greatest(each(boxes, right_of())));
}

proof fn lemma_lines_span(boxes: Seq<BBox>, x0: Float, x1: Float)
    ensures
        lines_around(boxes, x0, x1).len() == 2 * boxes.len(),
        forall|i: int|
            0 <= i < lines_around(boxes, x0, x1).len() ==> (#[trigger] lines_around(
                boxes,
                x0,
                x1,
            )[i]).x0 == x0 && lines_around(boxes, x0, x1)[i].x1 == x1,
    decreases boxes.len(),
{
    if boxes.len() > 0 {
        lemma_lines_span(boxes.drop_last(), x0, x1);
    }
}

/// The edges that words suggest run in the direction they are looked for in.
pub proof fn lemma_run_along(words: Seq<Word>, across: usize, down: usize)
    ensures
        forall|i: int|
            0 <= i < horizontal_edges(words, across).len() ==> (#[trigger] horizontal_edges(
                words,
                across,
            )[i]).orientation == Orientation::Horizontal,
        forall|i: int|
            0 <= i < vertical_edges(words, down).len() ==> (#[trigger] vertical_edges(
                words,
                down,
            )[i]).orientation == Orientation::Vertical,
{
    let boxes = line_boxes(words, across);
    lemma_lines_run_along(
        boxes,
        least(each(boxes, left_of())),
        greatest(each(boxes, right_of())),
    );
}

/// The smallest rectangle around the words that `cluster` lists.
fn objects_to_bbox(words: &Vec<Word>, cluster: &Vec<usize>) -> (r: Option<BBox>)
    requires
        forall|i: int| 0 <= i < cluster@.len() ==> #[trigger] cluster@[i] < words@.len(),
    ensures
        r == geometry::hull(order::picked(geometry::word_boxes(words@), cluster@)),
        r is Some <==> cluster@.len() > 0,
{
    let ghost goal = order::picked(geometry::word_boxes(words@), cluster@);
    let mut boxes: Vec<BBox> = Vec::new();
    let n: usize = cluster.len();
    for i in 0..n
        invariant
            n == cluster@.len(),
            goal == order::picked(geometry::word_boxes(words@), cluster@),
            forall|i: int| 0 <= i < cluster@.len() ==> #[trigger] cluster@[i] < words@.len(),
            boxes@ =~= goal.take(i as int),
    {
        let w: &Word = &words[cluster[i]];
        let b: BBox = BBox::new(w.x0, w.top, w.x1, w.bottom);
        assert(goal[i as int] == b);
        boxes.push(b);
    }
    assert(boxes@ =~= goal);
    geometry::union_all(&boxes)
}

/// The rectangles around those clusters that have at least `threshold` words.
fn boxes_of_large(words: &Vec<Word>, clusters: &Vec<Vec<usize>>, threshold: usize) -> (r: Vec<BBox>)
    requires
        listed(clustering::places(clusters@), words@.len()),
    ensures
        r@ == large_boxes(words@, clustering::places(clusters@), threshold),
{
    let ghost all = clustering::places(clusters@);
    let mut out: Vec<BBox> = Vec::new();
    for i in 0..clusters.len()
        invariant
            all == clustering::places(clusters@),
            listed(all, words@.len()),
            out@ == large_boxes(words@, all.take(i as int), threshold),
    {
        assert(all.take(i + 1).drop_last() =~= all.take(i as int));
        assert(all[i as int] == clusters@[i as int]@);
        if clusters[i].len() >= threshold {
            match objects_to_bbox(words, &clusters[i]) {
                Some(b) => out.push(b),
                None => (),
            }
        }
    }
    assert(all.take(all.len() as int) =~= all);
    out
}

/// Whether every cluster lists some of the first `n` items, and none is empty.
pub open spec fn listed(clusters: Seq<Seq<usize>>, n: nat) -> bool {
    &&& forall|i: int, j: int|
        0 <= i < clusters.len() && 0 <= j < clusters[i].len() ==> #[trigger] clusters[i][j] < n
    &&& forall|i: int| 0 <= i < clusters.len() ==> #[trigger] clusters[i].len() > 0
}

fn least_of(xs: &Vec<Float>) -> (r: Float)
    ensures
        r == least(xs@),
{
    let mut r: Float = Float { bits: HIGHEST };
    for i in 0..xs.len()
        invariant
            r == least(xs@.take(i as int)),
    {
        assert(xs@.take(i + 1).drop_last() =~= xs@.take(i as int));
        r = r.min(xs[i]);
    }
    assert(xs@.take(xs@.len() as int) =~= xs@);
    r
}

fn greatest_of(xs: &Vec<Float>) -> (r: Float)
    ensures
        r == greatest(xs@),
{
    let mut r: Float = Float { bits: LOWEST };
    for i in 0..xs.len()
        invariant
            r == greatest(xs@.take(i as int)),
    {
        assert(xs@.take(i + 1).drop_last() =~= xs@.take(i as int));
        r = r.max(xs[i]);
    }
    assert(xs@.take(xs@.len() as int) =~= xs@);
    r
}

/// The left, top, right and bottom coordinates of rectangles.
fn coordinates(boxes: &Vec<BBox>) -> (r: (Vec<Float>, Vec<Float>, Vec<Float>, Vec<Float>))
    ensures
        r.0@ == each(boxes@, left_of()),
        r.1@ == each(boxes@, top_of()),
        r.2@ == each(boxes@, right_of()),
        r.3@ == each(boxes@, bottom_of()),
{
    let mut x0: Vec<Float> = Vec::new();
    let mut top: Vec<Float> = Vec::new();
    let mut x1: Vec<Float> = Vec::new();
    let mut bottom: Vec<Float> = Vec::new();
    let n: usize = boxes.len();
    for i in 0..n
        invariant
            n == boxes@.len(),
            x0@ =~= each(boxes@, left_of()).take(i as int),
            top@ =~= each(boxes@, top_of()).take(i as int),
            x1@ =~= each(boxes@, right_of()).take(i as int),
            bottom@ =~= each(boxes@, bottom_of()).take(i as int),
    {
        x0.push(boxes[i].x0);
        top.push(boxes[i].top);
        x1.push(boxes[i].x1);
        bottom.push(boxes[i].bottom);
    }
    assert(x0@ =~= each(boxes@, left_of()));
    assert(top@ =~= each(boxes@, top_of()));
    assert(x1@ =~= each(boxes@, right_of()));
    assert(bottom@ =~= each(boxes@, bottom_of()));
    (x0, top, x1, bottom)
}

fn make_text_line(x0: Float, x1: Float, y: Float) -> (r: Edge)
    ensures
        r@ == text_line(x0, x1, y),
{
    Edge {
        x0,
        top: y,
        x1,
        bottom: y,
        width: x1.sub(x0),
        height: Float { bits: 0 },
        orientation: Orientation::Horizontal,
        object_type: "text".to_owned(),
    }
}

fn make_text_column(x: Float, top: Float, bottom: Float) -> (r: Edge)
    ensures
        r@ == text_column(x, top, bottom),
{
    Edge {
        x0: x,
        top,
        x1: x,
        bottom,
        width: Float { bits: 0 },
        height: bottom.sub(top),
        orientation: Orientation::Vertical,
        object_type: "text".to_owned(),
    }
}

/// The horizontal edges that lines of at least `threshold` words suggest.
pub fn words_to_edges_h(words: &Vec<Word>, threshold: usize) -> (r: Vec<Edge>)
    ensures
        types::seen(r@) == horizontal_edges(words@, threshold),
{
    let mut keys: Vec<Float> = Vec::new();
    let n: usize = words.len();
    for i in 0..n
        invariant
            n == words@.len(),
            keys@ =~= tops(words@).take(i as int),
    {
        keys.push(words[i].top);
    }
    assert(keys@ =~= tops(words@));
    let clusters: Vec<Vec<usize>> = clustering::cluster_items(&keys, Float { bits: ONE });
    proof {
        clustering::law_clusters_list_all(keys@, Float { bits: ONE });
    }
    let boxes: Vec<BBox> = boxes_of_large(words, &clusters, threshold);
    let (x0s, _tops, x1s, _bottoms) = coordinates(&boxes);
    let min_x0: Float = least_of(&x0s);
    let max_x1: Float = greatest_of(&x1s);
    let mut out: Vec<Edge> = Vec::new();
    for i in 0..boxes.len()
        invariant
            types::seen(out@) == lines_around(boxes@.take(i as int), min_x0, max_x1),
    {
        assert(boxes@.take(i + 1).drop_last() =~= boxes@.take(i as int));
        let upper: Edge = make_text_line(min_x0, max_x1, boxes[i].top);
        let lower: Edge = make_text_line(min_x0, max_x1, boxes[i].bottom);
        proof {
            types::lemma_seen_push(out@, upper);
            types::lemma_seen_push(out@.push(upper), lower);
        }
        out.push(upper);
        out.push(lower);
    }
    assert(boxes@.take(boxes@.len() as int) =~= boxes@);
    out
}

/// The clusters by falling size.
fn sort_by_size(clusters: Vec<Vec<usize>>) -> (r: Vec<Vec<usize>>)
    ensures
        clustering::places(r@) == by_size(clustering::places(clusters@)),
        forall|n: nat| listed(clustering::places(clusters@), n) ==> listed(
            clustering::places(r@),
            n,
        ),
{
    let ghost all = clustering::places(clusters@);
    let ghost wanted = all.map_values(|c: Seq<usize>| falling(c.len()));
    let mut keys: Vec<order::Key> = Vec::new();
    let n: usize = clusters.len();
    for i in 0..n
        invariant
            n == clusters@.len(),
            all == clustering::places(clusters@),
            wanted == all.map_values(|c: Seq<usize>| falling(c.len())),
            keys@ =~= wanted.take(i as int),
    {
        let len: u64 = clusters[i].len() as u64;
        assert(all[i as int].len() == len);
        keys.push((-((len / 0x1_0000_0000) as i64), -((len % 0x1_0000_0000) as i64)));
    }
    assert(keys@ =~= wanted);
    let p: Vec<usize> = order::sort_order(&keys);
    let ghost goal = order::picked(all, p@);
    let mut out: Vec<Vec<usize>> = Vec::new();
    for i in 0..n
        invariant
            n == clusters@.len(),
            n == p@.len(),
            all == clustering::places(clusters@),
            goal == order::picked(all, p@),
            forall|i: int| 0 <= i < n ==> #[trigger] p@[i] < n,
            clustering::places(out@) =~= goal.take(i as int),
    {
        let c: Vec<usize> = copy_places(&clusters[p[i]]);
        assert(goal[i as int] == c@);
        let ghost before = clustering::places(out@);
        out.push(c);
        assert(clustering::places(out@) =~= before.push(c@));
    }
    assert(clustering::places(out@) =~= goal);
    assert forall|m: nat| listed(all, m) implies listed(goal, m) by {
        assert forall|i: int, j: int|
            0 <= i < goal.len() && 0 <= j < goal[i].len() implies #[trigger] goal[i][j] < m by {
            assert(goal[i] == all[p@[i] as int]);
        }
        assert forall|i: int| 0 <= i < goal.len() implies #[trigger] goal[i].len() > 0 by {
            assert(goal[i] == all[p@[i] as int]);
        }
    }
    out
}

fn copy_places(places: &Vec<usize>) -> (r: Vec<usize>)
    ensures
        r@ == places@,
{
    let mut out: Vec<usize> = Vec::new();
    let n: usize = places.len();
    for i in 0..n
        invariant
            n == places@.len(),
            out@ =~= places@.take(i as int),
    {
        out.push(places[i]);
    }
    assert(out@ =~= places@);
    out
}

/// The rectangles that meet none of those kept before them.
fn condense(boxes: &Vec<BBox>) -> (r: Vec<BBox>)
    ensures
        r@ == apart(boxes@),
{
    let mut out: Vec<BBox> = Vec::new();
    for i in 0..boxes.len()
        invariant
            out@ == apart(boxes@.take(i as int)),
    {
        assert(boxes@.take(i + 1).drop_last() =~= boxes@.take(i as int));
        let mut found: bool = false;
        for j in 0..out.len()
            invariant
                i < boxes@.len(),
                found == exists|k: int|
                    0 <= k < j && #[trigger] out@[k].meets(boxes@[i as int]),
        {
            if out[j].overlap(boxes[i]).is_some() {
                assert(out@[j as int].meets(boxes@[i as int]));
                found = true;
            }
        }
        if !found {
            out.push(boxes[i]);
        }
    }
    assert(boxes@.take(boxes@.len() as int) =~= boxes@);
    out
}

/// The rectangles from left to right.
fn sort_from_left(boxes: &Vec<BBox>) -> (r: Vec<BBox>)
    ensures
        r@ == from_left(boxes@),
{
    let ghost wanted = boxes@.map_values(|b: BBox| (b.x0.rank() as i64, 0i64));
    let mut keys: Vec<order::Key> = Vec::new();
    let n: usize = boxes.len();
    for i in 0..n
        invariant
            n == boxes@.len(),
            wanted == boxes@.map_values(|b: BBox| (b.x0.rank() as i64, 0i64)),
            keys@ =~= wanted.take(i as int),
    {
        keys.push((boxes[i].x0.total_rank(), 0));
    }
    assert(keys@ =~= wanted);
    let p: Vec<usize> = order::sort_order(&keys);
    let ghost goal = order::picked(boxes@, p@);
    let mut out: Vec<BBox> = Vec::new();
    for i in 0..n
        invariant
            n == boxes@.len(),
            n == p@.len(),
            goal == order::picked(boxes@, p@),
            forall|i: int| 0 <= i < n ==> #[trigger] p@[i] < n,
            out@ =~= goal.take(i as int),
    {
        out.push(boxes[p[i]]);
    }
    assert(out@ =~= goal);
    out
}

/// The vertical edges that columns of at least `threshold` words suggest.
pub fn words_to_edges_v(words: &Vec<Word>, threshold: usize) -> (r: Vec<Edge>)
    ensures
        types::seen(r@) == vertical_edges(words@, threshold),
{
    let one: Float = Float { bits: ONE };
    let mut x0s: Vec<Float> = Vec::new();
    let mut x1s: Vec<Float> = Vec::new();
    let mut mids: Vec<Float> = Vec::new();
    let n: usize = words.len();
    for i in 0..n
        invariant
            n == words@.len(),
            x0s@ =~= lefts(words@).take(i as int),
            x1s@ =~= rights(words@).take(i as int),
            mids@ =~= centers(words@).take(i as int),
    {
        x0s.push(words[i].x0);
        x1s.push(words[i].x1);
        mids.push(words[i].x0.add(words[i].x1).div(Float { bits: TWO }));
    }
    assert(x0s@ =~= lefts(words@));
    assert(x1s@ =~= rights(words@));
    assert(mids@ =~= centers(words@));
    let mut clusters: Vec<Vec<usize>> = clustering::cluster_items(&x0s, one);
    let mut by_x1: Vec<Vec<usize>> = clustering::cluster_items(&x1s, one);
    let mut by_center: Vec<Vec<usize>> = clustering::cluster_items(&mids, one);
    proof {
        clustering::law_clusters_list_all(x0s@, one);
        clustering::law_clusters_list_all(x1s@, one);
        clustering::law_clusters_list_all(mids@, one);
    }
    let ghost a = clustering::places(clusters@);
    let ghost b = clustering::places(by_x1@);
    let ghost c = clustering::places(by_center@);
    clusters.append(&mut by_x1);
    clusters.append(&mut by_center);
    assert(clustering::places(clusters@) =~= a + b + c);
    assert(listed(a + b + c, words@.len())) by {
        assert forall|i: int, j: int|
            0 <= i < (a + b + c).len() && 0 <= j < (a + b + c)[i].len() implies #[trigger] (a + b
            + c)[i][j] < words@.len() by {
            if i < a.len() {
                assert((a + b + c)[i] == a[i]);
            } else if i < a.len() + b.len() {
                assert((a + b + c)[i] == b[i - a.len()]);
            } else {
                assert((a + b + c)[i] == c[i - a.len() - b.len()]);
            }
        }
    }
    let sorted: Vec<Vec<usize>> = sort_by_size(clusters);
    let boxes: Vec<BBox> = boxes_of_large(words, &sorted, threshold);
    let condensed: Vec<BBox> = sort_from_left(&condense(&boxes));
    let m: usize = condensed.len();
    assert(condensed@ == column_boxes(words@, threshold));
    if m == 0 {
        let out: Vec<Edge> = Vec::new();
        assert(types::seen(out@) =~= Seq::<EdgeView>::empty());
        return out;
    }
    let (_x0s, tops, x1s, bottoms) = coordinates(&condensed);
    let max_x1: Float = greatest_of(&x1s);
    let min_top: Float = least_of(&tops);
    let max_bottom: Float = greatest_of(&bottoms);
    let mut out: Vec<Edge> = Vec::new();
    let ghost goal = columns_at(condensed@, min_top, max_bottom);
    for i in 0..m
        invariant
            m == condensed@.len(),
            goal == columns_at(condensed@, min_top, max_bottom),
            types::seen(out@) =~= goal.take(i as int),
    {
        let edge: Edge = make_text_column(condensed[i].x0, min_top, max_bottom);
        proof {
            types::lemma_seen_push(out@, edge);
        }
        out.push(edge);
    }
    assert(types::seen(out@) =~= goal);
    let last: Edge = make_text_column(max_x1, min_top, max_bottom);
    proof {
        types::lemma_seen_push(out@, last);
    }
    out.push(last);
    out
}

} // verus!
