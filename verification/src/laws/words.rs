//! What holds of the edges that the words of a page suggest.

use crate::clustering;
use crate::float::laws;
use crate::float::Float;
use crate::float::ONE;
use crate::float::TWO;
use crate::geometry;
use crate::order;
use crate::table::edges::HIGHEST;
use crate::table::edges::LOWEST;
use crate::table::word_edges;
use crate::types::BBox;
use crate::types::EdgeView;
use crate::types::Word;
use vstd::prelude::*;

verus! {

/// A side of a word, or its middle.
pub enum Anchor {
    Left,
    Right,
    Middle,
}

/// Where a word stands.
pub open spec fn anchored(w: Word, anchor: Anchor) -> Float {
    match anchor {
        Anchor::Left => w.x0,
        Anchor::Right => w.x1,
        Anchor::Middle => w.x0.plus(w.x1).over(Float { bits: TWO }),
    }
}

/// Whether a word has finite coordinates, the smaller ones first.
pub open spec fn proper(w: Word) -> bool {
    &&& w.x0.finite() && w.x1.finite() && w.top.finite() && w.bottom.finite()
    &&& w.x0.at_most(w.x1)
    &&& w.top.at_most(w.bottom)
}

/// Whether all words have finite coordinates, the smaller ones first.
pub open spec fn all_proper(words: Seq<Word>) -> bool {
    forall|i: int| 0 <= i < words.len() ==> proper(#[trigger] words[i])
}

/// Whether the numbers in `group` are those of words.
pub open spec fn some_of(group: Seq<usize>, words: Seq<Word>) -> bool {
    forall|k: int| 0 <= k < group.len() ==> #[trigger] group[k] < words.len()
}

/// The rectangle around some words.
pub open spec fn around_words(words: Seq<Word>, group: Seq<usize>) -> BBox {
    geometry::hull(order::picked(geometry::word_boxes(words), group))->0
}

/// Whether a list holds all items with a value.
pub open spec fn has_all(group: Seq<usize>, keys: Seq<Float>, p: Seq<usize>, v: int) -> bool {
    forall|k: int|
        0 <= k < p.len() && keys[#[trigger] p[k] as int].order() == v ==> group.contains(p[k])
}

/// Whether one of the lists holds all items with a value.
pub open spec fn in_one(groups: Seq<Seq<usize>>, keys: Seq<Float>, p: Seq<usize>, v: int) -> bool {
    exists|i: int| 0 <= i < groups.len() && has_all(#[trigger] groups[i], keys, p, v)
}

/// Whether numbers ascend in the given order.
pub open spec fn ascends(keys: Seq<Float>, p: Seq<usize>) -> bool {
    forall|k: int, l: int|
        0 <= k < l < p.len() ==> keys[#[trigger] p[k] as int].order()
            <= keys[#[trigger] p[l] as int].order()
}

proof fn lemma_chains_keep_equal(keys: Seq<Float>, p: Seq<usize>, tolerance: Float, v: int)
    requires
        tolerance.finite(),
        (Float { bits: 0 }).at_most(tolerance),
        forall|k: int| 0 <= k < p.len() ==> keys[#[trigger] p[k] as int].finite(),
        ascends(keys, p),
        p.len() > 0,
    ensures
        in_one(clustering::chains(keys, p, tolerance), keys, p, v),
        has_all(
            clustering::chains(keys, p, tolerance).last(),
            keys,
            p,
            keys[p.last() as int].order(),
        ),
    decreases p.len(),
{
    clustering::law_chains_cut_the_order(keys, p, tolerance);
    let x = p.last();
    let all = clustering::chains(keys, p, tolerance);
    let front = p.drop_last();
    let rest = clustering::chains(keys, front, tolerance);
    assert(p[p.len() - 1] == x);
    if p.len() == 1 {
        assert(rest.len() == 0);
        assert(all[0] =~= seq![x]);
        assert(seq![x].contains(x)) by {
            assert(seq![x][0] == x);
        }
        assert(has_all(all[0], keys, p, v));
    } else {
        let y = p[p.len() - 2];
        assert(front.last() == y);
        assert forall|k: int| 0 <= k < front.len() implies keys[#[trigger] front[k] as int].finite() by {
            assert(front[k] == p[k]);
        }
        assert forall|k: int, l: int| 0 <= k < l < front.len() implies keys[#[trigger] front[k] as int].order()
            <= keys[#[trigger] front[l] as int].order() by {
            assert(front[k] == p[k] && front[l] == p[l]);
        }
        lemma_chains_keep_equal(keys, front, tolerance, v);
        clustering::law_chains_cut_the_order(keys, front, tolerance);
        let kx = keys[x as int];
        let ky = keys[y as int];
        assert(ky.order() <= kx.order());
        assert(keys[p[p.len() - 2] as int].finite() && keys[p[p.len() - 1] as int].finite());
        laws::law_adding_makes_no_smaller(ky, tolerance);
        let i = choose|i: int| 0 <= i < rest.len() && has_all(#[trigger] rest[i], keys, front, v);
        let n = rest.len() - 1;
        if kx.at_most(ky.plus(tolerance)) {
            assert(all[n] == rest[n].push(x));
            assert(all[n][rest[n].len() as int] == x);
            assert forall|k: int|
                0 <= k < p.len() && keys[#[trigger] p[k] as int].order()
                    == kx.order() implies all[n].contains(p[k]) by {
                if k < front.len() {
                    assert(front[k] == p[k]);
                    // What comes before is no greater, and equal to the last only where the
                    // one before the last is.
                    assert(keys[p[k] as int].order() <= ky.order()) by {
                        if k < p.len() - 2 {
                            assert(keys[p[k] as int].order() <= keys[p[p.len() - 2] as int].order());
                        }
                    }
                    assert(rest[n].contains(front[k]));
                    let m = choose|m: int| 0 <= m < rest[n].len() && rest[n][m] == p[k];
                    assert(all[n][m] == p[k]);
                }
            }
            if v == kx.order() {
                assert(has_all(all[n], keys, p, v));
            } else {
                assert forall|k: int|
                    0 <= k < p.len() && keys[#[trigger] p[k] as int].order()
                        == v implies all[i].contains(p[k]) by {
                    assert(front[k] == p[k]);
                    assert(rest[i].contains(front[k]));
                    let m = choose|m: int| 0 <= m < rest[i].len() && rest[i][m] == p[k];
                    assert(all[i][m] == p[k]);
                }
                assert(has_all(all[i], keys, p, v));
            }
        } else {
            assert(ky.order() != kx.order());
            let g = seq![x];
            assert(all[n + 1] == g);
            assert(g[0] == x);
            assert forall|k: int|
                0 <= k < p.len() && keys[#[trigger] p[k] as int].order()
                    == kx.order() implies g.contains(p[k]) by {
                if k < front.len() {
                    assert(keys[p[k] as int].order() <= ky.order()) by {
                        if k < p.len() - 2 {
                            assert(keys[p[k] as int].order() <= keys[p[p.len() - 2] as int].order());
                        }
                    }
                }
            }
            if v == kx.order() {
                assert(has_all(all[n + 1], keys, p, v));
            } else {
                assert(all[i] == rest[i]);
                assert forall|k: int|
                    0 <= k < p.len() && keys[#[trigger] p[k] as int].order()
                        == v implies all[i].contains(p[k]) by {
                    assert(front[k] == p[k]);
                    assert(rest[i].contains(front[k]));
                }
                assert(has_all(all[i], keys, p, v));
            }
        }
    }
}

/// Equal numbers are in one cluster.
pub proof fn law_equal_numbers_are_in_one_cluster(
    keys: Seq<Float>,
    tolerance: Float,
    v: int,
) -> (i: int)
    requires
        0 < keys.len() <= usize::MAX,
        tolerance.finite(),
        (Float { bits: 0 }).at_most(tolerance),
        forall|k: int| 0 <= k < keys.len() ==> (#[trigger] keys[k]).finite(),
    ensures
        0 <= i < clustering::clusters(keys, tolerance).len(),
        forall|x: usize|
            x < keys.len() && keys[x as int].order() == v ==> #[trigger] clustering::clusters(
                keys,
                tolerance,
            )[i].contains(x),
{
    let ranks = clustering::rank_keys(keys);
    let p = order::stable_order(ranks);
    order::law_stable_order_exists(ranks);
    order::law_stable_order_lists_all(ranks, p);
    clustering::law_ranks_sort_numbers(keys, p);
    assert forall|k: int| 0 <= k < p.len() implies keys[#[trigger] p[k] as int].finite() by {
        assert(p[k] < keys.len());
    }
    lemma_chains_keep_equal(keys, p, tolerance, v);
    let groups = clustering::clusters(keys, tolerance);
    let i = choose|i: int| 0 <= i < groups.len() && has_all(#[trigger] groups[i], keys, p, v);
    assert forall|x: usize| x < keys.len() && keys[x as int].order() == v implies #[trigger] groups[i].contains(
        x,
    ) by {
        assert(p.contains(x));
        let k = choose|k: int| 0 <= k < p.len() && p[k] == x;
        assert(groups[i].contains(p[k]));
    }
    i
}

proof fn lemma_no_longer(picks: Seq<usize>, group: Seq<usize>)
    requires
        picks.no_duplicates(),
        forall|k: int| 0 <= k < picks.len() ==> group.contains(#[trigger] picks[k]),
    ensures
        picks.len() <= group.len(),
{
    picks.unique_seq_to_set();
    group.lemma_cardinality_of_set();
    assert forall|x: usize| picks.to_set().contains(x) implies group.to_set().contains(x) by {
        let k = choose|k: int| 0 <= k < picks.len() && picks[k] == x;
        assert(group.contains(picks[k]));
    }
    vstd::set_lib::lemma_len_subset(picks.to_set(), group.to_set());
}

proof fn lemma_large_box(
    words: Seq<Word>,
    clusters: Seq<Seq<usize>>,
    threshold: usize,
    i: int,
)
    requires
        0 <= i < clusters.len(),
        clusters[i].len() >= threshold,
    ensures
        word_edges::large_boxes(words, clusters, threshold).contains(
            around_words(words, clusters[i]),
        ),
    decreases clusters.len(),
{
    let all = word_edges::large_boxes(words, clusters, threshold);
    let before = word_edges::large_boxes(words, clusters.drop_last(), threshold);
    let b = around_words(words, clusters[i]);
    if i == clusters.len() - 1 {
        assert(all.last() == b);
        assert(all[all.len() - 1] == b);
    } else {
        lemma_large_box(words, clusters.drop_last(), threshold, i);
        let k = choose|k: int| 0 <= k < before.len() && before[k] == b;
        assert(all[k] == b);
    }
}

/// Whether a rectangle is that of one of the clusters.
pub open spec fn is_cluster_box(
    words: Seq<Word>,
    clusters: Seq<Seq<usize>>,
    threshold: usize,
    b: BBox,
) -> bool {
    exists|i: int|
        0 <= i < clusters.len() && (#[trigger] clusters[i]).len() >= threshold && around_words(
            words,
            clusters[i],
        ) == b
}

proof fn lemma_box_of_cluster(
    words: Seq<Word>,
    clusters: Seq<Seq<usize>>,
    threshold: usize,
    k: int,
)
    requires
        0 <= k < word_edges::large_boxes(words, clusters, threshold).len(),
    ensures
        is_cluster_box(
            words,
            clusters,
            threshold,
            word_edges::large_boxes(words, clusters, threshold)[k],
        ),
        word_edges::large_boxes(words, clusters, threshold).len() <= clusters.len(),
    decreases clusters.len(),
{
    let all = word_edges::large_boxes(words, clusters, threshold);
    let front = clusters.drop_last();
    let before = word_edges::large_boxes(words, front, threshold);
    lemma_box_count(words, front, threshold);
    if k < before.len() {
        lemma_box_of_cluster(words, front, threshold, k);
        let i = choose|i: int|
            0 <= i < front.len() && (#[trigger] front[i]).len() >= threshold && around_words(
                words,
                front[i],
            ) == before[k];
        assert(clusters[i] == front[i]);
    } else {
        assert(clusters[clusters.len() - 1] == clusters.last());
    }
}

proof fn lemma_box_count(words: Seq<Word>, clusters: Seq<Seq<usize>>, threshold: usize)
    ensures
        word_edges::large_boxes(words, clusters, threshold).len() <= clusters.len(),
    decreases clusters.len(),
{
    if clusters.len() > 0 {
        lemma_box_count(words, clusters.drop_last(), threshold);
    }
}

proof fn lemma_sorted_holds<T>(items: Seq<T>, keys: Seq<order::Key>)
    requires
        items.len() == keys.len(),
        keys.len() <= usize::MAX,
    ensures
        order::picked(items, order::stable_order(keys)).len() == items.len(),
        forall|x: T|
            #![trigger items.contains(x)]
            items.contains(x) <==> order::picked(items, order::stable_order(keys)).contains(x),
{
    let p = order::stable_order(keys);
    order::law_stable_order_exists(keys);
    order::law_stable_order_lists_all(keys, p);
    let all = order::picked(items, p);
    assert forall|x: T|
        #![trigger items.contains(x)]
        items.contains(x) <==> all.contains(x) by {
        if items.contains(x) {
            let i = choose|i: int| 0 <= i < items.len() && items[i] == x;
            assert(p.contains(i as usize));
            let k = choose|k: int| 0 <= k < p.len() && p[k] == i as usize;
            assert(all[k] == x);
        }
        if all.contains(x) {
            let k = choose|k: int| 0 <= k < all.len() && all[k] == x;
            assert(items[p[k] as int] == x);
        }
    }
}

proof fn lemma_group_count(groups: Seq<Seq<usize>>)
    requires
        forall|i: int| 0 <= i < groups.len() ==> (#[trigger] groups[i]).len() > 0,
    ensures
        groups.len() <= clustering::concat(groups).len(),
    decreases groups.len(),
{
    if groups.len() > 0 {
        let front = groups.drop_last();
        assert forall|i: int| 0 <= i < front.len() implies (#[trigger] front[i]).len() > 0 by {
            assert(front[i] == groups[i]);
        }
        assert(groups[groups.len() - 1].len() > 0);
        lemma_group_count(front);
    }
}

proof fn lemma_cluster_count(keys: Seq<Float>, tolerance: Float)
    requires
        keys.len() <= usize::MAX,
    ensures
        clustering::clusters(keys, tolerance).len() <= keys.len(),
        forall|i: int|
            0 <= i < clustering::clusters(keys, tolerance).len() ==> (
            #[trigger] clustering::clusters(keys, tolerance)[i]).len() > 0,
        forall|i: int, j: int|
            0 <= i < clustering::clusters(keys, tolerance).len() && 0 <= j < clustering::clusters(
                keys,
                tolerance,
            )[i].len() ==> #[trigger] clustering::clusters(keys, tolerance)[i][j] < keys.len(),
{
    let ranks = clustering::rank_keys(keys);
    let p = order::stable_order(ranks);
    order::law_stable_order_exists(ranks);
    clustering::law_clusters_list_all(keys, tolerance);
    clustering::law_chains_cut_the_order(keys, p, tolerance);
    lemma_group_count(clustering::clusters(keys, tolerance));
}

proof fn lemma_apart_count(boxes: Seq<BBox>)
    ensures
        word_edges::apart(boxes).len() <= boxes.len(),
        forall|k: int|
            0 <= k < word_edges::apart(boxes).len() ==> boxes.contains(
                #[trigger] word_edges::apart(boxes)[k],
            ),
    decreases boxes.len(),
{
    if boxes.len() > 0 {
        let front = boxes.drop_last();
        lemma_apart_count(front);
        let before = word_edges::apart(front);
        let all = word_edges::apart(boxes);
        assert forall|k: int| 0 <= k < all.len() implies boxes.contains(#[trigger] all[k]) by {
            if k < before.len() {
                assert(all[k] == before[k]);
                let i = choose|i: int| 0 <= i < front.len() && front[i] == before[k];
                assert(front.contains(before[k]));
                assert(boxes[i] == all[k]);
            } else {
                assert(boxes[boxes.len() - 1] == all[k]);
            }
        }
    }
}

proof fn lemma_least(xs: Seq<Float>, k: int)
    requires
        0 <= k < xs.len(),
        !xs[k].nan(),
    ensures
        word_edges::least(xs).at_most(xs[k]),
    decreases xs.len(),
{
    if k < xs.len() - 1 {
        lemma_least(xs.drop_last(), k);
    }
}

proof fn lemma_greatest(xs: Seq<Float>, k: int)
    requires
        0 <= k < xs.len(),
        !xs[k].nan(),
    ensures
        xs[k].at_most(word_edges::greatest(xs)),
    decreases xs.len(),
{
    if k < xs.len() - 1 {
        lemma_greatest(xs.drop_last(), k);
    }
}

proof fn lemma_greatest_attained(xs: Seq<Float>)
    requires
        xs.len() > 0,
        forall|k: int| 0 <= k < xs.len() ==> (#[trigger] xs[k]).finite(),
    ensures
        xs.contains(word_edges::greatest(xs)),
    decreases xs.len(),
{
    assert(xs[xs.len() - 1] == xs.last());
    if xs.len() > 1 {
        let front = xs.drop_last();
        assert forall|k: int| 0 <= k < front.len() implies (#[trigger] front[k]).finite() by {
            assert(front[k] == xs[k]);
        }
        lemma_greatest_attained(front);
        let g = word_edges::greatest(front);
        let k = choose|k: int| 0 <= k < front.len() && front[k] == g;
        assert(xs[k] == g);
    } else {
        assert(xs[0].finite());
        assert(word_edges::greatest(xs.drop_last()) == (Float { bits: LOWEST }));
        assert(word_edges::greatest(xs) == xs.last());
    }
}

proof fn lemma_least_attained(xs: Seq<Float>)
    requires
        xs.len() > 0,
        forall|k: int| 0 <= k < xs.len() ==> (#[trigger] xs[k]).finite(),
    ensures
        xs.contains(word_edges::least(xs)),
    decreases xs.len(),
{
    assert(xs[xs.len() - 1] == xs.last());
    if xs.len() > 1 {
        let front = xs.drop_last();
        assert forall|k: int| 0 <= k < front.len() implies (#[trigger] front[k]).finite() by {
            assert(front[k] == xs[k]);
        }
        lemma_least_attained(front);
        let g = word_edges::least(front);
        let k = choose|k: int| 0 <= k < front.len() && front[k] == g;
        assert(xs[k] == g);
    } else {
        assert(xs[0].finite());
        assert(word_edges::least(xs.drop_last()) == (Float { bits: HIGHEST }));
        assert(word_edges::least(xs) == xs.last());
    }
}

/// Whether each side of a rectangle is that of one of the given ones.
pub open spec fn has_sides_of(b: BBox, boxes: Seq<BBox>) -> bool {
    &&& exists|k: int| 0 <= k < boxes.len() && (#[trigger] boxes[k]).x0 == b.x0
    &&& exists|k: int| 0 <= k < boxes.len() && (#[trigger] boxes[k]).x1 == b.x1
    &&& exists|k: int| 0 <= k < boxes.len() && (#[trigger] boxes[k]).top == b.top
    &&& exists|k: int| 0 <= k < boxes.len() && (#[trigger] boxes[k]).bottom == b.bottom
}

/// Whether a rectangle has finite coordinates, the smaller ones first.
pub open spec fn proper_box(b: BBox) -> bool {
    &&& b.x0.finite() && b.x1.finite() && b.top.finite() && b.bottom.finite()
    &&& b.x0.at_most(b.x1)
    &&& b.top.at_most(b.bottom)
}

proof fn lemma_hull_proper(boxes: Seq<BBox>)
    requires
        boxes.len() > 0,
        forall|k: int| 0 <= k < boxes.len() ==> proper_box(#[trigger] boxes[k]),
    ensures
        geometry::hull(boxes) matches Some(b) && proper_box(b) && has_sides_of(b, boxes),
    decreases boxes.len(),
{
    let n = boxes.len() - 1;
    let last = boxes.last();
    assert(boxes[n] == last);
    if boxes.len() > 1 {
        let front = boxes.drop_last();
        assert forall|k: int| 0 <= k < front.len() implies proper_box(#[trigger] front[k]) by {
            assert(front[k] == boxes[k]);
        }
        lemma_hull_proper(front);
        let h = geometry::hull(front)->0;
        let i = choose|k: int| 0 <= k < front.len() && (#[trigger] front[k]).x0 == h.x0;
        assert(boxes[i].x0 == h.x0);
        let i = choose|k: int| 0 <= k < front.len() && (#[trigger] front[k]).x1 == h.x1;
        assert(boxes[i].x1 == h.x1);
        let i = choose|k: int| 0 <= k < front.len() && (#[trigger] front[k]).top == h.top;
        assert(boxes[i].top == h.top);
        let i = choose|k: int| 0 <= k < front.len() && (#[trigger] front[k]).bottom == h.bottom;
        assert(boxes[i].bottom == h.bottom);
    } else {
        assert(boxes.drop_last().len() == 0);
    }
}

proof fn lemma_around_words(words: Seq<Word>, group: Seq<usize>)
    requires
        all_proper(words),
        some_of(group, words),
        group.len() > 0,
    ensures
        proper_box(around_words(words, group)),
        exists|w: Word| #[trigger] words.contains(w) && w.x0 == around_words(words, group).x0,
        exists|w: Word| #[trigger] words.contains(w) && w.x1 == around_words(words, group).x1,
        exists|w: Word| #[trigger] words.contains(w) && w.top == around_words(words, group).top,
        exists|w: Word|
            #[trigger] words.contains(w) && w.bottom == around_words(words, group).bottom,
        forall|k: int|
            0 <= k < group.len() ==> {
                let w = words[#[trigger] group[k] as int];
                let b = around_words(words, group);
                &&& b.x0.at_most(w.x0)
                &&& w.x1.at_most(b.x1)
                &&& b.top.at_most(w.top)
                &&& w.bottom.at_most(b.bottom)
            },
{
    let boxes = order::picked(geometry::word_boxes(words), group);
    assert forall|k: int| 0 <= k < boxes.len() implies proper_box(#[trigger] boxes[k]) by {
        assert(proper(words[group[k] as int]));
    }
    lemma_hull_proper(boxes);
    let b = around_words(words, group);
    let i = choose|k: int| 0 <= k < boxes.len() && (#[trigger] boxes[k]).x0 == b.x0;
    assert(words.contains(words[group[i] as int]) && words[group[i] as int].x0 == b.x0);
    let i = choose|k: int| 0 <= k < boxes.len() && (#[trigger] boxes[k]).x1 == b.x1;
    assert(words.contains(words[group[i] as int]) && words[group[i] as int].x1 == b.x1);
    let i = choose|k: int| 0 <= k < boxes.len() && (#[trigger] boxes[k]).top == b.top;
    assert(words.contains(words[group[i] as int]) && words[group[i] as int].top == b.top);
    let i = choose|k: int| 0 <= k < boxes.len() && (#[trigger] boxes[k]).bottom == b.bottom;
    assert(words.contains(words[group[i] as int]) && words[group[i] as int].bottom == b.bottom);
    assert forall|k: int| 0 <= k < group.len() implies {
        let w = words[#[trigger] group[k] as int];
        &&& b.x0.at_most(w.x0)
        &&& w.x1.at_most(b.x1)
        &&& b.top.at_most(w.top)
        &&& w.bottom.at_most(b.bottom)
    } by {
        assert(proper(words[group[k] as int]));
        geometry::law_hull_holds(boxes, k);
        assert(boxes[k].x0 == words[group[k] as int].x0);
    }
}

/// Where the words stand by one of their sides or their middles.
pub open spec fn anchors(words: Seq<Word>, anchor: Anchor) -> Seq<Float> {
    words.map_values(|w: Word| anchored(w, anchor))
}

proof fn lemma_column_clusters(words: Seq<Word>)
    requires
        words.len() * 3 <= usize::MAX,
    ensures
        word_edges::column_clusters(words).len() <= usize::MAX,
        forall|i: int|
            0 <= i < word_edges::column_clusters(words).len() ==> (
            #[trigger] word_edges::column_clusters(words)[i]).len() > 0 && some_of(
                word_edges::column_clusters(words)[i],
                words,
            ),
        forall|anchor: Anchor, i: int|
            0 <= i < clustering::clusters(anchors(words, anchor), Float { bits: ONE }).len()
                ==> word_edges::column_clusters(words).contains(
                #[trigger] clustering::clusters(anchors(words, anchor), Float { bits: ONE })[i],
            ),
{
    let one = Float { bits: ONE };
    let a = clustering::clusters(anchors(words, Anchor::Left), one);
    let b = clustering::clusters(anchors(words, Anchor::Right), one);
    let c = clustering::clusters(anchors(words, Anchor::Middle), one);
    assert(anchors(words, Anchor::Left) =~= word_edges::lefts(words));
    assert(anchors(words, Anchor::Right) =~= word_edges::rights(words));
    assert(anchors(words, Anchor::Middle) =~= word_edges::centers(words));
    lemma_cluster_count(anchors(words, Anchor::Left), one);
    lemma_cluster_count(anchors(words, Anchor::Right), one);
    lemma_cluster_count(anchors(words, Anchor::Middle), one);
    let all = word_edges::column_clusters(words);
    assert(all == a + b + c);
    assert forall|i: int| 0 <= i < all.len() implies (#[trigger] all[i]).len() > 0 && some_of(
        all[i],
        words,
    ) by {
        if i < a.len() {
            assert(all[i] == a[i]);
            assert forall|k: int| 0 <= k < a[i].len() implies #[trigger] a[i][k] < words.len() by {}
        } else if i < a.len() + b.len() {
            assert(all[i] == b[i - a.len()]);
            assert forall|k: int| 0 <= k < b[i - a.len()].len() implies #[trigger] b[i
                - a.len()][k] < words.len() by {}
        } else {
            let j = i - a.len() - b.len();
            assert(all[i] == c[j]);
            assert forall|k: int| 0 <= k < c[j].len() implies #[trigger] c[j][k] < words.len() by {}
        }
    }
    assert forall|anchor: Anchor, i: int|
        0 <= i < clustering::clusters(anchors(words, anchor), one).len() implies all.contains(
        #[trigger] clustering::clusters(anchors(words, anchor), one)[i],
    ) by {
        match anchor {
            Anchor::Left => {
                assert(all[i] == a[i]);
            },
            Anchor::Right => {
                assert(all[a.len() + i] == b[i]);
            },
            Anchor::Middle => {
                assert(all[a.len() + b.len() + i] == c[i]);
            },
        }
    }
}

/// The clusters that columns are made of are those found, each of them.
proof fn lemma_sizes(words: Seq<Word>)
    requires
        words.len() * 3 <= usize::MAX,
    ensures
        word_edges::by_size(word_edges::column_clusters(words)).len()
            == word_edges::column_clusters(words).len(),
        forall|g: Seq<usize>|
            #![trigger word_edges::column_clusters(words).contains(g)]
            word_edges::column_clusters(words).contains(g) <==> word_edges::by_size(
                word_edges::column_clusters(words),
            ).contains(g),
{
    lemma_column_clusters(words);
    let all = word_edges::column_clusters(words);
    lemma_sorted_holds(all, all.map_values(|c: Seq<usize>| word_edges::falling(c.len())));
}

/// The rectangles of columns are those around groups of at least so many words.
proof fn lemma_column_boxes(words: Seq<Word>, threshold: usize)
    requires
        words.len() * 3 <= usize::MAX,
        all_proper(words),
    ensures
        ({
            let boxes = word_edges::column_boxes(words, threshold);
            let large = word_edges::large_boxes(
                words,
                word_edges::by_size(word_edges::column_clusters(words)),
                threshold,
            );
            &&& forall|b: BBox|
                #![trigger boxes.contains(b)]
                boxes.contains(b) <==> word_edges::apart(large).contains(b)
            &&& boxes.len() == word_edges::apart(large).len()
            &&& forall|k: int| 0 <= k < large.len() ==> proper_box(#[trigger] large[k])
            &&& forall|k: int|
                0 <= k < boxes.len() ==> {
                    &&& proper_box(#[trigger] boxes[k])
                    &&& exists|w: Word| #[trigger] words.contains(w) && w.x0 == boxes[k].x0
                    &&& exists|w: Word| #[trigger] words.contains(w) && w.x1 == boxes[k].x1
                    &&& exists|w: Word| #[trigger] words.contains(w) && w.top == boxes[k].top
                    &&& exists|w: Word| #[trigger] words.contains(w) && w.bottom == boxes[k].bottom
                }
        }),
{
    lemma_column_clusters(words);
    lemma_sizes(words);
    let all = word_edges::column_clusters(words);
    let sorted = word_edges::by_size(all);
    let large = word_edges::large_boxes(words, sorted, threshold);
    let kept = word_edges::apart(large);
    let boxes = word_edges::column_boxes(words, threshold);
    lemma_box_count(words, sorted, threshold);
    lemma_apart_count(large);
    lemma_sorted_holds(kept, kept.map_values(|b: BBox| (b.x0.rank() as i64, 0i64)));
    assert forall|b: BBox|
        #![trigger boxes.contains(b)]
        boxes.contains(b) <==> kept.contains(b) by {
        assert(kept.contains(b) <==> boxes.contains(b));
    }
    assert forall|k: int| 0 <= k < large.len() implies {
        &&& proper_box(#[trigger] large[k])
        &&& exists|w: Word| #[trigger] words.contains(w) && w.x0 == large[k].x0
        &&& exists|w: Word| #[trigger] words.contains(w) && w.x1 == large[k].x1
        &&& exists|w: Word| #[trigger] words.contains(w) && w.top == large[k].top
        &&& exists|w: Word| #[trigger] words.contains(w) && w.bottom == large[k].bottom
    } by {
        lemma_box_of_cluster(words, sorted, threshold, k);
        let i = choose|i: int|
            0 <= i < sorted.len() && (#[trigger] sorted[i]).len() >= threshold && around_words(
                words,
                sorted[i],
            ) == large[k];
        assert(sorted.contains(sorted[i]));
        assert(all.contains(sorted[i]));
        let j = choose|j: int| 0 <= j < all.len() && all[j] == sorted[i];
        assert(all[j].len() > 0 && some_of(all[j], words));
        lemma_around_words(words, sorted[i]);
    }
    assert forall|k: int| 0 <= k < boxes.len() implies {
        &&& proper_box(#[trigger] boxes[k])
        &&& exists|w: Word| #[trigger] words.contains(w) && w.x0 == boxes[k].x0
        &&& exists|w: Word| #[trigger] words.contains(w) && w.x1 == boxes[k].x1
        &&& exists|w: Word| #[trigger] words.contains(w) && w.top == boxes[k].top
        &&& exists|w: Word| #[trigger] words.contains(w) && w.bottom == boxes[k].bottom
    } by {
        assert(boxes.contains(boxes[k]));
        assert(kept.contains(boxes[k]));
        let i = choose|i: int| 0 <= i < kept.len() && kept[i] == boxes[k];
        assert(large.contains(kept[i]));
        let j = choose|j: int| 0 <= j < large.len() && large[j] == boxes[k];
        assert(proper_box(large[j]));
    }
}

/// Whether the edges found reach a rectangle: one begins no further to the right than it
/// ends, another ends no further to the left than it begins, and both pass by its height.
pub open spec fn reaches(edges: Seq<EdgeView>, b: BBox) -> bool {
    exists|i: int|
        0 <= i < edges.len() - 1 && {
            let e = #[trigger] edges[i];
            &&& e.x0.at_most(b.x1)
            &&& b.x0.at_most(edges.last().x0)
            &&& e.top.at_most(b.bottom)
            &&& b.top.at_most(e.bottom)
        }
}

/// Where at least `threshold` words stand in a line by their left sides, their right sides or
/// their middles, edges are found, and they reach those words: `group` holds them all.
pub proof fn law_aligned_words_are_found(
    words: Seq<Word>,
    threshold: usize,
    anchor: Anchor,
    picks: Seq<usize>,
) -> (group: Seq<usize>)
    requires
        words.len() * 3 <= usize::MAX,
        all_proper(words),
        forall|i: int| 0 <= i < words.len() ==> anchored(#[trigger] words[i], anchor).finite(),
        0 < threshold <= picks.len(),
        picks.no_duplicates(),
        some_of(picks, words),
        forall|k: int|
            0 <= k < picks.len() ==> anchored(words[#[trigger] picks[k] as int], anchor).same(
                anchored(words[picks[0] as int], anchor),
            ),
    ensures
        some_of(group, words),
        forall|k: int| 0 <= k < picks.len() ==> group.contains(#[trigger] picks[k]),
        word_edges::vertical_edges(words, threshold).len() >= 2,
        reaches(word_edges::vertical_edges(words, threshold), around_words(words, group)),
{
    let one = Float { bits: ONE };
    let keys = anchors(words, anchor);
    let first = words[picks[0] as int];
    let v = anchored(first, anchor).order();
    assert(picks[0] < words.len());
    assert forall|k: int| 0 <= k < keys.len() implies (#[trigger] keys[k]).finite() by {
        assert(anchored(words[k], anchor).finite());
    }
    let c = law_equal_numbers_are_in_one_cluster(keys, one, v);
    let group = clustering::clusters(keys, one)[c];
    assert forall|k: int| 0 <= k < picks.len() implies group.contains(#[trigger] picks[k]) by {
        assert(picks[k] < words.len());
        assert(keys[picks[k] as int].order() == v);
        assert(clustering::clusters(keys, one)[c].contains(picks[k]));
    }
    lemma_no_longer(picks, group);
    lemma_column_clusters(words);
    lemma_sizes(words);
    let all = word_edges::column_clusters(words);
    let sorted = word_edges::by_size(all);
    assert(all.contains(group));
    assert(sorted.contains(group));
    let g = choose|g: int| 0 <= g < all.len() && all[g] == group;
    assert(all[g].len() > 0 && some_of(all[g], words));
    let i = choose|i: int| 0 <= i < sorted.len() && sorted[i] == group;
    lemma_large_box(words, sorted, threshold, i);
    let large = word_edges::large_boxes(words, sorted, threshold);
    let h = around_words(words, group);
    assert(large.contains(h));
    let k = choose|k: int| 0 <= k < large.len() && large[k] == h;
    word_edges::law_kept_are_apart(large);
    let kept = word_edges::apart(large);
    lemma_column_boxes(words, threshold);
    let boxes = word_edges::column_boxes(words, threshold);
    lemma_around_words(words, group);
    let b = if kept.contains(large[k]) {
        h
    } else {
        let m = choose|m: int| 0 <= m < kept.len() && (#[trigger] kept[m]).meets(large[k]);
        kept[m]
    };
    assert(kept.contains(b));
    assert(boxes.contains(b));
    let n = choose|n: int| 0 <= n < boxes.len() && boxes[n] == b;
    assert(proper_box(boxes[n]));
    if b != h {
        lemma_meeting_boxes(b, h);
    }
    let edges = word_edges::vertical_edges(words, threshold);
    let tops = word_edges::each(boxes, word_edges::top_of());
    let bottoms = word_edges::each(boxes, word_edges::bottom_of());
    let rights = word_edges::each(boxes, word_edges::right_of());
    assert(tops[n] == b.top && bottoms[n] == b.bottom && rights[n] == b.x1);
    lemma_least(tops, n);
    lemma_greatest(bottoms, n);
    lemma_greatest(rights, n);
    assert(edges.len() == boxes.len() + 1);
    assert(edges[n].x0 == b.x0);
    assert(edges[n].top == word_edges::least(tops));
    assert(edges[n].bottom == word_edges::greatest(bottoms));
    assert(edges.last().x0 == word_edges::greatest(rights));
    group
}

proof fn lemma_meeting_boxes(a: BBox, b: BBox)
    requires
        a.meets(b),
        proper_box(a),
        proper_box(b),
    ensures
        a.x0.at_most(b.x1),
        b.x0.at_most(a.x1),
        a.top.at_most(b.bottom),
        b.top.at_most(a.bottom),
{
    let c = a.common(b);
    laws::law_difference_tells_the_order(c.x1, c.x0);
    laws::law_difference_tells_the_order(c.bottom, c.top);
}

/// The vertical edges that words suggest stand at the left of words, and the last at the
/// right of one; all reach from the same top to the same bottom, which are those of words.
pub proof fn law_columns_stand_at_words(words: Seq<Word>, threshold: usize, i: int)
    requires
        words.len() * 3 <= usize::MAX,
        all_proper(words),
        0 <= i < word_edges::vertical_edges(words, threshold).len(),
    ensures
        ({
            let edges = word_edges::vertical_edges(words, threshold);
            let e = edges[i];
            &&& e.x1 == e.x0
            &&& e.top == edges[0].top
            &&& e.bottom == edges[0].bottom
            &&& i < edges.len() - 1 ==> exists|w: Word| #[trigger]
                words.contains(w) && w.x0 == e.x0
            &&& i == edges.len() - 1 ==> exists|w: Word| #[trigger]
                words.contains(w) && w.x1 == e.x0
            &&& exists|w: Word| #[trigger] words.contains(w) && w.top == e.top
            &&& exists|w: Word| #[trigger] words.contains(w) && w.bottom == e.bottom
        }),
{
    lemma_column_boxes(words, threshold);
    let boxes = word_edges::column_boxes(words, threshold);
    let edges = word_edges::vertical_edges(words, threshold);
    let tops = word_edges::each(boxes, word_edges::top_of());
    let bottoms = word_edges::each(boxes, word_edges::bottom_of());
    let rights = word_edges::each(boxes, word_edges::right_of());
    assert forall|k: int| 0 <= k < boxes.len() implies (#[trigger] tops[k]).finite()
        && bottoms[k].finite() && rights[k].finite() && tops[k] == boxes[k].top && bottoms[k]
        == boxes[k].bottom && rights[k] == boxes[k].x1 by {
        assert(proper_box(boxes[k]));
    }
    assert forall|k: int| 0 <= k < boxes.len() implies (#[trigger] bottoms[k]).finite() by {
        assert(tops[k].finite());
    }
    assert forall|k: int| 0 <= k < boxes.len() implies (#[trigger] rights[k]).finite() by {
        assert(tops[k].finite());
    }
    lemma_least_attained(tops);
    lemma_greatest_attained(bottoms);
    lemma_greatest_attained(rights);
    let a = choose|k: int| 0 <= k < tops.len() && tops[k] == word_edges::least(tops);
    let b = choose|k: int| 0 <= k < bottoms.len() && bottoms[k] == word_edges::greatest(bottoms);
    let c = choose|k: int| 0 <= k < rights.len() && rights[k] == word_edges::greatest(rights);
    assert(proper_box(boxes[a]) && proper_box(boxes[b]) && proper_box(boxes[c]));
    assert(tops[a] == boxes[a].top && bottoms[b] == boxes[b].bottom && rights[c] == boxes[c].x1) by {
        assert(tops[b].finite() && tops[c].finite());
    }
    if i < boxes.len() {
        assert(edges[i].x0 == boxes[i].x0);
        assert(proper_box(boxes[i]));
    }
}

proof fn lemma_lines(boxes: Seq<BBox>, x0: Float, x1: Float, k: int)
    requires
        0 <= k < boxes.len(),
    ensures
        ({
            let lines = word_edges::lines_around(boxes, x0, x1);
            &&& lines.len() == 2 * boxes.len()
            &&& lines[2 * k] == word_edges::text_line(x0, x1, boxes[k].top)
            &&& lines[2 * k + 1] == word_edges::text_line(x0, x1, boxes[k].bottom)
        }),
    decreases boxes.len(),
{
    let front = boxes.drop_last();
    if front.len() == 0 {
        assert(word_edges::lines_around(front, x0, x1).len() == 0);
    } else if k < front.len() {
        lemma_lines(front, x0, x1, k);
    } else {
        lemma_lines(front, x0, x1, 0);
    }
}

/// Where at least `threshold` words have their tops in a line, there are a horizontal edge
/// along the top and one along the bottom of a group that holds them all, and both reach at
/// least from the left to the right of that group.
pub proof fn law_lines_of_words_are_found(
    words: Seq<Word>,
    threshold: usize,
    picks: Seq<usize>,
) -> (group: Seq<usize>)
    requires
        words.len() <= usize::MAX,
        all_proper(words),
        0 < threshold <= picks.len(),
        picks.no_duplicates(),
        some_of(picks, words),
        forall|k: int|
            0 <= k < picks.len() ==> words[#[trigger] picks[k] as int].top.same(
                words[picks[0] as int].top,
            ),
    ensures
        some_of(group, words),
        forall|k: int| 0 <= k < picks.len() ==> group.contains(#[trigger] picks[k]),
        exists|i: int|
            0 <= i < word_edges::horizontal_edges(words, threshold).len() - 1 && {
                let e = #[trigger] word_edges::horizontal_edges(words, threshold)[i];
                let f = word_edges::horizontal_edges(words, threshold)[i + 1];
                let b = around_words(words, group);
                &&& e.top == b.top && e.bottom == b.top
                &&& f.top == b.bottom && f.bottom == b.bottom
                &&& e.x0.at_most(b.x0) && b.x1.at_most(e.x1)
                &&& f.x0.at_most(b.x0) && b.x1.at_most(f.x1)
            },
{
    let one = Float { bits: ONE };
    let keys = word_edges::tops(words);
    let v = words[picks[0] as int].top.order();
    assert(picks[0] < words.len());
    assert forall|k: int| 0 <= k < keys.len() implies (#[trigger] keys[k]).finite() by {
        assert(proper(words[k]));
    }
    let c = law_equal_numbers_are_in_one_cluster(keys, one, v);
    let clusters = clustering::clusters(keys, one);
    let group = clusters[c];
    assert forall|k: int| 0 <= k < picks.len() implies group.contains(#[trigger] picks[k]) by {
        assert(picks[k] < words.len());
        assert(keys[picks[k] as int].order() == v);
        assert(clusters[c].contains(picks[k]));
    }
    lemma_no_longer(picks, group);
    lemma_cluster_count(keys, one);
    assert forall|k: int| 0 <= k < group.len() implies #[trigger] group[k] < words.len() by {
        assert(clusters[c][k] < keys.len());
    }
    lemma_around_words(words, group);
    lemma_large_box(words, clusters, threshold, c);
    let boxes = word_edges::line_boxes(words, threshold);
    let b = around_words(words, group);
    let k = choose|k: int| 0 <= k < boxes.len() && boxes[k] == b;
    let lefts = word_edges::each(boxes, word_edges::left_of());
    let rights = word_edges::each(boxes, word_edges::right_of());
    assert(lefts[k] == b.x0 && rights[k] == b.x1);
    lemma_least(lefts, k);
    lemma_greatest(rights, k);
    lemma_lines(boxes, word_edges::least(lefts), word_edges::greatest(rights), k);
    let edges = word_edges::horizontal_edges(words, threshold);
    assert(edges[2 * k].top == b.top && edges[2 * k + 1].top == b.bottom);
    group
}

proof fn lemma_part_of_all(groups: Seq<Seq<usize>>, i: int)
    requires
        0 <= i < groups.len(),
    ensures
        groups[i].len() <= clustering::concat(groups).len(),
    decreases groups.len(),
{
    if i < groups.len() - 1 {
        lemma_part_of_all(groups.drop_last(), i);
        assert(groups.drop_last()[i] == groups[i]);
    }
}

proof fn lemma_clusters_are_no_larger(keys: Seq<Float>, tolerance: Float, i: int)
    requires
        keys.len() <= usize::MAX,
        0 <= i < clustering::clusters(keys, tolerance).len(),
    ensures
        clustering::clusters(keys, tolerance)[i].len() <= keys.len(),
{
    let ranks = clustering::rank_keys(keys);
    order::law_stable_order_exists(ranks);
    clustering::law_chains_cut_the_order(keys, order::stable_order(ranks), tolerance);
    lemma_part_of_all(clustering::clusters(keys, tolerance), i);
}

proof fn lemma_no_large_boxes(words: Seq<Word>, clusters: Seq<Seq<usize>>, threshold: usize)
    requires
        forall|i: int| 0 <= i < clusters.len() ==> (#[trigger] clusters[i]).len() < threshold,
    ensures
        word_edges::large_boxes(words, clusters, threshold).len() == 0,
    decreases clusters.len(),
{
    if clusters.len() > 0 {
        let front = clusters.drop_last();
        assert forall|i: int| 0 <= i < front.len() implies (#[trigger] front[i]).len() < threshold by {
            assert(front[i] == clusters[i]);
        }
        lemma_no_large_boxes(words, front, threshold);
        assert(clusters[clusters.len() - 1].len() < threshold);
    }
}

/// Fewer words than are asked for suggest no edges, neither beside each other nor below.
pub proof fn law_too_few_words(words: Seq<Word>, threshold: usize)
    requires
        words.len() * 3 <= usize::MAX,
        words.len() < threshold,
    ensures
        word_edges::vertical_edges(words, threshold).len() == 0,
        word_edges::horizontal_edges(words, threshold).len() == 0,
{
    let one = Float { bits: ONE };
    let lines = clustering::clusters(word_edges::tops(words), one);
    assert forall|i: int| 0 <= i < lines.len() implies (#[trigger] lines[i]).len() < threshold by {
        lemma_clusters_are_no_larger(word_edges::tops(words), one, i);
    }
    lemma_no_large_boxes(words, lines, threshold);
    let a = clustering::clusters(word_edges::lefts(words), one);
    let b = clustering::clusters(word_edges::rights(words), one);
    let c = clustering::clusters(word_edges::centers(words), one);
    let all = word_edges::column_clusters(words);
    assert(all == a + b + c);
    assert forall|i: int| 0 <= i < all.len() implies (#[trigger] all[i]).len() < threshold by {
        if i < a.len() {
            lemma_clusters_are_no_larger(word_edges::lefts(words), one, i);
        } else if i < a.len() + b.len() {
            lemma_clusters_are_no_larger(word_edges::rights(words), one, i - a.len());
        } else {
            lemma_clusters_are_no_larger(
                word_edges::centers(words),
                one,
                i - a.len() - b.len(),
            );
        }
    }
    lemma_sizes(words);
    let sorted = word_edges::by_size(all);
    assert forall|i: int| 0 <= i < sorted.len() implies (#[trigger] sorted[i]).len() < threshold by {
        assert(sorted.contains(sorted[i]));
        assert(all.contains(sorted[i]));
        let k = choose|k: int| 0 <= k < all.len() && all[k] == sorted[i];
        assert(all[k].len() < threshold);
    }
    lemma_no_large_boxes(words, sorted, threshold);
    let none = word_edges::apart(word_edges::large_boxes(words, sorted, threshold));
    assert(none.len() == 0);
    order::law_stable_order_exists(none.map_values(|b: BBox| (b.x0.rank() as i64, 0i64)));
    assert(word_edges::column_boxes(words, threshold).len() == 0);
}

} // verus!
