//! Groups of numbers that lie close together.

use crate::float::Float;
use crate::order;
use vstd::prelude::*;

verus! {

/// What numbers are sorted by.
pub open spec fn rank_keys(keys: Seq<Float>) -> Seq<order::Key> {
    keys.map_values(|k: Float| (k.rank() as i64, 0i64))
}

/// The items in the given order, cut wherever the next number exceeds the one before it
/// by more than `tolerance`.
pub open spec fn chains(keys: Seq<Float>, p: Seq<usize>, tolerance: Float) -> Seq<Seq<usize>>
    decreases p.len(),
{
    if p.len() == 0 {
        Seq::empty()
    } else {
        let x = p.last();
        let rest = chains(keys, p.drop_last(), tolerance);
        if p.len() > 1 && keys[x as int].at_most(keys[p[p.len() - 2] as int].plus(tolerance)) {
            rest.update(rest.len() - 1, rest.last().push(x))
        } else {
            rest.push(seq![x])
        }
    }
}

/// The clusters of the numbers `keys`, as lists of their places in `keys`.
pub open spec fn clusters(keys: Seq<Float>, tolerance: Float) -> Seq<Seq<usize>> {
    chains(keys, order::stable_order(rank_keys(keys)), tolerance)
}

/// What is seen of lists of places.
pub open spec fn places(groups: Seq<Vec<usize>>) -> Seq<Seq<usize>> {
    groups.map_values(|g: Vec<usize>| g@)
}

/// All places of the lists, one list after the other.
pub open spec fn concat(groups: Seq<Seq<usize>>) -> Seq<usize>
    decreases groups.len(),
{
    if groups.len() == 0 {
        Seq::empty()
    } else {
        concat(groups.drop_last()) + groups.last()
    }
}

/// Clusters are never empty, and one after the other they list the items in order.
pub proof fn law_chains_cut_the_order(keys: Seq<Float>, p: Seq<usize>, tolerance: Float)
    ensures
        concat(chains(keys, p, tolerance)) == p,
        forall|i: int|
            0 <= i < chains(keys, p, tolerance).len() ==> #[trigger] chains(
                keys,
                p,
                tolerance,
            )[i].len() > 0,
        p.len() > 0 ==> chains(keys, p, tolerance).len() > 0,
    decreases p.len(),
{
    if p.len() > 0 {
        let rest = chains(keys, p.drop_last(), tolerance);
        let all = chains(keys, p, tolerance);
        law_chains_cut_the_order(keys, p.drop_last(), tolerance);
        let x = p.last();
        if all.len() == rest.len() {
            assert(all.drop_last() =~= rest.drop_last());
            assert(all.last() == rest.last().push(x));
            assert(concat(all) =~= concat(rest).push(x));
        } else {
            assert(all.drop_last() =~= rest);
            assert(concat(all) =~= concat(rest).push(x));
        }
        assert(p =~= p.drop_last().push(x));
    } else {
        assert(concat(chains(keys, p, tolerance)) =~= p);
    }
}

/// Every item is in exactly one cluster, and no cluster is empty.
pub proof fn law_clusters_list_all(keys: Seq<Float>, tolerance: Float)
    requires
        keys.len() <= usize::MAX,
    ensures
        concat(clusters(keys, tolerance)).no_duplicates(),
        forall|x: usize|
            x < keys.len() <==> #[trigger] concat(clusters(keys, tolerance)).contains(x),
        forall|i: int, j: int|
            0 <= i < clusters(keys, tolerance).len() && 0 <= j < clusters(
                keys,
                tolerance,
            )[i].len() ==> #[trigger] clusters(keys, tolerance)[i][j] < keys.len(),
        forall|i: int|
            0 <= i < clusters(keys, tolerance).len() ==> #[trigger] clusters(
                keys,
                tolerance,
            )[i].len() > 0,
{
    let ranks = rank_keys(keys);
    let p = order::stable_order(ranks);
    order::law_stable_order_exists(ranks);
    order::law_stable_order_lists_all(ranks, p);
    law_chains_cut_the_order(keys, p, tolerance);
    let all = clusters(keys, tolerance);
    assert forall|i: int, j: int| 0 <= i < all.len() && 0 <= j < all[i].len() implies #[trigger] all[i][j]
        < keys.len() by {
        lemma_concat_contains(all, i, j);
        let k = choose|k: int| 0 <= k < p.len() && p[k] == all[i][j];
    }
}

proof fn lemma_concat_contains(groups: Seq<Seq<usize>>, i: int, j: int)
    requires
        0 <= i < groups.len(),
        0 <= j < groups[i].len(),
    ensures
        concat(groups).contains(groups[i][j]),
    decreases groups.len(),
{
    let front = concat(groups.drop_last());
    let all = concat(groups);
    if i == groups.len() - 1 {
        assert(all[front.len() + j] == groups[i][j]);
    } else {
        lemma_concat_contains(groups.drop_last(), i, j);
        let k = choose|k: int| 0 <= k < front.len() && front[k] == groups[i][j];
        assert(all[k] == groups[i][j]);
    }
}

/// Where numbers stand in their order; equal numbers stand at one place.
pub open spec fn orders(xs: Seq<Float>) -> Seq<int> {
    xs.map_values(|x: Float| x.order())
}

/// Whether each integer is greater than the one before it.
pub open spec fn rising(xs: Seq<int>) -> bool {
    forall|i: int, j: int| 0 <= i < j < xs.len() ==> #[trigger] xs[i] < #[trigger] xs[j]
}

/// Where the first number of each cluster stands.
pub open spec fn heads(keys: Seq<Float>, groups: Seq<Seq<usize>>) -> Seq<int> {
    groups.map_values(|g: Seq<usize>| keys[g[0] as int].order())
}

/// Whether each cluster is made of equal numbers.
pub open spec fn even(keys: Seq<Float>, groups: Seq<Seq<usize>>) -> bool {
    forall|i: int, j: int|
        0 <= i < groups.len() && 0 <= j < groups[i].len() ==> keys[#[trigger] groups[i][j] as int].order()
            == heads(keys, groups)[i]
}

proof fn lemma_exact_chains(keys: Seq<Float>, p: Seq<usize>)
    requires
        forall|k: int| 0 <= k < p.len() ==> keys[#[trigger] p[k] as int].finite(),
        forall|k: int, l: int|
            0 <= k < l < p.len() ==> keys[#[trigger] p[k] as int].order() <= keys[#[trigger] p[l] as int].order(),
    ensures
        even(keys, chains(keys, p, Float { bits: 0 })),
        rising(heads(keys, chains(keys, p, Float { bits: 0 }))),
        p.len() > 0 ==> heads(keys, chains(keys, p, Float { bits: 0 })).last()
            == keys[p.last() as int].order(),
    decreases p.len(),
{
    let zero = Float { bits: 0 };
    law_chains_cut_the_order(keys, p, zero);
    if p.len() > 0 {
        let front = p.drop_last();
        let x = p.last();
        let rest = chains(keys, front, zero);
        let all = chains(keys, p, zero);
        assert forall|k: int| 0 <= k < front.len() implies keys[#[trigger] front[k] as int].finite() by {
            assert(front[k] == p[k]);
        }
        assert forall|k: int, l: int| 0 <= k < l < front.len() implies keys[#[trigger] front[k] as int].order()
            <= keys[#[trigger] front[l] as int].order() by {
            assert(front[k] == p[k] && front[l] == p[l]);
        }
        lemma_exact_chains(keys, front);
        law_chains_cut_the_order(keys, front, zero);
        let before = heads(keys, rest);
        let after = heads(keys, all);
        if p.len() > 1 {
            let y = p[p.len() - 2];
            assert(front.last() == y);
            assert(keys[y as int].order() <= keys[x as int].order());
            assert(keys[p[p.len() - 1] as int].finite() && keys[p[p.len() - 2] as int].finite());
            crate::float::arith::law_zero_adds_nothing(keys[y as int]);
            assert(keys[x as int].at_most(keys[y as int].plus(zero)) == (keys[x as int].order()
                <= keys[y as int].order()));
            assert(before.last() == keys[y as int].order());
        }
        if p.len() > 1 && keys[x as int].at_most(keys[p[p.len() - 2] as int].plus(zero)) {
            assert(after =~= before) by {
                assert forall|i: int| 0 <= i < after.len() implies after[i] == before[i] by {
                    assert(rest[i].len() > 0);
                    assert(all[i][0] == rest[i][0]);
                }
            }
            assert forall|i: int, j: int|
                0 <= i < all.len() && 0 <= j < all[i].len() implies keys[#[trigger] all[i][j] as int].order()
                == after[i] by {
                if j < rest[i].len() {
                    assert(all[i][j] == rest[i][j]);
                    assert(keys[rest[i][j] as int].order() == before[i]);
                }
            }
        } else {
            assert(after =~= before.push(keys[x as int].order()));
            assert forall|i: int, j: int|
                0 <= i < all.len() && 0 <= j < all[i].len() implies keys[#[trigger] all[i][j] as int].order()
                == after[i] by {
                if i < rest.len() {
                    assert(all[i][j] == rest[i][j]);
                    assert(keys[rest[i][j] as int].order() == before[i]);
                }
            }
            assert forall|i: int, j: int| 0 <= i < j < after.len() implies #[trigger] after[i]
                < #[trigger] after[j] by {
                if j == rest.len() && i < rest.len() - 1 {
                    assert(before[i] < before[rest.len() - 1]);
                }
            }
        }
    }
}

/// Numbers stay together as long as each is no further than the tolerance behind the one
/// before it; a cluster ends where the next number is further away.
pub proof fn law_clusters_end_at_gaps(keys: Seq<Float>, p: Seq<usize>, tolerance: Float)
    ensures
        forall|i: int, j: int, k: int|
            #![trigger chains(keys, p, tolerance)[i][j], chains(keys, p, tolerance)[i][k]]
            0 <= i < chains(keys, p, tolerance).len() && 0 <= j && k == j + 1 && k < chains(
                keys,
                p,
                tolerance,
            )[i].len() ==> keys[chains(keys, p, tolerance)[i][k] as int].at_most(
                keys[chains(keys, p, tolerance)[i][j] as int].plus(tolerance),
            ),
        forall|i: int, j: int|
            #![trigger chains(keys, p, tolerance)[i], chains(keys, p, tolerance)[j]]
            0 <= i && j == i + 1 && j < chains(keys, p, tolerance).len() ==> !keys[chains(
                keys,
                p,
                tolerance,
            )[j][0] as int].at_most(
                keys[chains(keys, p, tolerance)[i].last() as int].plus(tolerance),
            ),
        p.len() > 0 ==> chains(keys, p, tolerance).last().last() == p.last(),
    decreases p.len(),
{
    law_chains_cut_the_order(keys, p, tolerance);
    if p.len() > 0 {
        let front = p.drop_last();
        let x = p.last();
        law_clusters_end_at_gaps(keys, front, tolerance);
        law_chains_cut_the_order(keys, front, tolerance);
        let rest = chains(keys, front, tolerance);
        let all = chains(keys, p, tolerance);
        if p.len() > 1 {
            assert(front.last() == p[p.len() - 2]);
        }
        let grown = p.len() > 1 && keys[x as int].at_most(
            keys[p[p.len() - 2] as int].plus(tolerance),
        );
        assert forall|i: int, j: int, k: int|
            #![trigger all[i][j], all[i][k]]
            0 <= i < all.len() && 0 <= j && k == j + 1 && k < all[i].len() implies keys[all[i][k] as int].at_most(
            keys[all[i][j] as int].plus(tolerance),
        ) by {
            if grown && i == rest.len() - 1 {
                assert(all[i] == rest[i].push(x));
                assert(all[i][j] == rest[i][j]);
                if k < rest[i].len() {
                    assert(all[i][k] == rest[i][k]);
                } else {
                    assert(rest[i][j] == rest.last().last());
                }
            } else if i < rest.len() {
                assert(all[i] == rest[i]);
                assert(rest[i][j] == all[i][j] && rest[i][k] == all[i][k]);
            } else {
                assert(all[i] == seq![x]);
            }
        }
        assert forall|i: int, j: int|
            #![trigger all[i], all[j]]
            0 <= i && j == i + 1 && j < all.len() implies !keys[all[j][0] as int].at_most(
            keys[all[i].last() as int].plus(tolerance),
        ) by {
            assert(all[i] == rest[i]);
            if j < rest.len() {
                assert(rest[j].len() > 0);
                assert(all[j][0] == rest[j][0]);
                assert(!keys[rest[j][0] as int].at_most(
                    keys[rest[i].last() as int].plus(tolerance),
                ));
            } else {
                assert(all[j] == seq![x]);
                assert(rest[i].last() == front.last());
            }
        }
    }
}

/// Whether one of the lists holds a place.
pub open spec fn in_a_group(groups: Seq<Seq<usize>>, x: usize) -> bool {
    exists|i: int| 0 <= i < groups.len() && (#[trigger] groups[i]).contains(x)
}

proof fn lemma_in_some_group(groups: Seq<Seq<usize>>, x: usize)
    requires
        concat(groups).contains(x),
    ensures
        in_a_group(groups, x),
    decreases groups.len(),
{
    if groups.len() > 0 {
        let front = concat(groups.drop_last());
        let k = choose|k: int| 0 <= k < concat(groups).len() && concat(groups)[k] == x;
        if k < front.len() {
            assert(front[k] == x);
            lemma_in_some_group(groups.drop_last(), x);
            let i = choose|i: int|
                0 <= i < groups.drop_last().len() && (#[trigger] groups.drop_last()[i]).contains(x);
            assert(groups[i].contains(x));
        } else {
            assert(groups.last()[k - front.len()] == x);
            assert(groups[groups.len() - 1].contains(x));
        }
    }
}

/// Sorting numbers by their ranks puts none before a smaller one.
pub proof fn law_ranks_sort_numbers(keys: Seq<Float>, p: Seq<usize>)
    requires
        order::is_stable_order(rank_keys(keys), p),
        forall|k: int| 0 <= k < keys.len() ==> !(#[trigger] keys[k]).nan(),
    ensures
        forall|k: int, l: int|
            0 <= k < l < p.len() ==> keys[#[trigger] p[k] as int].order() <= keys[#[trigger] p[l] as int].order(),
{
    assert forall|k: int, l: int| 0 <= k < l < p.len() implies keys[#[trigger] p[k] as int].order()
        <= keys[#[trigger] p[l] as int].order() by {
        assert(order::comes_before(rank_keys(keys), p[k], p[l]));
        let a = keys[p[k] as int];
        let b = keys[p[l] as int];
        assert(rank_keys(keys)[p[k] as int] == (a.rank() as i64, 0i64));
        assert(rank_keys(keys)[p[l] as int] == (b.rank() as i64, 0i64));
        assert(a.rank() <= b.rank());
    }
}

/// With a tolerance of zero, every cluster is made of equal numbers, equal numbers are in
/// one cluster, and the clusters ascend.
pub proof fn law_exact_clusters(keys: Seq<Float>)
    requires
        keys.len() <= usize::MAX,
        forall|k: int| 0 <= k < keys.len() ==> (#[trigger] keys[k]).finite(),
    ensures
        even(keys, clusters(keys, Float { bits: 0 })),
        rising(heads(keys, clusters(keys, Float { bits: 0 }))),
        forall|x: usize|
            x < keys.len() ==> #[trigger] in_a_group(clusters(keys, Float { bits: 0 }), x),
{
    let zero = Float { bits: 0 };
    let p = order::stable_order(rank_keys(keys));
    order::law_stable_order_exists(rank_keys(keys));
    law_ranks_sort_numbers(keys, p);
    lemma_exact_chains(keys, p);
    law_clusters_list_all(keys, zero);
    assert forall|x: usize| x < keys.len() implies #[trigger] in_a_group(
        clusters(keys, zero),
        x,
    ) by {
        lemma_in_some_group(clusters(keys, zero), x);
    }
}

/// Two lists of integers that rise and hold the same are equal.
pub proof fn law_rising_unique(a: Seq<int>, b: Seq<int>)
    requires
        rising(a),
        rising(b),
        forall|x: int| a.contains(x) <==> b.contains(x),
    ensures
        a == b,
    decreases a.len(),
{
    if a.len() == 0 {
        if b.len() > 0 {
            assert(b.contains(b[0]));
        }
        assert(a =~= b);
    } else {
        assert(a.contains(a.last()));
        let x = choose|i: int| 0 <= i < b.len() && b[i] == a.last();
        assert(b.contains(b.last()));
        let y = choose|i: int| 0 <= i < a.len() && a[i] == b.last();
        assert(a.last() == b.last());
        let c = a.drop_last();
        let d = b.drop_last();
        assert forall|v: int| c.contains(v) <==> d.contains(v) by {
            if c.contains(v) {
                let i = choose|i: int| 0 <= i < c.len() && c[i] == v;
                assert(a[i] == v && a[i] < a[a.len() - 1]);
                assert(b.contains(v));
                let j = choose|j: int| 0 <= j < b.len() && b[j] == v;
                assert(d[j] == v);
            }
            if d.contains(v) {
                let i = choose|i: int| 0 <= i < d.len() && d[i] == v;
                assert(b[i] == v && b[i] < b[b.len() - 1]);
                assert(a.contains(v));
                let j = choose|j: int| 0 <= j < a.len() && a[j] == v;
                assert(c[j] == v);
            }
        }
        assert(rising(c) && rising(d));
        law_rising_unique(c, d);
        assert(a =~= c.push(a.last()));
        assert(b =~= d.push(b.last()));
    }
}

/// The clusters of the numbers `keys`: sorted, then cut wherever the next number exceeds
/// the one before it by more than `tolerance`.
pub fn cluster_items(keys: &Vec<Float>, tolerance: Float) -> (r: Vec<Vec<usize>>)
    ensures
        places(r@) == clusters(keys@, tolerance),
{
    let mut ranks: Vec<order::Key> = Vec::new();
    let n: usize = keys.len();
    for i in 0..n
        invariant
            n == keys@.len(),
            ranks@ =~= rank_keys(keys@.take(i as int)),
    {
        ranks.push((keys[i].total_rank(), 0));
    }
    assert(keys@.take(n as int) =~= keys@);
    let p: Vec<usize> = order::sort_order(&ranks);
    let mut out: Vec<Vec<usize>> = Vec::new();
    for i in 0..n
        invariant
            n == keys@.len(),
            p@.len() == n,
            forall|a: int| 0 <= a < n ==> #[trigger] p@[a] < n,
            places(out@) == chains(keys@, p@.take(i as int), tolerance),
            i > 0 ==> out@.len() > 0,
    {
        let x: usize = p[i];
        let ghost before = places(out@);
        assert(p@.take(i + 1).drop_last() =~= p@.take(i as int));
        proof {
            law_chains_cut_the_order(keys@, p@.take(i as int), tolerance);
        }
        if i > 0 && keys[x].le(keys[p[i - 1]].add(tolerance)) {
            let last: usize = out.len() - 1;
            let mut group: Vec<usize> = match out.pop() {
                Some(g) => g,
                None => Vec::new(),
            };
            group.push(x);
            out.push(group);
            assert(places(out@) =~= before.update(last as int, before.last().push(x)));
        } else {
            let mut group: Vec<usize> = Vec::new();
            group.push(x);
            assert(group@ =~= seq![x]);
            out.push(group);
            assert(places(out@) =~= before.push(seq![x]));
        }
    }
    assert(p@.take(n as int) =~= p@);
    out
}

} // verus!
