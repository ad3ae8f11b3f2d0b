//! Stable sorting by pairs of integers.

use vstd::prelude::*;

verus! {

/// What items are sorted by.
pub type Key = (i64, i64);

/// Whether `a` sorts strictly before `b`.
pub open spec fn key_less(a: Key, b: Key) -> bool {
    a.0 < b.0 || (a.0 == b.0 && a.1 < b.1)
}

/// Whether item `a` comes before item `b` in a stable sort by `keys`.
pub open spec fn comes_before(keys: Seq<Key>, a: usize, b: usize) -> bool {
    key_less(keys[a as int], keys[b as int]) || (keys[a as int] == keys[b as int] && a < b)
}

/// Whether `p` lists all items, each one before those that come after it in a stable
/// sort by `keys`.
pub open spec fn is_stable_order(keys: Seq<Key>, p: Seq<usize>) -> bool {
    &&& p.len() == keys.len()
    &&& forall|i: int| 0 <= i < p.len() ==> #[trigger] p[i] < keys.len()
    &&& forall|i: int, j: int|
        0 <= i < j < p.len() ==> comes_before(keys, #[trigger] p[i], #[trigger] p[j])
}

/// The numbers of the items in the order of a stable sort by `keys`.
pub open spec fn stable_order(keys: Seq<Key>) -> Seq<usize> {
    choose|p: Seq<usize>| is_stable_order(keys, p)
}

/// The items whose numbers `p` lists.
pub open spec fn picked<T>(items: Seq<T>, p: Seq<usize>) -> Seq<T> {
    p.map_values(|i: usize| items[i as int])
}

/// Every number below the length occurs in a stable order exactly once.
pub proof fn law_stable_order_lists_all(keys: Seq<Key>, p: Seq<usize>)
    requires
        is_stable_order(keys, p),
    ensures
        p.no_duplicates(),
        forall|x: usize| x < keys.len() ==> p.contains(x),
{
    let q = p.map_values(|x: usize| x as int);
    assert(q.no_duplicates());
    q.unique_seq_to_set();
    let all = vstd::set_lib::set_int_range(0, keys.len() as int);
    vstd::set_lib::lemma_int_range(0, keys.len() as int);
    assert(q.to_set().subset_of(all));
    vstd::set_lib::lemma_subset_equality(q.to_set(), all);
    assert forall|x: usize| x < keys.len() implies p.contains(x) by {
        assert(q.to_set().contains(x as int));
        let i = choose|i: int| 0 <= i < q.len() && q[i] == x as int;
        assert(p[i] == x);
    }
}

/// There is only one stable order.
pub proof fn law_stable_order_unique(keys: Seq<Key>, p: Seq<usize>, q: Seq<usize>)
    requires
        is_stable_order(keys, p),
        is_stable_order(keys, q),
    ensures
        p == q,
{
    assert forall|i: int| 0 <= i < p.len() implies p[i] == q[i] by {
        lemma_prefix_equal(keys, p, q, i + 1);
        assert(p.take(i + 1)[i] == q.take(i + 1)[i]);
    }
    assert(p =~= q);
}

/// Whether no item sorts before one ahead of it.
pub open spec fn ascending(keys: Seq<Key>) -> bool {
    forall|i: int, j: int|
        0 <= i < j < keys.len() ==> !key_less(#[trigger] keys[j], #[trigger] keys[i])
}

/// Items that have been sorted ascend.
pub proof fn law_sorted_ascend(keys: Seq<Key>)
    requires
        keys.len() <= usize::MAX,
    ensures
        ascending(picked(keys, stable_order(keys))),
{
    law_stable_order_exists(keys);
    let p = stable_order(keys);
    let sorted = picked(keys, p);
    assert forall|i: int, j: int| 0 <= i < j < sorted.len() implies !key_less(
        #[trigger] sorted[j],
        #[trigger] sorted[i],
    ) by {
        assert(comes_before(keys, p[i], p[j]));
    }
}

/// Sorting leaves items that ascend where they are.
pub proof fn law_ascending_stay<T>(items: Seq<T>, keys: Seq<Key>)
    requires
        items.len() == keys.len(),
        keys.len() <= usize::MAX,
        ascending(keys),
    ensures
        picked(items, stable_order(keys)) == items,
{
    let all = Seq::new(keys.len(), |i: int| i as usize);
    assert forall|i: int, j: int| 0 <= i < j < all.len() implies comes_before(
        keys,
        #[trigger] all[i],
        #[trigger] all[j],
    ) by {
        assert(!key_less(keys[j], keys[i]));
    }
    assert(is_stable_order(keys, all));
    law_stable_order_unique(keys, all, stable_order(keys));
    assert(picked(items, all) =~= items);
}

/// There is a stable order.
pub proof fn law_stable_order_exists(keys: Seq<Key>)
    requires
        keys.len() <= usize::MAX,
    ensures
        is_stable_order(keys, stable_order(keys)),
    decreases keys.len(),
{
    if keys.len() == 0 {
        assert(is_stable_order(keys, Seq::empty()));
    } else {
        let front = keys.drop_last();
        law_stable_order_exists(front);
        let p = stable_order(front);
        let n = front.len() as usize;
        let lo = place(front, p, keys.last(), p.len() as int);
        let q = p.insert(lo, n);
        assert forall|a: int, b: int| 0 <= a < b < q.len() implies comes_before(
            keys,
            #[trigger] q[a],
            #[trigger] q[b],
        ) by {
            let a0 = if a > lo { a - 1 } else { a };
            let b0 = if b > lo { b - 1 } else { b };
            if a != lo {
                assert(q[a] == p[a0]);
            }
            if b != lo {
                assert(q[b] == p[b0]);
            }
            if a != lo && b != lo {
                assert(comes_before(front, p[a0], p[b0]));
            }
        }
        assert forall|i: int| 0 <= i < q.len() implies #[trigger] q[i] < keys.len() by {
            if i < lo {
                assert(q[i] == p[i]);
            } else if i > lo {
                assert(q[i] == p[i - 1]);
            }
        }
        assert(is_stable_order(keys, q));
    }
}

proof fn place(keys: Seq<Key>, p: Seq<usize>, key: Key, n: int) -> (lo: int)
    requires
        is_stable_order(keys, p),
        0 <= n <= p.len(),
        forall|a: int| n <= a < p.len() ==> key_less(key, keys[#[trigger] p[a] as int]),
    ensures
        0 <= lo <= p.len(),
        forall|a: int| lo <= a < p.len() ==> key_less(key, keys[#[trigger] p[a] as int]),
        forall|a: int| 0 <= a < lo ==> !key_less(key, keys[#[trigger] p[a] as int]),
    decreases n,
{
    if n > 0 && key_less(key, keys[p[n - 1] as int]) {
        place(keys, p, key, n - 1)
    } else {
        assert forall|a: int| 0 <= a < n implies !key_less(key, keys[#[trigger] p[a] as int]) by {
            if a < n - 1 {
                assert(comes_before(keys, p[a], p[n - 1]));
            }
        }
        n
    }
}

proof fn lemma_prefix_equal(keys: Seq<Key>, p: Seq<usize>, q: Seq<usize>, n: int)
    requires
        is_stable_order(keys, p),
        is_stable_order(keys, q),
        0 <= n <= p.len(),
    ensures
        p.take(n) == q.take(n),
    decreases n,
{
    if n > 0 {
        lemma_prefix_equal(keys, p, q, n - 1);
        let i = n - 1;
        assert(forall|k: int| 0 <= k < i ==> p[k] == p.take(i)[k]);
        assert(forall|k: int| 0 <= k < i ==> q[k] == q.take(i)[k]);
        law_stable_order_lists_all(keys, p);
        law_stable_order_lists_all(keys, q);
        if p[i] != q[i] {
            if comes_before(keys, p[i], q[i]) {
                let m = choose|m: int| 0 <= m < q.len() && q[m] == p[i];
                assert(q.contains(p[i]));
                if m < i {
                    assert(p[m] == q[m]);
                } else {
                    assert(comes_before(keys, q[i], q[m]));
                }
            } else {
                let m = choose|m: int| 0 <= m < p.len() && p[m] == q[i];
                assert(p.contains(q[i]));
                if m < i {
                    assert(p[m] == q[m]);
                } else {
                    assert(comes_before(keys, p[i], p[m]));
                }
            }
            assert(false);
        }
        assert(p.take(n) =~= q.take(n));
    }
}

fn key_lt(a: Key, b: Key) -> (r: bool)
    ensures
        r == key_less(a, b),
{
    a.0 < b.0 || (a.0 == b.0 && a.1 < b.1)
}

/// The numbers of the items in the order of a stable sort by `keys`.
pub fn sort_order(keys: &Vec<Key>) -> (p: Vec<usize>)
    ensures
        p@ == stable_order(keys@),
        is_stable_order(keys@, p@),
{
    let mut p: Vec<usize> = Vec::new();
    let n: usize = keys.len();
    let mut i: usize = 0;
    while i < n
        invariant
            i <= n,
            n == keys@.len(),
            p@.len() == i,
            forall|a: int| 0 <= a < i ==> #[trigger] p@[a] < i,
            forall|a: int, b: int|
                0 <= a < b < i ==> comes_before(keys@, #[trigger] p@[a], #[trigger] p@[b]),
        decreases n - i,
    {
        // The place behind all items that do not sort after item `i`.
        let mut lo: usize = 0;
        let mut hi: usize = i;
        while lo < hi
            invariant
                i < n,
                n == keys@.len(),
                p@.len() == i,
                lo <= hi <= i,
                forall|a: int| 0 <= a < i ==> #[trigger] p@[a] < i,
                forall|a: int, b: int|
                    0 <= a < b < i ==> comes_before(keys@, #[trigger] p@[a], #[trigger] p@[b]),
                forall|a: int|
                    0 <= a < lo ==> !key_less(keys@[i as int], keys@[#[trigger] p@[a] as int]),
                forall|a: int|
                    hi <= a < i ==> key_less(keys@[i as int], keys@[#[trigger] p@[a] as int]),
            decreases hi - lo,
        {
            let mid: usize = lo + (hi - lo) / 2;
            if key_lt(keys[i], keys[p[mid]]) {
                hi = mid;
            } else {
                lo = mid + 1;
            }
        }
        let ghost before = p@;
        p.insert(lo, i);
        assert(p@ == before.insert(lo as int, i));
        assert forall|a: int, b: int| 0 <= a < b < i + 1 implies comes_before(
            keys@,
            #[trigger] p@[a],
            #[trigger] p@[b],
        ) by {
            let a0 = if a > lo { a - 1 } else { a };
            let b0 = if b > lo { b - 1 } else { b };
            if a != lo {
                assert(p@[a] == before[a0]);
            }
            if b != lo {
                assert(p@[b] == before[b0]);
            }
        }
        i = i + 1;
    }
    proof {
        law_stable_order_unique(keys@, p@, stable_order(keys@));
    }
    p
}

} // verus!
