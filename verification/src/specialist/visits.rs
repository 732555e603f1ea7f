//! How many vectors a search looks at.

use super::best::{
    inserted, label_sum, labels_of, lemma_far_neighbour_ignored, lemma_slot_bounds, slot, Entry, K,
};
use super::exact::tree_of;
use super::format::Node;
use super::geometry::partition_key;
use super::search::{lemma_partition_with_key, offered, Found, IndexView, Walk};
use super::tree::Tree;
use vstd::prelude::*;

verus! {

/// Number of vectors in a partition.
pub open spec fn vectors_in(iv: IndexView, p: int) -> int {
    tree_of(iv, p).vectors(iv.nodes) as int
}

/// Number of vectors in the first `n` partitions.
pub open spec fn vectors_before(iv: IndexView, n: int) -> int
    decreases n,
{
    if n <= 0 {
        0
    } else {
        vectors_before(iv, n - 1) + vectors_in(iv, n - 1)
    }
}

/// Number of vectors in the first `n` partitions of a list.
spec fn vectors_listed(iv: IndexView, list: Seq<(i64, u32)>, n: int) -> int
    decreases n,
{
    if n <= 0 {
        0
    } else {
        vectors_listed(iv, list, n - 1) + vectors_in(iv, list[n - 1].1 as int)
    }
}

proof fn lemma_walked_visits(iv: IndexView, q: Seq<i16>, t: Tree, bound: int, depth: int, w: Walk)
    ensures
        w.visited <= iv.walked(q, t, bound, depth, w).visited <= w.visited + t.vectors(iv.nodes),
    decreases t,
{
    if let Tree::Inner(_, l, r) = t {
        let lb = iv.node_bound(q, l.root());
        let rb = iv.node_bound(q, r.root());
        lemma_walked_visits(iv, q, *l, lb, depth, w);
        lemma_walked_visits(iv, q, *l, lb, depth + 1, w);
        lemma_walked_visits(iv, q, *r, rb, depth, w);
        lemma_walked_visits(iv, q, *r, rb, depth + 1, w);
        lemma_walked_visits(iv, q, *r, rb, depth, iv.walked(q, *l, lb, depth + 1, w));
        lemma_walked_visits(iv, q, *l, lb, depth, iv.walked(q, *r, rb, depth + 1, w));
    }
}

proof fn lemma_searched_visits(iv: IndexView, q: Seq<i16>, p: int, f: Found)
    requires
        0 <= f.visited <= u32::MAX,
    ensures
        0 <= iv.searched(q, p, f).visited <= u32::MAX,
        iv.searched(q, p, f).visited <= f.visited + vectors_in(iv, p),
{
    let w = Walk { best: f.best, visited: 0, stopped: false };
    lemma_walked_visits(iv, q, tree_of(iv, p), iv.partition_bound(q, p), 0, w);
}

proof fn lemma_listed_grow(iv: IndexView, list: Seq<(i64, u32)>, n: int, m: int)
    requires
        n <= m,
    ensures
        vectors_listed(iv, list, n) <= vectors_listed(iv, list, m),
    decreases m - n,
{
    if n < m {
        lemma_listed_grow(iv, list, n, m - 1);
    }
}

proof fn lemma_second_pass_visits(
    iv: IndexView,
    q: Seq<i16>,
    order: Seq<(i64, u32)>,
    i: int,
    f: Found,
    start: int,
)
    requires
        0 <= i <= order.len(),
        0 <= f.visited <= u32::MAX,
        f.visited <= start + vectors_listed(iv, order, i),
    ensures
        iv.second_pass(q, order, i, f).visited <= start + vectors_listed(
            iv,
            order,
            order.len() as int,
        ),
    decreases order.len() - i,
{
    lemma_listed_grow(iv, order, i, order.len() as int);
    if i < order.len() && order[i].0 < super::best::worst(f.best) {
        let p = order[i].1 as int;
        let next = iv.searched(q, p, f);
        lemma_searched_visits(iv, q, p, f);
        lemma_listed_grow(iv, order, i + 1, order.len() as int);
        if !iv.ends(next) {
            lemma_second_pass_visits(iv, q, order, i + 1, next, start);
        }
    }
}

proof fn lemma_listed_alike(iv: IndexView, a: Seq<(i64, u32)>, b: Seq<(i64, u32)>, n: int)
    requires
        forall|k: int| 0 <= k < n ==> a[k] == b[k],
    ensures
        vectors_listed(iv, a, n) == vectors_listed(iv, b, n),
    decreases n,
{
    if n > 0 {
        lemma_listed_alike(iv, a, b, n - 1);
    }
}

proof fn lemma_listed_without(iv: IndexView, a: Seq<(i64, u32)>, i: int, n: int)
    requires
        0 <= i < n <= a.len(),
    ensures
        vectors_listed(iv, a, n) == vectors_listed(iv, a.remove(i), n - 1) + vectors_in(
            iv,
            a[i].1 as int,
        ),
    decreases n,
{
    let b = a.remove(i);
    if n == i + 1 {
        lemma_listed_alike(iv, a, b, i);
    } else {
        lemma_listed_without(iv, a, i, n - 1);
        assert(b[n - 2] == a[n - 1]);
    }
}

proof fn lemma_listed_permuted(iv: IndexView, a: Seq<(i64, u32)>, b: Seq<(i64, u32)>)
    requires
        a.to_multiset() == b.to_multiset(),
    ensures
        vectors_listed(iv, a, a.len() as int) == vectors_listed(iv, b, b.len() as int),
    decreases a.len(),
{
    broadcast use vstd::seq_lib::group_to_multiset_ensures;

    assert(a.len() == a.to_multiset().len());
    assert(b.len() == b.to_multiset().len());
    if a.len() > 0 {
        let x = a[0];
        assert(a.contains(x));
        assert(a.to_multiset().count(x) > 0);
        assert(b.contains(x));
        let i = choose|i: int| 0 <= i < b.len() && b[i] == x;
        vstd::seq_lib::to_multiset_remove(a, 0);
        vstd::seq_lib::to_multiset_remove(b, i);
        lemma_listed_without(iv, a, 0, a.len() as int);
        lemma_listed_without(iv, b, i, b.len() as int);
        lemma_listed_permuted(iv, a.remove(0), b.remove(i));
    }
}

proof fn lemma_others_listed(iv: IndexView, q: Seq<i16>, best: Seq<Entry>, n: int)
    requires
        0 <= n <= iv.partitions.len() <= u32::MAX,
    ensures
        ({
            let others = iv.others(q, best, n);
            let first = match iv.primary(q) {
                Some(p) => if 0 <= p < n {
                    vectors_in(iv, p)
                } else {
                    0
                },
                None => 0,
            };
            first + vectors_listed(iv, others, others.len() as int) <= vectors_before(iv, n)
        }),
    decreases n,
{
    if n > 0 {
        lemma_others_listed(iv, q, best, n - 1);
        let rest = iv.others(q, best, n - 1);
        let all = iv.others(q, best, n);
        lemma_listed_alike(iv, rest, all, rest.len() as int);
    }
}

/// A search ends behind a tree if its last entry lies within the limit on the
/// distance, if it has seen as many vectors as it may, or if a strong decision is
/// asked for and five entries within 2000 of the query agree. Nothing else ends
/// it.
pub proof fn lemma_ends_at_limits(iv: IndexView, f: Found)
    requires
        f.best.len() == 5,
    ensures
        iv.ends(f) <==> {
            let sum = f.best[0].1 + f.best[1].1 + f.best[2].1 + f.best[3].1 + f.best[4].1;
            ||| f.best[4].0 <= iv.early_distance_limit
            ||| f.visited >= iv.early_candidates_limit
            ||| iv.strong_decision && f.best[4].0 <= 2000 * 2000 && (sum == 0 || sum == 5)
        },
{
    reveal_with_fuel(label_sum, 6);
    let l = labels_of(f.best);
    assert(l[0] == f.best[0].1 && l[1] == f.best[1].1 && l[2] == f.best[2].1 && l[3]
        == f.best[3].1 && l[4] == f.best[4].1);
}

/// A vector whose distance has left its lane changes nothing, and one that is no
/// nearer than the last entry changes nothing either.
pub proof fn lemma_far_vector_passed(best: Seq<Entry>, dist: int, label: u8)
    requires
        best.len() == 5,
        i64::MIN <= dist <= i64::MAX,
    ensures
        dist < 0 ==> offered(best, dist, label) == best,
        dist >= best[4].0 ==> offered(best, dist, label) == best,
        0 <= dist < best[4].0 ==> offered(best, dist, label).contains((dist as i64, label)),
{
    let e: Entry = (dist as i64, label);
    lemma_slot_bounds(best, e.0 as int, K as int);
    if dist >= best[4].0 {
        lemma_far_neighbour_ignored(best, e);
    }
    if 0 <= dist < best[4].0 {
        let p = slot(best, e.0 as int, K as int);
        assert(p < 5) by {
            reveal_with_fuel(slot, 2);
            lemma_slot_bounds(best, e.0 as int, 4);
        }
        assert(inserted(best, e)[p] == e);
    }
}

/// A search that may end behind its first partition finds nothing in any other.
pub proof fn lemma_first_partition_settles(iv: IndexView, q: Seq<i16>, f: Found)
    requires
        iv.finds(q, f),
        iv.primary(q) is Some,
        ({
            let first = iv.searched(q, iv.primary(q)->Some_0, iv.nothing_found());
            first.best[4].0 <= iv.early_distance_limit || first.visited >= iv.early_candidates_limit
        }),
    ensures
        f == iv.searched(q, iv.primary(q)->Some_0, iv.nothing_found()),
{
}

/// A leaf that is not too far away counts all of its vectors, and ends the walk
/// if the last entry then lies within the limit; a tree that is too far away
/// counts nothing.
pub proof fn lemma_walk_counts(iv: IndexView, q: Seq<i16>, t: Tree, bound: int, depth: int, w: Walk)
    requires
        !w.stopped,
    ensures
        bound >= w.best[4].0 ==> iv.walked(q, t, bound, depth, w) == w,
        bound < w.best[4].0 && t is Leaf ==> {
            let next = iv.walked(q, t, bound, depth, w);
            &&& next.visited == w.visited + iv.nodes[t->Leaf_0].vec_count
            &&& next.stopped <==> next.best[4].0 <= iv.early_distance_limit
        },
{
}

/// A scan stops behind the first eight vectors if one of them was nearer than
/// the last entry and the last entry now lies within the limit: the rest of the
/// leaf changes nothing.
pub proof fn lemma_scan_stops(iv: IndexView, q: Seq<i16>, n: Node, few: Node, best: Seq<Entry>)
    requires
        n.vec_count >= 8,
        few == (Node { vec_count: 8, ..n }),
        exists|k: int| 0 <= k < 8 && #[trigger] iv.leaf_distance(q, n, k) < best[4].0,
        iv.scanned(q, few, 0, best, best)[4].0 <= iv.early_distance_limit,
    ensures
        iv.scanned(q, n, 0, best, best) == iv.scanned(q, few, 0, best, best),
{
    reveal_with_fuel(IndexView::scanned, 10);
    let k = choose|k: int| 0 <= k < 8 && #[trigger] iv.leaf_distance(q, n, k) < best[4].0;
    assert forall|j: int| iv.leaf_distance(q, n, j) == #[trigger] iv.leaf_distance(q, few, j) by {}
    assert(iv.any_nearer(q, n, 0, 8, best));
    assert(iv.any_nearer(q, few, 0, 8, best));
    let b1 = offered(best, iv.leaf_distance(q, n, 0), iv.labels[n.start_vec + 0]);
    let b2 = offered(b1, iv.leaf_distance(q, n, 1), iv.labels[n.start_vec + 1]);
    let b3 = offered(b2, iv.leaf_distance(q, n, 2), iv.labels[n.start_vec + 2]);
    let b4 = offered(b3, iv.leaf_distance(q, n, 3), iv.labels[n.start_vec + 3]);
    let b5 = offered(b4, iv.leaf_distance(q, n, 4), iv.labels[n.start_vec + 4]);
    let b6 = offered(b5, iv.leaf_distance(q, n, 5), iv.labels[n.start_vec + 5]);
    let b7 = offered(b6, iv.leaf_distance(q, n, 6), iv.labels[n.start_vec + 6]);
    let b8 = offered(b7, iv.leaf_distance(q, n, 7), iv.labels[n.start_vec + 7]);
    assert(iv.scanned(q, few, 8, b8, b8) == b8);
    assert(iv.scanned(q, few, 7, best, b7) == b8);
    assert(iv.scanned(q, few, 0, best, best) == b8);
    assert(iv.scanned(q, n, 7, best, b7) == b8);
    assert(iv.scanned(q, n, 0, best, best) == b8);
}

/// A search looks at no more vectors than the index has.
pub proof fn lemma_visits_bounded(iv: IndexView, q: Seq<i16>, f: Found)
    requires
        iv.partitions.len() <= u32::MAX,
        iv.finds(q, f),
    ensures
        f.visited <= vectors_before(iv, iv.partitions.len() as int),
{
    let n = iv.partitions.len() as int;
    let first = iv.first_pass(q);
    lemma_partition_with_key(iv.partitions, partition_key(q), n);
    lemma_others_listed(iv, q, first.best, n);
    let others = iv.others(q, first.best, n);
    lemma_listed_grow(iv, others, 0, others.len() as int);
    let start = match iv.primary(q) {
        Some(p) => vectors_in(iv, p),
        None => 0,
    };
    if let Some(p) = iv.primary(q) {
        lemma_searched_visits(iv, q, p, iv.nothing_found());
    }
    if !iv.settled(q) {
        let order = choose|order: Seq<(i64, u32)>| #[trigger]
            iv.is_search_order(q, order) && f == iv.second_pass(q, order, 0, first);
        lemma_second_pass_visits(iv, q, order, 0, first, start);
        lemma_listed_permuted(iv, order, others);
    }
}

} // verus!
