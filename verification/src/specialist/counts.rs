//! A search counts the frauds among at most five neighbours.

use super::best::{
    binary, inserted, lemma_slot_bounds, lemma_votes_range, no_entries, votes, Entry, K,
};
use super::format::Node;
use super::geometry::{padded, partition_key};
use super::search::{
    lemma_partition_with_key, lemma_search_order, offered, Found, IndexView, Walk,
};
use super::tree::{leaf_fits, lemma_walkable_at, tree_at, Tree};
use vstd::prelude::*;

verus! {

/// Whether every label says legitimate (0) or fraud (1).
pub open spec fn binary_labels(labels: Seq<u8>) -> bool {
    forall|i: int| 0 <= i < labels.len() ==> #[trigger] labels[i] <= 1
}

/// Whether a list is whole and its labels say legitimate or fraud.
spec fn votable(best: Seq<Entry>) -> bool {
    best.len() == K && binary(best)
}

proof fn lemma_offered_votable(best: Seq<Entry>, dist: int, label: u8)
    requires
        votable(best),
        label <= 1,
    ensures
        votable(offered(best, dist, label)),
{
    let e: Entry = (dist as i64, label);
    lemma_slot_bounds(best, e.0 as int, K as int);
    let next = inserted(best, e);
    assert forall|i: int| 0 <= i < next.len() implies (#[trigger] next[i]).1 <= 1 by {
        assert(next[i] == e || (i < best.len() && next[i] == best[i]) || (i > 0 && next[i]
            == best[i - 1]));
    }
}

proof fn lemma_scanned_votable(
    iv: IndexView,
    q: Seq<i16>,
    n: Node,
    j: int,
    before: Seq<Entry>,
    best: Seq<Entry>,
)
    requires
        leaf_fits(n, iv.panels.len(), iv.labels.len()),
        binary_labels(iv.labels),
        0 <= j,
        votable(best),
    ensures
        votable(iv.scanned(q, n, j, before, best)),
    decreases n.vec_count - j,
{
    if j < n.vec_count {
        let dist = iv.leaf_distance(q, n, j);
        let label = iv.labels[n.start_vec + j];
        lemma_offered_votable(best, dist, label);
        let next = offered(best, dist, label);
        lemma_scanned_votable(iv, q, n, j + 1, before, next);
        lemma_scanned_votable(iv, q, n, j + 1, next, next);
    }
}

proof fn lemma_walked_votable(
    iv: IndexView,
    q: Seq<i16>,
    t: Tree,
    bound: int,
    depth: int,
    w: Walk,
)
    requires
        t.leaves_fit(iv.nodes, iv.panels.len(), iv.labels.len()),
        binary_labels(iv.labels),
        votable(w.best),
    ensures
        votable(iv.walked(q, t, bound, depth, w).best),
    decreases t,
{
    match t {
        Tree::Leaf(i) => {
            lemma_scanned_votable(iv, q, iv.nodes[i], 0, w.best, w.best);
        },
        Tree::Inner(_, l, r) => {
            let lb = iv.node_bound(q, l.root());
            let rb = iv.node_bound(q, r.root());
            lemma_walked_votable(iv, q, *l, lb, depth, w);
            lemma_walked_votable(iv, q, *l, lb, depth + 1, w);
            lemma_walked_votable(iv, q, *r, rb, depth, w);
            lemma_walked_votable(iv, q, *r, rb, depth + 1, w);
            lemma_walked_votable(iv, q, *r, rb, depth, iv.walked(q, *l, lb, depth + 1, w));
            lemma_walked_votable(iv, q, *l, lb, depth, iv.walked(q, *r, rb, depth + 1, w));
        },
    }
}

proof fn lemma_searched_votable(iv: IndexView, q: Seq<i16>, p: int, f: Found)
    requires
        iv.searchable(),
        binary_labels(iv.labels),
        0 <= p < iv.partitions.len(),
        votable(f.best),
    ensures
        votable(iv.searched(q, p, f).best),
{
    let root = iv.partitions[p].root_node as int;
    lemma_walkable_at(iv.nodes, root, iv.panels.len(), iv.labels.len());
    let w = Walk { best: f.best, visited: 0, stopped: false };
    lemma_walked_votable(iv, q, tree_at(iv.nodes, root), iv.partition_bound(q, p), 0, w);
}

proof fn lemma_second_pass_votable(
    iv: IndexView,
    q: Seq<i16>,
    order: Seq<(i64, u32)>,
    i: int,
    f: Found,
)
    requires
        iv.searchable(),
        binary_labels(iv.labels),
        forall|k: int| 0 <= k < order.len() ==> (#[trigger] order[k]).1 < iv.partitions.len(),
        0 <= i,
        votable(f.best),
    ensures
        votable(iv.second_pass(q, order, i, f).best),
    decreases order.len() - i,
{
    if i < order.len() {
        let p = order[i].1 as int;
        lemma_searched_votable(iv, q, p, f);
        lemma_second_pass_votable(iv, q, order, i + 1, iv.searched(q, p, f));
    }
}

proof fn lemma_found_votable(iv: IndexView, q: Seq<i16>, f: Found)
    requires
        iv.searchable(),
        iv.partitions.len() <= u32::MAX,
        binary_labels(iv.labels),
        iv.finds(q, f),
    ensures
        votable(f.best),
{
    assert(votable(no_entries()));
    lemma_partition_with_key(iv.partitions, partition_key(q), iv.partitions.len() as int);
    if let Some(p) = iv.primary(q) {
        lemma_searched_votable(iv, q, p, iv.nothing_found());
    }
    if !iv.settled(q) {
        let order = choose|order: Seq<(i64, u32)>| #[trigger]
            iv.is_search_order(q, order) && f == iv.second_pass(q, order, 0, iv.first_pass(q));
        lemma_search_order(iv, q, order);
        lemma_second_pass_votable(iv, q, order, 0, iv.first_pass(q));
    }
}

/// What a search counts is the number of frauds among the neighbours that it
/// finds, from none to all of them.
pub proof fn lemma_count_is_votes(iv: IndexView, q: Seq<i16>, n: int)
    requires
        iv.searchable(),
        iv.partitions.len() <= u32::MAX,
        binary_labels(iv.labels),
        iv.counts(q, n),
    ensures
        0 <= n <= K,
        exists|f: Found| #[trigger] iv.finds(q, f) && n == votes(f.best),
{
    let f = choose|f: Found| #[trigger] iv.finds(q, f) && n == votes(f.best) % 256;
    lemma_found_votable(iv, q, f);
    lemma_votes_range(f.best);
}

/// A query is answered with at most as many frauds as there are votes.
pub proof fn lemma_answer_range(iv: IndexView, v: Seq<i16>, n: int)
    requires
        iv.searchable(),
        iv.partitions.len() <= u32::MAX,
        binary_labels(iv.labels),
        iv.answers(v, n),
    ensures
        0 <= n <= K,
{
    if iv.counts(padded(v), n) {
        lemma_count_is_votes(iv, padded(v), n);
    }
}

} // verus!
