//! What a search finds.

use super::best::{inserted, no_entries, unanimous, votes, worst, Entry};
use super::format::{panel_vector, Node, Partition, TREE_STACK_CAPACITY};
use super::geometry::{
    box_bound, lane_distance, obviously_fraud, obviously_legit, padded, partition_key,
};
use super::tree::{tree_at, walkable_at, Tree};
use vstd::prelude::*;

verus! {

/// When the last entry is at most this far, no further probing is expected to
/// change the fraud count: `((10000 * 140) / 1000)^2`.
pub const EARLY_DISTANCE_LIMIT: i64 = 1_960_000;

/// Strong-decision limit: with unanimous entries at most this far, the
/// approved or denied outcome does not flip.
pub const STRONG_DECISION_LIMIT: i64 = 4_000_000;

/// The contents of an index and the limits of its searches.
pub struct IndexView {
    pub total_vectors: u32,
    pub scale: i32,
    pub partitions: Seq<Partition>,
    pub nodes: Seq<Node>,
    pub panels: Seq<i16>,
    pub labels: Seq<u8>,
    pub strong_decision: bool,
    pub early_distance_limit: i64,
    pub early_candidates_limit: u32,
}

/// How far a walk through one tree has come.
pub struct Walk {
    pub best: Seq<Entry>,
    /// Vectors in the leaves that were scanned.
    pub visited: int,
    /// Whether the entries came near enough to stop.
    pub stopped: bool,
}

/// How far a search has come.
pub struct Found {
    pub best: Seq<Entry>,
    pub visited: int,
}

/// The list after one vector was looked at. A negative distance has left the
/// range of its lane and is passed over.
pub open spec fn offered(best: Seq<Entry>, dist: int, label: u8) -> Seq<Entry> {
    if dist < 0 {
        best
    } else {
        inserted(best, (dist as i64, label))
    }
}

/// Sum of two counts, held at the largest 32-bit value.
pub open spec fn saturated(a: int, b: int) -> int {
    if a + b > u32::MAX {
        u32::MAX as int
    } else {
        a + b
    }
}

/// The last of the first `n` partitions whose key ends in the given byte.
pub open spec fn partition_with_key(partitions: Seq<Partition>, key: int, n: int) -> Option<int>
    decreases n,
{
    if n <= 0 {
        None
    } else if partitions[n - 1].key % 256 == key {
        Some(n - 1)
    } else {
        partition_with_key(partitions, key, n - 1)
    }
}

pub proof fn lemma_partition_with_key(partitions: Seq<Partition>, key: int, n: int)
    ensures
        partition_with_key(partitions, key, n) matches Some(i) ==> 0 <= i < n,
    decreases n,
{
    if n > 0 {
        lemma_partition_with_key(partitions, key, n - 1);
    }
}

impl IndexView {
    /// Whether searches can start at the root of every partition.
    pub open spec fn searchable(self) -> bool {
        forall|p: int|
            0 <= p < self.partitions.len() ==> walkable_at(
                self.nodes,
                (#[trigger] self.partitions[p]).root_node as int,
                self.panels.len(),
                self.labels.len(),
            )
    }

    /// Distance of vector `j` of a leaf.
    pub open spec fn leaf_distance(self, q: Seq<i16>, n: Node, j: int) -> int {
        lane_distance(panel_vector(self.panels, n.start_panel as int, j), q)
    }

    /// Whether one of the vectors of a leaf from `j` up to `end` is nearer than
    /// the last entry. A list that reaches beyond the range of a lane counts
    /// every vector as nearer, and so does a vector whose distance has left it.
    pub open spec fn any_nearer(
        self,
        q: Seq<i16>,
        n: Node,
        j: int,
        end: int,
        best: Seq<Entry>,
    ) -> bool {
        ||| worst(best) >= i32::MAX
        ||| exists|k: int| j <= k < end && #[trigger] self.leaf_distance(q, n, k) < worst(best)
    }

    /// The list after the vectors of a leaf from vector `j` on; `before` is the
    /// list at the start of the panel. The scan ends early behind a full panel
    /// that had a nearer vector, once the last entry is near enough.
    pub open spec fn scanned(
        self,
        q: Seq<i16>,
        n: Node,
        j: int,
        before: Seq<Entry>,
        best: Seq<Entry>,
    ) -> Seq<Entry>
        decreases n.vec_count - j,
    {
        if j >= n.vec_count {
            best
        } else {
            let next = offered(best, self.leaf_distance(q, n, j), self.labels[n.start_vec + j]);
            if (j + 1) % 8 != 0 {
                self.scanned(q, n, j + 1, before, next)
            } else if self.any_nearer(q, n, j - 7, j + 1, before) && worst(next)
                <= self.early_distance_limit {
                next
            } else {
                self.scanned(q, n, j + 1, next, next)
            }
        }
    }

    /// Lower bound of the distances below a node.
    pub open spec fn node_bound(self, q: Seq<i16>, i: int) -> int {
        box_bound(q, self.nodes[i].min@, self.nodes[i].max@)
    }

    /// A walk through a tree whose box is `bound` away, with `depth` subtrees
    /// put aside: nothing if it has stopped or the box is no nearer than the
    /// last entry, else the nearer subtree first and then the farther one.
    /// The farther one is left out where it was already too far away before
    /// the nearer one was walked, or where no room was left to put it aside.
    pub open spec fn walked(self, q: Seq<i16>, t: Tree, bound: int, depth: int, w: Walk) -> Walk
        decreases t,
    {
        if w.stopped || bound >= worst(w.best) {
            w
        } else {
            match t {
                Tree::Leaf(i) => {
                    let best = self.scanned(q, self.nodes[i], 0, w.best, w.best);
                    Walk {
                        best,
                        visited: w.visited + self.nodes[i].vec_count,
                        stopped: worst(best) <= self.early_distance_limit,
                    }
                },
                Tree::Inner(_, l, r) => {
                    let lb = self.node_bound(q, l.root());
                    let rb = self.node_bound(q, r.root());
                    if lb <= rb {
                        let aside = rb < worst(w.best) && depth < TREE_STACK_CAPACITY;
                        let near = self.walked(
                            q,
                            *l,
                            lb,
                            if aside {
                                depth + 1
                            } else {
                                depth
                            },
                            w,
                        );
                        if aside {
                            self.walked(q, *r, rb, depth, near)
                        } else {
                            near
                        }
                    } else {
                        let aside = lb < worst(w.best) && depth < TREE_STACK_CAPACITY;
                        let near = self.walked(
                            q,
                            *r,
                            rb,
                            if aside {
                                depth + 1
                            } else {
                                depth
                            },
                            w,
                        );
                        if aside {
                            self.walked(q, *l, lb, depth, near)
                        } else {
                            near
                        }
                    }
                },
            }
        }
    }

    /// A walk that resumes with the subtrees put aside, the last one first.
    pub open spec fn resumed(self, q: Seq<i16>, aside: Seq<(Tree, int)>, w: Walk) -> Walk
        decreases aside.len(),
    {
        if aside.len() == 0 {
            w
        } else {
            self.resumed(
                q,
                aside.drop_last(),
                self.walked(q, aside.last().0, aside.last().1, aside.len() - 1, w),
            )
        }
    }

    /// Lower bound of the distances in a partition.
    pub open spec fn partition_bound(self, q: Seq<i16>, p: int) -> int {
        box_bound(q, self.partitions[p].min@, self.partitions[p].max@)
    }

    /// A search after the tree of partition `p`.
    pub open spec fn searched(self, q: Seq<i16>, p: int, f: Found) -> Found {
        let w = self.walked(
            q,
            tree_at(self.nodes, self.partitions[p].root_node as int),
            self.partition_bound(q, p),
            0,
            Walk { best: f.best, visited: 0, stopped: false },
        );
        Found { best: w.best, visited: saturated(f.visited, w.visited) }
    }

    /// Whether a search ends behind a tree: near enough, enough vectors seen,
    /// or a strong decision.
    pub open spec fn ends(self, f: Found) -> bool {
        ||| worst(f.best) <= self.early_distance_limit
        ||| f.visited >= self.early_candidates_limit
        ||| self.strong_decision && worst(f.best) <= STRONG_DECISION_LIMIT && unanimous(f.best)
    }

    /// The partition that a query is looked up in first.
    pub open spec fn primary(self, q: Seq<i16>) -> Option<int> {
        partition_with_key(self.partitions, partition_key(q), self.partitions.len() as int)
    }

    /// A search that has found nothing yet.
    pub open spec fn nothing_found(self) -> Found {
        Found { best: no_entries(), visited: 0 }
    }

    /// The search after the primary partition.
    pub open spec fn first_pass(self, q: Seq<i16>) -> Found {
        match self.primary(q) {
            Some(p) => self.searched(q, p, self.nothing_found()),
            None => self.nothing_found(),
        }
    }

    /// Whether the primary partition settles the search.
    pub open spec fn settled(self, q: Seq<i16>) -> bool {
        self.primary(q) is Some && self.ends(self.first_pass(q))
    }

    /// Of the first `n` partitions, those that may still hold a nearer
    /// neighbour, each with its lower bound.
    pub open spec fn others(self, q: Seq<i16>, best: Seq<Entry>, n: int) -> Seq<(i64, u32)>
        decreases n,
    {
        if n <= 0 {
            seq![]
        } else {
            let rest = self.others(q, best, n - 1);
            if self.primary(q) != Some(n - 1) && self.partition_bound(q, n - 1) < worst(best) {
                rest.push((self.partition_bound(q, n - 1) as i64, (n - 1) as u32))
            } else {
                rest
            }
        }
    }

    /// The search through the partitions `order[i..]`, until one lies too far
    /// away or the search ends.
    pub open spec fn second_pass(
        self,
        q: Seq<i16>,
        order: Seq<(i64, u32)>,
        i: int,
        f: Found,
    ) -> Found
        decreases order.len() - i,
    {
        if i >= order.len() || order[i].0 >= worst(f.best) {
            f
        } else {
            let next = self.searched(q, order[i].1 as int, f);
            if self.ends(next) {
                next
            } else {
                self.second_pass(q, order, i + 1, next)
            }
        }
    }

    /// Whether `order` is an order in which the other partitions may be
    /// searched: by increasing lower bound.
    pub open spec fn is_search_order(self, q: Seq<i16>, order: Seq<(i64, u32)>) -> bool {
        &&& order.to_multiset() == self.others(
            q,
            self.first_pass(q).best,
            self.partitions.len() as int,
        ).to_multiset()
        &&& forall|i: int, j: int| 0 <= i <= j < order.len() ==> order[i].0 <= order[j].0
    }

    /// Whether a search may find `f`. Only the order in which partitions with
    /// equal lower bounds are searched is left open.
    pub open spec fn finds(self, q: Seq<i16>, f: Found) -> bool {
        if self.settled(q) {
            f == self.first_pass(q)
        } else {
            exists|order: Seq<(i64, u32)>| #[trigger]
                self.is_search_order(q, order) && f == self.second_pass(
                    q,
                    order,
                    0,
                    self.first_pass(q),
                )
        }
    }

    /// Whether a search may count `n` frauds among the nearest neighbours: the
    /// low byte of the votes.
    pub open spec fn counts(self, q: Seq<i16>, n: int) -> bool {
        exists|f: Found| #[trigger] self.finds(q, f) && n == votes(f.best) % 256
    }

    /// Whether a query may be answered with `n` frauds: the fast path decides
    /// where it can, and a search elsewhere.
    pub open spec fn answers(self, q: Seq<i16>, n: int) -> bool {
        if obviously_legit(q) {
            n == 0
        } else if obviously_fraud(q) {
            n == 5
        } else {
            self.counts(padded(q), n)
        }
    }
}

/// What the other partitions are searched by.
pub proof fn lemma_others(iv: IndexView, q: Seq<i16>, best: Seq<Entry>, n: int)
    requires
        0 <= n <= iv.partitions.len() <= u32::MAX,
    ensures
        forall|i: int|
            0 <= i < iv.others(q, best, n).len() ==> {
                let e = #[trigger] iv.others(q, best, n)[i];
                &&& e.1 < n
                &&& iv.primary(q) != Some(e.1 as int)
                &&& e.0 == iv.partition_bound(q, e.1 as int) as i64
                &&& iv.partition_bound(q, e.1 as int) < worst(best)
            },
    decreases n,
{
    if n > 0 {
        lemma_others(iv, q, best, n - 1);
        let rest = iv.others(q, best, n - 1);
        let all = iv.others(q, best, n);
        assert forall|i: int| 0 <= i < all.len() implies {
            let e = #[trigger] all[i];
            &&& e.1 < n
            &&& iv.primary(q) != Some(e.1 as int)
            &&& e.0 == iv.partition_bound(q, e.1 as int) as i64
            &&& iv.partition_bound(q, e.1 as int) < worst(best)
        } by {
            if i < rest.len() {
                assert(all[i] == rest[i]);
            }
        }
    }
}

/// Every entry of a search order is a partition with its lower bound.
pub proof fn lemma_search_order(iv: IndexView, q: Seq<i16>, order: Seq<(i64, u32)>)
    requires
        iv.partitions.len() <= u32::MAX,
        iv.is_search_order(q, order),
    ensures
        forall|i: int|
            0 <= i < order.len() ==> {
                &&& (#[trigger] order[i]).1 < iv.partitions.len()
                &&& iv.primary(q) != Some(order[i].1 as int)
                &&& order[i].0 == iv.partition_bound(q, order[i].1 as int) as i64
            },
{
    broadcast use vstd::seq_lib::group_to_multiset_ensures;

    let n = iv.partitions.len() as int;
    let others = iv.others(q, iv.first_pass(q).best, n);
    lemma_others(iv, q, iv.first_pass(q).best, n);
    assert forall|i: int| 0 <= i < order.len() implies {
        &&& (#[trigger] order[i]).1 < iv.partitions.len()
        &&& iv.primary(q) != Some(order[i].1 as int)
        &&& order[i].0 == iv.partition_bound(q, order[i].1 as int) as i64
    } by {
        assert(order.contains(order[i]));
        assert(order.to_multiset().count(order[i]) > 0);
        assert(others.contains(order[i]));
        let k = choose|k: int| 0 <= k < others.len() && others[k] == order[i];
        assert(others[k] == order[i]);
    }
}

} // verus!
