//! Exact k-nearest-neighbour search over partitioned k-d trees.
//!
//! Every tree node carries the bounding box of the vectors below it. A search
//! uses it to skip whole subtrees whose lower-bound distance is already no
//! better than the current fifth-best distance.

pub mod best;
pub mod builder;
pub mod built;
pub mod counts;
pub mod decode;
pub mod encode;
pub mod exact;
pub mod format;
pub mod geometry;
pub mod limits;
pub mod rows;
pub mod search;
pub mod tree;
pub mod visits;
pub mod warmup;

pub use decode::LoadErr;
pub use format::{
    Header, Node, Partition, FORMAT_VERSION, LANES, LEAF_SIZE, MAGIC, MAX_PARTITIONS,
};
pub use geometry::{compute_partition_key, pad_query, QueryVector, DIM, PACKED_DIMS};

use crate::order::sort_by_first;
use best::{
    entries, insert_best_i64, is_unanimous, label_sum, labels_of, no_entries, sum_labels, worst, K,
};
use counts::{binary_labels, lemma_answer_range};
use decode::{decoded, load_error, read_parts, Parts};
use format::{panel_offset, panel_vector, TREE_STACK_CAPACITY};
use geometry::{
    add_square, lane_distance, lane_total, lemma_box_bound_range, lower_bound_box, tier1_classify,
    to_lane,
};
use limits::Limits;
use search::{
    lemma_partition_with_key, lemma_search_order, partition_with_key, Found, IndexView, Walk,
    STRONG_DECISION_LIMIT,
};
use tree::{lemma_root_in_range, lemma_walkable_at, survey, tree_at, walkable_at, Tree};
use warmup::{make_query, next_state, warmup_query, warmup_state, WARMUP_SEED};
use vstd::prelude::*;

verus! {

/// An index of labelled reference vectors.
pub struct SpecialistIndex {
    /// Number of reference vectors.
    pub total_vectors: u32,
    /// Factor by which coordinates were scaled before they were rounded.
    pub scale: i32,
    partitions: Vec<Partition>,
    nodes: Vec<Node>,
    panels: Vec<i16>,
    labels: Vec<u8>,
    strong_decision: bool,
    early_distance_limit: i64,
    early_candidates_limit: u32,
    part_by_key: Vec<Option<u32>>,
}

impl View for SpecialistIndex {
    type V = IndexView;

    closed spec fn view(&self) -> IndexView {
        IndexView {
            total_vectors: self.total_vectors,
            scale: self.scale,
            partitions: self.partitions@,
            nodes: self.nodes@,
            panels: self.panels@,
            labels: self.labels@,
            strong_decision: self.strong_decision,
            early_distance_limit: self.early_distance_limit,
            early_candidates_limit: self.early_candidates_limit,
        }
    }
}

/// The partition as the table of partitions by key holds it.
spec fn table_entry(p: Option<int>) -> Option<u32> {
    match p {
        Some(i) => Some(i as u32),
        None => None,
    }
}

/// Whether `c` answers synthetic query `i`.
#[verifier::opaque]
spec fn warmup_answered(iv: IndexView, i: nat, c: u8) -> bool {
    iv.answers(warmup_query(i), c as int)
}

/// Looks up the partition of every key.
fn partitions_by_key(partitions: &Vec<Partition>) -> (table: Vec<Option<u32>>)
    requires
        partitions@.len() <= u32::MAX,
    ensures
        table@.len() == MAX_PARTITIONS,
        forall|k: int|
            0 <= k < MAX_PARTITIONS ==> #[trigger] table@[k] == table_entry(
                partition_with_key(partitions@, k, partitions@.len() as int),
            ),
{
    let mut table: Vec<Option<u32>> = Vec::new();
    let mut k: usize = 0;
    while k < MAX_PARTITIONS
        invariant
            k <= MAX_PARTITIONS,
            table@.len() == k,
            forall|j: int| 0 <= j < k ==> #[trigger] table@[j] == None::<u32>,
        decreases MAX_PARTITIONS - k,
    {
        table.push(None);
        k = k + 1;
    }
    let mut i: usize = 0;
    while i < partitions.len()
        invariant
            i <= partitions@.len() <= u32::MAX,
            table@.len() == MAX_PARTITIONS,
            forall|j: int|
                0 <= j < MAX_PARTITIONS ==> #[trigger] table@[j] == table_entry(
                    partition_with_key(partitions@, j, i as int),
                ),
        decreases partitions@.len() - i,
    {
        let key: usize = (partitions[i].key % 256) as usize;
        table[key] = Some(i as u32);
        i = i + 1;
    }
    table
}

proof fn lemma_label_sum_prefix(a: Seq<u8>, b: Seq<u8>, n: int)
    requires
        0 <= n <= a.len(),
        n <= b.len(),
        forall|i: int| 0 <= i < n ==> a[i] == b[i],
    ensures
        label_sum(a, n) == label_sum(b, n),
    decreases n,
{
    if n > 0 {
        lemma_label_sum_prefix(a, b, n - 1);
    }
}

/// Number of nodes in the subtrees put aside.
spec fn nodes_aside(aside: Seq<(Tree, int)>) -> nat
    decreases aside.len(),
{
    if aside.len() == 0 {
        0
    } else {
        nodes_aside(aside.drop_last()) + aside.last().0.size()
    }
}

/// Number of vectors in the subtrees put aside.
spec fn vectors_aside(nodes: Seq<Node>, aside: Seq<(Tree, int)>) -> nat
    decreases aside.len(),
{
    if aside.len() == 0 {
        0
    } else {
        vectors_aside(nodes, aside.drop_last()) + aside.last().0.vectors(nodes)
    }
}

/// A tree whose box is too far away is not walked.
proof fn lemma_pruned(iv: IndexView, q: Seq<i16>, t: Tree, bound: int, depth: int, w: Walk)
    requires
        bound >= worst(w.best),
    ensures
        iv.walked(q, t, bound, depth, w) == w,
{
}

/// A walk that has stopped looks at nothing that was put aside.
proof fn lemma_stopped(iv: IndexView, q: Seq<i16>, aside: Seq<(Tree, int)>, w: Walk)
    requires
        w.stopped,
    ensures
        iv.resumed(q, aside, w) == w,
    decreases aside.len(),
{
    if aside.len() > 0 {
        lemma_stopped(iv, q, aside.drop_last(), w);
    }
}

impl SpecialistIndex {
    /// The table of partitions by key agrees with the partitions.
    pub closed spec fn wf(&self) -> bool {
        &&& self.partitions@.len() <= u32::MAX
        &&& self.part_by_key@.len() == MAX_PARTITIONS
        &&& forall|k: int|
            0 <= k < MAX_PARTITIONS ==> #[trigger] self.part_by_key@[k] == table_entry(
                partition_with_key(self.partitions@, k, self.partitions@.len() as int),
            )
    }

    /// Number of reference vectors.
    pub fn total_vectors(&self) -> (n: u32)
        ensures
            n == self@.total_vectors,
    {
        self.total_vectors
    }

    /// Factor by which coordinates were scaled before they were rounded.
    pub fn scale(&self) -> (s: i32)
        ensures
            s == self@.scale,
    {
        self.scale
    }

    /// Number of partitions.
    pub fn n_partitions(&self) -> (n: usize)
        ensures
            n == self@.partitions.len(),
    {
        self.partitions.len()
    }

    /// Number of tree nodes.
    pub fn n_nodes(&self) -> (n: usize)
        ensures
            n == self@.nodes.len(),
    {
        self.nodes.len()
    }

    /// Distance of one stored vector from the query.
    fn distance(&self, start_panel: usize, j: usize, q: &QueryVector) -> (r: i64)
        requires
            (start_panel + j / LANES + 1) * 112 <= self.panels@.len(),
        ensures
            r == lane_distance(panel_vector(self.panels@, start_panel as int, j as int), q@),
            r < 0x8000_0000,
    {
        assert(self.panels.len() == self.panels@.len());
        let panel: usize = start_panel + j / LANES;
        let lane: usize = j % LANES;
        let ghost v = panel_vector(self.panels@, start_panel as int, j as int);
        let mut total: i64 = 0;
        let mut d: usize = 0;
        while d < DIM
            invariant
                d <= DIM,
                q@.len() == 16,
                panel == start_panel + j / LANES,
                lane == j % LANES,
                lane < LANES,
                (panel + 1) * 112 <= self.panels@.len(),
                v == panel_vector(self.panels@, start_panel as int, j as int),
                total == lane_total(v, q@, d as int),
                0 <= total <= d * 0x4000_0000,
            decreases DIM - d,
        {
            assert(self.panels.len() == self.panels@.len());
            let at: usize = panel * 112 + (d / 2) * 16 + lane * 2 + d % 2;
            assert(at == panel_offset(panel as int, lane as int, d as int));
            assert(v[d as int] == self.panels@[at as int]);
            total = add_square(total, self.panels[at], q[d]);
            d = d + 1;
        }
        to_lane(total)
    }

    /// Looks at every vector of a leaf, and stops behind a full panel that had
    /// a nearer vector, once the last entry is near enough.
    #[verifier::spinoff_prover]
    fn scan_leaf(
        &self,
        node: &Node,
        q: &QueryVector,
        best_dists: &mut [i64; K],
        best_labels: &mut [u8; K],
    )
        requires
            tree::leaf_fits(*node, self@.panels.len(), self@.labels.len()),
        ensures
            entries(final(best_dists)@, final(best_labels)@) == self@.scanned(
                q@,
                *node,
                0,
                entries(old(best_dists)@, old(best_labels)@),
                entries(old(best_dists)@, old(best_labels)@),
            ),
    {
        let size: usize = node.vec_count as usize;
        let start_panel: usize = node.start_panel as usize;
        let start_vec: usize = node.start_vec as usize;
        let ghost mut before = entries(best_dists@, best_labels@);
        let ghost goal = self@.scanned(q@, *node, 0, before, before);
        let mut limit: i64 = best_dists[K - 1];
        let mut nearer: bool = limit >= i32::MAX as i64;
        let mut j: usize = 0;
        while j < size
            invariant
                j <= size,
                size == node.vec_count,
                start_panel == node.start_panel,
                start_vec == node.start_vec,
                tree::leaf_fits(*node, self@.panels.len(), self@.labels.len()),
                limit == worst(before),
                nearer == self@.any_nearer(q@, *node, j - j % LANES, j as int, before),
                goal == self@.scanned(
                    q@,
                    *node,
                    0,
                    entries(old(best_dists)@, old(best_labels)@),
                    entries(old(best_dists)@, old(best_labels)@),
                ),
                goal == self@.scanned(
                    q@,
                    *node,
                    j as int,
                    before,
                    entries(best_dists@, best_labels@),
                ),
            decreases size - j,
        {
            let ghost best = entries(best_dists@, best_labels@);
            assert(self.labels.len() == self.labels@.len());
            let dist: i64 = self.distance(start_panel, j, q);
            let label: u8 = self.labels[start_vec + j];
            assert(dist == self@.leaf_distance(q@, *node, j as int));
            if dist < limit {
                nearer = true;
            }
            if dist >= 0 {
                insert_best_i64(dist, label, best_dists, best_labels);
            }
            assert(entries(best_dists@, best_labels@) == search::offered(
                best,
                dist as int,
                self@.labels[node.start_vec + j],
            ));
            let ghost first = j - j % LANES;
            assert(nearer == self@.any_nearer(q@, *node, first, j + 1, before));
            j = j + 1;
            if j % LANES == 0 {
                assert(first == j - 8);
                limit = best_dists[K - 1];
                if nearer && limit <= self.early_distance_limit {
                    return ;
                }
                nearer = limit >= i32::MAX as i64;
                proof {
                    before = entries(best_dists@, best_labels@);
                }
            } else {
                assert(first == j - j % LANES);
            }
        }
    }

    /// Walks one tree, nearer child first, with the farther child put aside.
    /// Returns as soon as the entries are near enough, and never goes below a
    /// node whose bound is not better than the last entry.
    #[verifier::rlimit(100)]
    #[verifier::spinoff_prover]
    fn descend(
        &self,
        root: usize,
        root_bound: i64,
        q: &QueryVector,
        best_dists: &mut [i64; K],
        best_labels: &mut [u8; K],
    ) -> (visited: u32)
        requires
            walkable_at(self@.nodes, root as int, self@.panels.len(), self@.labels.len()),
        ensures
            ({
                let w = self@.walked(
                    q@,
                    tree_at(self@.nodes, root as int),
                    root_bound as int,
                    0,
                    Walk {
                        best: entries(old(best_dists)@, old(best_labels)@),
                        visited: 0,
                        stopped: false,
                    },
                );
                &&& entries(final(best_dists)@, final(best_labels)@) == w.best
                &&& visited == w.visited
            }),
    {
        let ghost mut cur: Tree = tree_at(self@.nodes, root as int);
        let ghost mut aside: Seq<(Tree, int)> = seq![];
        let ghost start = Walk {
            best: entries(old(best_dists)@, old(best_labels)@),
            visited: 0,
            stopped: false,
        };
        let ghost goal = self@.walked(q@, cur, root_bound as int, 0, start);
        proof {
            lemma_walkable_at(self@.nodes, root as int, self@.panels.len(), self@.labels.len());
        }
        let mut stack: Vec<(usize, i64)> = Vec::new();
        let mut current: usize = root;
        let mut current_bound: i64 = root_bound;
        let mut visited: u32 = 0;
        loop
            invariant
                goal == self@.walked(
                    q@,
                    tree_at(self@.nodes, root as int),
                    root_bound as int,
                    0,
                    Walk {
                        best: entries(old(best_dists)@, old(best_labels)@),
                        visited: 0,
                        stopped: false,
                    },
                ),
                cur.stored_in(self@.nodes),
                cur.leaves_fit(self@.nodes, self@.panels.len(), self@.labels.len()),
                cur.root() == current,
                stack@.len() == aside.len(),
                aside.len() <= TREE_STACK_CAPACITY,
                forall|k: int|
                    0 <= k < aside.len() ==> {
                        &&& (#[trigger] aside[k]).0.stored_in(self@.nodes)
                        &&& aside[k].0.leaves_fit(
                            self@.nodes,
                            self@.panels.len(),
                            self@.labels.len(),
                        )
                        &&& aside[k].0.root() == stack@[k].0
                        &&& aside[k].1 == stack@[k].1
                    },
                visited + cur.vectors(self@.nodes) + vectors_aside(self@.nodes, aside) <= u32::MAX,
                goal == self@.resumed(
                    q@,
                    aside,
                    self@.walked(
                        q@,
                        cur,
                        current_bound as int,
                        aside.len() as int,
                        Walk {
                            best: entries(best_dists@, best_labels@),
                            visited: visited as int,
                            stopped: false,
                        },
                    ),
                ),
            decreases cur.size() + nodes_aside(aside),
        {
            let ghost w = Walk {
                best: entries(best_dists@, best_labels@),
                visited: visited as int,
                stopped: false,
            };
            let ghost next = self@.walked(
                q@,
                cur,
                current_bound as int,
                aside.len() as int,
                w,
            );
            if current_bound < best_dists[K - 1] {
                let node: Node = self.nodes[current];
                if node.left < 0 || node.right < 0 {
                    visited = visited + node.vec_count;
                    self.scan_leaf(&node, q, best_dists, best_labels);
                    if best_dists[K - 1] <= self.early_distance_limit {
                        proof {
                            lemma_stopped(self@, q@, aside, next);
                        }
                        return visited;
                    }
                } else {
                    let l: usize = node.left as usize;
                    let r: usize = node.right as usize;
                    proof {
                        lemma_root_in_range(self@.nodes, cur);
                        match cur {
                            Tree::Inner(_, lt, rt) => {
                                lemma_root_in_range(self@.nodes, *lt);
                                lemma_root_in_range(self@.nodes, *rt);
                            },
                            Tree::Leaf(_) => {},
                        }
                    }
                    let lb: i64 = lower_bound_box(q, &self.nodes[l].min, &self.nodes[l].max);
                    let rb: i64 = lower_bound_box(q, &self.nodes[r].min, &self.nodes[r].max);
                    let (near, near_b, far, far_b) = if lb <= rb {
                        (l, lb, r, rb)
                    } else {
                        (r, rb, l, lb)
                    };
                    let ghost (near_t, far_t) = match cur {
                        Tree::Inner(_, lt, rt) => if lb <= rb {
                            (*lt, *rt)
                        } else {
                            (*rt, *lt)
                        },
                        Tree::Leaf(_) => (cur, cur),
                    };
                    let ghost was = aside;
                    if far_b < best_dists[K - 1] && stack.len() < TREE_STACK_CAPACITY {
                        stack.push((far, far_b));
                        proof {
                            aside = aside.push((far_t, far_b as int));
                            assert(aside.drop_last() =~= was);
                        }
                    }
                    if near_b < best_dists[K - 1] {
                        current = near;
                        current_bound = near_b;
                        proof {
                            cur = near_t;
                        }
                        continue ;
                    }
                    proof {
                        lemma_pruned(self@, q@, near_t, near_b as int, aside.len() as int, w);
                    }
                }
            }
            assert(next == Walk {
                best: entries(best_dists@, best_labels@),
                visited: visited as int,
                stopped: false,
            });
            match stack.pop() {
                None => {
                    return visited;
                },
                Some((node, bound)) => {
                    proof {
                        cur = aside.last().0;
                        aside = aside.drop_last();
                    }
                    current = node;
                    current_bound = bound;
                },
            }
        }
    }

    /// Searches the tree of one partition.
    fn search_partition(
        &self,
        p: usize,
        bound: i64,
        visited: u32,
        q: &QueryVector,
        best_dists: &mut [i64; K],
        best_labels: &mut [u8; K],
    ) -> (total: u32)
        requires
            self@.searchable(),
            p < self@.partitions.len(),
            bound == self@.partition_bound(q@, p as int),
        ensures
            (Found {
                best: entries(final(best_dists)@, final(best_labels)@),
                visited: total as int,
            }) == self@.searched(
                q@,
                p as int,
                Found {
                    best: entries(old(best_dists)@, old(best_labels)@),
                    visited: visited as int,
                },
            ),
    {
        let root: usize = self.partitions[p].root_node as usize;
        assert(self@.partitions[p as int].root_node == root);
        let seen: u32 = self.descend(root, bound, q, best_dists, best_labels);
        visited.saturating_add(seen)
    }

    /// Whether a search ends here.
    fn search_ends(&self, visited: u32, best_dists: &[i64; K], best_labels: &[u8; K]) -> (r: bool)
        ensures
            r == self@.ends(
                Found { best: entries(best_dists@, best_labels@), visited: visited as int },
            ),
            ({
                let sum = best_labels@[0] + best_labels@[1] + best_labels@[2] + best_labels@[3]
                    + best_labels@[4];
                r <==> best_dists@[4] <= self@.early_distance_limit || visited
                    >= self@.early_candidates_limit || (self@.strong_decision && best_dists@[4]
                    <= 4_000_000 && (sum == 0 || sum == 5))
            }),
    {
        let ghost best = entries(best_dists@, best_labels@);
        assert(labels_of(best) =~= best_labels@);
        best_dists[K - 1] <= self.early_distance_limit || visited >= self.early_candidates_limit
            || (self.strong_decision && best_dists[K - 1] <= STRONG_DECISION_LIMIT && is_unanimous(
            best_labels,
        ))
    }

    /// Counts the frauds among the nearest neighbours of a query: the primary
    /// partition first, then the others by increasing lower bound.
    #[verifier::spinoff_prover]
    fn predict(&self, q: &QueryVector) -> (count: u8)
        requires
            self.wf(),
            self@.searchable(),
        ensures
            self@.counts(q@, count as int),
    {
        let mut best_dists: [i64; K] = [i64::MAX; K];
        let mut best_labels: [u8; K] = [0u8; K];
        assert(entries(best_dists@, best_labels@) =~= no_entries());

        let key: u32 = compute_partition_key(q);
        let primary: Option<u32> = self.part_by_key[key as usize];
        let n: usize = self.partitions.len();
        proof {
            lemma_partition_with_key(self.partitions@, key as int, n as int);
        }
        let mut visited: u32 = 0;
        let mut done: bool = false;
        if let Some(p) = primary {
            let p: usize = p as usize;
            let bound: i64 = lower_bound_box(q, &self.partitions[p].min, &self.partitions[p].max);
            visited =
            self.search_partition(p, bound, visited, q, &mut best_dists, &mut best_labels);
            done = self.search_ends(visited, &best_dists, &best_labels);
        }
        let ghost first = Found {
            best: entries(best_dists@, best_labels@),
            visited: visited as int,
        };
        assert(first == self@.first_pass(q@));
        assert(done == self@.settled(q@));
        let ghost mut last = first;

        if !done {
            let mut order: Vec<(i64, u32)> = Vec::new();
            let mut idx: usize = 0;
            while idx < n
                invariant
                    idx <= n,
                    n == self.partitions@.len(),
                    n <= u32::MAX,
                    first.best == entries(best_dists@, best_labels@),
                    self@.primary(q@) == (match primary {
                        Some(p) => Some(p as int),
                        None => None,
                    }),
                    order@ == self@.others(q@, first.best, idx as int),
                decreases n - idx,
            {
                let is_primary: bool = match primary {
                    Some(p) => p as usize == idx,
                    None => false,
                };
                let bound: i64 = lower_bound_box(
                    q,
                    &self.partitions[idx].min,
                    &self.partitions[idx].max,
                );
                if !is_primary && bound < best_dists[K - 1] {
                    order.push((bound, idx as u32));
                }
                idx = idx + 1;
            }
            sort_by_first(&mut order);
            assert(self@.is_search_order(q@, order@));
            proof {
                lemma_search_order(self@, q@, order@);
            }
            let ghost goal = self@.second_pass(q@, order@, 0, first);
            let mut i: usize = 0;
            let mut more: bool = true;
            while more && i < order.len()
                invariant
                    i <= order@.len(),
                    self@.searchable(),
                    first == self@.first_pass(q@),
                    goal == self@.second_pass(q@, order@, 0, first),
                    forall|k: int|
                        0 <= k < order@.len() ==> {
                            &&& (#[trigger] order@[k]).1 < self@.partitions.len()
                            &&& order@[k].0 == self@.partition_bound(
                                q@,
                                order@[k].1 as int,
                            ) as i64
                        },
                    more ==> goal == self@.second_pass(
                        q@,
                        order@,
                        i as int,
                        Found {
                            best: entries(best_dists@, best_labels@),
                            visited: visited as int,
                        },
                    ),
                    !more ==> goal == (Found {
                        best: entries(best_dists@, best_labels@),
                        visited: visited as int,
                    }),
                decreases (order@.len() - i) + if more {
                    1int
                } else {
                    0int
                },
            {
                let (bound, p) = order[i];
                if bound >= best_dists[K - 1] {
                    more = false;
                } else {
                    proof {
                        lemma_box_bound_range(
                            q@,
                            self@.partitions[p as int].min@,
                            self@.partitions[p as int].max@,
                            16,
                        );
                    }
                    visited =
                    self.search_partition(
                        p as usize,
                        bound,
                        visited,
                        q,
                        &mut best_dists,
                        &mut best_labels,
                    );
                    if self.search_ends(visited, &best_dists, &best_labels) {
                        more = false;
                    }
                    i = i + 1;
                }
            }
            proof {
                last = goal;
            }
            assert(goal == Found {
                best: entries(best_dists@, best_labels@),
                visited: visited as int,
            });
        }
        assert(self@.finds(q@, last));
        assert(labels_of(last.best) =~= best_labels@);
        (sum_labels(&best_labels) % 256) as u8
    }

    /// Number of frauds among the five nearest neighbours of a query. The fast
    /// path answers for the obvious cases.
    pub fn fraud_count(&self, q_unpacked: &[i16; DIM]) -> (count: u8)
        requires
            self.wf(),
            self@.searchable(),
        ensures
            self@.answers(q_unpacked@, count as int),
            binary_labels(self@.labels) ==> count <= K,
            q_unpacked@[11] == 0 && q_unpacked@[0] <= 500 && q_unpacked@[1] <= 2500
                && q_unpacked@[2] <= 500 && q_unpacked@[7] <= 500 && q_unpacked@[8] <= 2500 && (
            q_unpacked@[12] == 1500 || q_unpacked@[12] == 2000 || q_unpacked@[12] == 2500
                || q_unpacked@[12] == 3000) ==> count == 0,
            q_unpacked@[11] == 10000 && q_unpacked@[0] >= 5000 && q_unpacked@[1] >= 4167
                && q_unpacked@[7] >= 1500 && q_unpacked@[8] >= 3000 ==> count == 5,
    {
        let count: u8 = match tier1_classify(q_unpacked) {
            Some(c) => c,
            None => {
                let q: QueryVector = pad_query(q_unpacked);
                self.predict(&q)
            },
        };
        proof {
            if binary_labels(self@.labels) {
                lemma_answer_range(self@, q_unpacked@, count as int);
            }
        }
        count
    }

    /// Makes an index of a file. `limits` bounds the searches in it.
    #[verifier::spinoff_prover]
    pub fn load(bytes: &[u8], limits: Limits) -> (r: Result<SpecialistIndex, LoadErr>)
        ensures
            match r {
                Err(e) => load_error(bytes@) == Some(e),
                Ok(index) => {
                    &&& load_error(bytes@) is None
                    &&& index.wf()
                    &&& decoded(bytes@, index@)
                    &&& index@.strong_decision == limits.strong_decision
                    &&& index@.early_distance_limit == limits.early_distance_limit
                    &&& index@.early_candidates_limit == limits.early_candidates_limit
                },
            },
    {
        let parts: Parts = match read_parts(bytes) {
            Ok(parts) => parts,
            Err(e) => return Err(e),
        };
        let total_vectors: u32 = parts.header.total_vectors;
        let scale: i32 = parts.header.scale;
        let part_by_key: Vec<Option<u32>> = partitions_by_key(&parts.partitions);
        let index = SpecialistIndex {
            total_vectors,
            scale,
            partitions: parts.partitions,
            nodes: parts.nodes,
            panels: parts.panels,
            labels: parts.labels,
            strong_decision: limits.strong_decision,
            early_distance_limit: limits.early_distance_limit,
            early_candidates_limit: limits.early_candidates_limit,
            part_by_key,
        };
        assert(decoded(bytes@, index@));
        Ok(index)
    }

    /// Runs `count` synthetic queries and adds up what they count.
    #[verifier::spinoff_prover]
    pub fn warmup_queries(&self, count: usize) -> (acc: u64)
        requires
            self.wf(),
            self@.searchable(),
        ensures
            exists|answers: Seq<u8>|
                {
                    &&& answers.len() == count
                    &&& forall|i: int|
                        0 <= i < count ==> self@.answers(
                            warmup_query(i as nat),
                            #[trigger] answers[i] as int,
                        )
                    &&& acc == #[trigger] label_sum(answers, count as int) % 0x1_0000_0000_0000_0000
                },
    {
        let mut state: u64 = WARMUP_SEED;
        let mut acc: u64 = 0;
        let ghost mut answers: Seq<u8> = seq![];
        let mut i: usize = 0;
        while i < count
            invariant
                i <= count,
                self.wf(),
                self@.searchable(),
                state == warmup_state(i as nat),
                answers.len() == i,
                forall|k: int|
                    0 <= k < i ==> warmup_answered(self@, k as nat, #[trigger] answers[k]),
                acc == label_sum(answers, i as int) % 0x1_0000_0000_0000_0000,
            decreases count - i,
        {
            state = next_state(state);
            let q: [i16; DIM] = make_query(state, i);
            let c: u8 = self.fraud_count(&q);
            let ghost before = answers;
            proof {
                answers = answers.push(c);
                assert(warmup_answered(self@, i as nat, c)) by {
                    reveal(warmup_answered);
                }
                lemma_label_sum_prefix(before, answers, i as int);
            }
            acc = acc.wrapping_add(c as u64);
            i = i + 1;
        }
        assert forall|k: int| 0 <= k < count implies self@.answers(
            warmup_query(k as nat),
            #[trigger] answers[k] as int,
        ) by {
            assert(warmup_answered(self@, k as nat, answers[k]));
            reveal(warmup_answered);
        }
        acc
    }

    /// Whether the index can be searched: a tree under the root of every
    /// partition, with all of its leaves inside of the index.
    pub fn is_searchable(&self) -> (r: bool)
        ensures
            r == self@.searchable(),
    {
        let good: Vec<bool> = survey(&self.nodes, self.panels.len(), self.labels.len());
        let mut p: usize = 0;
        while p < self.partitions.len()
            invariant
                p <= self.partitions@.len(),
                good@.len() == self@.nodes.len(),
                forall|i: int|
                    0 <= i < self@.nodes.len() ==> #[trigger] good@[i] == walkable_at(
                        self@.nodes,
                        i,
                        self@.panels.len(),
                        self@.labels.len(),
                    ),
                forall|k: int|
                    0 <= k < p ==> walkable_at(
                        self@.nodes,
                        (#[trigger] self@.partitions[k]).root_node as int,
                        self@.panels.len(),
                        self@.labels.len(),
                    ),
            decreases self.partitions@.len() - p,
        {
            let root: usize = self.partitions[p].root_node as usize;
            assert(self@.partitions[p as int].root_node == root);
            if root >= good.len() || !good[root] {
                proof {
                    if walkable_at(
                        self@.nodes,
                        root as int,
                        self@.panels.len(),
                        self@.labels.len(),
                    ) {
                        lemma_walkable_at(
                            self@.nodes,
                            root as int,
                            self@.panels.len(),
                            self@.labels.len(),
                        );
                        lemma_root_in_range(self@.nodes, tree_at(self@.nodes, root as int));
                    }
                }
                return false;
            }
            p = p + 1;
        }
        true
    }
}

} // verus!
