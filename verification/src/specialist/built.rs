//! Searches in built indexes are exact.

use super::best::{label_sum, labels_of, votes, worst, Entry, K};
use super::builder::{
    index_holds, partition_holds, partition_rows, partition_start, partition_tree, tree_holds,
    IndexImage,
};
use super::counts::lemma_count_is_votes;
use super::decode::{decoded, load_error};
use super::encode::{countable, encodes, lemma_encoded_loads, lemma_round_trip};
use super::exact::{
    all_comparable, all_rows, box_around, boxes_in_reach, comparable, in_box, in_reach,
    index_sound, lemma_answer_exact, lemma_search_exact, lists, nearest_of, nearest_of_some,
    none_nearer, partition_sound, row_distance, row_shown, rows_in, span, tree_in_reach, tree_of,
    tree_rows, tree_sound,
};
use super::format::{Node, Partition};
use super::geometry::{
    lemma_fraud_limits, lemma_legit_limits, obviously_fraud, obviously_legit, padded,
    partition_key, square_distance, DIM, PACKED_DIMS,
};
use super::rows::{
    box_max, box_min, highest, lemma_extremes, lemma_extremes_attained, lowest, row_vector, RefRow,
};
use super::search::{Found, IndexView};
use super::tree::{lemma_tree_at, tree_at, walkable_at, Tree};
use super::visits::{lemma_visits_bounded, vectors_before};
use vstd::prelude::*;

verus! {

// ---------------------------------------------------------------------------
// Partitions
// ---------------------------------------------------------------------------

/// Whether a partition holds row `x`.
spec fn in_partition(p: Partition, x: int) -> bool {
    p.start_vec <= x < p.start_vec + p.vec_count
}

/// The partitions of an index follow one upon the other.
proof fn lemma_partitions_apart(iv: IndexView, stored: Seq<RefRow>, p: int, r: int)
    requires
        index_holds(iv.partitions, iv.nodes, iv.panels, iv.labels, stored),
        0 <= p < r < iv.partitions.len(),
    ensures
        iv.partitions[p].start_vec + iv.partitions[p].vec_count <= iv.partitions[r].start_vec,
    decreases r,
{
    assert(iv.partitions[r].start_vec == partition_start(iv.partitions, r));
    if p < r - 1 {
        lemma_partitions_apart(iv, stored, p, r - 1);
    }
}

/// Every row of an index is in a partition.
proof fn lemma_row_has_partition(iv: IndexView, stored: Seq<RefRow>, x: int, n: int)
    requires
        index_holds(iv.partitions, iv.nodes, iv.panels, iv.labels, stored),
        0 <= n <= iv.partitions.len(),
        0 <= x < partition_start(iv.partitions, n),
    ensures
        exists|p: int| 0 <= p < n && in_partition(#[trigger] iv.partitions[p], x),
    decreases n,
{
    if n > 0 {
        assert(iv.partitions[n - 1].start_vec == partition_start(iv.partitions, n - 1));
        if x < iv.partitions[n - 1].start_vec {
            lemma_row_has_partition(iv, stored, x, n - 1);
        }
    }
}

/// An index has a partition for each key at most.
pub proof fn lemma_partition_count(iv: IndexView, stored: Seq<RefRow>)
    requires
        index_holds(iv.partitions, iv.nodes, iv.panels, iv.labels, stored),
    ensures
        iv.partitions.len() <= 256,
        forall|p: int| 0 <= p < iv.partitions.len() ==> (#[trigger] iv.partitions[p]).key < 256,
{
    assert forall|p: int| 0 <= p < iv.partitions.len() implies (#[trigger] iv.partitions[p]).key
        < 256 by {
        let rows = partition_rows(iv.partitions[p], stored);
        assert(partition_key(rows[0].vec@) == iv.partitions[p].key);
    }
    if iv.partitions.len() > 0 {
        lemma_keys_spread(iv, stored, iv.partitions.len() - 1);
        assert(iv.partitions[iv.partitions.len() - 1].key < 256);
    }
}

proof fn lemma_keys_spread(iv: IndexView, stored: Seq<RefRow>, p: int)
    requires
        index_holds(iv.partitions, iv.nodes, iv.panels, iv.labels, stored),
        0 <= p < iv.partitions.len(),
    ensures
        iv.partitions[p].key >= p,
    decreases p,
{
    if p > 0 {
        lemma_keys_spread(iv, stored, p - 1);
        assert(iv.partitions[p - 1].key < iv.partitions[p].key);
    }
}

/// The tree of a partition.
proof fn lemma_partition_tree(iv: IndexView, stored: Seq<RefRow>, p: int) -> (t: Tree)
    requires
        index_holds(iv.partitions, iv.nodes, iv.panels, iv.labels, stored),
        0 <= p < iv.partitions.len(),
    ensures
        ({
            let part = iv.partitions[p];
            &&& t == tree_at(iv.nodes, part.root_node as int)
            &&& partition_tree(
                t,
                part.root_node as int,
                iv.nodes,
                iv.panels,
                iv.labels,
                partition_rows(part, stored),
                part.start_vec as int,
            )
        }),
{
    let part = iv.partitions[p];
    let t = choose|t: Tree| #[trigger]
        partition_tree(
            t,
            part.root_node as int,
            iv.nodes,
            iv.panels,
            iv.labels,
            partition_rows(part, stored),
            part.start_vec as int,
        );
    assert(partition_holds(part, iv.nodes, iv.panels, iv.labels, stored));
    lemma_tree_at(iv.nodes, t);
    t
}

proof fn lemma_tree_fits(
    t: Tree,
    nodes: Seq<Node>,
    panels: Seq<i16>,
    labels: Seq<u8>,
    rows: Seq<RefRow>,
    first: int,
)
    requires
        tree_holds(t, nodes, panels, labels, rows, first),
    ensures
        t.leaves_fit(nodes, panels.len(), labels.len()),
        t.vectors(nodes) == rows.len(),
    decreases t,
{
    match t {
        Tree::Leaf(_) => {},
        Tree::Inner(_, l, r) => {
            let mid = rows.len() as int / 2;
            lemma_tree_fits(*l, nodes, panels, labels, rows.take(mid), first);
            lemma_tree_fits(*r, nodes, panels, labels, rows.skip(mid), first + mid);
        },
    }
}

/// A built index can be searched.
pub proof fn lemma_index_searchable(iv: IndexView, stored: Seq<RefRow>)
    requires
        index_holds(iv.partitions, iv.nodes, iv.panels, iv.labels, stored),
    ensures
        iv.searchable(),
{
    assert forall|p: int| 0 <= p < iv.partitions.len() implies walkable_at(
        iv.nodes,
        (#[trigger] iv.partitions[p]).root_node as int,
        iv.panels.len(),
        iv.labels.len(),
    ) by {
        let part = iv.partitions[p];
        assert(partition_holds(part, iv.nodes, iv.panels, iv.labels, stored));
        let t = lemma_partition_tree(iv, stored, p);
        lemma_tree_fits(
            t,
            iv.nodes,
            iv.panels,
            iv.labels,
            partition_rows(part, stored),
            part.start_vec as int,
        );
        assert(t.walkable(iv.nodes, iv.panels.len(), iv.labels.len()));
    }
}

// ---------------------------------------------------------------------------
// A built index holds its rows
// ---------------------------------------------------------------------------

/// Whether the rows of a block are the stored rows from `first` on.
spec fn is_block(rows: Seq<RefRow>, stored: Seq<RefRow>, first: int) -> bool {
    &&& 0 <= first
    &&& first + rows.len() <= stored.len()
    &&& rows == stored.subrange(first, first + rows.len())
}

/// A bounding box contains its rows.
proof fn lemma_bounding_box(rows: Seq<RefRow>, i: int)
    requires
        0 <= i < rows.len(),
    ensures
        in_box(box_min(rows), box_max(rows), rows[i]),
{
    assert forall|d: int| 0 <= d < PACKED_DIMS implies box_min(rows)[d] <= #[trigger] rows[i].vec@[d]
        <= box_max(rows)[d] by {
        lemma_extremes(rows, d, rows.len() as int);
    }
}

/// The bounding box of rows that a query can be compared with is in reach.
proof fn lemma_bounding_box_in_reach(rows: Seq<RefRow>, q: Seq<i16>)
    requires
        all_comparable(rows, q),
    ensures
        in_reach(box_min(rows), box_max(rows), q),
{
    let n = rows.len() as int;
    assert forall|d: int| 0 <= d < DIM implies (#[trigger] q[d]) - box_min(rows)[d] <= 0x8000
        && box_max(rows)[d] - q[d] <= 0x8000 by {
        let lo = lowest(rows, d, n);
        let hi = highest(rows, d, n);
        lemma_extremes_attained(rows, d, n);
        if lo != i16::MAX {
            let k = choose|k: int| 0 <= k < n && (#[trigger] rows[k]).vec@[d] == lo;
            assert(comparable(rows[k], q));
            assert(-0x8000 < rows[k].vec@[d] - q[d]);
        }
        if hi != i16::MIN {
            let k = choose|k: int| 0 <= k < n && (#[trigger] rows[k]).vec@[d] == hi;
            assert(comparable(rows[k], q));
            assert(rows[k].vec@[d] - q[d] < 0x8000);
        }
    }
}

/// A tree that holds a block of rows is sound.
#[verifier::spinoff_prover]
proof fn lemma_held_tree(
    t: Tree,
    iv: IndexView,
    rows: Seq<RefRow>,
    stored: Seq<RefRow>,
    first: int,
)
    requires
        tree_holds(t, iv.nodes, iv.panels, iv.labels, rows, first),
        is_block(rows, stored, first),
    ensures
        tree_rows(t, iv.nodes) == span(first, rows.len() as int),
        tree_sound(t, iv, stored),
    decreases t,
{
    match t {
        Tree::Leaf(i) => {
            let n = iv.nodes[i];
            assert forall|j: int| 0 <= j < n.vec_count implies #[trigger] row_shown(
                iv,
                n,
                j,
                stored,
            ) by {
                assert(stored[first + j] == rows[j]);
            }
        },
        Tree::Inner(_, l, r) => {
            let mid = rows.len() as int / 2;
            let left = rows.take(mid);
            let right = rows.skip(mid);
            assert(left =~= stored.subrange(first, first + mid));
            assert(right =~= stored.subrange(first + mid, first + mid + right.len()));
            lemma_held_tree(*l, iv, left, stored, first);
            lemma_held_tree(*r, iv, right, stored, first + mid);
            assert(tree_rows(t, iv.nodes) =~= span(first, rows.len() as int));
        },
    }
    assert forall|x: int| #[trigger] tree_rows(t, iv.nodes).contains(x) implies 0 <= x
        < stored.len() && in_box(
        iv.nodes[t.root()].min@,
        iv.nodes[t.root()].max@,
        stored[x],
    ) by {
        assert(rows[x - first] == stored[x]);
        lemma_bounding_box(rows, x - first);
    }
}

/// The boxes of a tree over rows that a query can be compared with are in
/// reach.
proof fn lemma_held_in_reach(t: Tree, iv: IndexView, rows: Seq<RefRow>, first: int, q: Seq<i16>)
    requires
        tree_holds(t, iv.nodes, iv.panels, iv.labels, rows, first),
        all_comparable(rows, q),
    ensures
        tree_in_reach(t, iv.nodes, q),
    decreases t,
{
    lemma_bounding_box_in_reach(rows, q);
    if let Tree::Inner(_, l, r) = t {
        let mid = rows.len() as int / 2;
        let left = rows.take(mid);
        let right = rows.skip(mid);
        assert forall|i: int| 0 <= i < left.len() implies #[trigger] comparable(left[i], q) by {
            assert(comparable(rows[i], q));
        }
        assert forall|i: int| 0 <= i < right.len() implies #[trigger] comparable(right[i], q) by {
            assert(comparable(rows[mid + i], q));
        }
        lemma_held_in_reach(*l, iv, left, first, q);
        lemma_held_in_reach(*r, iv, right, first + mid, q);
    }
}

/// The rows of a partition, as the search finds them.
proof fn lemma_held_partition(iv: IndexView, stored: Seq<RefRow>, p: int)
    requires
        index_holds(iv.partitions, iv.nodes, iv.panels, iv.labels, stored),
        0 <= p < iv.partitions.len(),
    ensures
        partition_sound(iv, p, stored),
        rows_in(iv, p) == span(
            iv.partitions[p].start_vec as int,
            iv.partitions[p].vec_count as int,
        ),
{
    let part = iv.partitions[p];
    let rows = partition_rows(part, stored);
    assert(partition_holds(part, iv.nodes, iv.panels, iv.labels, stored));
    let t = lemma_partition_tree(iv, stored, p);
    lemma_held_tree(t, iv, rows, stored, part.start_vec as int);
    assert forall|x: int| #[trigger] rows_in(iv, p).contains(x) implies 0 <= x < stored.len()
        && in_box(part.min@, part.max@, stored[x]) by {
        assert(rows[x - part.start_vec] == stored[x]);
        lemma_bounding_box(rows, x - part.start_vec);
    }
}

/// A built index is sound, and holds all of its rows.
pub proof fn lemma_index_sound(iv: IndexView, stored: Seq<RefRow>)
    requires
        index_holds(iv.partitions, iv.nodes, iv.panels, iv.labels, stored),
    ensures
        index_sound(iv, stored),
        all_rows(iv) == span(0, stored.len() as int),
{
    lemma_index_searchable(iv, stored);
    lemma_partition_count(iv, stored);
    assert forall|p: int| 0 <= p < iv.partitions.len() implies #[trigger] partition_sound(
        iv,
        p,
        stored,
    ) by {
        lemma_held_partition(iv, stored, p);
    }
    assert forall|p: int, r: int| 0 <= p < r < iv.partitions.len() implies (#[trigger] rows_in(
        iv,
        p,
    )).disjoint(#[trigger] rows_in(iv, r)) by {
        lemma_held_partition(iv, stored, p);
        lemma_held_partition(iv, stored, r);
        lemma_partitions_apart(iv, stored, p, r);
    }
    let all = span(0, stored.len() as int);
    let parts = span(0, iv.partitions.len() as int);
    assert forall|x: int| all.contains(x) == all_rows(iv).contains(x) by {
        if all.contains(x) {
            lemma_row_has_partition(iv, stored, x, iv.partitions.len() as int);
            let p = choose|p: int|
                0 <= p < iv.partitions.len() && in_partition(#[trigger] iv.partitions[p], x);
            lemma_held_partition(iv, stored, p);
            assert(parts.contains(p) && rows_in(iv, p).contains(x));
        } else if all_rows(iv).contains(x) {
            let p = choose|p: int|
                0 <= p < iv.partitions.len() && parts.contains(p) && #[trigger] rows_in(
                    iv,
                    p,
                ).contains(x);
            assert(partition_sound(iv, p, stored));
            assert(box_around(
                iv.partitions[p].min@,
                iv.partitions[p].max@,
                rows_in(iv, p),
                stored,
            ));
        }
    }
    assert(all_rows(iv) =~= all);
}

/// The boxes of a built index are in reach of a query that can be compared
/// with its rows.
pub proof fn lemma_index_in_reach(iv: IndexView, stored: Seq<RefRow>, q: Seq<i16>)
    requires
        index_holds(iv.partitions, iv.nodes, iv.panels, iv.labels, stored),
        all_comparable(stored, q),
    ensures
        boxes_in_reach(iv, q),
{
    assert forall|p: int| 0 <= p < iv.partitions.len() implies {
        &&& in_reach((#[trigger] iv.partitions[p]).min@, iv.partitions[p].max@, q)
        &&& tree_in_reach(tree_of(iv, p), iv.nodes, q)
    } by {
        let part = iv.partitions[p];
        let rows = partition_rows(part, stored);
        assert(partition_holds(part, iv.nodes, iv.panels, iv.labels, stored));
        assert forall|i: int| 0 <= i < rows.len() implies #[trigger] comparable(rows[i], q) by {
            assert(comparable(stored[part.start_vec + i], q));
        }
        let t = lemma_partition_tree(iv, stored, p);
        lemma_bounding_box_in_reach(rows, q);
        lemma_held_in_reach(t, iv, rows, part.start_vec as int, q);
    }
}

/// A search in a built index is exact: unless it ends early, it finds nearest
/// neighbours of the query among all rows.
pub proof fn lemma_built_search_exact(iv: IndexView, stored: Seq<RefRow>, q: Seq<i16>, f: Found)
    requires
        index_holds(iv.partitions, iv.nodes, iv.panels, iv.labels, stored),
        all_comparable(stored, q),
        iv.finds(q, f),
    ensures
        nearest_of_some(f.best, stored, q, span(0, stored.len() as int)),
        worst(f.best) <= iv.early_distance_limit || f.visited >= iv.early_candidates_limit || (
        iv.strong_decision && worst(f.best) <= 4_000_000 && (votes(f.best) == 0 || votes(f.best)
            == 5)) || nearest_of(f.best, stored, q, span(0, stored.len() as int)),
{
    lemma_index_sound(iv, stored);
    lemma_index_in_reach(iv, stored, q);
    lemma_search_exact(iv, stored, q, f);
}

// ---------------------------------------------------------------------------
// Quantised features
// ---------------------------------------------------------------------------

/// Whether the coordinates of a vector come from features between 0 and 1,
/// with -1 for what is unknown of a previous transaction.
pub open spec fn quantised(v: Seq<i16>) -> bool {
    &&& v.len() == PACKED_DIMS
    &&& forall|d: int|
        0 <= d < PACKED_DIMS ==> (if d == 5 || d == 6 {
            -10000
        } else {
            0int
        }) <= #[trigger] v[d] <= (if d < DIM {
            10000
        } else {
            0int
        })
}

proof fn lemma_quantised_distance(v: Seq<i16>, q: Seq<i16>, n: int)
    requires
        quantised(v),
        quantised(q),
        0 <= n <= DIM,
    ensures
        square_distance(v.take(DIM as int), q, n) <= 100_000_000 * n + (if n > 6 {
            600_000_000int
        } else if n > 5 {
            300_000_000
        } else {
            0
        }),
    decreases n,
{
    if n > 0 {
        lemma_quantised_distance(v, q, n - 1);
        let d = n - 1;
        let x = v[d] - q[d];
        assert(v.take(DIM as int)[d] == v[d]);
        if d == 5 || d == 6 {
            assert(x * x <= 400_000_000) by (nonlinear_arith)
                requires
                    -20_000 <= x <= 20_000,
            ;
        } else {
            assert(x * x <= 100_000_000) by (nonlinear_arith)
                requires
                    -10_000 <= x <= 10_000,
            ;
        }
    }
}

/// Quantised features can always be compared.
pub proof fn lemma_quantised_comparable(rows: Seq<RefRow>, q: Seq<i16>)
    requires
        forall|i: int| 0 <= i < rows.len() ==> quantised((#[trigger] rows[i]).vec@),
        quantised(q),
    ensures
        all_comparable(rows, q),
{
    assert forall|i: int| 0 <= i < rows.len() implies #[trigger] comparable(rows[i], q) by {
        let v = rows[i].vec@;
        assert(quantised(v));
        lemma_quantised_distance(v, q, DIM as int);
        assert forall|d: int| 0 <= d < DIM implies -0x8000 < #[trigger] v[d] - q[d] < 0x8000 by {
            assert(-10_000 <= v[d] <= 10_000);
            assert(-10_000 <= q[d] <= 10_000);
        }
    }
}

// ---------------------------------------------------------------------------
// Laws
// ---------------------------------------------------------------------------

/// An answer from a built index is exact: a query that the fast path leaves
/// open is answered with the number of frauds among nearest neighbours of it,
/// unless the search ends early.
pub proof fn lemma_built_answer_exact(iv: IndexView, stored: Seq<RefRow>, v: Seq<i16>, n: int)
    requires
        index_holds(iv.partitions, iv.nodes, iv.panels, iv.labels, stored),
        forall|i: int|
            0 <= i < stored.len() ==> quantised((#[trigger] stored[i]).vec@) && stored[i].label <= 1,
        quantised(padded(v)),
        !obviously_legit(v),
        !obviously_fraud(v),
        iv.answers(v, n),
    ensures
        0 <= n <= K,
        exists|f: Found|
            {
                &&& #[trigger] iv.finds(padded(v), f)
                &&& n == votes(f.best)
                &&& worst(f.best) <= iv.early_distance_limit || f.visited >= iv.early_candidates_limit || (
                iv.strong_decision && worst(f.best) <= 4_000_000 && (votes(f.best) == 0 || votes(f.best)
                    == 5)) || nearest_of(
                    f.best,
                    stored,
                    padded(v),
                    span(0, stored.len() as int),
                )
            },
{
    lemma_quantised_comparable(stored, padded(v));
    lemma_index_sound(iv, stored);
    lemma_index_in_reach(iv, stored, padded(v));
    assert forall|i: int| 0 <= i < iv.labels.len() implies #[trigger] iv.labels[i] <= 1 by {
        assert(iv.labels[i] == stored[i].label);
    }
    lemma_answer_exact(iv, stored, v, n);
}

proof fn lemma_vectors_before(iv: IndexView, stored: Seq<RefRow>, n: int)
    requires
        index_holds(iv.partitions, iv.nodes, iv.panels, iv.labels, stored),
        0 <= n <= iv.partitions.len(),
    ensures
        vectors_before(iv, n) == partition_start(iv.partitions, n),
    decreases n,
{
    if n > 0 {
        lemma_vectors_before(iv, stored, n - 1);
        let part = iv.partitions[n - 1];
        assert(partition_holds(part, iv.nodes, iv.panels, iv.labels, stored));
        assert(part.start_vec == partition_start(iv.partitions, n - 1));
        let t = lemma_partition_tree(iv, stored, n - 1);
        lemma_tree_fits(
            t,
            iv.nodes,
            iv.panels,
            iv.labels,
            partition_rows(part, stored),
            part.start_vec as int,
        );
    }
}

/// Number of frauds among some rows.
pub open spec fn frauds_in(ids: Seq<int>, rows: Seq<RefRow>) -> int
    decreases ids.len(),
{
    if ids.len() == 0 {
        0
    } else {
        frauds_in(ids.drop_last(), rows) + rows[ids.last()].label
    }
}

/// Squared distance of two vectors over the fourteen dimensions.
pub open spec fn distance(a: Seq<i16>, b: Seq<i16>, n: int) -> int
    decreases n,
{
    if n <= 0 {
        0
    } else {
        distance(a, b, n - 1) + (a[n - 1] - b[n - 1]) * (a[n - 1] - b[n - 1])
    }
}

proof fn lemma_row_distance(r: RefRow, q: Seq<i16>, n: int)
    requires
        n <= 14,
    ensures
        square_distance(row_vector(r), q, n) == distance(r.vec@, q, n),
    decreases n,
{
    if n > 0 {
        lemma_row_distance(r, q, n - 1);
        assert(row_vector(r)[n - 1] == r.vec@[n - 1]);
    }
}

/// The votes of a list are the frauds among its rows.
proof fn lemma_votes_of_rows(
    best: Seq<Entry>,
    ids: Seq<int>,
    rows: Seq<RefRow>,
    q: Seq<i16>,
    n: int,
)
    requires
        lists(best, ids, rows, q),
        0 <= n <= 5,
    ensures
        label_sum(labels_of(best), n) == frauds_in(
            if n <= ids.len() {
                ids.take(n)
            } else {
                ids
            },
            rows,
        ),
    decreases n,
{
    if n > 0 {
        lemma_votes_of_rows(best, ids, rows, q, n - 1);
        assert(labels_of(best)[n - 1] == best[n - 1].1);
        if n <= ids.len() {
            assert(ids.take(n).drop_last() =~= ids.take(n - 1));
            assert(ids.take(n).last() == ids[n - 1]);
        } else {
            assert(best[n - 1] == (i64::MAX, 0u8));
            if n - 1 <= ids.len() {
                assert(ids.take(n - 1) =~= ids);
            }
        }
    } else {
        assert(ids.take(0) =~= Seq::<int>::empty());
    }
}

/// Whether some rows are at most five different ones.
pub open spec fn are_five(ids: Seq<int>, rows: Seq<RefRow>) -> bool {
    &&& ids.len() <= 5
    &&& forall|i: int| 0 <= i < ids.len() ==> 0 <= #[trigger] ids[i] < rows.len()
    &&& forall|i: int, j: int|
        0 <= i < j < ids.len() ==> #[trigger] ids[i] != #[trigger] ids[j]
}

/// Whether some rows are five nearest ones of a query among all rows, or all
/// rows where there are no more than five.
pub open spec fn are_nearest(ids: Seq<int>, rows: Seq<RefRow>, q: Seq<i16>) -> bool {
    &&& ids.len() == 5 || forall|x: int| 0 <= x < rows.len() ==> #[trigger] ids.contains(x)
    &&& forall|x: int, i: int|
        0 <= x < rows.len() && !ids.contains(x) && 0 <= i < ids.len() ==> distance(
            #[trigger] rows[x].vec@,
            q,
            14,
        ) >= distance(rows[#[trigger] ids[i]].vec@, q, 14)
}

/// A search that ends early has met one of its limits. With a limit on the
/// distance alone, a query that no gate answers is answered with the number of
/// frauds among the five rows nearest to it, or among five rows that all lie
/// within the limit.
#[verifier::spinoff_prover]
pub proof fn lemma_answer_or_limit(iv: IndexView, stored: Seq<RefRow>, v: Seq<i16>, n: int)
    requires
        index_holds(iv.partitions, iv.nodes, iv.panels, iv.labels, stored),
        forall|i: int|
            0 <= i < stored.len() ==> quantised((#[trigger] stored[i]).vec@) && stored[i].label <= 1,
        quantised(padded(v)),
        !(v[11] == 0 && v[0] <= 500 && v[1] <= 2500 && v[2] <= 500 && v[7] <= 500 && v[8] <= 2500
            && (v[12] == 1500 || v[12] == 2000 || v[12] == 2500 || v[12] == 3000)),
        !(v[11] == 10000 && v[0] >= 5000 && v[1] >= 4167 && v[7] >= 1500 && v[8] >= 3000),
        !iv.strong_decision,
        iv.early_candidates_limit > stored.len(),
        iv.answers(v, n),
    ensures
        exists|ids: Seq<int>|
            {
                &&& #[trigger] are_five(ids, stored)
                &&& n == frauds_in(ids, stored)
                &&& are_nearest(ids, stored, padded(v)) || {
                    &&& ids.len() == 5 || iv.early_distance_limit == i64::MAX
                    &&& forall|i: int|
                        0 <= i < ids.len() ==> distance(
                            stored[#[trigger] ids[i]].vec@,
                            padded(v),
                            14,
                        ) <= iv.early_distance_limit
                }
            },
{
    let q = padded(v);
    lemma_legit_limits(v);
    lemma_fraud_limits(v);
    lemma_quantised_comparable(stored, q);
    assert forall|i: int| 0 <= i < iv.labels.len() implies #[trigger] iv.labels[i] <= 1 by {
        assert(iv.labels[i] == stored[i].label);
    }
    lemma_index_sound(iv, stored);
    lemma_count_is_votes(iv, q, n);
    let f = choose|f: Found| #[trigger] iv.finds(q, f) && n == votes(f.best);
    lemma_built_search_exact(iv, stored, q, f);
    lemma_visits_bounded(iv, q, f);
    lemma_vectors_before(iv, stored, iv.partitions.len() as int);
    let all = span(0, stored.len() as int);
    let near = worst(f.best) <= iv.early_distance_limit;
    let part = if near {
        choose|part: Set<int>| #[trigger]
            nearest_of(f.best, stored, q, part) && part.subset_of(all)
    } else {
        all
    };
    assert(nearest_of(f.best, stored, q, part));
    let ids = choose|ids: Seq<int>|
        {
            &&& #[trigger] lists(f.best, ids, stored, q)
            &&& forall|i: int| 0 <= i < ids.len() ==> part.contains(#[trigger] ids[i])
            &&& none_nearer(f.best, ids, stored, q, part)
        };
    lemma_votes_of_rows(f.best, ids, stored, q, 5);
    assert(ids.len() == 5 ==> ids.take(5) =~= ids);
    assert(are_five(ids, stored));
    assert forall|x: int| 0 <= x < stored.len() implies row_distance(stored[x], q) == distance(
        #[trigger] stored[x].vec@,
        q,
        14,
    ) && row_distance(stored[x], q) < 0x8000_0000 by {
        lemma_row_distance(stored[x], q, 14);
        assert(comparable(stored[x], q));
    }
    assert forall|i: int| 0 <= i < ids.len() implies distance(
        stored[#[trigger] ids[i]].vec@,
        q,
        14,
    ) <= worst(f.best) by {
        assert(f.best[i].0 <= f.best[4].0);
    }
    if near {
        if ids.len() < 5 {
            assert(f.best[4] == (i64::MAX, 0u8));
        }
    } else {
        assert forall|x: int, i: int|
            0 <= x < stored.len() && !ids.contains(x) && 0 <= i < ids.len() implies distance(
            #[trigger] stored[x].vec@,
            q,
            14,
        ) >= distance(stored[#[trigger] ids[i]].vec@, q, 14) by {
            assert(all.contains(x));
        }
        if ids.len() < 5 {
            assert(f.best[4] == (i64::MAX, 0u8));
            assert forall|x: int| 0 <= x < stored.len() implies #[trigger] ids.contains(x) by {
                assert(all.contains(x));
                let r = stored[x].vec@;
            }
        }
        assert(are_nearest(ids, stored, q));
    }
}

/// Rows that are built into an index, written to a file and loaded again answer
/// queries: with the default limits, a query that no gate answers is answered
/// with the number of frauds among the five rows nearest to it, or among five
/// rows that all lie within the limit on the distance.
pub proof fn lemma_loaded_answer(
    rows: Seq<RefRow>,
    image: IndexImage,
    s: Seq<u8>,
    iv: IndexView,
    v: Seq<i16>,
    n: int,
) -> (stored: Seq<RefRow>)
    requires
        exists|stored: Seq<RefRow>|
            {
                &&& stored.to_multiset() == rows.to_multiset()
                &&& #[trigger] index_holds(
                    image.partitions@,
                    image.nodes@,
                    image.panels@,
                    image.labels@,
                    stored,
                )
            },
        countable(image),
        encodes(s, image),
        decoded(s, iv),
        forall|i: int|
            0 <= i < rows.len() ==> quantised((#[trigger] rows[i]).vec@) && rows[i].label <= 1,
        quantised(padded(v)),
        !(v[11] == 0 && v[0] <= 500 && v[1] <= 2500 && v[2] <= 500 && v[7] <= 500 && v[8] <= 2500
            && (v[12] == 1500 || v[12] == 2000 || v[12] == 2500 || v[12] == 3000)),
        !(v[11] == 10000 && v[0] >= 5000 && v[1] >= 4167 && v[7] >= 1500 && v[8] >= 3000),
        !iv.strong_decision,
        iv.early_candidates_limit > rows.len(),
        iv.answers(v, n),
    ensures
        stored.to_multiset() == rows.to_multiset(),
        exists|ids: Seq<int>|
            {
                &&& #[trigger] are_five(ids, stored)
                &&& n == frauds_in(ids, stored)
                &&& are_nearest(ids, stored, padded(v)) || {
                    &&& ids.len() == 5 || iv.early_distance_limit == i64::MAX
                    &&& forall|i: int|
                        0 <= i < ids.len() ==> distance(
                            stored[#[trigger] ids[i]].vec@,
                            padded(v),
                            14,
                        ) <= iv.early_distance_limit
                }
            },
{
    broadcast use vstd::seq_lib::group_to_multiset_ensures;

    let stored = choose|stored: Seq<RefRow>|
        {
            &&& stored.to_multiset() == rows.to_multiset()
            &&& #[trigger] index_holds(
                image.partitions@,
                image.nodes@,
                image.panels@,
                image.labels@,
                stored,
            )
        };
    lemma_round_trip(s, image, iv);
    assert(stored.len() == stored.to_multiset().len());
    assert(rows.len() == rows.to_multiset().len());
    assert forall|i: int| 0 <= i < stored.len() implies quantised((#[trigger] stored[i]).vec@)
        && stored[i].label <= 1 by {
        assert(stored.contains(stored[i]));
        assert(stored.to_multiset().count(stored[i]) > 0);
        assert(rows.contains(stored[i]));
        let k = choose|k: int| 0 <= k < rows.len() && rows[k] == stored[i];
        assert(quantised(rows[k].vec@) && rows[k].label <= 1);
    }
    lemma_answer_or_limit(iv, stored, v, n);
    stored
}

/// Building, writing, loading and searching fit together: a search in the
/// loaded index finds nearest neighbours among the rows that it was built
/// from, unless it ends early.
pub proof fn lemma_built_index_exact(
    rows: Seq<RefRow>,
    image: IndexImage,
    s: Seq<u8>,
    iv: IndexView,
    q: Seq<i16>,
    f: Found,
) -> (stored: Seq<RefRow>)
    requires
        exists|stored: Seq<RefRow>|
            {
                &&& stored.to_multiset() == rows.to_multiset()
                &&& #[trigger] index_holds(
                    image.partitions@,
                    image.nodes@,
                    image.panels@,
                    image.labels@,
                    stored,
                )
            },
        countable(image),
        encodes(s, image),
        decoded(s, iv),
        forall|i: int| 0 <= i < rows.len() ==> quantised((#[trigger] rows[i]).vec@),
        quantised(q),
        iv.finds(q, f),
    ensures
        load_error(s) is None,
        iv.searchable(),
        stored.to_multiset() == rows.to_multiset(),
        nearest_of_some(f.best, stored, q, span(0, rows.len() as int)),
        worst(f.best) <= iv.early_distance_limit || f.visited >= iv.early_candidates_limit || (
        iv.strong_decision && worst(f.best) <= 4_000_000 && (votes(f.best) == 0 || votes(f.best)
            == 5)) || nearest_of(f.best, stored, q, span(0, rows.len() as int)),
{
    broadcast use vstd::seq_lib::group_to_multiset_ensures;

    let stored = choose|stored: Seq<RefRow>|
        {
            &&& stored.to_multiset() == rows.to_multiset()
            &&& #[trigger] index_holds(
                image.partitions@,
                image.nodes@,
                image.panels@,
                image.labels@,
                stored,
            )
        };
    lemma_round_trip(s, image, iv);
    lemma_encoded_loads(s, image, iv);
    lemma_index_searchable(iv, stored);
    assert(stored.len() == stored.to_multiset().len());
    assert(rows.len() == rows.to_multiset().len());
    assert forall|i: int| 0 <= i < stored.len() implies quantised((#[trigger] stored[i]).vec@) by {
        assert(stored.contains(stored[i]));
        assert(stored.to_multiset().count(stored[i]) > 0);
        assert(rows.contains(stored[i]));
        let k = choose|k: int| 0 <= k < rows.len() && rows[k] == stored[i];
        assert(quantised(rows[k].vec@));
    }
    lemma_quantised_comparable(stored, q);
    lemma_built_search_exact(iv, stored, q, f);
    stored
}

} // verus!
