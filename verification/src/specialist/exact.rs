//! Searches are exact.
//!
//! A search skips whatever lies behind a bounding box that is too far away,
//! and may stop early. Short of an early stop, it finds the nearest
//! neighbours of a query among all rows of the index.

use super::best::{
    inserted, is_sorted, lemma_inserted_sorted, lemma_slot_bounds, no_entries, slot, votes, worst,
    Entry, K,
};
use super::counts::{binary_labels, lemma_count_is_votes};
use super::format::{panel_vector, Node, TREE_STACK_CAPACITY};
use super::geometry::{
    box_bound, box_gap, box_total, lane_distance, lemma_box_bound_range, lemma_lane_total_exact,
    max2, obviously_fraud, obviously_legit, padded, partition_key, square_distance, wrap16, DIM,
    PACKED_DIMS,
};
use super::rows::{row_vector, RefRow};
use super::search::{lemma_partition_with_key, lemma_search_order, offered, Found, IndexView, Walk};
use super::tree::{tree_at, Tree};
use vstd::prelude::*;

verus! {

// ---------------------------------------------------------------------------
// Distances
// ---------------------------------------------------------------------------

/// Squared Euclidean distance of a row from a query.
pub open spec fn row_distance(r: RefRow, q: Seq<i16>) -> int {
    square_distance(row_vector(r), q, DIM as int)
}

/// Whether the distance of a row from a query, and that of any box around
/// the row, fits the lanes that it is computed in.
pub open spec fn comparable(r: RefRow, q: Seq<i16>) -> bool {
    &&& forall|d: int| 0 <= d < DIM ==> -0x8000 < #[trigger] r.vec@[d] - q[d] < 0x8000
    &&& forall|d: int| DIM <= d < PACKED_DIMS ==> #[trigger] r.vec@[d] == 0
    &&& row_distance(r, q) < 0x8000_0000
}

/// Whether a query can be compared with all rows.
pub open spec fn all_comparable(rows: Seq<RefRow>, q: Seq<i16>) -> bool {
    &&& forall|i: int| 0 <= i < rows.len() ==> #[trigger] comparable(rows[i], q)
    &&& forall|d: int| DIM <= d < PACKED_DIMS ==> #[trigger] q[d] == 0
}

/// The distance that a scan computes is the squared Euclidean distance.
pub proof fn lemma_scan_distance(r: RefRow, q: Seq<i16>)
    requires
        comparable(r, q),
    ensures
        lane_distance(row_vector(r), q) == row_distance(r, q),
        row_distance(r, q) >= 0,
{
    let v = row_vector(r);
    assert forall|d: int| 0 <= d < DIM implies -0x8000 <= #[trigger] v[d] - q[d] < 0x8000 by {
        assert(v[d] == r.vec@[d]);
        assert(-0x8000 < r.vec@[d] - q[d] < 0x8000);
    }
    lemma_lane_total_exact(v, q, DIM as int);
}

/// The squared gap to a box is at most the squared distance to a point in it.
proof fn lemma_gap_square(gap: int, diff: int)
    requires
        0 <= gap,
        gap <= diff || gap <= -diff || gap == 0,
    ensures
        gap * gap <= diff * diff,
{
    assert(gap * gap <= diff * diff) by (nonlinear_arith)
        requires
            0 <= gap,
            gap <= diff || gap <= -diff || gap == 0,
    ;
}

/// Whether a box contains a row.
pub open spec fn in_box(min: Seq<i16>, max: Seq<i16>, r: RefRow) -> bool {
    forall|d: int| 0 <= d < PACKED_DIMS ==> min[d] <= #[trigger] r.vec@[d] <= max[d]
}

/// Whether the corners of a box are near enough to a query for the lanes that
/// its lower bound is computed in.
pub open spec fn in_reach(min: Seq<i16>, max: Seq<i16>, q: Seq<i16>) -> bool {
    forall|d: int| 0 <= d < DIM ==> (#[trigger] q[d]) - min[d] <= 0x8000 && max[d] - q[d] <= 0x8000
}

#[verifier::spinoff_prover]
proof fn lemma_box_total_bound(min: Seq<i16>, max: Seq<i16>, r: RefRow, q: Seq<i16>, n: int)
    requires
        in_box(min, max, r),
        in_reach(min, max, q),
        comparable(r, q),
        forall|d: int| DIM <= d < PACKED_DIMS ==> #[trigger] q[d] == 0,
        0 <= n <= PACKED_DIMS,
    ensures
        box_total(q, min, max, n) <= square_distance(
            row_vector(r),
            q,
            if n < DIM {
                n
            } else {
                DIM as int
            },
        ),
    decreases n,
{
    if n > 0 {
        lemma_box_total_bound(min, max, r, q, n - 1);
        let d = n - 1;
        let gap = box_gap(q, min, max, d);
        assert(min[d] <= r.vec@[d] <= max[d]);
        if d < DIM {
            assert(q[d] - min[d] <= 0x8000 && max[d] - q[d] <= 0x8000);
            assert(-0x8000 < r.vec@[d] - q[d] < 0x8000);
            assert(wrap16(min[d] - q[d]) == min[d] - q[d]);
            assert(wrap16(q[d] - max[d]) == q[d] - max[d]);
            assert(row_vector(r)[d] == r.vec@[d]);
            lemma_gap_square(gap, r.vec@[d] - q[d]);
        } else {
            assert(r.vec@[d] == 0);
            assert(q[d] == 0);
            assert(gap == 0);
        }
    }
}

/// No row is nearer than a box around it.
pub proof fn lemma_box_is_lower_bound(min: Seq<i16>, max: Seq<i16>, r: RefRow, q: Seq<i16>)
    requires
        in_box(min, max, r),
        in_reach(min, max, q),
        comparable(r, q),
        forall|d: int| DIM <= d < PACKED_DIMS ==> #[trigger] q[d] == 0,
    ensures
        box_bound(q, min, max) <= row_distance(r, q),
{
    lemma_box_total_bound(min, max, r, q, PACKED_DIMS as int);
}

// ---------------------------------------------------------------------------
// Nearest neighbours
// ---------------------------------------------------------------------------

/// Whether the list holds the rows `ids`, nearest first, and is filled up
/// with farthest entries.
pub open spec fn lists(best: Seq<Entry>, ids: Seq<int>, rows: Seq<RefRow>, q: Seq<i16>) -> bool {
    &&& best.len() == K
    &&& is_sorted(best)
    &&& ids.len() <= K
    &&& ids.no_duplicates()
    &&& forall|i: int|
        0 <= i < ids.len() ==> {
            &&& 0 <= #[trigger] ids[i] < rows.len()
            &&& best[i].0 == row_distance(rows[ids[i]], q)
            &&& best[i].1 == rows[ids[i]].label
        }
    &&& forall|i: int| ids.len() <= i < K ==> #[trigger] best[i] == (i64::MAX, 0u8)
}

/// Whether no row in `seen` that is left out of `ids` is nearer than the last
/// entry of the list.
pub open spec fn none_nearer(
    best: Seq<Entry>,
    ids: Seq<int>,
    rows: Seq<RefRow>,
    q: Seq<i16>,
    seen: Set<int>,
) -> bool {
    forall|x: int| #[trigger]
        seen.contains(x) && !ids.contains(x) ==> row_distance(rows[x], q) >= worst(best)
}

/// Whether the list holds nearest neighbours of `q` among the rows in `seen`:
/// as many as it has room for, and none of the others is nearer.
pub open spec fn nearest_of(
    best: Seq<Entry>,
    rows: Seq<RefRow>,
    q: Seq<i16>,
    seen: Set<int>,
) -> bool {
    exists|ids: Seq<int>|
        {
            &&& #[trigger] lists(best, ids, rows, q)
            &&& forall|i: int| 0 <= i < ids.len() ==> seen.contains(#[trigger] ids[i])
            &&& none_nearer(best, ids, rows, q, seen)
        }
}

/// The numbers from `first` on, `n` of them.
pub open spec fn span(first: int, n: int) -> Set<int> {
    Set::new(|x: int| first <= x < first + n)
}

/// One more row that was looked at.
#[verifier::spinoff_prover]
proof fn lemma_row_offered(
    best: Seq<Entry>,
    rows: Seq<RefRow>,
    q: Seq<i16>,
    seen: Set<int>,
    x: int,
)
    requires
        nearest_of(best, rows, q, seen),
        0 <= x < rows.len(),
        !seen.contains(x),
        comparable(rows[x], q),
    ensures
        nearest_of(
            inserted(best, (row_distance(rows[x], q) as i64, rows[x].label)),
            rows,
            q,
            seen.insert(x),
        ),
{
    let ids = choose|ids: Seq<int>|
        {
            &&& #[trigger] lists(best, ids, rows, q)
            &&& forall|i: int| 0 <= i < ids.len() ==> seen.contains(#[trigger] ids[i])
            &&& none_nearer(best, ids, rows, q, seen)
        };
    lemma_scan_distance(rows[x], q);
    let dist = row_distance(rows[x], q);
    let e: Entry = (dist as i64, rows[x].label);
    let next = inserted(best, e);
    let now = seen.insert(x);
    lemma_slot_bounds(best, dist, K as int);
    lemma_inserted_sorted(best, e);
    let p = slot(best, dist, K as int);
    if p == K {
        assert(next =~= best);
        assert(none_nearer(next, ids, rows, q, now));
        assert(lists(next, ids, rows, q));
    } else {
        assert(p <= ids.len()) by {
            if p > ids.len() {
                assert(best[p - 1] == (i64::MAX, 0u8));
            }
        }
        let longer = ids.insert(p, x);
        let kept = if longer.len() <= K {
            longer
        } else {
            longer.take(K as int)
        };
        assert(!ids.contains(x));
        assert forall|i: int, j: int| 0 <= i < kept.len() && 0 <= j < kept.len() && i != j implies kept[i]
            != kept[j] by {
            assert(kept[i] == longer[i]);
            assert(kept[j] == longer[j]);
            let a = if i < p {
                i
            } else {
                i - 1
            };
            let b = if j < p {
                j
            } else {
                j - 1
            };
            if i == p {
                assert(longer[j] == ids[b]);
            } else if j == p {
                assert(longer[i] == ids[a]);
            } else {
                assert(longer[i] == ids[a] && longer[j] == ids[b]);
            }
        }
        assert forall|i: int| 0 <= i < kept.len() implies {
            &&& 0 <= #[trigger] kept[i] < rows.len()
            &&& next[i].0 == row_distance(rows[kept[i]], q)
            &&& next[i].1 == rows[kept[i]].label
            &&& now.contains(kept[i])
        } by {
            if i < p {
                assert(kept[i] == ids[i]);
                assert(next[i] == best[i]);
            } else if i == p {
                assert(kept[i] == x);
                assert(next[i] == e);
            } else {
                assert(kept[i] == ids[i - 1]);
                assert(next[i] == best[i - 1]);
            }
        }
        assert forall|i: int| kept.len() <= i < K implies #[trigger] next[i] == (i64::MAX, 0u8) by {
            assert(next[i] == best[i - 1]);
        }
        assert(lists(next, kept, rows, q));
        assert forall|y: int| #[trigger] now.contains(y) && !kept.contains(y) implies row_distance(
            rows[y],
            q,
        ) >= worst(next) by {
            if y == x {
                assert(kept[p] == x);
            } else if ids.contains(y) {
                let k = choose|k: int| 0 <= k < ids.len() && ids[k] == y;
                let at = if k < p {
                    k
                } else {
                    k + 1
                };
                assert(longer[at] == y);
                if at < kept.len() {
                    assert(kept[at] == y);
                }
                assert(k == K - 1);
                assert(best[k].0 == row_distance(rows[y], q));
            } else {
                assert(seen.contains(y));
            }
        }
    }
}

/// Rows that are no nearer than the last entry can be left out.
proof fn lemma_far_rows(
    best: Seq<Entry>,
    rows: Seq<RefRow>,
    q: Seq<i16>,
    seen: Set<int>,
    more: Set<int>,
)
    requires
        nearest_of(best, rows, q, seen),
        forall|x: int| #[trigger] more.contains(x) ==> row_distance(rows[x], q) >= worst(best),
    ensures
        nearest_of(best, rows, q, seen.union(more)),
{
    let ids = choose|ids: Seq<int>|
        {
            &&& #[trigger] lists(best, ids, rows, q)
            &&& forall|i: int| 0 <= i < ids.len() ==> seen.contains(#[trigger] ids[i])
            &&& none_nearer(best, ids, rows, q, seen)
        };
    assert(lists(best, ids, rows, q));
    assert(none_nearer(best, ids, rows, q, seen.union(more)));
}

/// Whether the list holds nearest neighbours among some of the rows in `all`.
pub open spec fn nearest_of_some(
    best: Seq<Entry>,
    rows: Seq<RefRow>,
    q: Seq<i16>,
    all: Set<int>,
) -> bool {
    exists|part: Set<int>| #[trigger] nearest_of(best, rows, q, part) && part.subset_of(all)
}

proof fn lemma_some_of_more(
    best: Seq<Entry>,
    rows: Seq<RefRow>,
    q: Seq<i16>,
    few: Set<int>,
    all: Set<int>,
)
    requires
        nearest_of_some(best, rows, q, few),
        few.subset_of(all),
    ensures
        nearest_of_some(best, rows, q, all),
{
    let part = choose|part: Set<int>| #[trigger]
        nearest_of(best, rows, q, part) && part.subset_of(few);
    assert(nearest_of(best, rows, q, part) && part.subset_of(all));
}

// ---------------------------------------------------------------------------
// One tree
// ---------------------------------------------------------------------------

/// Whether vector `j` of a leaf is the row that stands in its place.
pub open spec fn row_shown(iv: IndexView, n: Node, j: int, stored: Seq<RefRow>) -> bool {
    let x = n.start_vec + j;
    &&& x < stored.len()
    &&& panel_vector(iv.panels, n.start_panel as int, j) == row_vector(stored[x])
    &&& iv.labels[x] == stored[x].label
}

/// Whether a leaf holds the rows that stand in its place.
pub open spec fn leaf_shows(iv: IndexView, n: Node, stored: Seq<RefRow>) -> bool {
    forall|j: int| 0 <= j < n.vec_count ==> #[trigger] row_shown(iv, n, j, stored)
}

/// The rows in the leaves of a tree.
pub open spec fn tree_rows(t: Tree, nodes: Seq<Node>) -> Set<int>
    decreases t,
{
    match t {
        Tree::Leaf(i) => span(nodes[i].start_vec as int, nodes[i].vec_count as int),
        Tree::Inner(_, l, r) => tree_rows(*l, nodes).union(tree_rows(*r, nodes)),
    }
}

/// Whether a box contains some rows.
pub open spec fn box_around(
    min: Seq<i16>,
    max: Seq<i16>,
    some: Set<int>,
    stored: Seq<RefRow>,
) -> bool {
    forall|x: int| #[trigger]
        some.contains(x) ==> 0 <= x < stored.len() && in_box(min, max, stored[x])
}

/// Whether a tree holds rows: each node with a box around the rows below it,
/// and no row in two leaves.
pub open spec fn tree_sound(t: Tree, iv: IndexView, stored: Seq<RefRow>) -> bool
    decreases t,
{
    &&& box_around(
        iv.nodes[t.root()].min@,
        iv.nodes[t.root()].max@,
        tree_rows(t, iv.nodes),
        stored,
    )
    &&& match t {
        Tree::Leaf(i) => leaf_shows(iv, iv.nodes[i], stored),
        Tree::Inner(_, l, r) => {
            &&& tree_sound(*l, iv, stored)
            &&& tree_sound(*r, iv, stored)
            &&& tree_rows(*l, iv.nodes).disjoint(tree_rows(*r, iv.nodes))
        },
    }
}

/// Whether all boxes of a tree are in reach of a query.
pub open spec fn tree_in_reach(t: Tree, nodes: Seq<Node>, q: Seq<i16>) -> bool
    decreases t,
{
    &&& in_reach(nodes[t.root()].min@, nodes[t.root()].max@, q)
    &&& match t {
        Tree::Leaf(_) => true,
        Tree::Inner(_, l, r) => tree_in_reach(*l, nodes, q) && tree_in_reach(*r, nodes, q),
    }
}

/// Whether some rows are at least as far from a query as `bound`.
spec fn at_least(bound: int, some: Set<int>, stored: Seq<RefRow>, q: Seq<i16>) -> bool {
    forall|x: int| #[trigger] some.contains(x) ==> row_distance(stored[x], q) >= bound
}

/// No row is nearer than a box around it.
proof fn lemma_rows_at_least(
    min: Seq<i16>,
    max: Seq<i16>,
    some: Set<int>,
    stored: Seq<RefRow>,
    q: Seq<i16>,
)
    requires
        box_around(min, max, some, stored),
        in_reach(min, max, q),
        all_comparable(stored, q),
    ensures
        at_least(box_bound(q, min, max), some, stored, q),
{
    assert forall|x: int| #[trigger] some.contains(x) implies row_distance(stored[x], q)
        >= box_bound(q, min, max) by {
        assert(comparable(stored[x], q));
        lemma_box_is_lower_bound(min, max, stored[x], q);
    }
}

/// Scanning a leaf takes in all of its rows, or ends near enough.
#[verifier::spinoff_prover]
proof fn lemma_scan_exact(
    iv: IndexView,
    q: Seq<i16>,
    n: Node,
    j: int,
    before: Seq<Entry>,
    best: Seq<Entry>,
    stored: Seq<RefRow>,
    seen: Set<int>,
)
    requires
        leaf_shows(iv, n, stored),
        all_comparable(stored, q),
        0 <= j <= n.vec_count,
        nearest_of(best, stored, q, seen),
        seen.disjoint(span(n.start_vec + j, n.vec_count - j)),
    ensures
        ({
            let found = iv.scanned(q, n, j, before, best);
            let all = seen.union(span(n.start_vec + j, n.vec_count - j));
            &&& worst(found) <= worst(best)
            &&& nearest_of_some(found, stored, q, all)
            &&& worst(found) > iv.early_distance_limit ==> nearest_of(found, stored, q, all)
        }),
    decreases n.vec_count - j,
{
    let found = iv.scanned(q, n, j, before, best);
    let all = seen.union(span(n.start_vec + j, n.vec_count - j));
    if j >= n.vec_count {
        assert(all =~= seen);
        assert(nearest_of(found, stored, q, all));
    } else {
        let x = n.start_vec + j;
        assert(row_shown(iv, n, j, stored));
        assert(comparable(stored[x], q));
        assert(span(x, n.vec_count - j).contains(x));
        assert(!seen.contains(x));
        lemma_scan_distance(stored[x], q);
        lemma_row_offered(best, stored, q, seen, x);
        lemma_inserted_sorted(best, (row_distance(stored[x], q) as i64, stored[x].label));
        let next = offered(best, iv.leaf_distance(q, n, j), iv.labels[x]);
        assert(next == inserted(best, (row_distance(stored[x], q) as i64, stored[x].label)));
        let now = seen.insert(x);
        if (j + 1) % 8 == 0 && iv.any_nearer(q, n, j - 7, j + 1, before) && worst(next)
            <= iv.early_distance_limit {
            assert(nearest_of(next, stored, q, now) && now.subset_of(all));
        } else {
            assert(now.disjoint(span(x + 1, n.vec_count - j - 1)));
            let from = if (j + 1) % 8 == 0 {
                next
            } else {
                before
            };
            lemma_scan_exact(iv, q, n, j + 1, from, next, stored, now);
            assert(all =~= now.union(span(x + 1, n.vec_count - j - 1)));
        }
    }
}

/// What a walk through a tree is to find.
spec fn walk_done(
    before: Seq<Entry>,
    w: Walk,
    limit: i64,
    stored: Seq<RefRow>,
    q: Seq<i16>,
    all: Set<int>,
) -> bool {
    &&& worst(w.best) <= worst(before)
    &&& nearest_of_some(w.best, stored, q, all)
    &&& w.stopped ==> worst(w.best) <= limit
    &&& !w.stopped ==> nearest_of(w.best, stored, q, all)
}

/// A walk through a nearer and then a farther subtree.
#[verifier::spinoff_prover]
proof fn lemma_walk_both(
    iv: IndexView,
    q: Seq<i16>,
    near: Tree,
    far: Tree,
    depth: int,
    w: Walk,
    stored: Seq<RefRow>,
    seen: Set<int>,
)
    requires
        tree_sound(near, iv, stored),
        tree_sound(far, iv, stored),
        tree_in_reach(near, iv.nodes, q),
        tree_in_reach(far, iv.nodes, q),
        all_comparable(stored, q),
        0 <= depth,
        depth + 1 + near.height() <= TREE_STACK_CAPACITY,
        depth + 1 + far.height() <= TREE_STACK_CAPACITY,
        !w.stopped,
        nearest_of(w.best, stored, q, seen),
        seen.disjoint(tree_rows(near, iv.nodes)),
        seen.disjoint(tree_rows(far, iv.nodes)),
        tree_rows(near, iv.nodes).disjoint(tree_rows(far, iv.nodes)),
    ensures
        ({
            let nb = iv.node_bound(q, near.root());
            let fb = iv.node_bound(q, far.root());
            let aside = fb < worst(w.best) && depth < TREE_STACK_CAPACITY;
            let one = iv.walked(
                q,
                near,
                nb,
                if aside {
                    depth + 1
                } else {
                    depth
                },
                w,
            );
            let both = if aside {
                iv.walked(q, far, fb, depth, one)
            } else {
                one
            };
            walk_done(
                w.best,
                both,
                iv.early_distance_limit,
                stored,
                q,
                seen.union(tree_rows(near, iv.nodes)).union(tree_rows(far, iv.nodes)),
            )
        }),
    decreases max2(near.height() as int, far.height() as int), 1int,
{
    let nb = iv.node_bound(q, near.root());
    let fb = iv.node_bound(q, far.root());
    let aside = fb < worst(w.best) && depth < TREE_STACK_CAPACITY;
    let down = if aside {
        depth + 1
    } else {
        depth
    };
    let one = iv.walked(q, near, nb, down, w);
    let half = seen.union(tree_rows(near, iv.nodes));
    let rest = tree_rows(far, iv.nodes);
    let all = half.union(rest);
    lemma_tree_at_least(iv, q, near, stored);
    lemma_tree_at_least(iv, q, far, stored);
    lemma_walk_exact(iv, q, near, nb, down, w, stored, seen);
    if one.stopped {
        if aside {
            assert(iv.walked(q, far, fb, depth, one) == one);
        }
        lemma_some_of_more(one.best, stored, q, half, all);
    } else if aside {
        assert(half.disjoint(rest));
        lemma_walk_exact(iv, q, far, fb, depth, one, stored, half);
    } else {
        lemma_far_rows(one.best, stored, q, half, rest);
        assert(nearest_of(one.best, stored, q, all));
    }
}

/// No row of a tree is nearer than the box of its top node.
proof fn lemma_tree_at_least(iv: IndexView, q: Seq<i16>, t: Tree, stored: Seq<RefRow>)
    requires
        tree_sound(t, iv, stored),
        tree_in_reach(t, iv.nodes, q),
        all_comparable(stored, q),
    ensures
        at_least(iv.node_bound(q, t.root()), tree_rows(t, iv.nodes), stored, q),
{
    let n = iv.nodes[t.root()];
    lemma_rows_at_least(n.min@, n.max@, tree_rows(t, iv.nodes), stored, q);
}

/// A walk through a tree takes in all of its rows, or stops near enough.
#[verifier::spinoff_prover]
proof fn lemma_walk_exact(
    iv: IndexView,
    q: Seq<i16>,
    t: Tree,
    bound: int,
    depth: int,
    w: Walk,
    stored: Seq<RefRow>,
    seen: Set<int>,
)
    requires
        tree_sound(t, iv, stored),
        tree_in_reach(t, iv.nodes, q),
        all_comparable(stored, q),
        at_least(bound, tree_rows(t, iv.nodes), stored, q),
        0 <= depth,
        depth + t.height() <= TREE_STACK_CAPACITY,
        !w.stopped,
        nearest_of(w.best, stored, q, seen),
        seen.disjoint(tree_rows(t, iv.nodes)),
    ensures
        walk_done(
            w.best,
            iv.walked(q, t, bound, depth, w),
            iv.early_distance_limit,
            stored,
            q,
            seen.union(tree_rows(t, iv.nodes)),
        ),
    decreases t.height() as int, 0int,
{
    let all = seen.union(tree_rows(t, iv.nodes));
    if bound >= worst(w.best) {
        lemma_far_rows(w.best, stored, q, seen, tree_rows(t, iv.nodes));
        assert(nearest_of(w.best, stored, q, all));
    } else {
        match t {
            Tree::Leaf(i) => {
                lemma_scan_exact(iv, q, iv.nodes[i], 0, w.best, w.best, stored, seen);
            },
            Tree::Inner(_, l, r) => {
                let ls = tree_rows(*l, iv.nodes);
                let rs = tree_rows(*r, iv.nodes);
                assert(ls.subset_of(tree_rows(t, iv.nodes)));
                assert(rs.subset_of(tree_rows(t, iv.nodes)));
                assert(seen.union(ls).union(rs) =~= all);
                assert(seen.union(rs).union(ls) =~= all);
                if iv.node_bound(q, l.root()) <= iv.node_bound(q, r.root()) {
                    lemma_walk_both(iv, q, *l, *r, depth, w, stored, seen);
                } else {
                    lemma_walk_both(iv, q, *r, *l, depth, w, stored, seen);
                }
            },
        }
    }
}

// ---------------------------------------------------------------------------
// All partitions
// ---------------------------------------------------------------------------

/// The tree of a partition.
pub open spec fn tree_of(iv: IndexView, p: int) -> Tree {
    tree_at(iv.nodes, iv.partitions[p].root_node as int)
}

/// The rows of a partition.
pub open spec fn rows_in(iv: IndexView, p: int) -> Set<int> {
    tree_rows(tree_of(iv, p), iv.nodes)
}

/// The rows of some partitions.
pub open spec fn rows_of(iv: IndexView, done: Set<int>) -> Set<int> {
    Set::new(
        |x: int|
            exists|p: int|
                0 <= p < iv.partitions.len() && done.contains(p) && #[trigger] rows_in(
                    iv,
                    p,
                ).contains(x),
    )
}

/// All rows of an index.
pub open spec fn all_rows(iv: IndexView) -> Set<int> {
    rows_of(iv, span(0, iv.partitions.len() as int))
}

/// Whether a partition holds rows: in a tree that is not too deep for the
/// subtrees put aside, with a box around them.
pub open spec fn partition_sound(iv: IndexView, p: int, stored: Seq<RefRow>) -> bool {
    &&& tree_of(iv, p).height() <= TREE_STACK_CAPACITY
    &&& tree_sound(tree_of(iv, p), iv, stored)
    &&& box_around(iv.partitions[p].min@, iv.partitions[p].max@, rows_in(iv, p), stored)
}

/// Whether an index can be searched and holds rows: every box contains the rows
/// below it, and no row is held twice.
pub open spec fn index_sound(iv: IndexView, stored: Seq<RefRow>) -> bool {
    &&& iv.searchable()
    &&& iv.partitions.len() <= u32::MAX
    &&& forall|p: int|
        0 <= p < iv.partitions.len() ==> #[trigger] partition_sound(iv, p, stored)
    &&& forall|p: int, r: int|
        0 <= p < r < iv.partitions.len() ==> (#[trigger] rows_in(iv, p)).disjoint(
            #[trigger] rows_in(iv, r),
        )
}

/// Whether all boxes of an index are in reach of a query.
pub open spec fn boxes_in_reach(iv: IndexView, q: Seq<i16>) -> bool {
    forall|p: int|
        0 <= p < iv.partitions.len() ==> {
            &&& in_reach((#[trigger] iv.partitions[p]).min@, iv.partitions[p].max@, q)
            &&& tree_in_reach(tree_of(iv, p), iv.nodes, q)
        }
}

/// Searching a partition takes in all of its rows, or ends near enough.
#[verifier::spinoff_prover]
proof fn lemma_searched_exact(
    iv: IndexView,
    stored: Seq<RefRow>,
    q: Seq<i16>,
    p: int,
    f: Found,
    done: Set<int>,
)
    requires
        index_sound(iv, stored),
        boxes_in_reach(iv, q),
        all_comparable(stored, q),
        0 <= p < iv.partitions.len(),
        !done.contains(p),
        nearest_of(f.best, stored, q, rows_of(iv, done)),
    ensures
        ({
            let next = iv.searched(q, p, f);
            let all = rows_of(iv, done.insert(p));
            &&& worst(next.best) <= worst(f.best)
            &&& nearest_of_some(next.best, stored, q, all)
            &&& worst(next.best) > iv.early_distance_limit ==> nearest_of(
                next.best,
                stored,
                q,
                all,
            )
        }),
{
    let part = iv.partitions[p];
    assert(partition_sound(iv, p, stored));
    let seen = rows_of(iv, done);
    let more = rows_in(iv, p);
    assert(seen.disjoint(more)) by {
        assert forall|x: int| seen.contains(x) implies !more.contains(x) by {
            let r = choose|r: int|
                0 <= r < iv.partitions.len() && done.contains(r) && #[trigger] rows_in(
                    iv,
                    r,
                ).contains(x);
            if r < p {
                assert(rows_in(iv, r).disjoint(rows_in(iv, p)));
            } else {
                assert(rows_in(iv, p).disjoint(rows_in(iv, r)));
            }
        }
    }
    lemma_rows_at_least(part.min@, part.max@, more, stored, q);
    let w = Walk { best: f.best, visited: 0, stopped: false };
    lemma_walk_exact(iv, q, tree_of(iv, p), iv.partition_bound(q, p), 0, w, stored, seen);
    let all = rows_of(iv, done.insert(p));
    assert(seen.union(more) =~= all) by {
        assert forall|x: int| seen.union(more).contains(x) == all.contains(x) by {
            if seen.contains(x) {
                let r = choose|r: int|
                    0 <= r < iv.partitions.len() && done.contains(r) && #[trigger] rows_in(
                        iv,
                        r,
                    ).contains(x);
                assert(done.insert(p).contains(r) && rows_in(iv, r).contains(x));
            } else if more.contains(x) {
                assert(done.insert(p).contains(p) && rows_in(iv, p).contains(x));
            }
        }
    }
}

proof fn lemma_rows_of_all(iv: IndexView, done: Set<int>)
    ensures
        rows_of(iv, done).subset_of(all_rows(iv)),
{
    assert forall|x: int| rows_of(iv, done).contains(x) implies all_rows(iv).contains(x) by {
        let p = choose|p: int|
            0 <= p < iv.partitions.len() && done.contains(p) && #[trigger] rows_in(
                iv,
                p,
            ).contains(x);
        assert(span(0, iv.partitions.len() as int).contains(p) && rows_in(iv, p).contains(x));
    }
}

/// Partitions that are too far away hide no neighbour.
proof fn lemma_rest_too_far(
    iv: IndexView,
    stored: Seq<RefRow>,
    q: Seq<i16>,
    best: Seq<Entry>,
    done: Set<int>,
)
    requires
        index_sound(iv, stored),
        boxes_in_reach(iv, q),
        all_comparable(stored, q),
        nearest_of(best, stored, q, rows_of(iv, done)),
        forall|p: int|
            0 <= p < iv.partitions.len() && !done.contains(p) ==> #[trigger] iv.partition_bound(
                q,
                p,
            ) >= worst(best),
    ensures
        nearest_of(best, stored, q, all_rows(iv)),
{
    let seen = rows_of(iv, done);
    let all = all_rows(iv);
    let more = all.difference(seen);
    assert forall|x: int| #[trigger] more.contains(x) implies row_distance(stored[x], q) >= worst(
        best,
    ) by {
        let p = choose|p: int|
            0 <= p < iv.partitions.len() && span(0, iv.partitions.len() as int).contains(p)
                && #[trigger] rows_in(iv, p).contains(x);
        assert(!done.contains(p));
        assert(partition_sound(iv, p, stored));
        let part = iv.partitions[p];
        lemma_rows_at_least(part.min@, part.max@, rows_in(iv, p), stored, q);
        assert(iv.partition_bound(q, p) >= worst(best));
    }
    lemma_far_rows(best, stored, q, seen, more);
    lemma_rows_of_all(iv, done);
    assert(seen.union(more) =~= all);
}

/// The second pass goes on until nothing nearer is left, or the search ends.
#[verifier::spinoff_prover]
proof fn lemma_second_pass_exact(
    iv: IndexView,
    stored: Seq<RefRow>,
    q: Seq<i16>,
    order: Seq<(i64, u32)>,
    i: int,
    f: Found,
    done: Set<int>,
)
    requires
        index_sound(iv, stored),
        boxes_in_reach(iv, q),
        all_comparable(stored, q),
        0 <= i <= order.len(),
        nearest_of(f.best, stored, q, rows_of(iv, done)),
        forall|k: int|
            0 <= k < order.len() ==> {
                &&& (#[trigger] order[k]).1 < iv.partitions.len()
                &&& order[k].0 == iv.partition_bound(q, order[k].1 as int)
            },
        forall|k: int, m: int| 0 <= k <= m < order.len() ==> order[k].0 <= order[m].0,
        forall|k: int, m: int|
            0 <= k < m < order.len() ==> (#[trigger] order[k]).1 != (#[trigger] order[m]).1,
        forall|k: int| i <= k < order.len() ==> !done.contains((#[trigger] order[k]).1 as int),
        forall|p: int|
            0 <= p < iv.partitions.len() && !done.contains(p) ==> #[trigger] iv.partition_bound(q, p)
                >= worst(f.best) || exists|k: int| i <= k < order.len() && (#[trigger] order[k]).1 == p,
    ensures
        ({
            let r = iv.second_pass(q, order, i, f);
            &&& nearest_of_some(r.best, stored, q, all_rows(iv))
            &&& iv.ends(r) || nearest_of(r.best, stored, q, all_rows(iv))
        }),
    decreases order.len() - i,
{
    lemma_rows_of_all(iv, done);
    if i >= order.len() || order[i].0 >= worst(f.best) {
        lemma_rest_too_far(iv, stored, q, f.best, done);
    } else {
        let p = order[i].1 as int;
        let next = iv.searched(q, p, f);
        lemma_searched_exact(iv, stored, q, p, f, done);
        lemma_rows_of_all(iv, done.insert(p));
        if iv.ends(next) {
            lemma_some_of_more(
                next.best,
                stored,
                q,
                rows_of(iv, done.insert(p)),
                all_rows(iv),
            );
        } else {
            lemma_second_pass_exact(iv, stored, q, order, i + 1, next, done.insert(p));
        }
    }
}

/// The other partitions are listed once each, in their order.
proof fn lemma_others_increase(iv: IndexView, q: Seq<i16>, best: Seq<Entry>, n: int)
    requires
        0 <= n <= iv.partitions.len() <= u32::MAX,
    ensures
        ({
            let others = iv.others(q, best, n);
            &&& forall|k: int| 0 <= k < others.len() ==> (#[trigger] others[k]).1 < n
            &&& forall|k: int, m: int|
                0 <= k < m < others.len() ==> (#[trigger] others[k]).1 < (#[trigger] others[m]).1
            &&& forall|p: int|
                0 <= p < n && iv.primary(q) != Some(p) && #[trigger] iv.partition_bound(q, p)
                    < worst(best) ==> exists|k: int|
                    0 <= k < others.len() && (#[trigger] others[k]).1 == p
        }),
    decreases n,
{
    if n > 0 {
        lemma_others_increase(iv, q, best, n - 1);
        let rest = iv.others(q, best, n - 1);
        let all = iv.others(q, best, n);
        assert forall|p: int|
            0 <= p < n && iv.primary(q) != Some(p) && #[trigger] iv.partition_bound(q, p) < worst(
                best,
            ) implies exists|k: int| 0 <= k < all.len() && (#[trigger] all[k]).1 == p by {
            if p < n - 1 {
                let k = choose|k: int| 0 <= k < rest.len() && (#[trigger] rest[k]).1 == p;
                assert(all[k] == rest[k]);
            } else {
                assert(all[all.len() - 1].1 == p);
            }
        }
    }
}

/// A search order names each partition that is left once.
#[verifier::spinoff_prover]
proof fn lemma_order(iv: IndexView, q: Seq<i16>, order: Seq<(i64, u32)>)
    requires
        iv.partitions.len() <= u32::MAX,
        iv.is_search_order(q, order),
    ensures
        forall|k: int|
            0 <= k < order.len() ==> {
                &&& (#[trigger] order[k]).1 < iv.partitions.len()
                &&& iv.primary(q) != Some(order[k].1 as int)
                &&& order[k].0 == iv.partition_bound(q, order[k].1 as int)
            },
        forall|k: int, m: int|
            0 <= k < m < order.len() ==> (#[trigger] order[k]).1 != (#[trigger] order[m]).1,
        forall|p: int|
            0 <= p < iv.partitions.len() && iv.primary(q) != Some(p)
                && #[trigger] iv.partition_bound(q, p) < worst(iv.first_pass(q).best)
                ==> exists|k: int| 0 <= k < order.len() && (#[trigger] order[k]).1 == p,
{
    broadcast use vstd::seq_lib::group_to_multiset_ensures;

    let best = iv.first_pass(q).best;
    let n = iv.partitions.len() as int;
    let others = iv.others(q, best, n);
    lemma_others_increase(iv, q, best, n);
    lemma_search_order(iv, q, order);
    assert(others.no_duplicates());
    others.lemma_multiset_has_no_duplicates();
    order.lemma_multiset_has_no_duplicates_conv();
    assert forall|k: int| 0 <= k < order.len() implies (#[trigger] order[k]).0
        == iv.partition_bound(q, order[k].1 as int) by {
        let p = order[k].1 as int;
        lemma_box_bound_range(
            q,
            iv.partitions[p].min@,
            iv.partitions[p].max@,
            PACKED_DIMS as int,
        );
    }
    assert forall|k: int, m: int| 0 <= k < m < order.len() implies (#[trigger] order[k]).1 != (
    #[trigger] order[m]).1 by {
        assert(order[k] != order[m]);
    }
    assert forall|p: int|
        0 <= p < n && iv.primary(q) != Some(p) && #[trigger] iv.partition_bound(q, p) < worst(
            best,
        ) implies exists|k: int| 0 <= k < order.len() && (#[trigger] order[k]).1 == p by {
        let m = choose|m: int| 0 <= m < others.len() && (#[trigger] others[m]).1 == p;
        assert(others.contains(others[m]));
        assert(others.to_multiset().count(others[m]) > 0);
        assert(order.contains(others[m]));
        let k = choose|k: int| 0 <= k < order.len() && order[k] == others[m];
        assert(order[k].1 == p);
    }
}

proof fn lemma_nothing_found(iv: IndexView, stored: Seq<RefRow>, q: Seq<i16>)
    ensures
        nearest_of(no_entries(), stored, q, rows_of(iv, Set::empty())),
{
    assert(lists(no_entries(), Seq::empty(), stored, q));
}

/// A search is exact in every index whose boxes contain the rows below them:
/// unless it ends early, it finds nearest neighbours of the query among all
/// rows of the index. And whenever it ends, its entries are nearest neighbours
/// among the rows that it has looked at.
pub proof fn lemma_search_exact(iv: IndexView, stored: Seq<RefRow>, q: Seq<i16>, f: Found)
    requires
        index_sound(iv, stored),
        boxes_in_reach(iv, q),
        all_comparable(stored, q),
        iv.finds(q, f),
    ensures
        nearest_of_some(f.best, stored, q, all_rows(iv)),
        worst(f.best) <= iv.early_distance_limit || f.visited >= iv.early_candidates_limit || (
        iv.strong_decision && worst(f.best) <= 4_000_000 && (votes(f.best) == 0 || votes(f.best)
            == 5)) || nearest_of(f.best, stored, q, all_rows(iv)),
{
    let all = all_rows(iv);
    let n = iv.partitions.len() as int;
    lemma_nothing_found(iv, stored, q);
    lemma_partition_with_key(iv.partitions, partition_key(q), n);
    let first = iv.first_pass(q);
    let done = match iv.primary(q) {
        Some(p) => Set::<int>::empty().insert(p),
        None => Set::<int>::empty(),
    };
    lemma_rows_of_all(iv, done);
    if let Some(p) = iv.primary(q) {
        lemma_searched_exact(iv, stored, q, p, iv.nothing_found(), Set::empty());
        lemma_some_of_more(first.best, stored, q, rows_of(iv, done), all);
    }
    if !iv.settled(q) {
        let order = choose|order: Seq<(i64, u32)>| #[trigger]
            iv.is_search_order(q, order) && f == iv.second_pass(q, order, 0, first);
        lemma_order(iv, q, order);
        lemma_second_pass_exact(iv, stored, q, order, 0, first, done);
    }
}

/// An answer is exact: a query that the fast path leaves open is answered with
/// the number of frauds among nearest neighbours of it, unless the search ends
/// early.
pub proof fn lemma_answer_exact(iv: IndexView, stored: Seq<RefRow>, v: Seq<i16>, n: int)
    requires
        index_sound(iv, stored),
        boxes_in_reach(iv, padded(v)),
        all_comparable(stored, padded(v)),
        binary_labels(iv.labels),
        !obviously_legit(v),
        !obviously_fraud(v),
        iv.answers(v, n),
    ensures
        0 <= n <= K,
        exists|f: Found|
            {
                &&& #[trigger] iv.finds(padded(v), f)
                &&& n == votes(f.best)
                &&& worst(f.best) <= iv.early_distance_limit || f.visited >= iv.early_candidates_limit || (
                iv.strong_decision && worst(f.best) <= 4_000_000 && (votes(f.best) == 0 || votes(f.best)
                    == 5)) || nearest_of(f.best, stored, padded(v), all_rows(iv))
            },
{
    let q = padded(v);
    lemma_count_is_votes(iv, q, n);
    let f = choose|f: Found| #[trigger] iv.finds(q, f) && n == votes(f.best);
    lemma_search_exact(iv, stored, q, f);
}

} // verus!
