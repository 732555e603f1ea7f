//! Building an index of reference rows.

use super::format::{panel_vector, panels_for, Node, Partition, LEAF_SIZE, MAX_PARTITIONS};
use super::geometry::{compute_partition_key, partition_key, QueryVector, DIM, PACKED_DIMS};
use super::rows::{
    box_max, box_min, compute_bbox, lemma_box_of_permutation, lemma_unpack, pack_leaf, packed,
    row_labels, row_vector, widest, widest_axis, RefRow,
};
use super::tree::{lemma_tree_at, tree_at, Tree};
use crate::order::{lemma_map_permuted, select_nth};
use vstd::arithmetic::power2::{lemma2_to64, lemma_pow2_unfold, pow2};
use vstd::prelude::*;

verus! {

// ---------------------------------------------------------------------------
// What a tree holds
// ---------------------------------------------------------------------------

/// Whether the nodes of a tree stand in the node array from `at` on, each
/// one before its left subtree and that before its right subtree.
pub open spec fn laid_out(t: Tree, at: int) -> bool
    decreases t,
{
    match t {
        Tree::Leaf(i) => i == at,
        Tree::Inner(i, l, r) => i == at && laid_out(*l, at + 1) && laid_out(
            *r,
            at + 1 + l.size(),
        ),
    }
}

/// Whether a leaf holds `rows` as the vectors from `first` on.
pub open spec fn leaf_holds(
    n: Node,
    panels: Seq<i16>,
    labels: Seq<u8>,
    rows: Seq<RefRow>,
    first: int,
) -> bool {
    &&& n.start_vec == first
    &&& n.vec_count == rows.len()
    &&& first + rows.len() <= labels.len()
    &&& (n.start_panel + panels_for(rows.len() as int)) * 112 <= panels.len()
    &&& forall|j: int|
        0 <= j < rows.len() ==> {
            &&& panel_vector(panels, n.start_panel as int, j) == row_vector(#[trigger] rows[j])
            &&& labels[first + j] == rows[j].label
        }
}

/// Whether `rows` are split in the middle: along the axis over which they
/// spread widest, nothing in the first half lies beyond the second half.
pub open spec fn split_in_half(rows: Seq<RefRow>) -> bool {
    let axis = widest(box_min(rows), box_max(rows), DIM as int);
    forall|i: int, j: int|
        0 <= i < rows.len() / 2 <= j < rows.len() ==> (#[trigger] rows[i]).vec@[axis] <= (
        #[trigger] rows[j]).vec@[axis]
}

/// Whether a tree holds `rows` as the vectors from `first` on: a balanced
/// tree, whose nodes carry the bounding boxes of the rows below them.
pub open spec fn tree_holds(
    t: Tree,
    nodes: Seq<Node>,
    panels: Seq<i16>,
    labels: Seq<u8>,
    rows: Seq<RefRow>,
    first: int,
) -> bool
    decreases t,
{
    &&& nodes[t.root()].min@ == box_min(rows)
    &&& nodes[t.root()].max@ == box_max(rows)
    &&& match t {
        Tree::Leaf(i) => rows.len() <= LEAF_SIZE && leaf_holds(
            nodes[i],
            panels,
            labels,
            rows,
            first,
        ),
        Tree::Inner(_, l, r) => {
            let mid = rows.len() as int / 2;
            &&& rows.len() > LEAF_SIZE
            &&& split_in_half(rows)
            &&& tree_holds(*l, nodes, panels, labels, rows.take(mid), first)
            &&& tree_holds(*r, nodes, panels, labels, rows.skip(mid), first + mid)
        },
    }
}

/// A tree holds its rows whatever stands behind it in the arrays.
pub proof fn lemma_tree_holds_frame(
    t: Tree,
    at: int,
    n1: Seq<Node>,
    n2: Seq<Node>,
    p1: Seq<i16>,
    p2: Seq<i16>,
    l1: Seq<u8>,
    l2: Seq<u8>,
    rows: Seq<RefRow>,
    first: int,
)
    requires
        laid_out(t, at),
        t.stored_in(n1),
        tree_holds(t, n1, p1, l1, rows, first),
        0 <= at,
        0 <= first,
        at + t.size() <= n2.len(),
        forall|k: int| at <= k < at + t.size() ==> n1[k] == n2[k],
        p1.is_prefix_of(p2),
        l1.is_prefix_of(l2),
    ensures
        t.stored_in(n2),
        tree_holds(t, n2, p2, l2, rows, first),
    decreases t,
{
    match t {
        Tree::Leaf(i) => {
            let n = n1[i];
            assert(n2[i] == n);
            assert forall|j: int| 0 <= j < rows.len() implies {
                &&& panel_vector(p2, n.start_panel as int, j) == row_vector(#[trigger] rows[j])
                &&& l2[first + j] == rows[j].label
            } by {
                assert(p2.take(p1.len() as int) == p1);
                assert(panel_vector(p2, n.start_panel as int, j) =~= panel_vector(
                    p1,
                    n.start_panel as int,
                    j,
                ));
                assert(l2.take(l1.len() as int) == l1);
                assert(l2[first + j] == l1[first + j]);
            }
        },
        Tree::Inner(_, l, r) => {
            let mid = rows.len() as int / 2;
            lemma_tree_holds_frame(*l, at + 1, n1, n2, p1, p2, l1, l2, rows.take(mid), first);
            lemma_tree_holds_frame(
                *r,
                at + 1 + l.size(),
                n1,
                n2,
                p1,
                p2,
                l1,
                l2,
                rows.skip(mid),
                first + mid,
            );
        },
    }
}

/// Number of panels that the leaves of a tree take.
pub open spec fn tree_panels(t: Tree, nodes: Seq<Node>) -> int
    decreases t,
{
    match t {
        Tree::Leaf(i) => panels_for(nodes[i].vec_count as int),
        Tree::Inner(_, l, r) => tree_panels(*l, nodes) + tree_panels(*r, nodes),
    }
}

/// Whether the leaves of a tree over `rows` are packed into the panels from
/// `block` on, one after the other, and its nodes say nothing else.
pub open spec fn tree_packed(
    t: Tree,
    nodes: Seq<Node>,
    panels: Seq<i16>,
    rows: Seq<RefRow>,
    block: int,
) -> bool
    decreases t,
{
    match t {
        Tree::Leaf(i) => {
            let n = nodes[i];
            let end = block + panels_for(rows.len() as int);
            &&& n.left == -1 && n.right == -1 && n._pad == 0
            &&& n.start_panel == block
            &&& n.vec_count == rows.len()
            &&& 112 * end <= panels.len()
            &&& panels.subrange(112 * block, 112 * end) == packed(rows)
        },
        Tree::Inner(i, l, r) => {
            let n = nodes[i];
            let mid = rows.len() as int / 2;
            &&& n.start_panel == 0 && n.vec_count == 0 && n.start_vec == 0 && n._pad == 0
            &&& tree_packed(*l, nodes, panels, rows.take(mid), block)
            &&& tree_packed(*r, nodes, panels, rows.skip(mid), block + tree_panels(*l, nodes))
        },
    }
}

/// A tree stays packed whatever stands behind it in the arrays.
pub proof fn lemma_tree_packed_frame(
    t: Tree,
    at: int,
    n1: Seq<Node>,
    n2: Seq<Node>,
    p1: Seq<i16>,
    p2: Seq<i16>,
    rows: Seq<RefRow>,
    block: int,
)
    requires
        laid_out(t, at),
        tree_packed(t, n1, p1, rows, block),
        0 <= block,
        forall|k: int| at <= k < at + t.size() ==> n1[k] == n2[k],
        p1.is_prefix_of(p2),
    ensures
        tree_packed(t, n2, p2, rows, block),
        tree_panels(t, n2) == tree_panels(t, n1),
        tree_panels(t, n1) >= 0,
    decreases t,
{
    match t {
        Tree::Leaf(i) => {
            assert(n1[i] == n2[i]);
            let end = block + panels_for(rows.len() as int);
            assert(p2.take(p1.len() as int) == p1);
            assert(p2.subrange(112 * block, 112 * end) =~= p1.subrange(112 * block, 112 * end)) by {
                assert forall|k: int| 112 * block <= k < 112 * end implies p2[k] == p1[k] by {
                    assert(p2.take(p1.len() as int)[k] == p2[k]);
                }
            }
        },
        Tree::Inner(i, l, r) => {
            assert(n1[i] == n2[i]);
            let mid = rows.len() as int / 2;
            lemma_tree_packed_frame(*l, at + 1, n1, n2, p1, p2, rows.take(mid), block);
            lemma_tree_packed_frame(
                *r,
                at + 1 + l.size(),
                n1,
                n2,
                p1,
                p2,
                rows.skip(mid),
                block + tree_panels(*l, n1),
            );
        },
    }
}

/// Most nodes of a tree over `n` rows.
pub open spec fn node_limit(n: int) -> int {
    if n < 64 {
        1
    } else {
        n / 32 - 1
    }
}

// ---------------------------------------------------------------------------
// Building a tree
// ---------------------------------------------------------------------------

/// Moves the rows so that no row before `mid` lies beyond the row there, along
/// one axis, and no row behind it short of it.
#[verifier::spinoff_prover]
fn select_by_axis(rows: Vec<RefRow>, mid: usize, axis: usize) -> (r: Vec<RefRow>)
    requires
        mid < rows@.len(),
        axis < PACKED_DIMS,
    ensures
        r@.to_multiset() == rows@.to_multiset(),
        forall|i: int, j: int|
            0 <= i <= mid <= j < r@.len() ==> (#[trigger] r@[i]).vec@[axis as int] <= (
            #[trigger] r@[j]).vec@[axis as int],
{
    broadcast use vstd::seq_lib::group_to_multiset_ensures;

    let mut items: Vec<(i64, RefRow)> = Vec::new();
    let mut k: usize = 0;
    while k < rows.len()
        invariant
            k <= rows@.len(),
            axis < PACKED_DIMS,
            items@.len() == k,
            forall|i: int|
                0 <= i < k ==> (#[trigger] items@[i]).1 == rows@[i] && items@[i].0
                    == rows@[i].vec@[axis as int],
        decreases rows@.len() - k,
    {
        let row: RefRow = rows[k];
        items.push((row.vec[axis] as i64, row));
        k = k + 1;
    }
    let ghost given = items@;
    let ghost row_of = |item: (i64, RefRow)| item.1;
    select_nth(&mut items, mid);
    proof {
        lemma_map_permuted(items@, given, row_of);
        assert(given.map_values(row_of) =~= rows@);
        assert(items@.len() == items@.to_multiset().len());
        assert(given.len() == given.to_multiset().len());
        assert forall|i: int| 0 <= i < items@.len() implies (#[trigger] items@[i]).0
            == items@[i].1.vec@[axis as int] by {
            assert(items@.contains(items@[i]));
            assert(items@.to_multiset().count(items@[i]) > 0);
            assert(given.contains(items@[i]));
        }
    }
    let mut out: Vec<RefRow> = Vec::new();
    let mut k: usize = 0;
    while k < items.len()
        invariant
            k <= items@.len(),
            out@.len() == k,
            forall|i: int| 0 <= i < k ==> #[trigger] out@[i] == items@[i].1,
        decreases items@.len() - k,
    {
        out.push(items[k].1);
        k = k + 1;
    }
    assert(out@ =~= items@.map_values(row_of));
    assert forall|i: int, j: int| 0 <= i <= mid <= j < out@.len() implies (
    #[trigger] out@[i]).vec@[axis as int] <= (#[trigger] out@[j]).vec@[axis as int] by {
        assert(items@[i].0 <= items@[j].0);
    }
    out
}

/// Halves that were permuted on their own are still halves of the whole.
#[verifier::spinoff_prover]
proof fn lemma_split_in_half(sel: Seq<RefRow>, left: Seq<RefRow>, right: Seq<RefRow>)
    requires
        split_in_half(sel),
        left.to_multiset() == sel.take(sel.len() as int / 2).to_multiset(),
        right.to_multiset() == sel.skip(sel.len() as int / 2).to_multiset(),
    ensures
        (left + right).to_multiset() == sel.to_multiset(),
        left.len() == sel.len() / 2,
        split_in_half(left + right),
        box_min(left + right) == box_min(sel),
        box_max(left + right) == box_max(sel),
{
    broadcast use vstd::seq_lib::group_to_multiset_ensures;

    let mid = sel.len() as int / 2;
    let all = left + right;
    assert(left.len() == left.to_multiset().len());
    assert(right.len() == right.to_multiset().len());
    vstd::seq_lib::lemma_multiset_commutative(left, right);
    vstd::seq_lib::lemma_multiset_commutative(sel.take(mid), sel.skip(mid));
    assert(sel =~= sel.take(mid) + sel.skip(mid));
    assert(all.to_multiset() == sel.to_multiset());
    lemma_box_of_permutation(all, sel);
    let axis = widest(box_min(all), box_max(all), DIM as int);
    assert forall|i: int, j: int| 0 <= i < all.len() / 2 <= j < all.len() implies (
    #[trigger] all[i]).vec@[axis] <= (#[trigger] all[j]).vec@[axis] by {
        assert(left.contains(all[i])) by {
            assert(left[i] == all[i]);
        }
        assert(left.to_multiset().count(all[i]) > 0);
        assert(sel.take(mid).contains(all[i]));
        let a = choose|a: int| 0 <= a < mid && sel.take(mid)[a] == all[i];
        assert(sel[a] == all[i]);
        assert(right.contains(all[j])) by {
            assert(right[j - mid] == all[j]);
        }
        assert(right.to_multiset().count(all[j]) > 0);
        assert(sel.skip(mid).contains(all[j]));
        let b = choose|b: int| 0 <= b < sel.len() - mid && sel.skip(mid)[b] == all[j];
        assert(sel[b + mid] == all[j]);
    }
}

/// What building a tree leaves behind.
pub open spec fn subtree_built(
    t: Tree,
    rows: Seq<RefRow>,
    stored: Seq<RefRow>,
    n0: Seq<Node>,
    p0: Seq<i16>,
    l0: Seq<u8>,
    n1: Seq<Node>,
    p1: Seq<i16>,
    l1: Seq<u8>,
) -> bool {
    &&& stored.to_multiset() == rows.to_multiset()
    &&& stored.len() == rows.len()
    &&& laid_out(t, n0.len() as int)
    &&& t.stored_in(n1)
    &&& tree_holds(t, n1, p1, l1, stored, l0.len() as int)
    &&& tree_packed(t, n1, p1, stored, p0.len() as int / 112)
    &&& p1.len() == p0.len() + 112 * tree_panels(t, n1)
    &&& t.size() <= node_limit(rows.len() as int)
    &&& n1.len() == n0.len() + t.size()
    &&& n0.is_prefix_of(n1)
    &&& p0.is_prefix_of(p1)
    &&& p1.len() % 112 == 0
    &&& p1.len() <= 112 * l1.len()
    &&& l1 == l0 + row_labels(stored)
    &&& forall|k: nat| rows.len() <= 128 * #[trigger] pow2(k) ==> t.height() <= k + 1
}

/// A leaf holds the rows that were packed for it.
proof fn lemma_leaf_built(
    rows: Seq<RefRow>,
    n0: Seq<Node>,
    p0: Seq<i16>,
    l0: Seq<u8>,
    n1: Seq<Node>,
    p1: Seq<i16>,
    l1: Seq<u8>,
)
    requires
        rows.len() <= LEAF_SIZE,
        p0.len() % 112 == 0,
        p0.len() <= 112 * l0.len(),
        p1 == p0 + packed(rows),
        l1 == l0 + row_labels(rows),
        n1.len() == n0.len() + 1,
        n1.drop_last() == n0,
        ({
            let n = n1.last();
            &&& n.left == -1
            &&& n.right == -1
            &&& n._pad == 0
            &&& n.start_panel == p0.len() / 112
            &&& n.vec_count == rows.len()
            &&& n.start_vec == l0.len()
            &&& n.min@ == box_min(rows)
            &&& n.max@ == box_max(rows)
        }),
    ensures
        subtree_built(Tree::Leaf(n0.len() as int), rows, rows, n0, p0, l0, n1, p1, l1),
{
    let n = n1[n0.len() as int];
    assert(n == n1.last());
    assert forall|j: int| 0 <= j < rows.len() implies {
        &&& panel_vector(p1, n.start_panel as int, j) == row_vector(#[trigger] rows[j])
        &&& l1[l0.len() + j] == rows[j].label
    } by {
        lemma_unpack(p0, rows, seq![], j);
        assert(p0 + packed(rows) + Seq::<i16>::empty() =~= p1);
    }
    assert(leaf_holds(n, p1, l1, rows, l0.len() as int));
    let block = p0.len() as int / 112;
    assert(112 * block == p0.len());
    assert(p1.subrange(112 * block, 112 * (block + panels_for(rows.len() as int))) =~= packed(
        rows,
    ));
    assert(n1.take(n0.len() as int) =~= n0);
    assert(p1.take(p0.len() as int) =~= p0);
}

/// A node over two built trees holds the rows of both.
#[verifier::spinoff_prover]
proof fn lemma_inner_built(
    given: Seq<RefRow>,
    sel: Seq<RefRow>,
    lt: Tree,
    lr: Seq<RefRow>,
    rt: Tree,
    rr: Seq<RefRow>,
    n0: Seq<Node>,
    p0: Seq<i16>,
    l0: Seq<u8>,
    n1: Seq<Node>,
    n2: Seq<Node>,
    p2: Seq<i16>,
    l2: Seq<u8>,
    n3: Seq<Node>,
    n4: Seq<Node>,
    p4: Seq<i16>,
    l4: Seq<u8>,
)
    requires
        given.len() > LEAF_SIZE,
        p0.len() % 112 == 0,
        sel.len() == given.len(),
        sel.to_multiset() == given.to_multiset(),
        split_in_half(sel),
        n1.len() == n0.len() + 1,
        n1.drop_last() == n0,
        subtree_built(lt, sel.take(sel.len() as int / 2), lr, n1, p0, l0, n2, p2, l2),
        subtree_built(rt, sel.skip(sel.len() as int / 2), rr, n2, p2, l2, n3, p4, l4),
        n4 == n3.update(n0.len() as int, n4[n0.len() as int]),
        ({
            let n = n4[n0.len() as int];
            &&& n.left == n1.len()
            &&& n.right == n2.len()
            &&& n.start_panel == 0 && n.vec_count == 0 && n.start_vec == 0 && n._pad == 0
            &&& n.min@ == box_min(given)
            &&& n.max@ == box_max(given)
        }),
    ensures
        subtree_built(
            Tree::Inner(n0.len() as int, Box::new(lt), Box::new(rt)),
            given,
            lr + rr,
            n0,
            p0,
            l0,
            n4,
            p4,
            l4,
        ),
{
    let mid = sel.len() as int / 2;
    let at = n0.len() as int;
    let t = Tree::Inner(at, Box::new(lt), Box::new(rt));
    let stored = lr + rr;
    lemma_box_of_permutation(sel, given);
    lemma_split_in_half(sel, lr, rr);
    assert(stored.take(mid) =~= lr);
    assert(stored.skip(mid) =~= rr);
    assert(n3.take(n2.len() as int) == n2);
    assert(n2.take(n1.len() as int) == n1);
    assert forall|k: int| at + 1 <= k < n2.len() implies n2[k] == n4[k] by {
        assert(n3.take(n2.len() as int)[k] == n3[k]);
    }
    lemma_tree_holds_frame(lt, at + 1, n2, n4, p2, p4, l2, l4, lr, l0.len() as int);
    lemma_tree_holds_frame(rt, n2.len() as int, n3, n4, p4, p4, l4, l4, rr, l2.len() as int);
    lemma_tree_packed_frame(lt, at + 1, n2, n4, p2, p4, lr, p0.len() as int / 112);
    lemma_tree_packed_frame(rt, n2.len() as int, n3, n4, p4, p4, rr, p2.len() as int / 112);
    assert(p2.len() as int / 112 == p0.len() as int / 112 + tree_panels(lt, n4));
    assert forall|k: int| 0 <= k < at implies n4[k] == n0[k] by {
        assert(n3.take(n2.len() as int)[k] == n3[k]);
        assert(n2.take(n1.len() as int)[k] == n2[k]);
        assert(n1.drop_last()[k] == n1[k]);
    }
    assert(n4.take(at) =~= n0);
    assert(p2.take(p0.len() as int) == p0);
    assert(p4.take(p2.len() as int) == p2);
    assert(p4.take(p0.len() as int) =~= p0) by {
        assert forall|k: int| 0 <= k < p0.len() implies p4[k] == p0[k] by {
            assert(p4.take(p2.len() as int)[k] == p4[k]);
            assert(p2.take(p0.len() as int)[k] == p2[k]);
        }
    }
    assert(l4 =~= l0 + row_labels(stored));
    assert forall|k: nat| given.len() <= 128 * #[trigger] pow2(k) implies t.height() <= k + 1 by {
        lemma2_to64();
        assert(k > 0);
        lemma_pow2_unfold(k);
        let h = (k - 1) as nat;
        assert(pow2(k) == 2 * pow2(h));
        assert(sel.take(mid).len() <= 128 * pow2(h));
        assert(sel.skip(mid).len() <= 128 * pow2(h));
    }
}

/// Builds a balanced tree over some rows: leaves of up to `LEAF_SIZE` rows,
/// packed into panels, and splits at the median of the widest dimension.
/// Returns the place of its top node.
#[verifier::spinoff_prover]
fn build_subtree(
    rows: Vec<RefRow>,
    nodes: &mut Vec<Node>,
    panels: &mut Vec<i16>,
    labels: &mut Vec<u8>,
) -> (r: (usize, Ghost<Tree>, Ghost<Seq<RefRow>>))
    requires
        old(panels)@.len() % 112 == 0,
        old(panels)@.len() <= 112 * old(labels)@.len(),
        old(labels)@.len() + rows@.len() <= u32::MAX,
        old(nodes)@.len() + node_limit(rows@.len() as int) <= i32::MAX,
    ensures
        r.0 == old(nodes)@.len(),
        subtree_built(
            r.1@,
            rows@,
            r.2@,
            old(nodes)@,
            old(panels)@,
            old(labels)@,
            final(nodes)@,
            final(panels)@,
            final(labels)@,
        ),
    decreases rows@.len(),
{
    let ghost n0 = nodes@;
    let ghost p0 = panels@;
    let ghost l0 = labels@;
    let index: usize = nodes.len();
    let (min, max): (QueryVector, QueryVector) = compute_bbox(&rows);

    if rows.len() <= LEAF_SIZE {
        let start_vec: u32 = labels.len() as u32;
        let start_panel: u32 = (panels.len() / 112) as u32;
        pack_leaf(&rows, panels, labels);
        nodes.push(
            Node {
                left: -1,
                right: -1,
                start_panel,
                vec_count: rows.len() as u32,
                start_vec,
                _pad: 0,
                min,
                max,
            },
        );
        let ghost t = Tree::Leaf(index as int);
        proof {
            assert(nodes@.drop_last() =~= n0);
            lemma_leaf_built(rows@, n0, p0, l0, nodes@, panels@, labels@);
        }
        return (index, Ghost(t), Ghost(rows@));
    }
    nodes.push(
        Node {
            left: -1,
            right: -1,
            start_panel: 0,
            vec_count: 0,
            start_vec: 0,
            _pad: 0,
            min,
            max,
        },
    );
    let ghost n1 = nodes@;
    let axis: usize = widest_axis(&min, &max);
    let mid: usize = rows.len() / 2;
    let ghost given = rows@;
    let mut left: Vec<RefRow> = select_by_axis(rows, mid, axis);
    let ghost sel = left@;
    proof {
        broadcast use vstd::seq_lib::group_to_multiset_ensures;

        assert(sel.len() == sel.to_multiset().len());
        assert(given.len() == given.to_multiset().len());
        lemma_box_of_permutation(sel, given);
    }
    let right: Vec<RefRow> = left.split_off(mid);
    assert(left@ =~= sel.take(mid as int));
    assert(right@ =~= sel.skip(mid as int));

    let (left_index, left_tree, left_rows) = build_subtree(left, nodes, panels, labels);
    let ghost n2 = nodes@;
    let ghost p2 = panels@;
    let ghost l2 = labels@;
    let (right_index, right_tree, right_rows) = build_subtree(right, nodes, panels, labels);
    let ghost n3 = nodes@;
    nodes[index] =
    Node {
        left: left_index as i32,
        right: right_index as i32,
        start_panel: 0,
        vec_count: 0,
        start_vec: 0,
        _pad: 0,
        min,
        max,
    };
    let ghost t = Tree::Inner(index as int, Box::new(left_tree@), Box::new(right_tree@));
    let ghost stored = left_rows@ + right_rows@;
    proof {
        assert(n1.drop_last() =~= n0);
        assert(nodes@ =~= n3.update(n0.len() as int, nodes@[n0.len() as int]));
        lemma_inner_built(
            given,
            sel,
            left_tree@,
            left_rows@,
            right_tree@,
            right_rows@,
            n0,
            p0,
            l0,
            n1,
            n2,
            p2,
            l2,
            n3,
            nodes@,
            panels@,
            labels@,
        );
    }
    (index, Ghost(t), Ghost(stored))
}

// ---------------------------------------------------------------------------
// Partitions
// ---------------------------------------------------------------------------

/// Of the first `n` rows, those with the given partition key.
pub open spec fn rows_with_key(rows: Seq<RefRow>, key: int, n: int) -> Seq<RefRow>
    decreases n,
{
    if n <= 0 {
        seq![]
    } else if partition_key(rows[n - 1].vec@) == key {
        rows_with_key(rows, key, n - 1).push(rows[n - 1])
    } else {
        rows_with_key(rows, key, n - 1)
    }
}

/// The rows with a key are just those, as often as they occur and in their order.
pub proof fn lemma_rows_with_key(rows: Seq<RefRow>, key: int, n: int)
    requires
        0 <= n <= rows.len(),
    ensures
        forall|i: int|
            0 <= i < rows_with_key(rows, key, n).len() ==> partition_key(
                (#[trigger] rows_with_key(rows, key, n)[i]).vec@,
            ) == key,
        forall|x: RefRow|
            partition_key(x.vec@) == key ==> #[trigger] rows_with_key(
                rows,
                key,
                n,
            ).to_multiset().count(x) == rows.take(n).to_multiset().count(x),
    decreases n,
{
    broadcast use vstd::seq_lib::group_to_multiset_ensures;
    broadcast use vstd::multiset::group_multiset_axioms;

    if n > 0 {
        lemma_rows_with_key(rows, key, n - 1);
        let last = rows[n - 1];
        let part = rows_with_key(rows, key, n - 1);
        let now = rows_with_key(rows, key, n);
        let front = rows.take(n - 1);
        assert(rows.take(n) =~= front.push(last));
        vstd::seq_lib::to_multiset_build(front, last);
        vstd::seq_lib::to_multiset_build(part, last);
        assert forall|i: int| 0 <= i < now.len() implies partition_key((#[trigger] now[i]).vec@)
            == key by {
            if i < part.len() {
                assert(now[i] == part[i]);
            }
        }
        assert forall|x: RefRow| partition_key(x.vec@) == key implies #[trigger] now.to_multiset()
            .count(x) == rows.take(n).to_multiset().count(x) by {
            assert(part.to_multiset().count(x) == front.to_multiset().count(x));
        }
    } else {
        assert(rows.take(0) =~= Seq::<RefRow>::empty());
        assert(rows_with_key(rows, key, 0) =~= Seq::<RefRow>::empty());
    }
}

/// Sorts the rows into one bucket for each partition key.
pub fn bucket_rows(rows: &Vec<RefRow>) -> (buckets: Vec<Vec<RefRow>>)
    ensures
        buckets@.len() == MAX_PARTITIONS,
        forall|k: int|
            0 <= k < MAX_PARTITIONS ==> (#[trigger] buckets@[k])@ == rows_with_key(
                rows@,
                k,
                rows@.len() as int,
            ),
{
    let mut buckets: Vec<Vec<RefRow>> = Vec::new();
    let mut k: usize = 0;
    while k < MAX_PARTITIONS
        invariant
            k <= MAX_PARTITIONS,
            buckets@.len() == k,
            forall|j: int| 0 <= j < k ==> (#[trigger] buckets@[j])@ == Seq::<RefRow>::empty(),
        decreases MAX_PARTITIONS - k,
    {
        buckets.push(Vec::new());
        k = k + 1;
    }
    let mut i: usize = 0;
    while i < rows.len()
        invariant
            i <= rows@.len(),
            buckets@.len() == MAX_PARTITIONS,
            forall|j: int|
                0 <= j < MAX_PARTITIONS ==> (#[trigger] buckets@[j])@ == rows_with_key(
                    rows@,
                    j,
                    i as int,
                ),
        decreases rows@.len() - i,
    {
        let row: RefRow = rows[i];
        let key: usize = compute_partition_key(&row.vec) as usize;
        buckets[key].push(row);
        i = i + 1;
    }
    buckets
}

proof fn lemma_key_range(v: Seq<i16>)
    ensures
        0 <= partition_key(v) < 256,
{
}

/// A bucket holds all rows with its key and no others.
proof fn lemma_bucket(rows: Seq<RefRow>, key: int, n: int, x: RefRow)
    requires
        0 <= n <= rows.len(),
    ensures
        rows_with_key(rows, key, n).len() <= n,
        rows_with_key(rows, key, n).to_multiset().count(x) == if partition_key(x.vec@) == key {
            rows.take(n).to_multiset().count(x)
        } else {
            0
        },
    decreases n,
{
    broadcast use vstd::seq_lib::group_to_multiset_ensures;
    broadcast use vstd::multiset::group_multiset_axioms;

    if n > 0 {
        lemma_bucket(rows, key, n - 1, x);
        assert(rows.take(n) =~= rows.take(n - 1).push(rows[n - 1]));
    }
}

proof fn lemma_bucket_keys(rows: Seq<RefRow>, key: int, n: int)
    requires
        0 <= n <= rows.len(),
    ensures
        forall|i: int|
            0 <= i < rows_with_key(rows, key, n).len() ==> partition_key(
                (#[trigger] rows_with_key(rows, key, n)[i]).vec@,
            ) == key,
    decreases n,
{
    if n > 0 {
        lemma_bucket_keys(rows, key, n - 1);
        let rest = rows_with_key(rows, key, n - 1);
        let all = rows_with_key(rows, key, n);
        assert forall|i: int| 0 <= i < all.len() implies partition_key((#[trigger] all[i]).vec@)
            == key by {
            if i < rest.len() {
                assert(all[i] == rest[i]);
            }
        }
    }
}

// ---------------------------------------------------------------------------
// Building an index
// ---------------------------------------------------------------------------

/// The arrays of an index.
pub struct IndexImage {
    pub partitions: Vec<Partition>,
    pub nodes: Vec<Node>,
    pub panels: Vec<i16>,
    pub labels: Vec<u8>,
}

/// Where the vectors of partition `p` start: behind those of the one before.
pub open spec fn partition_start(partitions: Seq<Partition>, p: int) -> int {
    if p <= 0 {
        0
    } else {
        partitions[p - 1].start_vec + partitions[p - 1].vec_count
    }
}

/// The rows of a partition.
pub open spec fn partition_rows(p: Partition, stored: Seq<RefRow>) -> Seq<RefRow> {
    stored.subrange(p.start_vec as int, p.start_vec + p.vec_count)
}

/// Whether the tree of a partition holds `rows` as the vectors from `first` on.
pub open spec fn partition_tree(
    t: Tree,
    root: int,
    nodes: Seq<Node>,
    panels: Seq<i16>,
    labels: Seq<u8>,
    rows: Seq<RefRow>,
    first: int,
) -> bool {
    &&& t.stored_in(nodes)
    &&& laid_out(t, root)
    &&& tree_holds(t, nodes, panels, labels, rows, first)
    &&& t.height() <= 26
}

/// Whether a partition holds its share of the rows: all of them with its
/// key, inside of its box, and in a balanced tree.
pub open spec fn partition_holds(
    p: Partition,
    nodes: Seq<Node>,
    panels: Seq<i16>,
    labels: Seq<u8>,
    stored: Seq<RefRow>,
) -> bool {
    let rows = partition_rows(p, stored);
    &&& 0 < p.vec_count
    &&& p.start_vec + p.vec_count <= stored.len()
    &&& p.min@ == box_min(rows)
    &&& p.max@ == box_max(rows)
    &&& forall|i: int| 0 <= i < rows.len() ==> partition_key((#[trigger] rows[i]).vec@) == p.key
    &&& exists|t: Tree| #[trigger]
        partition_tree(t, p.root_node as int, nodes, panels, labels, rows, p.start_vec as int)
}

/// Whether the arrays of an index hold exactly the rows `stored`, partition
/// by partition in the order of their keys.
pub open spec fn index_holds(
    partitions: Seq<Partition>,
    nodes: Seq<Node>,
    panels: Seq<i16>,
    labels: Seq<u8>,
    stored: Seq<RefRow>,
) -> bool {
    &&& labels == row_labels(stored)
    &&& panels.len() % 112 == 0
    &&& partition_start(partitions, partitions.len() as int) == stored.len()
    &&& forall|p: int|
        0 <= p < partitions.len() ==> {
            &&& (#[trigger] partitions[p]).start_vec == partition_start(partitions, p)
            &&& partition_holds(partitions[p], nodes, panels, labels, stored)
        }
    &&& forall|p: int, r: int|
        0 <= p < r < partitions.len() ==> (#[trigger] partitions[p]).key < (
        #[trigger] partitions[r]).key
}

/// Number of nodes of the first `n` partitions.
pub open spec fn nodes_before(partitions: Seq<Partition>, nodes: Seq<Node>, n: int) -> int
    decreases n,
{
    if n <= 0 {
        0
    } else {
        nodes_before(partitions, nodes, n - 1) + tree_at(
            nodes,
            partitions[n - 1].root_node as int,
        ).size()
    }
}

/// Number of panels of the first `n` partitions.
pub open spec fn panels_before(partitions: Seq<Partition>, nodes: Seq<Node>, n: int) -> int
    decreases n,
{
    if n <= 0 {
        0
    } else {
        panels_before(partitions, nodes, n - 1) + tree_panels(
            tree_at(nodes, partitions[n - 1].root_node as int),
            nodes,
        )
    }
}

/// Whether the arrays of an index hold the trees of its partitions one after
/// the other, and nothing else.
pub open spec fn index_packed(
    partitions: Seq<Partition>,
    nodes: Seq<Node>,
    panels: Seq<i16>,
    stored: Seq<RefRow>,
) -> bool {
    &&& nodes.len() == nodes_before(partitions, nodes, partitions.len() as int)
    &&& panels.len() == 112 * panels_before(partitions, nodes, partitions.len() as int)
    &&& forall|p: int|
        0 <= p < partitions.len() ==> {
            &&& (#[trigger] partitions[p]).root_node == nodes_before(partitions, nodes, p)
            &&& tree_packed(
                tree_at(nodes, partitions[p].root_node as int),
                nodes,
                panels,
                partition_rows(partitions[p], stored),
                panels_before(partitions, nodes, p),
            )
        }
}

/// The tree of a partition is found by its root, also behind an extension of
/// the node array.
proof fn lemma_tree_kept(
    partitions: Seq<Partition>,
    nodes: Seq<Node>,
    panels: Seq<i16>,
    labels: Seq<u8>,
    stored: Seq<RefRow>,
    p: int,
    more: Seq<Node>,
)
    requires
        index_holds(partitions, nodes, panels, labels, stored),
        0 <= p < partitions.len(),
        nodes.is_prefix_of(more),
    ensures
        ({
            let root = partitions[p].root_node as int;
            let t = tree_at(nodes, root);
            &&& tree_at(more, root) == t
            &&& laid_out(t, root)
            &&& t.stored_in(nodes)
            &&& root + t.size() <= nodes.len()
            &&& forall|k: int| root <= k < root + t.size() ==> nodes[k] == more[k]
        }),
{
    let part = partitions[p];
    let root = part.root_node as int;
    assert(partition_holds(part, nodes, panels, labels, stored));
    let t = choose|t: Tree| #[trigger]
        partition_tree(
            t,
            root,
            nodes,
            panels,
            labels,
            partition_rows(part, stored),
            part.start_vec as int,
        );
    lemma_laid_out_end(t, root, nodes);
    assert forall|k: int| root <= k < root + t.size() implies nodes[k] == more[k] by {
        assert(more.take(nodes.len() as int)[k] == more[k]);
    }
    assert(panels.is_prefix_of(panels)) by {
        assert(panels.take(panels.len() as int) =~= panels);
    }
    assert(labels.is_prefix_of(labels)) by {
        assert(labels.take(labels.len() as int) =~= labels);
    }
    lemma_tree_holds_frame(
        t,
        root,
        nodes,
        more,
        panels,
        panels,
        labels,
        labels,
        partition_rows(part, stored),
        part.start_vec as int,
    );
    lemma_tree_at(nodes, t);
    lemma_tree_at(more, t);
}

/// Counts of nodes and panels do not depend on what stands behind.
proof fn lemma_counts_kept(
    partitions: Seq<Partition>,
    all: Seq<Partition>,
    nodes: Seq<Node>,
    panels: Seq<i16>,
    labels: Seq<u8>,
    stored: Seq<RefRow>,
    more: Seq<Node>,
    n: int,
)
    requires
        index_holds(partitions, nodes, panels, labels, stored),
        index_packed(partitions, nodes, panels, stored),
        partitions.is_prefix_of(all),
        0 <= n <= partitions.len(),
        nodes.is_prefix_of(more),
    ensures
        nodes_before(all, more, n) == nodes_before(partitions, nodes, n),
        panels_before(all, more, n) == panels_before(partitions, nodes, n),
        panels_before(partitions, nodes, n) >= 0,
    decreases n,
{
    if n > 0 {
        let p = n - 1;
        lemma_counts_kept(partitions, all, nodes, panels, labels, stored, more, p);
        assert(all.take(partitions.len() as int)[p] == all[p]);
        lemma_tree_kept(partitions, nodes, panels, labels, stored, p, more);
        let root = partitions[p].root_node as int;
        assert(panels.take(panels.len() as int) =~= panels);
        lemma_tree_packed_frame(
            tree_at(nodes, root),
            root,
            nodes,
            more,
            panels,
            panels,
            partition_rows(partitions[p], stored),
            panels_before(partitions, nodes, p),
        );
    }
}

/// One more partition behind those that the index holds packed.
#[verifier::spinoff_prover]
proof fn lemma_partition_packed(
    parts: Seq<Partition>,
    p: Partition,
    t: Tree,
    bucket: Seq<RefRow>,
    added: Seq<RefRow>,
    stored: Seq<RefRow>,
    n1: Seq<Node>,
    p1: Seq<i16>,
    l1: Seq<u8>,
    n2: Seq<Node>,
    p2: Seq<i16>,
    l2: Seq<u8>,
)
    requires
        index_holds(parts, n1, p1, l1, stored),
        index_packed(parts, n1, p1, stored),
        subtree_built(t, bucket, added, n1, p1, l1, n2, p2, l2),
        p.root_node == n1.len(),
        p.start_vec == stored.len(),
        p.vec_count == added.len(),
    ensures
        index_packed(parts.push(p), n2, p2, stored + added),
{
    let all = parts.push(p);
    let s2 = stored + added;
    let n = parts.len() as int;
    assert(all.take(n) =~= parts);
    lemma_counts_kept(parts, all, n1, p1, l1, stored, n2, n);
    lemma_tree_at(n2, t);
    assert(t.root() == n1.len());
    assert(partition_rows(p, s2) =~= added);
    assert(p1.len() as int / 112 == panels_before(parts, n1, n));
    assert forall|k: int| 0 <= k < all.len() implies {
        &&& (#[trigger] all[k]).root_node == nodes_before(all, n2, k)
        &&& tree_packed(
            tree_at(n2, all[k].root_node as int),
            n2,
            p2,
            partition_rows(all[k], s2),
            panels_before(all, n2, k),
        )
    } by {
        if k < n {
            assert(all[k] == parts[k]);
            lemma_counts_kept(parts, all, n1, p1, l1, stored, n2, k);
            lemma_tree_kept(parts, n1, p1, l1, stored, k, n2);
            assert(partition_holds(parts[k], n1, p1, l1, stored));
            assert(partition_rows(parts[k], s2) =~= partition_rows(parts[k], stored));
            let root = parts[k].root_node as int;
            lemma_tree_packed_frame(
                tree_at(n1, root),
                root,
                n1,
                n2,
                p1,
                p2,
                partition_rows(parts[k], stored),
                panels_before(parts, n1, k),
            );
        }
    }
}

/// A partition holds its rows whatever stands behind them.
proof fn lemma_partition_holds_frame(
    p: Partition,
    n1: Seq<Node>,
    n2: Seq<Node>,
    p1: Seq<i16>,
    p2: Seq<i16>,
    l1: Seq<u8>,
    l2: Seq<u8>,
    s1: Seq<RefRow>,
    s2: Seq<RefRow>,
)
    requires
        partition_holds(p, n1, p1, l1, s1),
        n1.is_prefix_of(n2),
        p1.is_prefix_of(p2),
        l1.is_prefix_of(l2),
        s1.is_prefix_of(s2),
    ensures
        partition_holds(p, n2, p2, l2, s2),
{
    let rows = partition_rows(p, s1);
    assert(s2.take(s1.len() as int) == s1);
    assert(rows =~= partition_rows(p, s2)) by {
        assert forall|i: int| 0 <= i < rows.len() implies rows[i] == partition_rows(p, s2)[i] by {
            assert(s2.take(s1.len() as int)[p.start_vec + i] == s2[p.start_vec + i]);
        }
    }
    let t = choose|t: Tree| #[trigger]
        partition_tree(t, p.root_node as int, n1, p1, l1, rows, p.start_vec as int);
    lemma_laid_out_end(t, p.root_node as int, n1);
    assert forall|k: int| p.root_node <= k < p.root_node + t.size() implies n1[k] == n2[k] by {
        assert(n2.take(n1.len() as int)[k] == n2[k]);
    }
    lemma_tree_holds_frame(
        t,
        p.root_node as int,
        n1,
        n2,
        p1,
        p2,
        l1,
        l2,
        rows,
        p.start_vec as int,
    );
    assert(partition_tree(t, p.root_node as int, n2, p2, l2, rows, p.start_vec as int));
}

/// A tree that is laid out in the node array ends inside of it.
proof fn lemma_laid_out_end(t: Tree, at: int, nodes: Seq<Node>)
    requires
        laid_out(t, at),
        t.stored_in(nodes),
    ensures
        0 <= at,
        at + t.size() <= nodes.len(),
    decreases t,
{
    match t {
        Tree::Leaf(_) => {},
        Tree::Inner(_, l, r) => {
            lemma_laid_out_end(*l, at + 1, nodes);
            lemma_laid_out_end(*r, at + 1 + l.size(), nodes);
        },
    }
}

/// How the rows with keys below `key` are accounted for.
spec fn accounted(rows: Seq<RefRow>, stored: Seq<RefRow>, key: int) -> bool {
    forall|x: RefRow| #[trigger]
        stored.to_multiset().count(x) == if partition_key(x.vec@) < key {
            rows.to_multiset().count(x)
        } else {
            0
        }
}

/// One more partition behind those that the index holds.
#[verifier::spinoff_prover]
proof fn lemma_partition_added(
    parts: Seq<Partition>,
    p: Partition,
    t: Tree,
    bucket: Seq<RefRow>,
    added: Seq<RefRow>,
    stored: Seq<RefRow>,
    n1: Seq<Node>,
    p1: Seq<i16>,
    l1: Seq<u8>,
    n2: Seq<Node>,
    p2: Seq<i16>,
    l2: Seq<u8>,
)
    requires
        index_holds(parts, n1, p1, l1, stored),
        subtree_built(t, bucket, added, n1, p1, l1, n2, p2, l2),
        0 < bucket.len(),
        l1.len() + bucket.len() <= u32::MAX,
        forall|i: int| 0 <= i < bucket.len() ==> partition_key((#[trigger] bucket[i]).vec@) == p.key,
        forall|i: int| 0 <= i < parts.len() ==> (#[trigger] parts[i]).key < p.key,
        p.root_node == n1.len(),
        p.start_vec == l1.len(),
        p.vec_count == bucket.len(),
        p.min@ == box_min(bucket),
        p.max@ == box_max(bucket),
    ensures
        index_holds(parts.push(p), n2, p2, l2, stored + added),
{
    broadcast use vstd::seq_lib::group_to_multiset_ensures;

    let all = parts.push(p);
    let s2 = stored + added;
    assert(l2 =~= row_labels(s2));
    assert(s2.take(stored.len() as int) =~= stored);
    assert(l2.take(l1.len() as int) =~= l1);
    let rows = partition_rows(p, s2);
    assert(rows =~= added);
    lemma_box_of_permutation(added, bucket);
    assert forall|i: int| 0 <= i < rows.len() implies partition_key((#[trigger] rows[i]).vec@)
        == p.key by {
        assert(added.contains(rows[i]));
        assert(added.to_multiset().count(rows[i]) > 0);
        assert(bucket.contains(rows[i]));
    }
    lemma2_to64();
    assert(bucket.len() <= 128 * pow2(25));
    assert(partition_tree(t, p.root_node as int, n2, p2, l2, rows, p.start_vec as int));
    assert(partition_holds(p, n2, p2, l2, s2));
    assert forall|k: int| 0 <= k < all.len() implies {
        &&& (#[trigger] all[k]).start_vec == partition_start(all, k)
        &&& partition_holds(all[k], n2, p2, l2, s2)
    } by {
        if k < parts.len() {
            assert(all[k] == parts[k]);
            lemma_partition_holds_frame(all[k], n1, n2, p1, p2, l1, l2, stored, s2);
        }
    }
}

/// Builds an index of some rows: one balanced tree for each partition key
/// that occurs.
#[verifier::spinoff_prover]
pub fn build_index(rows: &Vec<RefRow>) -> (image: IndexImage)
    requires
        rows@.len() <= u32::MAX,
    ensures
        exists|stored: Seq<RefRow>|
            {
                &&& stored.to_multiset() == rows@.to_multiset()
                &&& #[trigger] index_holds(
                    image.partitions@,
                    image.nodes@,
                    image.panels@,
                    image.labels@,
                    stored,
                )
                &&& index_packed(image.partitions@, image.nodes@, image.panels@, stored)
            },
        image.partitions@.len() <= MAX_PARTITIONS,
        image.nodes@.len() <= i32::MAX,
        image.panels@.len() <= 112 * image.labels@.len(),
        image.labels@.len() == rows@.len(),
{
    let mut buckets: Vec<Vec<RefRow>> = bucket_rows(rows);
    let mut partitions: Vec<Partition> = Vec::new();
    let mut nodes: Vec<Node> = Vec::new();
    let mut panels: Vec<i16> = Vec::new();
    let mut labels: Vec<u8> = Vec::new();
    let ghost mut stored: Seq<RefRow> = seq![];
    proof {
        broadcast use vstd::seq_lib::group_to_multiset_ensures;
        broadcast use vstd::multiset::group_multiset_axioms;

        assert(labels@ =~= row_labels(stored));
        assert forall|x: RefRow| #[trigger] stored.to_multiset().count(x) == 0 by {
            assert(!stored.contains(x));
        }
    }
    let mut left: usize = MAX_PARTITIONS;
    while left > 0
        invariant
            left <= MAX_PARTITIONS,
            rows@.len() <= u32::MAX,
            buckets@.len() == left,
            forall|k: int|
                0 <= k < left ==> (#[trigger] buckets@[k])@ == rows_with_key(
                    rows@,
                    MAX_PARTITIONS - left + k,
                    rows@.len() as int,
                ),
            accounted(rows@, stored, MAX_PARTITIONS - left),
            index_holds(partitions@, nodes@, panels@, labels@, stored),
            index_packed(partitions@, nodes@, panels@, stored),
            partitions@.len() <= MAX_PARTITIONS - left,
            forall|p: int|
                0 <= p < partitions@.len() ==> (#[trigger] partitions@[p]).key < MAX_PARTITIONS
                    - left,
            nodes@.len() <= labels@.len() / 32 + MAX_PARTITIONS - left,
            panels@.len() <= 112 * labels@.len(),
        decreases left,
    {
        let key: usize = MAX_PARTITIONS - left;
        let ghost before = buckets@;
        let bucket: Vec<RefRow> = buckets.remove(0);
        left = left - 1;
        assert forall|k: int| 0 <= k < left implies (#[trigger] buckets@[k])@ == rows_with_key(
            rows@,
            MAX_PARTITIONS - left + k,
            rows@.len() as int,
        ) by {
            assert(buckets@[k] == before[k + 1]);
        }
        assert(bucket@ == rows_with_key(rows@, key as int, rows@.len() as int));
        let ghost was = stored;
        proof {
            lemma_accounted_size(rows@, stored, key as int);
            lemma_bucket_keys(rows@, key as int, rows@.len() as int);
        }
        if bucket.len() > 0 {
            let start_vec: u32 = labels.len() as u32;
            let vec_count: u32 = bucket.len() as u32;
            let (min, max): (QueryVector, QueryVector) = compute_bbox(&bucket);
            let ghost n1 = nodes@;
            let ghost p1 = panels@;
            let ghost l1 = labels@;
            let ghost rows_here = bucket@;
            let (root, t, added) = build_subtree(bucket, &mut nodes, &mut panels, &mut labels);
            let p = Partition {
                key: key as u32,
                root_node: root as u32,
                start_vec,
                vec_count,
                min,
                max,
            };
            proof {
                lemma_partition_packed(
                    partitions@,
                    p,
                    t@,
                    rows_here,
                    added@,
                    stored,
                    n1,
                    p1,
                    l1,
                    nodes@,
                    panels@,
                    labels@,
                );
                lemma_partition_added(
                    partitions@,
                    p,
                    t@,
                    rows_here,
                    added@,
                    stored,
                    n1,
                    p1,
                    l1,
                    nodes@,
                    panels@,
                    labels@,
                );
                stored = stored + added@;
            }
            partitions.push(p);
        }
        proof {
            lemma_accounted_step(rows@, was, stored, key as int);
        }
    }
    proof {
        lemma_accounted_all(rows@, stored);
    }
    let image = IndexImage { partitions, nodes, panels, labels };
    assert(index_holds(
        image.partitions@,
        image.nodes@,
        image.panels@,
        image.labels@,
        stored,
    ));
    image
}

/// The rows of one more bucket fit in.
proof fn lemma_accounted_size(rows: Seq<RefRow>, stored: Seq<RefRow>, key: int)
    requires
        accounted(rows, stored, key),
    ensures
        stored.len() + rows_with_key(rows, key, rows.len() as int).len() <= rows.len(),
{
    broadcast use vstd::seq_lib::group_to_multiset_ensures;
    broadcast use vstd::multiset::group_multiset_axioms;

    let bucket = rows_with_key(rows, key, rows.len() as int);
    let all = stored + bucket;
    vstd::seq_lib::lemma_multiset_commutative(stored, bucket);
    assert(rows.take(rows.len() as int) =~= rows);
    assert forall|x: RefRow| #[trigger] all.to_multiset().count(x) <= rows.to_multiset().count(x) by {
        lemma_bucket(rows, key, rows.len() as int, x);
        assert(stored.to_multiset().count(x) >= 0);
    }
    assert(all.to_multiset().subset_of(rows.to_multiset()));
    assert(rows.to_multiset().sub(all.to_multiset()).len() == rows.to_multiset().len()
        - all.to_multiset().len());
    assert(all.len() == all.to_multiset().len());
    assert(rows.len() == rows.to_multiset().len());
}

/// Behind one more bucket, one more key is accounted for.
proof fn lemma_accounted_step(rows: Seq<RefRow>, was: Seq<RefRow>, now: Seq<RefRow>, key: int)
    requires
        accounted(rows, was, key),
        ({
            let bucket = rows_with_key(rows, key, rows.len() as int);
            if bucket.len() > 0 {
                exists|added: Seq<RefRow>|
                    #![trigger added.to_multiset()]
                    added.to_multiset() == bucket.to_multiset() && now == was + added
            } else {
                now == was
            }
        }),
    ensures
        accounted(rows, now, key + 1),
{
    broadcast use vstd::seq_lib::group_to_multiset_ensures;
    broadcast use vstd::multiset::group_multiset_axioms;

    let bucket = rows_with_key(rows, key, rows.len() as int);
    assert(rows.take(rows.len() as int) =~= rows);
    if bucket.len() > 0 {
        let added = choose|added: Seq<RefRow>|
            #![trigger added.to_multiset()]
            added.to_multiset() == bucket.to_multiset() && now == was + added;
        vstd::seq_lib::lemma_multiset_commutative(was, added);
    }
    assert forall|x: RefRow| #[trigger] now.to_multiset().count(x) == if partition_key(x.vec@)
        < key + 1 {
        rows.to_multiset().count(x)
    } else {
        0
    } by {
        lemma_bucket(rows, key, rows.len() as int, x);
        assert(was.to_multiset().count(x) >= 0);
        if bucket.len() == 0 {
            assert(!bucket.contains(x));
            assert(bucket.to_multiset().count(x) == 0);
        }
    }
}

/// Behind the last bucket, every row is accounted for.
proof fn lemma_accounted_all(rows: Seq<RefRow>, stored: Seq<RefRow>)
    requires
        accounted(rows, stored, 256),
    ensures
        stored.to_multiset() == rows.to_multiset(),
        stored.len() == rows.len(),
{
    broadcast use vstd::seq_lib::group_to_multiset_ensures;
    broadcast use vstd::multiset::group_multiset_axioms;

    assert forall|x: RefRow| #[trigger] stored.to_multiset().count(x) == rows.to_multiset().count(
        x,
    ) by {
        lemma_key_range(x.vec@);
    }
    assert(stored.to_multiset() =~= rows.to_multiset());
    assert(stored.len() == stored.to_multiset().len());
    assert(rows.len() == rows.to_multiset().len());
}

} // verus!
