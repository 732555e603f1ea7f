//! Trees over the node array.

use super::format::{is_leaf, panels_for, Node};
use vstd::prelude::*;

verus! {

/// A tree of nodes, by their places in the node array.
pub enum Tree {
    Leaf(int),
    Inner(int, Box<Tree>, Box<Tree>),
}

impl Tree {
    /// Place of the top node.
    pub open spec fn root(self) -> int {
        match self {
            Tree::Leaf(i) => i,
            Tree::Inner(i, _, _) => i,
        }
    }

    /// Number of nodes.
    pub open spec fn size(self) -> nat
        decreases self,
    {
        match self {
            Tree::Leaf(_) => 1,
            Tree::Inner(_, l, r) => 1 + l.size() + r.size(),
        }
    }

    /// Number of nodes on the longest way down.
    pub open spec fn height(self) -> nat
        decreases self,
    {
        match self {
            Tree::Leaf(_) => 1,
            Tree::Inner(_, l, r) => 1 + if l.height() >= r.height() {
                l.height()
            } else {
                r.height()
            },
        }
    }

    /// Whether the node array holds this tree.
    pub open spec fn stored_in(self, nodes: Seq<Node>) -> bool
        decreases self,
    {
        match self {
            Tree::Leaf(i) => 0 <= i < nodes.len() && is_leaf(nodes[i]),
            Tree::Inner(i, l, r) => {
                &&& 0 <= i < nodes.len()
                &&& !is_leaf(nodes[i])
                &&& l.root() == nodes[i].left
                &&& r.root() == nodes[i].right
                &&& l.stored_in(nodes)
                &&& r.stored_in(nodes)
            },
        }
    }

    /// Number of vectors in the leaves.
    pub open spec fn vectors(self, nodes: Seq<Node>) -> nat
        decreases self,
    {
        match self {
            Tree::Leaf(i) => nodes[i].vec_count as nat,
            Tree::Inner(_, l, r) => l.vectors(nodes) + r.vectors(nodes),
        }
    }

    /// Whether every leaf lies inside of the panel and label arrays.
    pub open spec fn leaves_fit(self, nodes: Seq<Node>, panel_coords: nat, labels: nat) -> bool
        decreases self,
    {
        match self {
            Tree::Leaf(i) => leaf_fits(nodes[i], panel_coords, labels),
            Tree::Inner(_, l, r) => l.leaves_fit(nodes, panel_coords, labels) && r.leaves_fit(
                nodes,
                panel_coords,
                labels,
            ),
        }
    }

    /// A tree that a search can walk: stored in the node array, with all of
    /// its leaves in range, and with a vector count that fits 32 bits.
    pub open spec fn walkable(self, nodes: Seq<Node>, panel_coords: nat, labels: nat) -> bool {
        &&& self.stored_in(nodes)
        &&& self.leaves_fit(nodes, panel_coords, labels)
        &&& self.vectors(nodes) <= u32::MAX
    }
}

/// Whether the block of vectors of a leaf lies inside of the panel and label
/// arrays.
pub open spec fn leaf_fits(n: Node, panel_coords: nat, labels: nat) -> bool {
    n.vec_count == 0 || {
        &&& (n.start_panel + panels_for(n.vec_count as int)) * 112 <= panel_coords
        &&& n.start_vec + n.vec_count <= labels
    }
}

/// The tree under a node.
pub open spec fn tree_at(nodes: Seq<Node>, i: int) -> Tree {
    choose|t: Tree| #[trigger] t.stored_in(nodes) && t.root() == i
}

/// Whether a search can start at node `i`.
pub open spec fn walkable_at(
    nodes: Seq<Node>,
    i: int,
    panel_coords: nat,
    labels: nat,
) -> bool {
    exists|t: Tree| #[trigger] t.walkable(nodes, panel_coords, labels) && t.root() == i
}

/// The top node of a stored tree is in the node array.
pub proof fn lemma_root_in_range(nodes: Seq<Node>, t: Tree)
    requires
        t.stored_in(nodes),
    ensures
        0 <= t.root() < nodes.len(),
        t is Leaf <==> is_leaf(nodes[t.root()]),
{
}

/// The node array holds at most one tree under a node.
pub proof fn lemma_tree_unique(nodes: Seq<Node>, s: Tree, t: Tree)
    requires
        s.stored_in(nodes),
        t.stored_in(nodes),
        s.root() == t.root(),
    ensures
        s == t,
    decreases s,
{
    match s {
        Tree::Leaf(_) => {},
        Tree::Inner(_, l, r) => {
            match t {
                Tree::Leaf(_) => {},
                Tree::Inner(_, l2, r2) => {
                    lemma_tree_unique(nodes, *l, *l2);
                    lemma_tree_unique(nodes, *r, *r2);
                },
            }
        },
    }
}

/// The tree under a node is any tree that is stored there.
pub proof fn lemma_tree_at(nodes: Seq<Node>, t: Tree)
    requires
        t.stored_in(nodes),
    ensures
        tree_at(nodes, t.root()) == t,
{
    lemma_tree_unique(nodes, tree_at(nodes, t.root()), t);
}

/// Where a search can start, the tree under the node is walkable.
pub proof fn lemma_walkable_at(nodes: Seq<Node>, i: int, panel_coords: nat, labels: nat)
    requires
        walkable_at(nodes, i, panel_coords, labels),
    ensures
        tree_at(nodes, i).walkable(nodes, panel_coords, labels),
        tree_at(nodes, i).root() == i,
{
    let t = choose|t: Tree| #[trigger] t.walkable(nodes, panel_coords, labels) && t.root() == i;
    lemma_tree_at(nodes, t);
}

// ---------------------------------------------------------------------------
// Checking
// ---------------------------------------------------------------------------

/// Whether the next look at node `i` finds it good: a leaf in range, or an
/// inner node over two good ones with a total that fits 32 bits.
spec fn looks_good(
    nodes: Seq<Node>,
    panel_coords: nat,
    labels: nat,
    good: Seq<bool>,
    below: Seq<u32>,
    i: int,
) -> bool {
    let n = nodes[i];
    if is_leaf(n) {
        leaf_fits(n, panel_coords, labels)
    } else {
        &&& n.left < nodes.len()
        &&& n.right < nodes.len()
        &&& good[n.left as int]
        &&& good[n.right as int]
        &&& below[n.left as int] + below[n.right as int] <= u32::MAX
    }
}

/// Whether what is known of node `i` is right.
spec fn right_about(
    nodes: Seq<Node>,
    panel_coords: nat,
    labels: nat,
    good: Seq<bool>,
    below: Seq<u32>,
    i: int,
) -> bool {
    good[i] ==> {
        &&& walkable_at(nodes, i, panel_coords, labels)
        &&& below[i] == tree_at(nodes, i).vectors(nodes)
    }
}

/// A node that looks good can be walked.
proof fn lemma_looks_good(
    nodes: Seq<Node>,
    panel_coords: nat,
    labels: nat,
    good: Seq<bool>,
    below: Seq<u32>,
    i: int,
)
    requires
        0 <= i < nodes.len(),
        good.len() == nodes.len(),
        below.len() == nodes.len(),
        forall|k: int|
            0 <= k < nodes.len() ==> #[trigger] right_about(
                nodes,
                panel_coords,
                labels,
                good,
                below,
                k,
            ),
        looks_good(nodes, panel_coords, labels, good, below, i),
    ensures
        walkable_at(nodes, i, panel_coords, labels),
        tree_at(nodes, i).vectors(nodes) == (if is_leaf(nodes[i]) {
            nodes[i].vec_count as int
        } else {
            below[nodes[i].left as int] + below[nodes[i].right as int]
        }),
{
    let n = nodes[i];
    if is_leaf(n) {
        let t = Tree::Leaf(i);
        assert(t.walkable(nodes, panel_coords, labels));
        lemma_tree_at(nodes, t);
    } else {
        let l = n.left as int;
        let r = n.right as int;
        assert(right_about(nodes, panel_coords, labels, good, below, l));
        assert(right_about(nodes, panel_coords, labels, good, below, r));
        lemma_walkable_at(nodes, l, panel_coords, labels);
        lemma_walkable_at(nodes, r, panel_coords, labels);
        let t = Tree::Inner(i, Box::new(tree_at(nodes, l)), Box::new(tree_at(nodes, r)));
        assert(t.walkable(nodes, panel_coords, labels));
        lemma_tree_at(nodes, t);
    }
}

/// Once no further node looks good, every walkable tree is known.
proof fn lemma_survey_complete(
    nodes: Seq<Node>,
    panel_coords: nat,
    labels: nat,
    good: Seq<bool>,
    below: Seq<u32>,
    t: Tree,
)
    requires
        good.len() == nodes.len(),
        below.len() == nodes.len(),
        forall|k: int|
            0 <= k < nodes.len() ==> #[trigger] right_about(
                nodes,
                panel_coords,
                labels,
                good,
                below,
                k,
            ),
        forall|k: int|
            0 <= k < nodes.len() && #[trigger] looks_good(
                nodes,
                panel_coords,
                labels,
                good,
                below,
                k,
            ) ==> good[k],
        t.walkable(nodes, panel_coords, labels),
    ensures
        0 <= t.root() < nodes.len(),
        good[t.root()],
    decreases t,
{
    let i = t.root();
    match t {
        Tree::Leaf(_) => {
            assert(looks_good(nodes, panel_coords, labels, good, below, i));
        },
        Tree::Inner(_, l, r) => {
            lemma_survey_complete(nodes, panel_coords, labels, good, below, *l);
            lemma_survey_complete(nodes, panel_coords, labels, good, below, *r);
            assert(right_about(nodes, panel_coords, labels, good, below, l.root()));
            assert(right_about(nodes, panel_coords, labels, good, below, r.root()));
            lemma_tree_at(nodes, *l);
            lemma_tree_at(nodes, *r);
            assert(looks_good(nodes, panel_coords, labels, good, below, i));
        },
    }
}

/// Number of nodes among the first `n` that are not known to be good.
spec fn unknown(good: Seq<bool>, n: int) -> nat
    decreases n,
{
    if n <= 0 {
        0
    } else {
        unknown(good, n - 1) + if good[n - 1] {
            0nat
        } else {
            1nat
        }
    }
}

proof fn lemma_unknown_drops(good: Seq<bool>, i: int, n: int)
    requires
        0 <= i < good.len(),
        0 <= n <= good.len(),
        !good[i],
    ensures
        unknown(good.update(i, true), n) == unknown(good, n) - if i < n {
            1int
        } else {
            0int
        },
    decreases n,
{
    if n > 0 {
        lemma_unknown_drops(good, i, n - 1);
    }
}

/// Tests whether the block of vectors of a leaf lies inside of the panel and
/// label arrays.
fn leaf_in_range(n: &Node, panel_coords: usize, labels: usize) -> (r: bool)
    ensures
        r == leaf_fits(*n, panel_coords as nat, labels as nat),
{
    n.vec_count == 0 || ((n.start_panel as u64 + (n.vec_count as u64 + 7) / 8) * 112
        <= panel_coords as u64 && n.start_vec as u64 + n.vec_count as u64 <= labels as u64)
}

/// Finds every node that a search can start at.
#[verifier::spinoff_prover]
pub fn survey(nodes: &Vec<Node>, panel_coords: usize, labels: usize) -> (good: Vec<bool>)
    ensures
        good@.len() == nodes@.len(),
        forall|i: int|
            0 <= i < nodes@.len() ==> #[trigger] good@[i] == walkable_at(
                nodes@,
                i,
                panel_coords as nat,
                labels as nat,
            ),
{
    let len: usize = nodes.len();
    let mut good: Vec<bool> = Vec::new();
    let mut below: Vec<u32> = Vec::new();
    let mut i: usize = 0;
    while i < len
        invariant
            i <= len,
            good@.len() == i,
            below@.len() == i,
            forall|k: int| 0 <= k < i ==> !#[trigger] good@[k],
        decreases len - i,
    {
        good.push(false);
        below.push(0);
        i = i + 1;
    }
    let ghost pc = panel_coords as nat;
    let ghost lb = labels as nat;
    let mut progress: bool = true;
    while progress
        invariant
            len == nodes@.len(),
            good@.len() == len,
            below@.len() == len,
            pc == panel_coords,
            lb == labels,
            forall|k: int|
                0 <= k < len ==> #[trigger] right_about(nodes@, pc, lb, good@, below@, k),
            !progress ==> forall|k: int|
                0 <= k < len && #[trigger] looks_good(nodes@, pc, lb, good@, below@, k) ==> good@[k],
        decreases
                2 * unknown(good@, len as int) + if progress {
                    1nat
                } else {
                    0nat
                },
    {
        let ghost start = unknown(good@, len as int);
        progress = false;
        let mut j: usize = len;
        while j > 0
            invariant
                j <= len,
                len == nodes@.len(),
                good@.len() == len,
                below@.len() == len,
                pc == panel_coords,
                lb == labels,
                forall|k: int|
                    0 <= k < len ==> #[trigger] right_about(nodes@, pc, lb, good@, below@, k),
                !progress ==> forall|k: int|
                    j <= k < len && #[trigger] looks_good(nodes@, pc, lb, good@, below@, k)
                        ==> good@[k],
                !progress ==> unknown(good@, len as int) == start,
                progress ==> unknown(good@, len as int) < start,
            decreases j,
        {
            j = j - 1;
            if !good[j] {
                let n: Node = nodes[j];
                let (fine, total): (bool, u32) = if n.left < 0 || n.right < 0 {
                    (leaf_in_range(&n, panel_coords, labels), n.vec_count)
                } else {
                    let l: usize = n.left as usize;
                    let r: usize = n.right as usize;
                    if l < len && r < len && good[l] && good[r] && below[l] as u64 + below[r] as u64
                        <= u32::MAX as u64 {
                        (true, below[l] + below[r])
                    } else {
                        (false, 0)
                    }
                };
                assert(fine == looks_good(nodes@, pc, lb, good@, below@, j as int));
                if fine {
                    proof {
                        lemma_looks_good(nodes@, pc, lb, good@, below@, j as int);
                        lemma_unknown_drops(good@, j as int, len as int);
                    }
                    let ghost good0 = good@;
                    let ghost below0 = below@;
                    good[j] = true;
                    below[j] = total;
                    progress = true;
                    assert forall|k: int| 0 <= k < len implies #[trigger] right_about(
                        nodes@,
                        pc,
                        lb,
                        good@,
                        below@,
                        k,
                    ) by {
                        assert(right_about(nodes@, pc, lb, good0, below0, k));
                    }
                }
            }
        }
    }
    assert forall|i: int| 0 <= i < nodes@.len() implies #[trigger] good@[i] == walkable_at(
        nodes@,
        i,
        pc,
        lb,
    ) by {
        assert(right_about(nodes@, pc, lb, good@, below@, i));
        if walkable_at(nodes@, i, pc, lb) {
            lemma_walkable_at(nodes@, i, pc, lb);
            lemma_survey_complete(nodes@, pc, lb, good@, below@, tree_at(nodes@, i));
        }
    }
    good
}

} // verus!
