//! Records of the index file.
//!
//! ```text
//! header (32 B) | partitions [N x 80 B] | nodes [M x 88 B]
//!               | panels (224 B each) | labels (1 B each)
//! ```
//!
//! A panel holds eight vectors, pair-interleaved: seven pairs of dimensions,
//! eight lanes each, and in a lane the even and then the odd dimension.

use super::geometry::{DIM, PACKED_DIMS};
use vstd::prelude::*;

verus! {

/// Vectors per panel.
pub const LANES: usize = 8;

/// Pairs of consecutive dimensions in a panel.
pub const PAIRS: usize = (DIM + 1) / 2;

/// Most vectors in a leaf of a tree.
pub const LEAF_SIZE: usize = 128;

/// Number of partition keys.
pub const MAX_PARTITIONS: usize = 256;

/// Most subtrees that a search puts aside at once.
pub const TREE_STACK_CAPACITY: usize = 128;

/// First bytes of an index file: `RSPECST2`.
pub const MAGIC: [u8; 8] = [82, 83, 80, 69, 67, 83, 84, 50];

/// Version of the index file.
pub const FORMAT_VERSION: u32 = 2;

/// Encoded size of a [`Header`].
pub const HEADER_BYTES: usize = 32;

/// Encoded size of a [`Partition`].
pub const PARTITION_BYTES: usize = 80;

/// Encoded size of a [`Node`].
pub const NODE_BYTES: usize = 88;

/// Coordinates in a panel.
pub const PANEL_COORDS: usize = 112;

/// Encoded size of a panel.
pub const PANEL_BYTES: usize = 224;

/// The first record of an index file.
#[derive(Copy, Clone, Debug)]
pub struct Header {
    pub magic: [u8; 8],
    pub version: u32,
    pub scale: i32,
    pub partition_count: u32,
    pub node_count: u32,
    pub total_vectors: u32,
    pub total_panels: u32,
}

/// All vectors that share a partition key.
#[derive(Copy, Clone, Debug)]
pub struct Partition {
    pub key: u32,
    pub root_node: u32,
    pub start_vec: u32,
    pub vec_count: u32,
    pub min: [i16; PACKED_DIMS],
    pub max: [i16; PACKED_DIMS],
}

/// A node is internal if both children are non-negative, and a leaf
/// otherwise. For leaves, `start_panel`, `vec_count` and `start_vec` describe
/// the contiguous block of vectors.
#[derive(Copy, Clone, Debug)]
pub struct Node {
    pub left: i32,
    pub right: i32,
    pub start_panel: u32,
    pub vec_count: u32,
    pub start_vec: u32,
    pub _pad: u32,
    pub min: [i16; PACKED_DIMS],
    pub max: [i16; PACKED_DIMS],
}

/// Whether a node is a leaf.
pub open spec fn is_leaf(n: Node) -> bool {
    n.left < 0 || n.right < 0
}

/// Where a panel holds dimension `d` of lane `lane`: panels take
/// [`PANEL_COORDS`] coordinates each, and pairs twice [`LANES`].
pub open spec fn panel_offset(panel: int, lane: int, d: int) -> int {
    panel * 112 + (d / 2) * 16 + lane * 2 + d % 2
}

/// Vector `j` of a block of vectors that starts at panel `start`.
pub open spec fn panel_vector(panels: Seq<i16>, start: int, j: int) -> Seq<i16> {
    Seq::new(
        DIM as nat,
        |d: int| panels[panel_offset(start + j / 8, j % 8, d)],
    )
}

/// Number of panels that `n` vectors take.
pub open spec fn panels_for(n: int) -> int {
    (n + 7) / 8
}

} // verus!
