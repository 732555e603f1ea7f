//! Reading an index file.

use super::format::{
    Header, Node, Partition, FORMAT_VERSION, HEADER_BYTES, MAGIC, NODE_BYTES, PANEL_BYTES,
    PARTITION_BYTES,
};
use super::geometry::{QueryVector, PACKED_DIMS};
use super::search::IndexView;
use crate::bytes::{copy_bytes, le_i16, le_i32, le_u32, read_i16, read_i32, read_u32, same_bytes};
use vstd::prelude::*;

verus! {

/// Why a file is no index.
#[derive(Copy, Clone, Debug, PartialEq, Eq)]
pub enum LoadErr {
    BadMagic,
    BadVersion,
    Truncated,
}

// ---------------------------------------------------------------------------
// The file as numbers
// ---------------------------------------------------------------------------

/// Number of partitions that the header announces.
pub open spec fn stored_partitions(s: Seq<u8>) -> int {
    le_u32(s, 16)
}

/// Number of nodes that the header announces.
pub open spec fn stored_nodes(s: Seq<u8>) -> int {
    le_u32(s, 20)
}

/// Number of vectors that the header announces.
pub open spec fn stored_vectors(s: Seq<u8>) -> int {
    le_u32(s, 24)
}

/// Number of panels that the header announces.
pub open spec fn stored_panels(s: Seq<u8>) -> int {
    le_u32(s, 28)
}

/// Where partition `i` is stored.
pub open spec fn partition_offset(i: int) -> int {
    32 + 80 * i
}

/// Where node `i` is stored.
pub open spec fn node_offset(s: Seq<u8>, i: int) -> int {
    partition_offset(stored_partitions(s)) + 88 * i
}

/// Where coordinate `i` of the panels is stored.
pub open spec fn coord_offset(s: Seq<u8>, i: int) -> int {
    node_offset(s, stored_nodes(s)) + 2 * i
}

/// Where label `i` is stored.
pub open spec fn label_offset(s: Seq<u8>, i: int) -> int {
    coord_offset(s, 112 * stored_panels(s)) + i
}

/// What keeps a file from being an index, if anything does.
pub open spec fn load_error(s: Seq<u8>) -> Option<LoadErr> {
    if s.len() < 32 {
        Some(LoadErr::Truncated)
    } else if s.subrange(0, 8) != MAGIC@ {
        Some(LoadErr::BadMagic)
    } else if le_u32(s, 8) != FORMAT_VERSION {
        Some(LoadErr::BadVersion)
    } else if s.len() < label_offset(s, stored_vectors(s)) {
        Some(LoadErr::Truncated)
    } else {
        None
    }
}

/// Whether `c` are the coordinates stored at `at`.
pub open spec fn coords_at(s: Seq<u8>, at: int, c: Seq<i16>) -> bool {
    c.len() == PACKED_DIMS && forall|d: int|
        0 <= d < PACKED_DIMS ==> #[trigger] c[d] == le_i16(s, at + 2 * d)
}

/// Whether `h` is the header of the file.
pub open spec fn header_at(s: Seq<u8>, h: Header) -> bool {
    &&& h.magic@ == s.subrange(0, 8)
    &&& h.version == le_u32(s, 8)
    &&& h.scale == le_i32(s, 12)
    &&& h.partition_count == stored_partitions(s)
    &&& h.node_count == stored_nodes(s)
    &&& h.total_vectors == stored_vectors(s)
    &&& h.total_panels == stored_panels(s)
}

/// Whether `p` is the partition stored at `at`.
pub open spec fn partition_at(s: Seq<u8>, at: int, p: Partition) -> bool {
    &&& p.key == le_u32(s, at)
    &&& p.root_node == le_u32(s, at + 4)
    &&& p.start_vec == le_u32(s, at + 8)
    &&& p.vec_count == le_u32(s, at + 12)
    &&& coords_at(s, at + 16, p.min@)
    &&& coords_at(s, at + 48, p.max@)
}

/// Whether `n` is the node stored at `at`.
pub open spec fn node_at(s: Seq<u8>, at: int, n: Node) -> bool {
    &&& n.left == le_i32(s, at)
    &&& n.right == le_i32(s, at + 4)
    &&& n.start_panel == le_u32(s, at + 8)
    &&& n.vec_count == le_u32(s, at + 12)
    &&& n.start_vec == le_u32(s, at + 16)
    &&& n._pad == le_u32(s, at + 20)
    &&& coords_at(s, at + 24, n.min@)
    &&& coords_at(s, at + 56, n.max@)
}

/// Whether an index holds what is stored in a file.
pub open spec fn decoded(s: Seq<u8>, iv: IndexView) -> bool {
    &&& iv.total_vectors == stored_vectors(s)
    &&& iv.scale == le_i32(s, 12)
    &&& iv.partitions.len() == stored_partitions(s)
    &&& forall|i: int|
        0 <= i < iv.partitions.len() ==> partition_at(
            s,
            partition_offset(i),
            #[trigger] iv.partitions[i],
        )
    &&& iv.nodes.len() == stored_nodes(s)
    &&& forall|i: int|
        0 <= i < iv.nodes.len() ==> node_at(s, node_offset(s, i), #[trigger] iv.nodes[i])
    &&& iv.panels.len() == 112 * stored_panels(s)
    &&& forall|i: int|
        0 <= i < iv.panels.len() ==> #[trigger] iv.panels[i] == le_i16(s, coord_offset(s, i))
    &&& iv.labels.len() == stored_vectors(s)
    &&& forall|i: int|
        0 <= i < iv.labels.len() ==> #[trigger] iv.labels[i] == s[label_offset(s, i)]
}

/// What a loaded index holds is what the file holds in its place: a header of
/// 32 bytes, partitions of 80, nodes of 88, then coordinates of two bytes and
/// labels of one.
pub proof fn lemma_loaded_places(s: Seq<u8>, iv: IndexView)
    requires
        decoded(s, iv),
    ensures
        iv.scale == le_i32(s, 12),
        iv.partitions.len() == le_u32(s, 16),
        iv.nodes.len() == le_u32(s, 20),
        iv.labels.len() == le_u32(s, 24),
        iv.total_vectors == le_u32(s, 24),
        iv.panels.len() == 112 * le_u32(s, 28),
        forall|i: int|
            0 <= i < iv.partitions.len() ==> {
                let p = #[trigger] iv.partitions[i];
                &&& p.key == le_u32(s, 32 + 80 * i)
                &&& p.root_node == le_u32(s, 32 + 80 * i + 4)
                &&& p.start_vec == le_u32(s, 32 + 80 * i + 8)
                &&& p.vec_count == le_u32(s, 32 + 80 * i + 12)
                &&& forall|d: int|
                    0 <= d < 16 ==> #[trigger] p.min@[d] == le_i16(s, 32 + 80 * i + 16 + 2 * d)
                &&& forall|d: int|
                    0 <= d < 16 ==> #[trigger] p.max@[d] == le_i16(s, 32 + 80 * i + 48 + 2 * d)
            },
        forall|i: int|
            0 <= i < iv.nodes.len() ==> {
                let n = #[trigger] iv.nodes[i];
                let at = 32 + 80 * iv.partitions.len() + 88 * i;
                &&& n.left == le_i32(s, at)
                &&& n.right == le_i32(s, at + 4)
                &&& n.start_panel == le_u32(s, at + 8)
                &&& n.vec_count == le_u32(s, at + 12)
                &&& n.start_vec == le_u32(s, at + 16)
                &&& forall|d: int|
                    0 <= d < 16 ==> #[trigger] n.min@[d] == le_i16(s, at + 24 + 2 * d)
                &&& forall|d: int|
                    0 <= d < 16 ==> #[trigger] n.max@[d] == le_i16(s, at + 56 + 2 * d)
            },
        forall|i: int|
            0 <= i < iv.panels.len() ==> #[trigger] iv.panels[i] == le_i16(
                s,
                32 + 80 * iv.partitions.len() + 88 * iv.nodes.len() + 2 * i,
            ),
        forall|i: int|
            0 <= i < iv.labels.len() ==> #[trigger] iv.labels[i] == s[32 + 80 * iv.partitions.len()
                + 88 * iv.nodes.len() + 2 * iv.panels.len() + i],
{
    assert forall|i: int| 0 <= i < iv.partitions.len() implies partition_at(
        s,
        32 + 80 * i,
        #[trigger] iv.partitions[i],
    ) by {}
    assert forall|i: int| 0 <= i < iv.nodes.len() implies node_at(
        s,
        32 + 80 * iv.partitions.len() + 88 * i,
        #[trigger] iv.nodes[i],
    ) by {}
}

/// A file is refused for its first fault: too short for a header, another word
/// in front, another version, or shorter than the header announces.
pub proof fn lemma_load_faults(s: Seq<u8>)
    ensures
        s.len() < 32 ==> load_error(s) == Some(LoadErr::Truncated),
        s.len() >= 32 ==> {
            let named = s[0] == 82 && s[1] == 83 && s[2] == 80 && s[3] == 69 && s[4] == 67 && s[5]
                == 83 && s[6] == 84 && s[7] == 50;
            let whole = s.len() >= 32 + 80 * le_u32(s, 16) + 88 * le_u32(s, 20) + 224 * le_u32(
                s,
                28,
            ) + le_u32(s, 24);
            &&& !named ==> load_error(s) == Some(LoadErr::BadMagic)
            &&& named && le_u32(s, 8) != 2 ==> load_error(s) == Some(LoadErr::BadVersion)
            &&& named && le_u32(s, 8) == 2 && !whole ==> load_error(s) == Some(LoadErr::Truncated)
            &&& named && le_u32(s, 8) == 2 && whole ==> load_error(s) is None
        },
{
    if s.len() >= 32 {
        let first = s.subrange(0, 8);
        assert(MAGIC@ =~= seq![82u8, 83, 80, 69, 67, 83, 84, 50]);
        assert(first =~= seq![s[0], s[1], s[2], s[3], s[4], s[5], s[6], s[7]]);
        if first == MAGIC@ {
            assert(first[0] == 82 && first[1] == 83 && first[2] == 80 && first[3] == 69 && first[4]
                == 67 && first[5] == 83 && first[6] == 84 && first[7] == 50);
        }
    }
}

// ---------------------------------------------------------------------------
// Reading
// ---------------------------------------------------------------------------

fn read_coords(s: &[u8], at: usize) -> (c: QueryVector)
    requires
        at + 32 <= s@.len(),
    ensures
        coords_at(s@, at as int, c@),
{
    assert(at + 32 <= s.len());
    let mut c: QueryVector = [0i16; PACKED_DIMS];
    let mut d: usize = 0;
    while d < PACKED_DIMS
        invariant
            d <= PACKED_DIMS,
            at + 32 <= s@.len(),
            at + 32 <= s.len(),
            c@.len() == PACKED_DIMS,
            forall|k: int| 0 <= k < d ==> #[trigger] c@[k] == le_i16(s@, at + 2 * k),
        decreases PACKED_DIMS - d,
    {
        c[d] = read_i16(s, at + 2 * d);
        d = d + 1;
    }
    c
}

/// Reads the header of a file.
pub fn read_header(s: &[u8]) -> (h: Header)
    requires
        s@.len() >= 32,
    ensures
        header_at(s@, h),
{
    let magic: [u8; 8] = [s[0], s[1], s[2], s[3], s[4], s[5], s[6], s[7]];
    assert(magic@ =~= s@.subrange(0, 8));
    Header {
        magic,
        version: read_u32(s, 8),
        scale: read_i32(s, 12),
        partition_count: read_u32(s, 16),
        node_count: read_u32(s, 20),
        total_vectors: read_u32(s, 24),
        total_panels: read_u32(s, 28),
    }
}

fn read_partition(s: &[u8], at: usize) -> (p: Partition)
    requires
        at + 80 <= s@.len(),
    ensures
        partition_at(s@, at as int, p),
{
    assert(at + 80 <= s.len());
    Partition {
        key: read_u32(s, at),
        root_node: read_u32(s, at + 4),
        start_vec: read_u32(s, at + 8),
        vec_count: read_u32(s, at + 12),
        min: read_coords(s, at + 16),
        max: read_coords(s, at + 48),
    }
}

fn read_node(s: &[u8], at: usize) -> (n: Node)
    requires
        at + 88 <= s@.len(),
    ensures
        node_at(s@, at as int, n),
{
    assert(at + 88 <= s.len());
    Node {
        left: read_i32(s, at),
        right: read_i32(s, at + 4),
        start_panel: read_u32(s, at + 8),
        vec_count: read_u32(s, at + 12),
        start_vec: read_u32(s, at + 16),
        _pad: read_u32(s, at + 20),
        min: read_coords(s, at + 24),
        max: read_coords(s, at + 56),
    }
}

/// Reads `n` partitions.
pub fn read_partitions(s: &[u8], at: usize, n: usize) -> (v: Vec<Partition>)
    requires
        at + 80 * n <= s@.len(),
    ensures
        v@.len() == n,
        forall|i: int| 0 <= i < n ==> partition_at(s@, at + 80 * i, #[trigger] v@[i]),
{
    assert(at + 80 * n <= s.len());
    let mut v: Vec<Partition> = Vec::new();
    let mut i: usize = 0;
    while i < n
        invariant
            i <= n,
            at + 80 * n <= s@.len(),
            at + 80 * n <= s.len(),
            v@.len() == i,
            forall|k: int| 0 <= k < i ==> partition_at(s@, at + 80 * k, #[trigger] v@[k]),
        decreases n - i,
    {
        v.push(read_partition(s, at + 80 * i));
        i = i + 1;
    }
    v
}

/// Reads `n` nodes.
pub fn read_nodes(s: &[u8], at: usize, n: usize) -> (v: Vec<Node>)
    requires
        at + 88 * n <= s@.len(),
    ensures
        v@.len() == n,
        forall|i: int| 0 <= i < n ==> node_at(s@, at + 88 * i, #[trigger] v@[i]),
{
    assert(at + 88 * n <= s.len());
    let mut v: Vec<Node> = Vec::new();
    let mut i: usize = 0;
    while i < n
        invariant
            i <= n,
            at + 88 * n <= s@.len(),
            at + 88 * n <= s.len(),
            v@.len() == i,
            forall|k: int| 0 <= k < i ==> node_at(s@, at + 88 * k, #[trigger] v@[k]),
        decreases n - i,
    {
        v.push(read_node(s, at + 88 * i));
        i = i + 1;
    }
    v
}

/// Reads `n` coordinates.
pub fn read_panels(s: &[u8], at: usize, n: usize) -> (v: Vec<i16>)
    requires
        at + 2 * n <= s@.len(),
    ensures
        v@.len() == n,
        forall|i: int| 0 <= i < n ==> #[trigger] v@[i] == le_i16(s@, at + 2 * i),
{
    assert(at + 2 * n <= s.len());
    let mut v: Vec<i16> = Vec::new();
    let mut i: usize = 0;
    while i < n
        invariant
            i <= n,
            at + 2 * n <= s@.len(),
            at + 2 * n <= s.len(),
            v@.len() == i,
            forall|k: int| 0 <= k < i ==> #[trigger] v@[k] == le_i16(s@, at + 2 * k),
        decreases n - i,
    {
        v.push(read_i16(s, at + 2 * i));
        i = i + 1;
    }
    v
}

/// The parts of an index file.
pub struct Parts {
    pub header: Header,
    pub partitions: Vec<Partition>,
    pub nodes: Vec<Node>,
    pub panels: Vec<i16>,
    pub labels: Vec<u8>,
}

/// Splits a file into its parts.
pub fn read_parts(s: &[u8]) -> (r: Result<Parts, LoadErr>)
    ensures
        match r {
            Err(e) => load_error(s@) == Some(e),
            Ok(parts) => {
                &&& load_error(s@) is None
                &&& header_at(s@, parts.header)
                &&& parts.partitions@.len() == parts.header.partition_count
                &&& forall|iv: IndexView|
                    {
                        &&& iv.total_vectors == parts.header.total_vectors
                        &&& iv.scale == parts.header.scale
                        &&& iv.partitions == parts.partitions@
                        &&& iv.nodes == parts.nodes@
                        &&& iv.panels == parts.panels@
                        &&& iv.labels == parts.labels@
                    } ==> #[trigger] decoded(s@, iv)
            },
        },
{
    if s.len() < HEADER_BYTES {
        return Err(LoadErr::Truncated);
    }
    let h: Header = read_header(s);
    if !same_bytes(&h.magic, &MAGIC) {
        return Err(LoadErr::BadMagic);
    }
    if h.version != FORMAT_VERSION {
        return Err(LoadErr::BadVersion);
    }
    let size: u64 = s.len() as u64;
    let mut cur: u64 = HEADER_BYTES as u64;

    cur = cur + h.partition_count as u64 * PARTITION_BYTES as u64;
    if size < cur {
        return Err(LoadErr::Truncated);
    }
    let partitions: Vec<Partition> = read_partitions(
        s,
        HEADER_BYTES,
        h.partition_count as usize,
    );

    let node_start: usize = cur as usize;
    cur = cur + h.node_count as u64 * NODE_BYTES as u64;
    if size < cur {
        return Err(LoadErr::Truncated);
    }
    let nodes: Vec<Node> = read_nodes(s, node_start, h.node_count as usize);

    let panel_start: usize = cur as usize;
    cur = cur + h.total_panels as u64 * PANEL_BYTES as u64;
    if size < cur {
        return Err(LoadErr::Truncated);
    }
    let panels: Vec<i16> = read_panels(s, panel_start, h.total_panels as usize * 112);

    let label_start: usize = cur as usize;
    cur = cur + h.total_vectors as u64;
    if size < cur {
        return Err(LoadErr::Truncated);
    }
    let label_end: usize = cur as usize;
    let labels: Vec<u8> = copy_bytes(&s[label_start..label_end]);
    Ok(Parts { header: h, partitions, nodes, panels, labels })
}

} // verus!
