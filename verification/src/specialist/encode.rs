//! Writing an index file.

use super::builder::IndexImage;
use super::decode::{decoded, header_at, label_offset, load_error, node_at, partition_at};
use super::format::{Header, Node, Partition, FORMAT_VERSION, MAGIC};

use super::search::IndexView;
use crate::bytes::{
    holds_at, i16_bytes, i32_bytes, le_i16, le_i32, le_u32, lemma_read_i16, lemma_read_i32,
    lemma_read_u32, u32_bytes, write_bytes, write_i16, write_i32, write_u32,
};
use vstd::prelude::*;

verus! {

/// Factor between a feature and its quantised coordinate.
pub const SCALE: i32 = 10_000;

// ---------------------------------------------------------------------------
// The file as bytes
// ---------------------------------------------------------------------------

/// The bytes of some coordinates.
pub open spec fn coords_bytes(c: Seq<i16>) -> Seq<u8> {
    Seq::new(2 * c.len(), |k: int| i16_bytes(c[k / 2] as int)[k % 2])
}

/// The bytes of a header.
pub open spec fn header_bytes(h: Header) -> Seq<u8> {
    h.magic@ + u32_bytes(h.version as int) + i32_bytes(h.scale as int) + u32_bytes(
        h.partition_count as int,
    ) + u32_bytes(h.node_count as int) + u32_bytes(h.total_vectors as int) + u32_bytes(
        h.total_panels as int,
    )
}

/// The bytes of a partition.
pub open spec fn partition_bytes(p: Partition) -> Seq<u8> {
    u32_bytes(p.key as int) + u32_bytes(p.root_node as int) + u32_bytes(p.start_vec as int)
        + u32_bytes(p.vec_count as int) + coords_bytes(p.min@) + coords_bytes(p.max@)
}

/// The bytes of a node.
pub open spec fn node_bytes(n: Node) -> Seq<u8> {
    i32_bytes(n.left as int) + i32_bytes(n.right as int) + u32_bytes(n.start_panel as int)
        + u32_bytes(n.vec_count as int) + u32_bytes(n.start_vec as int) + u32_bytes(n._pad as int)
        + coords_bytes(n.min@) + coords_bytes(n.max@)
}

/// The bytes of the first `n` partitions.
pub open spec fn partitions_bytes(v: Seq<Partition>, n: int) -> Seq<u8>
    decreases n,
{
    if n <= 0 {
        seq![]
    } else {
        partitions_bytes(v, n - 1) + partition_bytes(v[n - 1])
    }
}

/// The bytes of the first `n` nodes.
pub open spec fn nodes_bytes(v: Seq<Node>, n: int) -> Seq<u8>
    decreases n,
{
    if n <= 0 {
        seq![]
    } else {
        nodes_bytes(v, n - 1) + node_bytes(v[n - 1])
    }
}

/// Whether the arrays of an index can be counted in a header.
pub open spec fn countable(image: IndexImage) -> bool {
    &&& image.partitions@.len() <= u32::MAX
    &&& image.nodes@.len() <= u32::MAX
    &&& image.labels@.len() <= u32::MAX
    &&& image.panels@.len() % 112 == 0
    &&& image.panels@.len() / 112 <= u32::MAX
}

/// Whether `h` is the header of an index.
pub open spec fn heads(h: Header, image: IndexImage) -> bool {
    &&& h.magic@ == MAGIC@
    &&& h.version == FORMAT_VERSION
    &&& h.scale == SCALE
    &&& h.partition_count == image.partitions@.len()
    &&& h.node_count == image.nodes@.len()
    &&& h.total_vectors == image.labels@.len()
    &&& h.total_panels == image.panels@.len() / 112
}

/// The bytes of an index behind its header.
pub open spec fn body_bytes(image: IndexImage) -> Seq<u8> {
    partitions_bytes(image.partitions@, image.partitions@.len() as int) + nodes_bytes(
        image.nodes@,
        image.nodes@.len() as int,
    ) + coords_bytes(image.panels@) + image.labels@
}

/// Whether a file holds an index.
pub open spec fn encodes(s: Seq<u8>, image: IndexImage) -> bool {
    exists|h: Header| #[trigger] heads(h, image) && s == header_bytes(h) + body_bytes(image)
}

// ---------------------------------------------------------------------------
// Writing
// ---------------------------------------------------------------------------

fn write_coords(out: &mut Vec<u8>, c: &[i16])
    ensures
        final(out)@ == old(out)@ + coords_bytes(c@),
{
    let mut i: usize = 0;
    proof {
        assert(out@ =~= old(out)@ + coords_bytes(c@.take(0)));
    }
    while i < c.len()
        invariant
            i <= c@.len(),
            out@ == old(out)@ + coords_bytes(c@.take(i as int)),
        decreases c@.len() - i,
    {
        write_i16(out, c[i]);
        proof {
            lemma_coords_push(c@.take(i as int), c@[i as int]);
            assert(c@.take(i + 1) =~= c@.take(i as int).push(c@[i as int]));
            assert(out@ =~= old(out)@ + coords_bytes(c@.take(i + 1)));
        }
        i = i + 1;
    }
    assert(c@.take(i as int) =~= c@);
}

proof fn lemma_coords_push(c: Seq<i16>, x: i16)
    ensures
        coords_bytes(c.push(x)) == coords_bytes(c) + i16_bytes(x as int),
{
    assert(coords_bytes(c.push(x)) =~= coords_bytes(c) + i16_bytes(x as int));
}

#[verifier::spinoff_prover]
fn write_header(out: &mut Vec<u8>, h: &Header)
    ensures
        final(out)@ == old(out)@ + header_bytes(*h),
{
    write_bytes(out, &h.magic);
    write_u32(out, h.version);
    write_i32(out, h.scale);
    write_u32(out, h.partition_count);
    write_u32(out, h.node_count);
    write_u32(out, h.total_vectors);
    write_u32(out, h.total_panels);
    assert(out@ =~= old(out)@ + header_bytes(*h));
}

#[verifier::spinoff_prover]
fn write_partition(out: &mut Vec<u8>, p: &Partition)
    ensures
        final(out)@ == old(out)@ + partition_bytes(*p),
{
    write_u32(out, p.key);
    write_u32(out, p.root_node);
    write_u32(out, p.start_vec);
    write_u32(out, p.vec_count);
    write_coords(out, &p.min);
    write_coords(out, &p.max);
    assert(out@ =~= old(out)@ + partition_bytes(*p));
}

#[verifier::spinoff_prover]
fn write_node(out: &mut Vec<u8>, n: &Node)
    ensures
        final(out)@ == old(out)@ + node_bytes(*n),
{
    write_i32(out, n.left);
    write_i32(out, n.right);
    write_u32(out, n.start_panel);
    write_u32(out, n.vec_count);
    write_u32(out, n.start_vec);
    write_u32(out, n._pad);
    write_coords(out, &n.min);
    write_coords(out, &n.max);
    assert(out@ =~= old(out)@ + node_bytes(*n));
}

fn write_partitions(out: &mut Vec<u8>, v: &Vec<Partition>)
    ensures
        final(out)@ == old(out)@ + partitions_bytes(v@, v@.len() as int),
{
    let mut i: usize = 0;
    assert(out@ =~= old(out)@ + partitions_bytes(v@, 0));
    while i < v.len()
        invariant
            i <= v@.len(),
            out@ == old(out)@ + partitions_bytes(v@, i as int),
        decreases v@.len() - i,
    {
        write_partition(out, &v[i]);
        i = i + 1;
        assert(out@ =~= old(out)@ + partitions_bytes(v@, i as int));
    }
}

fn write_nodes(out: &mut Vec<u8>, v: &Vec<Node>)
    ensures
        final(out)@ == old(out)@ + nodes_bytes(v@, v@.len() as int),
{
    let mut i: usize = 0;
    assert(out@ =~= old(out)@ + nodes_bytes(v@, 0));
    while i < v.len()
        invariant
            i <= v@.len(),
            out@ == old(out)@ + nodes_bytes(v@, i as int),
        decreases v@.len() - i,
    {
        write_node(out, &v[i]);
        i = i + 1;
        assert(out@ =~= old(out)@ + nodes_bytes(v@, i as int));
    }
}

/// Writes an index file.
#[verifier::spinoff_prover]
pub fn encode_index(image: &IndexImage) -> (out: Vec<u8>)
    requires
        countable(*image),
    ensures
        encodes(out@, *image),
{
    let h = Header {
        magic: MAGIC,
        version: FORMAT_VERSION,
        scale: SCALE,
        partition_count: image.partitions.len() as u32,
        node_count: image.nodes.len() as u32,
        total_vectors: image.labels.len() as u32,
        total_panels: (image.panels.len() / 112) as u32,
    };
    let mut out: Vec<u8> = Vec::new();
    write_header(&mut out, &h);
    write_partitions(&mut out, &image.partitions);
    write_nodes(&mut out, &image.nodes);
    write_coords(&mut out, &image.panels);
    write_bytes(&mut out, &image.labels);
    assert(out@ =~= header_bytes(h) + body_bytes(*image));
    assert(heads(h, *image));
    out
}

// ---------------------------------------------------------------------------
// What was written is read back
// ---------------------------------------------------------------------------

/// A part of a part is a part.
proof fn lemma_holds_in(s: Seq<u8>, part: Seq<u8>, at: int, sub: Seq<u8>, off: int)
    requires
        holds_at(s, part, at),
        holds_at(part, sub, off),
    ensures
        holds_at(s, sub, at + off),
{
    assert(s.subrange(at + off, at + off + sub.len()) =~= part.subrange(off, off + sub.len()));
}

proof fn lemma_coords_read(s: Seq<u8>, at: int, c: Seq<i16>)
    requires
        holds_at(s, coords_bytes(c), at),
    ensures
        forall|d: int| 0 <= d < c.len() ==> #[trigger] c[d] == le_i16(s, at + 2 * d),
{
    assert forall|d: int| 0 <= d < c.len() implies #[trigger] c[d] == le_i16(s, at + 2 * d) by {
        assert(coords_bytes(c).subrange(2 * d, 2 * d + 2) =~= i16_bytes(c[d] as int));
        lemma_holds_in(s, coords_bytes(c), at, i16_bytes(c[d] as int), 2 * d);
        lemma_read_i16(s, at + 2 * d, c[d] as int);
    }
}

proof fn lemma_field(s: Seq<u8>, part: Seq<u8>, at: int, off: int, x: int)
    requires
        holds_at(s, part, at),
        holds_at(part, u32_bytes(x), off),
        0 <= x <= u32::MAX,
    ensures
        le_u32(s, at + off) == x,
{
    lemma_holds_in(s, part, at, u32_bytes(x), off);
    lemma_read_u32(s, at + off, x);
}

proof fn lemma_signed_field(s: Seq<u8>, part: Seq<u8>, at: int, off: int, x: int)
    requires
        holds_at(s, part, at),
        holds_at(part, i32_bytes(x), off),
        i32::MIN <= x <= i32::MAX,
    ensures
        le_i32(s, at + off) == x,
{
    lemma_holds_in(s, part, at, i32_bytes(x), off);
    lemma_read_i32(s, at + off, x);
}

#[verifier::spinoff_prover]
proof fn lemma_header_read(s: Seq<u8>, h: Header)
    requires
        holds_at(s, header_bytes(h), 0),
    ensures
        header_at(s, h),
        header_bytes(h).len() == 32,
{
    let b = header_bytes(h);
    assert(b.subrange(0, 8) =~= h.magic@);
    lemma_holds_in(s, b, 0, h.magic@, 0);
    assert(b.subrange(8, 12) =~= u32_bytes(h.version as int));
    lemma_field(s, b, 0, 8, h.version as int);
    assert(b.subrange(12, 16) =~= i32_bytes(h.scale as int));
    lemma_signed_field(s, b, 0, 12, h.scale as int);
    assert(b.subrange(16, 20) =~= u32_bytes(h.partition_count as int));
    lemma_field(s, b, 0, 16, h.partition_count as int);
    assert(b.subrange(20, 24) =~= u32_bytes(h.node_count as int));
    lemma_field(s, b, 0, 20, h.node_count as int);
    assert(b.subrange(24, 28) =~= u32_bytes(h.total_vectors as int));
    lemma_field(s, b, 0, 24, h.total_vectors as int);
    assert(b.subrange(28, 32) =~= u32_bytes(h.total_panels as int));
    lemma_field(s, b, 0, 28, h.total_panels as int);
}

#[verifier::spinoff_prover]
proof fn lemma_partition_read(s: Seq<u8>, at: int, p: Partition)
    requires
        holds_at(s, partition_bytes(p), at),
    ensures
        partition_at(s, at, p),
{
    let b = partition_bytes(p);
    assert(b.subrange(0, 4) =~= u32_bytes(p.key as int));
    lemma_field(s, b, at, 0, p.key as int);
    assert(b.subrange(4, 8) =~= u32_bytes(p.root_node as int));
    lemma_field(s, b, at, 4, p.root_node as int);
    assert(b.subrange(8, 12) =~= u32_bytes(p.start_vec as int));
    lemma_field(s, b, at, 8, p.start_vec as int);
    assert(b.subrange(12, 16) =~= u32_bytes(p.vec_count as int));
    lemma_field(s, b, at, 12, p.vec_count as int);
    assert(b.subrange(16, 48) =~= coords_bytes(p.min@));
    lemma_holds_in(s, b, at, coords_bytes(p.min@), 16);
    lemma_coords_read(s, at + 16, p.min@);
    assert(b.subrange(48, 80) =~= coords_bytes(p.max@));
    lemma_holds_in(s, b, at, coords_bytes(p.max@), 48);
    lemma_coords_read(s, at + 48, p.max@);
}

#[verifier::spinoff_prover]
proof fn lemma_node_read(s: Seq<u8>, at: int, n: Node)
    requires
        holds_at(s, node_bytes(n), at),
    ensures
        node_at(s, at, n),
{
    let b = node_bytes(n);
    assert(b.subrange(0, 4) =~= i32_bytes(n.left as int));
    lemma_signed_field(s, b, at, 0, n.left as int);
    assert(b.subrange(4, 8) =~= i32_bytes(n.right as int));
    lemma_signed_field(s, b, at, 4, n.right as int);
    assert(b.subrange(8, 12) =~= u32_bytes(n.start_panel as int));
    lemma_field(s, b, at, 8, n.start_panel as int);
    assert(b.subrange(12, 16) =~= u32_bytes(n.vec_count as int));
    lemma_field(s, b, at, 12, n.vec_count as int);
    assert(b.subrange(16, 20) =~= u32_bytes(n.start_vec as int));
    lemma_field(s, b, at, 16, n.start_vec as int);
    assert(b.subrange(20, 24) =~= u32_bytes(n._pad as int));
    lemma_field(s, b, at, 20, n._pad as int);
    assert(b.subrange(24, 56) =~= coords_bytes(n.min@));
    lemma_holds_in(s, b, at, coords_bytes(n.min@), 24);
    lemma_coords_read(s, at + 24, n.min@);
    assert(b.subrange(56, 88) =~= coords_bytes(n.max@));
    lemma_holds_in(s, b, at, coords_bytes(n.max@), 56);
    lemma_coords_read(s, at + 56, n.max@);
}

/// What a text holds, it still holds with more behind it.
proof fn lemma_appended(s: Seq<u8>, more: Seq<u8>)
    ensures
        holds_at(s + more, more, s.len() as int),
        forall|part: Seq<u8>, at: int|
            0 <= at && #[trigger] holds_at(s, part, at) ==> holds_at(s + more, part, at),
{
    let all = s + more;
    assert(all.subrange(s.len() as int, all.len() as int) =~= more);
    assert forall|part: Seq<u8>, at: int|
        0 <= at && #[trigger] holds_at(s, part, at) implies holds_at(all, part, at) by {
        assert(all.subrange(at, at + part.len()) =~= s.subrange(at, at + part.len()));
    }
}

#[verifier::spinoff_prover]
proof fn lemma_partitions_hold(v: Seq<Partition>, n: int)
    requires
        0 <= n <= v.len(),
    ensures
        partitions_bytes(v, n).len() == 80 * n,
        forall|i: int|
            0 <= i < n ==> holds_at(
                partitions_bytes(v, n),
                partition_bytes(#[trigger] v[i]),
                80 * i,
            ),
    decreases n,
{
    if n > 0 {
        lemma_partitions_hold(v, n - 1);
        lemma_appended(partitions_bytes(v, n - 1), partition_bytes(v[n - 1]));
    }
}

#[verifier::spinoff_prover]
proof fn lemma_nodes_hold(v: Seq<Node>, n: int)
    requires
        0 <= n <= v.len(),
    ensures
        nodes_bytes(v, n).len() == 88 * n,
        forall|i: int|
            0 <= i < n ==> holds_at(nodes_bytes(v, n), node_bytes(#[trigger] v[i]), 88 * i),
    decreases n,
{
    if n > 0 {
        lemma_nodes_hold(v, n - 1);
        lemma_appended(nodes_bytes(v, n - 1), node_bytes(v[n - 1]));
    }
}

/// A file starts with its name, its version and the scale of its coordinates, and
/// then counts what follows.
pub proof fn lemma_written_header(s: Seq<u8>, image: IndexImage)
    requires
        encodes(s, image),
    ensures
        s.len() >= 32,
        s.subrange(0, 8) == seq![82u8, 83, 80, 69, 67, 83, 84, 50],
        le_u32(s, 8) == 2,
        le_i32(s, 12) == 10000,
        le_u32(s, 16) == image.partitions@.len(),
        le_u32(s, 20) == image.nodes@.len(),
        le_u32(s, 24) == image.labels@.len(),
        le_u32(s, 28) == image.panels@.len() / 112,
{
    let h = choose|h: Header| #[trigger]
        heads(h, image) && s == header_bytes(h) + body_bytes(image);
    let b = header_bytes(h);
    assert(b.len() == 32);
    assert(s.subrange(0, 32) =~= b);
    lemma_header_read(s, h);
    assert(MAGIC@ =~= seq![82u8, 83, 80, 69, 67, 83, 84, 50]);
}

/// The contents of an index as a load of its file would show them.
pub open spec fn shows(iv: IndexView, image: IndexImage) -> bool {
    &&& iv.total_vectors == image.labels@.len()
    &&& iv.scale == SCALE
    &&& iv.partitions == image.partitions@
    &&& iv.nodes == image.nodes@
    &&& iv.panels == image.panels@
    &&& iv.labels == image.labels@
}

/// Where the pieces of a file stand.
proof fn lemma_pieces(a: Seq<u8>, b: Seq<u8>, c: Seq<u8>, d: Seq<u8>, e: Seq<u8>)
    ensures
        ({
            let s = a + (b + c + d + e);
            let n = a.len() as int;
            &&& holds_at(s, a, 0)
            &&& holds_at(s, b, n)
            &&& holds_at(s, c, n + b.len())
            &&& holds_at(s, d, n + b.len() + c.len())
            &&& holds_at(s, e, n + b.len() + c.len() + d.len())
            &&& s.len() == n + b.len() + c.len() + d.len() + e.len()
        }),
{
    let s = a + (b + c + d + e);
    let n = a.len() as int;
    assert(s.subrange(0, n) =~= a);
    assert(s.subrange(n, n + b.len()) =~= b);
    assert(s.subrange(n + b.len(), n + b.len() + c.len()) =~= c);
    assert(s.subrange(n + b.len() + c.len(), n + b.len() + c.len() + d.len()) =~= d);
    assert(s.subrange(
        n + b.len() + c.len() + d.len(),
        n + b.len() + c.len() + d.len() + e.len(),
    ) =~= e);
}

proof fn lemma_partitions_read(s: Seq<u8>, at: int, v: Seq<Partition>)
    requires
        holds_at(s, partitions_bytes(v, v.len() as int), at),
    ensures
        forall|i: int| 0 <= i < v.len() ==> partition_at(s, at + 80 * i, #[trigger] v[i]),
{
    let b = partitions_bytes(v, v.len() as int);
    lemma_partitions_hold(v, v.len() as int);
    assert forall|i: int| 0 <= i < v.len() implies partition_at(
        s,
        at + 80 * i,
        #[trigger] v[i],
    ) by {
        lemma_holds_in(s, b, at, partition_bytes(v[i]), 80 * i);
        lemma_partition_read(s, at + 80 * i, v[i]);
    }
}

proof fn lemma_nodes_read(s: Seq<u8>, at: int, v: Seq<Node>)
    requires
        holds_at(s, nodes_bytes(v, v.len() as int), at),
    ensures
        forall|i: int| 0 <= i < v.len() ==> node_at(s, at + 88 * i, #[trigger] v[i]),
{
    let b = nodes_bytes(v, v.len() as int);
    lemma_nodes_hold(v, v.len() as int);
    assert forall|i: int| 0 <= i < v.len() implies node_at(s, at + 88 * i, #[trigger] v[i]) by {
        lemma_holds_in(s, b, at, node_bytes(v[i]), 88 * i);
        lemma_node_read(s, at + 88 * i, v[i]);
    }
}

/// A written index file can be loaded, and it holds the index.
#[verifier::spinoff_prover]
pub proof fn lemma_encoded_loads(s: Seq<u8>, image: IndexImage, iv: IndexView)
    requires
        countable(image),
        encodes(s, image),
        shows(iv, image),
    ensures
        load_error(s) is None,
        decoded(s, iv),
{
    let h = choose|h: Header| #[trigger] heads(h, image) && s == header_bytes(h) + body_bytes(image);
    let hb = header_bytes(h);
    let np = image.partitions@.len() as int;
    let nn = image.nodes@.len() as int;
    let nc = image.panels@.len() as int;
    let pb = partitions_bytes(image.partitions@, np);
    let nb = nodes_bytes(image.nodes@, nn);
    let cb = coords_bytes(image.panels@);
    lemma_partitions_hold(image.partitions@, np);
    lemma_nodes_hold(image.nodes@, nn);
    lemma_pieces(hb, pb, nb, cb, image.labels@);
    lemma_header_read(s, h);
    lemma_partitions_read(s, 32, image.partitions@);
    lemma_nodes_read(s, 32 + 80 * np, image.nodes@);
    lemma_coords_read(s, 32 + 80 * np + 88 * nn, image.panels@);
    assert(112 * (nc / 112) == nc);
    let labels_at = 32 + 80 * np + 88 * nn + 2 * nc;
    assert forall|i: int| 0 <= i < iv.labels.len() implies #[trigger] iv.labels[i] == s[label_offset(
        s,
        i,
    )] by {
        assert(label_offset(s, i) == labels_at + i);
        assert(s.subrange(labels_at, labels_at + image.labels@.len())[i] == s[labels_at + i]);
    }
}

/// A file holds one index at most.
pub proof fn lemma_decoded_once(s: Seq<u8>, a: IndexView, b: IndexView)
    requires
        decoded(s, a),
        decoded(s, b),
    ensures
        a.total_vectors == b.total_vectors,
        a.scale == b.scale,
        a.partitions == b.partitions,
        a.nodes == b.nodes,
        a.panels == b.panels,
        a.labels == b.labels,
{
    assert forall|i: int| 0 <= i < a.partitions.len() implies a.partitions[i]
        == b.partitions[i] by {
        let p = a.partitions[i];
        let q = b.partitions[i];
        assert(p.min =~= q.min) by {
            assert(p.min@ =~= q.min@);
        }
        assert(p.max =~= q.max) by {
            assert(p.max@ =~= q.max@);
        }
    }
    assert(a.partitions =~= b.partitions);
    assert forall|i: int| 0 <= i < a.nodes.len() implies a.nodes[i] == b.nodes[i] by {
        let p = a.nodes[i];
        let q = b.nodes[i];
        assert(p.min =~= q.min) by {
            assert(p.min@ =~= q.min@);
        }
        assert(p.max =~= q.max) by {
            assert(p.max@ =~= q.max@);
        }
    }
    assert(a.nodes =~= b.nodes);
    assert(a.panels =~= b.panels);
    assert(a.labels =~= b.labels);
}

/// Loading a written index file gives back what was written.
pub proof fn lemma_round_trip(s: Seq<u8>, image: IndexImage, iv: IndexView)
    requires
        countable(image),
        encodes(s, image),
        decoded(s, iv),
    ensures
        shows(iv, image),
{
    let written = IndexView {
        total_vectors: image.labels@.len() as u32,
        scale: SCALE,
        partitions: image.partitions@,
        nodes: image.nodes@,
        panels: image.panels@,
        labels: image.labels@,
        ..iv
    };
    lemma_encoded_loads(s, image, written);
    lemma_decoded_once(s, written, iv);
}

} // verus!
