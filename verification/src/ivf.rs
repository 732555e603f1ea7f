//! Inverted-file index: vectors in clusters around centroids.
//!
//! ```text
//! header (32 B) | centroids (f32) | sizes | vector offsets | panel offsets
//!               | vectors (i16) | labels (1 B each)
//! ```
//!
//! The distances of this index are floating-point numbers, which the caller
//! computes. Here they are order keys: the bits of a number that is not
//! negative, which compare as the numbers do.

pub mod top;

use crate::bytes::{copy_bytes, le_i16, le_u32, read_i16, read_u32};
use crate::order::select_nth;
use top::{best_of, frauds_among, top_of, Top};
use vstd::prelude::*;

verus! {

/// Number of feature dimensions.
pub const DIM: usize = 14;

/// Number of neighbours that vote.
pub const K: usize = 5;

/// First number of an index file.
pub const MAGIC: u32 = 0x484E_4952;

/// Version of the index file.
pub const VERSION: u32 = 3;

/// Why a file is no index.
#[derive(Copy, Clone, Debug, PartialEq, Eq, Structural)]
pub enum LoadErr {
    BadMagic,
    BadVersion,
    Truncated,
}

/// An index and how many clusters a search looks into.
pub struct IvfIndex {
    pub n_total: u32,
    pub dim: u32,
    pub n_clusters: u32,
    pub scale: u32,
    pub nprobe: u32,
    centroids_soa: Vec<u32>,
    cluster_sizes: Vec<u32>,
    cluster_offsets: Vec<u32>,
    panel_offsets: Vec<u32>,
    vectors: Vec<i16>,
    labels: Vec<u8>,
}

/// The contents of an index.
pub struct IvfView {
    pub n_total: u32,
    pub dim: u32,
    pub n_clusters: u32,
    pub scale: u32,
    pub nprobe: u32,
    /// Bits of the centroids, one dimension after the other.
    pub centroids: Seq<u32>,
    pub sizes: Seq<u32>,
    pub offsets: Seq<u32>,
    pub panel_offsets: Seq<u32>,
    pub vectors: Seq<i16>,
    pub labels: Seq<u8>,
}

// ---------------------------------------------------------------------------
// The file as numbers
// ---------------------------------------------------------------------------

/// Number of vectors that the header announces.
pub open spec fn stored_total(s: Seq<u8>) -> int {
    le_u32(s, 8)
}

/// Number of dimensions that the header announces.
pub open spec fn stored_dim(s: Seq<u8>) -> int {
    le_u32(s, 12)
}

/// Number of clusters that the header announces.
pub open spec fn stored_clusters(s: Seq<u8>) -> int {
    le_u32(s, 16)
}

/// Where the sizes of the clusters are stored.
pub open spec fn sizes_offset(s: Seq<u8>) -> int {
    32 + 56 * stored_clusters(s)
}

/// Where the first vectors of the clusters are stored.
pub open spec fn offsets_offset(s: Seq<u8>) -> int {
    sizes_offset(s) + 4 * stored_clusters(s)
}

/// Where the first coordinates of the clusters are stored.
pub open spec fn panel_offsets_offset(s: Seq<u8>) -> int {
    offsets_offset(s) + 4 * (stored_clusters(s) + 1)
}

/// Where the vectors are stored.
pub open spec fn vectors_offset(s: Seq<u8>) -> int {
    panel_offsets_offset(s) + 4 * (stored_clusters(s) + 1)
}

/// Where the labels are stored.
pub open spec fn labels_offset(s: Seq<u8>) -> int {
    vectors_offset(s) + 28 * stored_total(s)
}

/// Whether a file starts as an index of this format.
pub open spec fn has_header(s: Seq<u8>) -> bool {
    s.len() >= 32 && le_u32(s, 0) == MAGIC && le_u32(s, 4) == VERSION
}

/// What keeps a file from being an index, if anything does.
pub open spec fn load_error(s: Seq<u8>) -> Option<LoadErr> {
    if s.len() < 32 {
        Some(LoadErr::Truncated)
    } else if le_u32(s, 0) != MAGIC {
        Some(LoadErr::BadMagic)
    } else if le_u32(s, 4) != VERSION {
        Some(LoadErr::BadVersion)
    } else if s.len() < labels_offset(s) + stored_total(s) {
        Some(LoadErr::Truncated)
    } else {
        None
    }
}

/// Whether `v` are the numbers stored from `at` on.
pub open spec fn numbers_at(s: Seq<u8>, at: int, v: Seq<u32>) -> bool {
    forall|i: int| 0 <= i < v.len() ==> #[trigger] v[i] == le_u32(s, at + 4 * i)
}

/// Whether an index holds what is stored in a file. The centroids are stored
/// one after the other and held one dimension after the other.
pub open spec fn decoded(s: Seq<u8>, iv: IvfView) -> bool {
    let n = stored_clusters(s);
    &&& iv.n_total == stored_total(s)
    &&& iv.dim == stored_dim(s)
    &&& iv.n_clusters == n
    &&& iv.scale == le_u32(s, 20)
    &&& iv.centroids.len() == 14 * n
    &&& forall|c: int, d: int|
        0 <= c < n && 0 <= d < DIM ==> #[trigger] iv.centroids[centroid_place(n, c, d)] == le_u32(
            s,
            32 + 4 * (14 * c + d),
        )
    &&& iv.sizes.len() == n
    &&& numbers_at(s, sizes_offset(s), iv.sizes)
    &&& iv.offsets.len() == n + 1
    &&& numbers_at(s, offsets_offset(s), iv.offsets)
    &&& iv.panel_offsets.len() == n + 1
    &&& numbers_at(s, panel_offsets_offset(s), iv.panel_offsets)
    &&& iv.vectors.len() == 14 * stored_total(s)
    &&& forall|i: int|
        0 <= i < iv.vectors.len() ==> #[trigger] iv.vectors[i] == le_i16(
            s,
            vectors_offset(s) + 2 * i,
        )
    &&& iv.labels.len() == stored_total(s)
    &&& forall|i: int|
        0 <= i < iv.labels.len() ==> #[trigger] iv.labels[i] == s[labels_offset(s) + i]
}

/// Where dimension `d` of centroid `c` is held, among `n` centroids.
pub open spec fn centroid_place(n: int, c: int, d: int) -> int {
    d * n + c
}

// ---------------------------------------------------------------------------
// Clusters
// ---------------------------------------------------------------------------

impl IvfView {
    /// Whether a cluster lies inside of the arrays.
    pub open spec fn cluster_fits(self, c: int) -> bool {
        &&& 0 <= c < self.sizes.len()
        &&& c < self.offsets.len()
        &&& c < self.panel_offsets.len()
        &&& self.panel_offsets[c] + 14 * self.sizes[c] <= self.vectors.len()
        &&& self.offsets[c] + self.sizes[c] <= self.labels.len()
    }

    /// Whether all clusters lie inside of the arrays.
    pub open spec fn scannable(self) -> bool {
        forall|c: int| 0 <= c < self.n_clusters ==> #[trigger] self.cluster_fits(c)
    }

    /// Where coordinate `d` of vector `j` of a cluster is held. Full panels of
    /// eight vectors hold one dimension after the other; the vectors behind
    /// them stand one by one.
    pub open spec fn coord_place(self, c: int, j: int, d: int) -> int {
        let full = self.sizes[c] as int / 8 * 8;
        if j < full {
            self.panel_offsets[c] + (j / 8) * 112 + d * 8 + j % 8
        } else {
            self.panel_offsets[c] + full * 14 + (j - full) * 14 + d
        }
    }

    /// Vector `j` of a cluster.
    pub open spec fn cluster_vector(self, c: int, j: int) -> Seq<i16> {
        Seq::new(DIM as nat, |d: int| self.vectors[self.coord_place(c, j, d)])
    }

    /// Label of vector `j` of a cluster.
    pub open spec fn cluster_label(self, c: int, j: int) -> u8 {
        self.labels[self.offsets[c] + j]
    }

    /// Labels of the first `n` chosen clusters, one after the other.
    pub open spec fn chosen_labels(self, chosen: Seq<u16>, n: int) -> Seq<u8>
        decreases n,
    {
        if n <= 0 {
            seq![]
        } else {
            let c = chosen[n - 1] as int;
            self.chosen_labels(chosen, n - 1) + Seq::new(
                self.sizes[c] as nat,
                |j: int| self.cluster_label(c, j),
            )
        }
    }
}

impl View for IvfIndex {
    type V = IvfView;

    closed spec fn view(&self) -> IvfView {
        IvfView {
            n_total: self.n_total,
            dim: self.dim,
            n_clusters: self.n_clusters,
            scale: self.scale,
            nprobe: self.nprobe,
            centroids: self.centroids_soa@,
            sizes: self.cluster_sizes@,
            offsets: self.cluster_offsets@,
            panel_offsets: self.panel_offsets@,
            vectors: self.vectors@,
            labels: self.labels@,
        }
    }
}

// ---------------------------------------------------------------------------
// Loading
// ---------------------------------------------------------------------------

/// Tests whether a file announces another number of dimensions than this
/// index has.
pub fn has_other_dim(s: &[u8]) -> (r: bool)
    ensures
        r == (has_header(s@) && stored_dim(s@) != DIM),
{
    s.len() >= 32 && read_u32(s, 0) == MAGIC && read_u32(s, 4) == VERSION && read_u32(s, 12)
        != DIM as u32
}

fn copy_u32_slice(s: &[u8], at: usize, n: usize) -> (v: Vec<u32>)
    requires
        at + 4 * n <= s@.len(),
    ensures
        v@.len() == n,
        numbers_at(s@, at as int, v@),
{
    assert(at + 4 * n <= s.len());
    let mut v: Vec<u32> = Vec::new();
    let mut i: usize = 0;
    while i < n
        invariant
            i <= n,
            at + 4 * n <= s@.len(),
            at + 4 * n <= s.len(),
            v@.len() == i,
            numbers_at(s@, at as int, v@),
        decreases n - i,
    {
        v.push(read_u32(s, at + 4 * i));
        i = i + 1;
    }
    v
}

fn copy_i16_slice(s: &[u8], at: usize, n: usize) -> (v: Vec<i16>)
    requires
        at + 2 * n <= s@.len(),
    ensures
        v@.len() == n,
        forall|i: int| 0 <= i < n ==> #[trigger] v@[i] == le_i16(s@, at + 2 * i),
{
    assert(at + 2 * n <= s.len());
    let mut v: Vec<i16> = Vec::new();
    let mut i: usize = 0;
    while i < n
        invariant
            i <= n,
            at + 2 * n <= s@.len(),
            at + 2 * n <= s.len(),
            v@.len() == i,
            forall|k: int| 0 <= k < i ==> #[trigger] v@[k] == le_i16(s@, at + 2 * k),
        decreases n - i,
    {
        v.push(read_i16(s, at + 2 * i));
        i = i + 1;
    }
    v
}

/// Reads centroids that are stored one after the other into one dimension
/// after the other.
#[verifier::spinoff_prover]
fn read_centroids(s: &[u8], n: usize) -> (v: Vec<u32>)
    requires
        32 + 56 * n <= s@.len(),
    ensures
        v@.len() == 14 * n,
        forall|c: int, d: int|
            0 <= c < n && 0 <= d < DIM ==> #[trigger] v@[centroid_place(n as int, c, d)] == le_u32(
                s@,
                32 + 4 * (14 * c + d),
            ),
{
    assert(32 + 56 * n <= s.len());
    let mut v: Vec<u32> = Vec::new();
    let mut d: usize = 0;
    while d < DIM
        invariant
            d <= DIM,
            32 + 56 * n <= s@.len(),
            32 + 56 * n <= s.len(),
            v@.len() == d * n,
            forall|c: int, e: int|
                0 <= c < n && 0 <= e < d ==> #[trigger] v@[centroid_place(n as int, c, e)]
                    == le_u32(s@, 32 + 4 * (14 * c + e)),
        decreases DIM - d,
    {
        let mut c: usize = 0;
        while c < n
            invariant
                c <= n,
                d < DIM,
                32 + 56 * n <= s@.len(),
                32 + 56 * n <= s.len(),
                v@.len() == d * n + c,
                forall|b: int, e: int|
                    (0 <= b < n && 0 <= e < d) || (0 <= b < c && e == d)
                        ==> #[trigger] v@[centroid_place(n as int, b, e)] == le_u32(
                        s@,
                        32 + 4 * (14 * b + e),
                    ),
            decreases n - c,
        {
            v.push(read_u32(s, 32 + 4 * (14 * c + d)));
            proof {
                assert forall|b: int, e: int|
                    (0 <= b < n && 0 <= e < d) || (0 <= b < c + 1 && e
                        == d) implies #[trigger] v@[centroid_place(n as int, b, e)] == le_u32(
                    s@,
                    32 + 4 * (14 * b + e),
                ) by {
                    assert(e < d ==> e * n + n <= d * n) by (nonlinear_arith)
                        requires
                            0 <= e,
                            0 <= n,
                    ;
                    assert(0 <= e * n) by (nonlinear_arith)
                        requires
                            0 <= e,
                            0 <= n,
                    ;
                }
            }
            c = c + 1;
        }
        assert((d + 1) * n == d * n + n) by (nonlinear_arith);
        d = d + 1;
    }
    v
}

impl IvfIndex {
    /// Makes an index of a file; `nprobe` is the number of clusters that a
    /// search looks into.
    pub fn load(bytes: &[u8], nprobe: u32) -> (r: Result<IvfIndex, LoadErr>)
        requires
            has_header(bytes@) ==> stored_dim(bytes@) == DIM,
        ensures
            match r {
                Err(e) => load_error(bytes@) == Some(e),
                Ok(index) => {
                    &&& load_error(bytes@) is None
                    &&& decoded(bytes@, index@)
                    &&& index@.nprobe == nprobe
                },
            },
            bytes@.len() < 32 ==> r == Err::<IvfIndex, LoadErr>(LoadErr::Truncated),
            bytes@.len() >= 32 && !(bytes@[0] == 0x52 && bytes@[1] == 0x49 && bytes@[2] == 0x4e
                && bytes@[3] == 0x48) ==> r == Err::<IvfIndex, LoadErr>(LoadErr::BadMagic),
    {
        if bytes.len() < 32 {
            return Err(LoadErr::Truncated);
        }
        if read_u32(bytes, 0) != MAGIC {
            return Err(LoadErr::BadMagic);
        }
        if read_u32(bytes, 4) != VERSION {
            return Err(LoadErr::BadVersion);
        }
        let n_total: u32 = read_u32(bytes, 8);
        let dim: u32 = read_u32(bytes, 12);
        let n_clusters: u32 = read_u32(bytes, 16);
        let scale: u32 = read_u32(bytes, 20);
        let n: u64 = n_clusters as u64;
        let sizes_at: u64 = 32 + 56 * n;
        let offsets_at: u64 = sizes_at + 4 * n;
        let panels_at: u64 = offsets_at + 4 * (n + 1);
        let vectors_at: u64 = panels_at + 4 * (n + 1);
        let labels_at: u64 = vectors_at + 28 * n_total as u64;
        let end: u64 = labels_at + n_total as u64;
        if (bytes.len() as u64) < end {
            return Err(LoadErr::Truncated);
        }
        let n: usize = n_clusters as usize;
        let index = IvfIndex {
            n_total,
            dim,
            n_clusters,
            scale,
            nprobe,
            centroids_soa: read_centroids(bytes, n),
            cluster_sizes: copy_u32_slice(bytes, sizes_at as usize, n),
            cluster_offsets: copy_u32_slice(bytes, offsets_at as usize, n + 1),
            panel_offsets: copy_u32_slice(bytes, panels_at as usize, n + 1),
            vectors: copy_i16_slice(bytes, vectors_at as usize, 14 * n_total as usize),
            labels: copy_bytes(&bytes[labels_at as usize..end as usize]),
        };
        Ok(index)
    }

    /// Number of vectors.
    pub fn n_total(&self) -> (n: u32)
        ensures
            n == self@.n_total,
    {
        self.n_total
    }

    /// Number of dimensions.
    pub fn dim(&self) -> (n: u32)
        ensures
            n == self@.dim,
    {
        self.dim
    }

    /// Number of clusters.
    pub fn n_clusters(&self) -> (n: u32)
        ensures
            n == self@.n_clusters,
    {
        self.n_clusters
    }

    /// Factor by which coordinates were scaled before they were rounded, as
    /// the file gives it.
    pub fn scale(&self) -> (n: u32)
        ensures
            n == self@.scale,
    {
        self.scale
    }

    /// Number of clusters that a search looks into.
    pub fn nprobe(&self) -> (n: u32)
        ensures
            n == self@.nprobe,
    {
        self.nprobe
    }

    /// Tests whether all clusters lie inside of the arrays.
    pub fn is_scannable(&self) -> (r: bool)
        ensures
            r == self@.scannable(),
    {
        let n: usize = self.n_clusters as usize;
        let mut c: usize = 0;
        while c < n
            invariant
                c <= n,
                n == self.n_clusters,
                forall|k: int| 0 <= k < c ==> #[trigger] self@.cluster_fits(k),
            decreases n - c,
        {
            if c >= self.cluster_sizes.len() || c >= self.cluster_offsets.len() || c
                >= self.panel_offsets.len() {
                assert(!self@.cluster_fits(c as int));
                return false;
            }
            let size: u64 = self.cluster_sizes[c] as u64;
            if self.panel_offsets[c] as u64 + 14 * size > self.vectors.len() as u64
                || self.cluster_offsets[c] as u64 + size > self.labels.len() as u64 {
                assert(!self@.cluster_fits(c as int));
                return false;
            }
            c = c + 1;
        }
        true
    }

    /// Bits of dimension `d` of centroid `c`.
    pub fn centroid(&self, c: usize, d: usize) -> (bits: u32)
        requires
            c < self@.n_clusters,
            d < DIM,
            self@.centroids.len() == 14 * self@.n_clusters,
        ensures
            bits == self@.centroids[centroid_place(self@.n_clusters as int, c as int, d as int)],
            bits == self@.centroids[d * self@.n_clusters + c],
    {
        let n: usize = self.n_clusters as usize;
        assert(d * n + c < 14 * n) by (nonlinear_arith)
            requires
                0 <= c < n,
                0 <= d < 14,
        ;
        assert(14 * n <= self.centroids_soa.len());
        assert(0 <= d * n <= d * n + c) by (nonlinear_arith)
            requires
                0 <= c,
                0 <= d,
                0 <= n,
        ;
        self.centroids_soa[d * n + c]
    }

    /// Number of vectors in a cluster.
    pub fn cluster_size(&self, c: usize) -> (n: u32)
        requires
            self@.cluster_fits(c as int),
        ensures
            n == self@.sizes[c as int],
    {
        self.cluster_sizes[c]
    }

    /// Vector `j` of a cluster.
    pub fn cluster_vector(&self, c: usize, j: usize) -> (v: [i16; DIM])
        requires
            self@.cluster_fits(c as int),
            j < self@.sizes[c as int],
        ensures
            v@ == self@.cluster_vector(c as int, j as int),
            forall|d: int|
                0 <= d < 14 && j < self@.sizes[c as int] as int / 8 * 8 ==> #[trigger] v@[d]
                    == self@.vectors[self@.panel_offsets[c as int] + (j as int / 8) * 112 + d * 8 + j
                    as int % 8],
            forall|d: int|
                0 <= d < 14 && j >= self@.sizes[c as int] as int / 8 * 8 ==> #[trigger] v@[d]
                    == self@.vectors[self@.panel_offsets[c as int] + j * 14 + d],
    {
        let size: usize = self.cluster_sizes[c] as usize;
        let start: usize = self.panel_offsets[c] as usize;
        assert(start + 14 * size <= self.vectors.len());
        let full: usize = size / 8 * 8;
        let mut v: [i16; DIM] = [0; DIM];
        let mut d: usize = 0;
        while d < DIM
            invariant
                d <= DIM,
                self@.cluster_fits(c as int),
                j < size,
                size == self@.sizes[c as int],
                start == self@.panel_offsets[c as int],
                start + 14 * size <= self.vectors.len(),
                full == size / 8 * 8,
                v@.len() == DIM,
                forall|k: int|
                    0 <= k < d ==> #[trigger] v@[k] == self@.vectors[self@.coord_place(
                        c as int,
                        j as int,
                        k,
                    )],
            decreases DIM - d,
        {
            let place: usize = if j < full {
                start + (j / 8) * 112 + d * 8 + j % 8
            } else {
                start + full * 14 + (j - full) * 14 + d
            };
            v[d] = self.vectors[place];
            d = d + 1;
        }
        assert(v@ =~= self@.cluster_vector(c as int, j as int));
        v
    }

    /// Number of fraud labels among the nearest neighbours in the chosen
    /// clusters. `keys` are the order keys of the distances of their vectors,
    /// one cluster after the other.
    #[verifier::spinoff_prover]
    pub fn fraud_count(&self, chosen: &Vec<u16>, keys: &Vec<u32>) -> (count: u8)
        requires
            self@.scannable(),
            forall|i: int| 0 <= i < chosen@.len() ==> (#[trigger] chosen@[i]) < self@.n_clusters,
            keys@.len() == self@.chosen_labels(chosen@, chosen@.len() as int).len(),
        ensures
            count == frauds_among(
                best_of(
                    keys@,
                    self@.chosen_labels(chosen@, chosen@.len() as int),
                    keys@.len() as int,
                ),
                K as int,
            ),
            count <= K,
    {
        let ghost labels = self@.chosen_labels(chosen@, chosen@.len() as int);
        let mut top: Top = Top::new();
        let mut at: usize = 0;
        let mut i: usize = 0;
        while i < chosen.len()
            invariant
                i <= chosen@.len(),
                self@.scannable(),
                forall|i: int| 0 <= i < chosen@.len() ==> (#[trigger] chosen@[i])
                    < self@.n_clusters,
                labels == self@.chosen_labels(chosen@, chosen@.len() as int),
                keys@.len() == labels.len(),
                at == self@.chosen_labels(chosen@, i as int).len(),
                top_of(top) == best_of(keys@, labels, at as int),
            decreases chosen@.len() - i,
        {
            let c: usize = chosen[i] as usize;
            assert(self@.cluster_fits(c as int));
            let size: usize = self.cluster_sizes[c] as usize;
            let first: usize = self.cluster_offsets[c] as usize;
            let start: usize = at;
            proof {
                lemma_chosen_prefix(self@, chosen@, i + 1, chosen@.len() as int);
            }
            let ghost here = self@.chosen_labels(chosen@, i + 1);
            assert(here.len() == start + size);
            let mut j: usize = 0;
            while j < size
                invariant
                    j <= size,
                    at == start + j,
                    start + size == here.len() <= labels.len() == keys@.len(),
                    size == self@.sizes[c as int],
                    first == self@.offsets[c as int],
                    self@.cluster_fits(c as int),
                    forall|k: int| 0 <= k < here.len() ==> #[trigger] labels[k] == here[k],
                    forall|k: int|
                        0 <= k < size ==> here[start + k] == #[trigger] self@.cluster_label(
                            c as int,
                            k,
                        ),
                    top_of(top) == best_of(keys@, labels, at as int),
                decreases size - j,
            {
                assert(here[start + j] == self@.cluster_label(c as int, j as int));
                assert(labels[at as int] == here[at as int]);
                assert(at < keys.len());
                assert(first + j < self.labels.len());
                top.offer(keys[at], self.labels[first + j]);
                at = at + 1;
                j = j + 1;
            }
            i = i + 1;
        }
        assert(K == top::TOP);
        top.frauds()
    }
}

/// A file is refused for its first fault: too short for a header, another number
/// in front, another version, or shorter than the header announces.
pub proof fn lemma_load_faults(s: Seq<u8>)
    ensures
        s.len() < 32 ==> load_error(s) == Some(LoadErr::Truncated),
        s.len() >= 32 ==> {
            let n = le_u32(s, 16);
            let named = s[0] == 0x52 && s[1] == 0x49 && s[2] == 0x4e && s[3] == 0x48;
            let versioned = le_u32(s, 4) == 3;
            let whole = s.len() >= 32 + 56 * n + 4 * n + 4 * (n + 1) + 4 * (n + 1) + 29 * le_u32(
                s,
                8,
            );
            &&& !named ==> load_error(s) == Some(LoadErr::BadMagic)
            &&& named && !versioned ==> load_error(s) == Some(LoadErr::BadVersion)
            &&& named && versioned && !whole ==> load_error(s) == Some(LoadErr::Truncated)
            &&& named && versioned && whole ==> load_error(s) is None
        },
{
}

/// What a loaded index holds is what the file holds in its place: numbers of
/// four bytes behind a header of 32, then coordinates of two and labels of one.
pub proof fn lemma_loaded_places(s: Seq<u8>, iv: IvfView)
    requires
        decoded(s, iv),
    ensures
        iv.n_total == le_u32(s, 8),
        iv.dim == le_u32(s, 12),
        iv.n_clusters == le_u32(s, 16),
        iv.scale == le_u32(s, 20),
        ({
            let n = iv.n_clusters as int;
            let t = iv.n_total as int;
            let vectors = 32 + 56 * n + 4 * n + 4 * (n + 1) + 4 * (n + 1);
            &&& forall|c: int, d: int|
                #![trigger le_u32(s, 32 + 4 * (14 * c + d))]
                0 <= c < n && 0 <= d < 14 ==> iv.centroids[d * n + c] == le_u32(
                    s,
                    32 + 4 * (14 * c + d),
                )
            &&& iv.sizes.len() == n
            &&& forall|c: int|
                0 <= c < n ==> #[trigger] iv.sizes[c] == le_u32(s, 32 + 56 * n + 4 * c)
            &&& iv.offsets.len() == n + 1
            &&& forall|c: int|
                0 <= c < n + 1 ==> #[trigger] iv.offsets[c] == le_u32(
                    s,
                    32 + 56 * n + 4 * n + 4 * c,
                )
            &&& iv.panel_offsets.len() == n + 1
            &&& forall|c: int|
                0 <= c < n + 1 ==> #[trigger] iv.panel_offsets[c] == le_u32(
                    s,
                    32 + 56 * n + 4 * n + 4 * (n + 1) + 4 * c,
                )
            &&& iv.vectors.len() == 14 * t
            &&& forall|i: int|
                0 <= i < 14 * t ==> #[trigger] iv.vectors[i] == le_i16(s, vectors + 2 * i)
            &&& iv.labels.len() == t
            &&& forall|i: int| 0 <= i < t ==> #[trigger] iv.labels[i] == s[vectors + 28 * t + i]
        }),
{
    assert forall|c: int, d: int|
        #![trigger le_u32(s, 32 + 4 * (14 * c + d))]
        0 <= c < iv.n_clusters && 0 <= d < 14 implies iv.centroids[d * iv.n_clusters + c] == le_u32(
        s,
        32 + 4 * (14 * c + d),
    ) by {
        assert(iv.centroids[centroid_place(iv.n_clusters as int, c, d)] == le_u32(
            s,
            32 + 4 * (14 * c + d),
        ));
    }
}

/// The labels of the chosen clusters stand one cluster after the other, and in a
/// cluster one vector after the other.
pub proof fn lemma_chosen_labels(iv: IvfView, chosen: Seq<u16>, n: int, i: int, j: int)
    requires
        0 <= i < n <= chosen.len(),
        0 <= j < iv.sizes[chosen[i] as int],
    ensures
        iv.chosen_labels(chosen, 0).len() == 0,
        iv.chosen_labels(chosen, i + 1).len() == iv.chosen_labels(chosen, i).len()
            + iv.sizes[chosen[i] as int],
        iv.chosen_labels(chosen, n)[iv.chosen_labels(chosen, i).len() + j]
            == iv.labels[iv.offsets[chosen[i] as int] + j],
{
    lemma_chosen_prefix(iv, chosen, i + 1, n);
    let at = iv.chosen_labels(chosen, i).len() + j;
    assert(iv.chosen_labels(chosen, n)[at] == iv.chosen_labels(chosen, i + 1)[at]);
}

proof fn lemma_chosen_prefix(iv: IvfView, chosen: Seq<u16>, n: int, m: int)
    requires
        0 <= n <= m,
    ensures
        iv.chosen_labels(chosen, n).len() <= iv.chosen_labels(chosen, m).len(),
        forall|k: int|
            0 <= k < iv.chosen_labels(chosen, n).len() ==> #[trigger] iv.chosen_labels(
                chosen,
                m,
            )[k] == iv.chosen_labels(chosen, n)[k],
    decreases m - n,
{
    if n < m {
        lemma_chosen_prefix(iv, chosen, n, m - 1);
    }
}

// ---------------------------------------------------------------------------
// Choosing clusters
// ---------------------------------------------------------------------------

/// Number of clusters that a search looks into.
pub open spec fn probes(nprobe: int, clusters: int) -> int {
    if nprobe < clusters {
        nprobe
    } else {
        clusters
    }
}

/// Whether `chosen` are `n` different clusters, none of them farther than one
/// that was left out.
pub open spec fn are_nearest(chosen: Seq<u16>, keys: Seq<u32>, n: int) -> bool {
    &&& chosen.len() == n
    &&& chosen.no_duplicates()
    &&& forall|i: int| 0 <= i < n ==> (#[trigger] chosen[i]) < keys.len()
    &&& forall|i: int, c: int|
        0 <= i < n && 0 <= c < keys.len() && !chosen.contains(c as u16) ==> keys[(
        #[trigger] chosen[i]) as int] <= #[trigger] keys[c]
}

/// Chooses the nearest clusters, by the order keys of their distances.
#[verifier::spinoff_prover]
pub fn choose_clusters(keys: &Vec<u32>, nprobe: u32) -> (chosen: Vec<u16>)
    requires
        0 < keys@.len() <= u16::MAX,
        0 < nprobe,
    ensures
        are_nearest(chosen@, keys@, probes(nprobe as int, keys@.len() as int)),
        nprobe < keys@.len() ==> chosen@.len() == nprobe,
        nprobe >= keys@.len() ==> chosen@.len() == keys@.len(),
        forall|i: int| 0 <= i < chosen@.len() ==> (#[trigger] chosen@[i]) < keys@.len(),
        forall|i: int, j: int|
            0 <= i < j < chosen@.len() ==> #[trigger] chosen@[i] != #[trigger] chosen@[j],
        forall|i: int, c: int|
            0 <= i < chosen@.len() && 0 <= c < keys@.len() && !chosen@.contains(c as u16)
                ==> keys@[(#[trigger] chosen@[i]) as int] <= #[trigger] keys@[c],
{
    broadcast use vstd::seq_lib::group_to_multiset_ensures;

    let n: usize = keys.len();
    let mut items: Vec<(i64, u16)> = Vec::new();
    let mut c: usize = 0;
    while c < n
        invariant
            c <= n == keys@.len() <= u16::MAX,
            items@.len() == c,
            forall|i: int|
                0 <= i < c ==> (#[trigger] items@[i]).1 == i && items@[i].0 == keys@[i],
        decreases n - c,
    {
        items.push((keys[c] as i64, c as u16));
        c = c + 1;
    }
    let probe: usize = if (nprobe as u64) < n as u64 {
        nprobe as usize
    } else {
        n
    };
    let ghost all = items@;
    assert(all.no_duplicates());
    select_nth(&mut items, probe - 1);
    let ghost sel = items@;
    proof {
        all.lemma_multiset_has_no_duplicates();
        sel.lemma_multiset_has_no_duplicates_conv();
        assert(sel.len() == sel.to_multiset().len());
        assert(all.len() == all.to_multiset().len());
        assert forall|i: int| 0 <= i < sel.len() implies (#[trigger] sel[i]).1 < n && sel[i].0
            == keys@[sel[i].1 as int] by {
            assert(sel.contains(sel[i]));
            assert(sel.to_multiset().count(sel[i]) > 0);
            assert(all.contains(sel[i]));
        }
    }
    let mut chosen: Vec<u16> = Vec::new();
    let mut k: usize = 0;
    while k < probe
        invariant
            k <= probe <= n == items@.len(),
            chosen@.len() == k,
            forall|i: int| 0 <= i < k ==> #[trigger] chosen@[i] == items@[i].1,
        decreases probe - k,
    {
        chosen.push(items[k].1);
        k = k + 1;
    }
    proof {
        assert forall|i: int, j: int| 0 <= i < probe && 0 <= j < probe && i != j implies chosen@[i]
            != chosen@[j] by {
            assert(sel[i] != sel[j]);
            assert(sel[i].0 == keys@[sel[i].1 as int] && sel[j].0 == keys@[sel[j].1 as int]);
        }
        assert forall|i: int, c: int|
            0 <= i < probe && 0 <= c < n && !chosen@.contains(c as u16) implies keys@[(
        #[trigger] chosen@[i]) as int] <= #[trigger] keys@[c] by {
            let item = all[c];
            assert(all.contains(item));
            assert(all.to_multiset().count(item) > 0);
            assert(sel.contains(item));
            let j = choose|j: int| 0 <= j < sel.len() && sel[j] == item;
            if j < probe {
                assert(chosen@[j] == c as u16);
            }
            assert(sel[i].1 == chosen@[i]);
            assert(sel[i].0 <= sel[j].0);
        }
    }
    chosen
}

} // verus!
