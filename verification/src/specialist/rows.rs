//! Reference rows: bounding boxes, the axis to split on, and panels.

use super::format::{panel_offset, panel_vector, panels_for};
use super::geometry::{QueryVector, DIM, PACKED_DIMS};
use vstd::prelude::*;

verus! {

/// A labelled reference vector.
#[derive(Copy, Clone, Debug)]
pub struct RefRow {
    pub vec: QueryVector,
    /// 0 for legitimate, 1 for fraud.
    pub label: u8,
}

// ---------------------------------------------------------------------------
// Bounding boxes
// ---------------------------------------------------------------------------

/// Smallest coordinate `d` of the first `n` rows.
pub open spec fn lowest(rows: Seq<RefRow>, d: int, n: int) -> i16
    decreases n,
{
    if n <= 0 {
        i16::MAX
    } else if rows[n - 1].vec@[d] < lowest(rows, d, n - 1) {
        rows[n - 1].vec@[d]
    } else {
        lowest(rows, d, n - 1)
    }
}

/// Largest coordinate `d` of the first `n` rows.
pub open spec fn highest(rows: Seq<RefRow>, d: int, n: int) -> i16
    decreases n,
{
    if n <= 0 {
        i16::MIN
    } else if rows[n - 1].vec@[d] > highest(rows, d, n - 1) {
        rows[n - 1].vec@[d]
    } else {
        highest(rows, d, n - 1)
    }
}

/// Whether padding dimension `d` has no coordinate at all.
pub open spec fn blank(rows: Seq<RefRow>, d: int) -> bool {
    d >= DIM && lowest(rows, d, rows.len() as int) > highest(rows, d, rows.len() as int)
}

/// Lower corner of the bounding box.
pub open spec fn box_min(rows: Seq<RefRow>) -> Seq<i16> {
    Seq::new(
        PACKED_DIMS as nat,
        |d: int|
            if blank(rows, d) {
                0i16
            } else {
                lowest(rows, d, rows.len() as int)
            },
    )
}

/// Upper corner of the bounding box.
pub open spec fn box_max(rows: Seq<RefRow>) -> Seq<i16> {
    Seq::new(
        PACKED_DIMS as nat,
        |d: int|
            if blank(rows, d) {
                0i16
            } else {
                highest(rows, d, rows.len() as int)
            },
    )
}

/// Computes the bounding box of some rows.
pub fn compute_bbox(rows: &Vec<RefRow>) -> (r: (QueryVector, QueryVector))
    ensures
        r.0@ == box_min(rows@),
        r.1@ == box_max(rows@),
        forall|i: int, d: int|
            0 <= i < rows@.len() && 0 <= d < 16 ==> r.0@[d] <= #[trigger] rows@[i].vec@[d]
                <= r.1@[d],
        rows@.len() > 0 ==> forall|d: int|
            #![trigger r.0@[d]]
            0 <= d < 16 ==> exists|i: int|
                0 <= i < rows@.len() && (#[trigger] rows@[i]).vec@[d] == r.0@[d],
        rows@.len() > 0 ==> forall|d: int|
            #![trigger r.1@[d]]
            0 <= d < 16 ==> exists|i: int|
                0 <= i < rows@.len() && (#[trigger] rows@[i]).vec@[d] == r.1@[d],
{
    proof {
        lemma_tight_box(rows@);
    }
    let mut min: QueryVector = [i16::MAX; PACKED_DIMS];
    let mut max: QueryVector = [i16::MIN; PACKED_DIMS];
    let mut i: usize = 0;
    while i < rows.len()
        invariant
            i <= rows@.len(),
            min@.len() == PACKED_DIMS,
            max@.len() == PACKED_DIMS,
            forall|d: int|
                0 <= d < PACKED_DIMS ==> #[trigger] min@[d] == lowest(rows@, d, i as int),
            forall|d: int|
                0 <= d < PACKED_DIMS ==> #[trigger] max@[d] == highest(rows@, d, i as int),
        decreases rows@.len() - i,
    {
        let mut d: usize = 0;
        while d < PACKED_DIMS
            invariant
                d <= PACKED_DIMS,
                i < rows@.len(),
                min@.len() == PACKED_DIMS,
                max@.len() == PACKED_DIMS,
                forall|k: int| 0 <= k < d ==> #[trigger] min@[k] == lowest(rows@, k, i + 1),
                forall|k: int|
                    d <= k < PACKED_DIMS ==> #[trigger] min@[k] == lowest(rows@, k, i as int),
                forall|k: int| 0 <= k < d ==> #[trigger] max@[k] == highest(rows@, k, i + 1),
                forall|k: int|
                    d <= k < PACKED_DIMS ==> #[trigger] max@[k] == highest(rows@, k, i as int),
            decreases PACKED_DIMS - d,
        {
            let x: i16 = rows[i].vec[d];
            if x < min[d] {
                min[d] = x;
            }
            if x > max[d] {
                max[d] = x;
            }
            d = d + 1;
        }
        i = i + 1;
    }
    let ghost min0 = min@;
    let ghost max0 = max@;
    let mut d: usize = DIM;
    while d < PACKED_DIMS
        invariant
            DIM <= d <= PACKED_DIMS,
            min0.len() == PACKED_DIMS,
            max0.len() == PACKED_DIMS,
            min@.len() == PACKED_DIMS,
            max@.len() == PACKED_DIMS,
            forall|k: int|
                0 <= k < PACKED_DIMS ==> #[trigger] min0[k] == lowest(
                    rows@,
                    k,
                    rows@.len() as int,
                ),
            forall|k: int|
                0 <= k < PACKED_DIMS ==> #[trigger] max0[k] == highest(
                    rows@,
                    k,
                    rows@.len() as int,
                ),
            forall|k: int| 0 <= k < d ==> #[trigger] min@[k] == box_min(rows@)[k],
            forall|k: int| 0 <= k < d ==> #[trigger] max@[k] == box_max(rows@)[k],
            forall|k: int| d <= k < PACKED_DIMS ==> #[trigger] min@[k] == min0[k],
            forall|k: int| d <= k < PACKED_DIMS ==> #[trigger] max@[k] == max0[k],
        decreases PACKED_DIMS - d,
    {
        if min[d] > max[d] {
            min[d] = 0;
            max[d] = 0;
        }
        d = d + 1;
    }
    assert(min@ =~= box_min(rows@));
    assert(max@ =~= box_max(rows@));
    (min, max)
}

/// Every row lies between the extremes.
pub proof fn lemma_extremes(rows: Seq<RefRow>, d: int, n: int)
    requires
        0 <= n <= rows.len(),
    ensures
        forall|i: int|
            0 <= i < n ==> lowest(rows, d, n) <= (#[trigger] rows[i]).vec@[d] <= highest(
                rows,
                d,
                n,
            ),
    decreases n,
{
    if n > 0 {
        lemma_extremes(rows, d, n - 1);
    }
}

/// The extremes are coordinates of rows.
pub proof fn lemma_extremes_attained(rows: Seq<RefRow>, d: int, n: int)
    requires
        0 <= n <= rows.len(),
    ensures
        lowest(rows, d, n) == i16::MAX || exists|i: int|
            0 <= i < n && (#[trigger] rows[i]).vec@[d] == lowest(rows, d, n),
        highest(rows, d, n) == i16::MIN || exists|i: int|
            0 <= i < n && (#[trigger] rows[i]).vec@[d] == highest(rows, d, n),
    decreases n,
{
    if n > 0 {
        lemma_extremes_attained(rows, d, n - 1);
        assert(rows[n - 1].vec@[d] == rows[n - 1].vec@[d]);
    }
}

/// Bounding boxes do not depend on the order of the rows.
pub proof fn lemma_tight_box(rows: Seq<RefRow>)
    ensures
        forall|i: int, d: int|
            0 <= i < rows.len() && 0 <= d < 16 ==> box_min(rows)[d] <= #[trigger] rows[i].vec@[d]
                <= box_max(rows)[d],
        rows.len() > 0 ==> forall|d: int|
            #![trigger box_min(rows)[d]]
            0 <= d < 16 ==> exists|i: int|
                0 <= i < rows.len() && (#[trigger] rows[i]).vec@[d] == box_min(rows)[d],
        rows.len() > 0 ==> forall|d: int|
            #![trigger box_max(rows)[d]]
            0 <= d < 16 ==> exists|i: int|
                0 <= i < rows.len() && (#[trigger] rows[i]).vec@[d] == box_max(rows)[d],
{
    let n = rows.len() as int;
    assert forall|i: int, d: int| 0 <= i < rows.len() && 0 <= d < 16 implies box_min(rows)[d]
        <= #[trigger] rows[i].vec@[d] <= box_max(rows)[d] by {
        lemma_extremes(rows, d, n);
    }
    if n > 0 {
        assert forall|d: int| #![trigger box_min(rows)[d]] 0 <= d < 16 implies exists|i: int|
            0 <= i < rows.len() && (#[trigger] rows[i]).vec@[d] == box_min(rows)[d] by {
            lemma_extremes(rows, d, n);
            lemma_extremes_attained(rows, d, n);
            let first = rows[0].vec@[d];
            if lowest(rows, d, n) == i16::MAX {
                assert(rows[0].vec@[d] == box_min(rows)[d]);
            }
        }
        assert forall|d: int| #![trigger box_max(rows)[d]] 0 <= d < 16 implies exists|i: int|
            0 <= i < rows.len() && (#[trigger] rows[i]).vec@[d] == box_max(rows)[d] by {
            lemma_extremes(rows, d, n);
            lemma_extremes_attained(rows, d, n);
            let first = rows[0].vec@[d];
            if highest(rows, d, n) == i16::MIN {
                assert(rows[0].vec@[d] == box_max(rows)[d]);
            }
        }
    }
}

pub proof fn lemma_box_of_permutation(a: Seq<RefRow>, b: Seq<RefRow>)
    requires
        a.to_multiset() == b.to_multiset(),
    ensures
        box_min(a) == box_min(b),
        box_max(a) == box_max(b),
{
    assert forall|d: int| 0 <= d < PACKED_DIMS implies lowest(a, d, a.len() as int) == lowest(
        b,
        d,
        b.len() as int,
    ) && highest(a, d, a.len() as int) == highest(b, d, b.len() as int) by {
        lemma_extremes_of_part(a, b, d);
        lemma_extremes_of_part(b, a, d);
    }
    assert(box_min(a) =~= box_min(b));
    assert(box_max(a) =~= box_max(b));
}

/// The extremes of some rows lie between those of all rows.
proof fn lemma_extremes_of_part(all: Seq<RefRow>, part: Seq<RefRow>, d: int)
    requires
        all.to_multiset() == part.to_multiset(),
    ensures
        lowest(all, d, all.len() as int) <= lowest(part, d, part.len() as int),
        highest(all, d, all.len() as int) >= highest(part, d, part.len() as int),
{
    broadcast use vstd::seq_lib::group_to_multiset_ensures;

    let n = part.len() as int;
    lemma_extremes(all, d, all.len() as int);
    lemma_extremes_attained(part, d, n);
    if lowest(part, d, n) != i16::MAX {
        let i = choose|i: int| 0 <= i < n && (#[trigger] part[i]).vec@[d] == lowest(part, d, n);
        assert(part.contains(part[i]));
        assert(part.to_multiset().count(part[i]) > 0);
        assert(all.contains(part[i]));
    }
    if highest(part, d, n) != i16::MIN {
        let i = choose|i: int| 0 <= i < n && (#[trigger] part[i]).vec@[d] == highest(part, d, n);
        assert(part.contains(part[i]));
        assert(part.to_multiset().count(part[i]) > 0);
        assert(all.contains(part[i]));
    }
}

// ---------------------------------------------------------------------------
// The axis to split on
// ---------------------------------------------------------------------------

/// Of the first `n` dimensions, the first one over which the box is widest.
pub open spec fn widest(lo: Seq<i16>, hi: Seq<i16>, n: int) -> int
    decreases n,
{
    if n <= 1 {
        0
    } else {
        let d = widest(lo, hi, n - 1);
        if hi[n - 1] - lo[n - 1] > hi[d] - lo[d] {
            n - 1
        } else {
            d
        }
    }
}

/// Finds the dimension over which a box is widest.
pub fn widest_axis(min: &QueryVector, max: &QueryVector) -> (axis: usize)
    ensures
        axis == widest(min@, max@, DIM as int),
        axis < DIM,
        forall|d: int|
            0 <= d < 14 ==> #[trigger] max@[d] - min@[d] <= max@[axis as int] - min@[axis as int],
        forall|d: int|
            0 <= d < axis ==> #[trigger] max@[d] - min@[d] < max@[axis as int] - min@[axis as int],
{
    let mut axis: usize = 0;
    let mut range: i32 = max[0] as i32 - min[0] as i32;
    let mut d: usize = 1;
    while d < DIM
        invariant
            1 <= d <= DIM,
            axis < d,
            min@.len() == PACKED_DIMS,
            max@.len() == PACKED_DIMS,
            axis == widest(min@, max@, d as int),
            range == max@[axis as int] - min@[axis as int],
            forall|k: int| 0 <= k < d ==> #[trigger] max@[k] - min@[k] <= range,
            forall|k: int| 0 <= k < axis ==> #[trigger] max@[k] - min@[k] < range,
        decreases DIM - d,
    {
        let r: i32 = max[d] as i32 - min[d] as i32;
        if r > range {
            range = r;
            axis = d;
        }
        d = d + 1;
    }
    axis
}

// ---------------------------------------------------------------------------
// Panels
// ---------------------------------------------------------------------------

/// Coordinate `k` of the panels of some rows: pair-interleaved, with zeros in
/// the lanes that no row takes.
pub open spec fn packed_coord(rows: Seq<RefRow>, k: int) -> i16 {
    let j = (k / 112) * 8 + (k % 16) / 2;
    let d = ((k % 112) / 16) * 2 + k % 2;
    if j < rows.len() {
        rows[j].vec@[d]
    } else {
        0
    }
}

/// The panels of some rows.
pub open spec fn packed(rows: Seq<RefRow>) -> Seq<i16> {
    Seq::new((112 * panels_for(rows.len() as int)) as nat, |k: int| packed_coord(rows, k))
}

/// The labels of some rows.
pub open spec fn row_labels(rows: Seq<RefRow>) -> Seq<u8> {
    rows.map_values(|r: RefRow| r.label)
}

/// Rows are packed by eights, in pairs of dimensions: dimension `d` of row `j`
/// stands in pair `d / 2` of panel `j / 8`, in lane `j % 8`. The lanes that no row
/// takes hold zeros.
pub proof fn lemma_packed_places(rows: Seq<RefRow>, j: int, d: int)
    requires
        0 <= j,
        0 <= d < 14,
    ensures
        packed(rows).len() == 112 * ((rows.len() + 7) / 8),
        j < rows.len() ==> packed(rows)[112 * (j / 8) + 16 * (d / 2) + 2 * (j % 8) + d % 2]
            == rows[j].vec@[d],
        j >= rows.len() && j / 8 < (rows.len() + 7) / 8 ==> packed(rows)[112 * (j / 8) + 16 * (d
            / 2) + 2 * (j % 8) + d % 2] == 0,
{
    if j < rows.len() {
        lemma_block_place(j, d, rows.len() as int);
    } else if j / 8 < (rows.len() + 7) / 8 {
        lemma_block_place(j, d, 8 * ((rows.len() as int + 7) / 8));
    }
}

/// The vectors of panels are read from the same places.
pub proof fn lemma_panel_places(panels: Seq<i16>, start: int, j: int, d: int)
    requires
        0 <= d < 14,
    ensures
        panel_vector(panels, start, j).len() == 14,
        panel_vector(panels, start, j)[d] == panels[112 * (start + j / 8) + 16 * (d / 2) + 2 * (j
            % 8) + d % 2],
{
}

/// The real dimensions of a row.
pub open spec fn row_vector(r: RefRow) -> Seq<i16> {
    r.vec@.take(DIM as int)
}

/// Appends the panels and labels of the rows of a leaf.
#[verifier::spinoff_prover]
pub fn pack_leaf(rows: &Vec<RefRow>, panels: &mut Vec<i16>, labels: &mut Vec<u8>)
    requires
        rows@.len() <= u32::MAX,
    ensures
        final(panels)@ == old(panels)@ + packed(rows@),
        final(labels)@ == old(labels)@ + row_labels(rows@),
{
    let n: u64 = rows.len() as u64;
    let total: u64 = (n + 7) / 8 * 112;
    let mut k: u64 = 0;
    while k < total
        invariant
            k <= total,
            n == rows@.len(),
            n <= u32::MAX,
            total == packed(rows@).len(),
            total == (n + 7) / 8 * 112,
            panels@ == old(panels)@ + packed(rows@).take(k as int),
        decreases total - k,
    {
        let j: u64 = k / 112 * 8 + (k % 16) / 2;
        let d: u64 = (k % 112) / 16 * 2 + k % 2;
        let x: i16 = if j < n {
            rows[j as usize].vec[d as usize]
        } else {
            0
        };
        assert(x == packed(rows@)[k as int]);
        panels.push(x);
        k = k + 1;
        assert(panels@ =~= old(panels)@ + packed(rows@).take(k as int));
    }
    assert(packed(rows@).take(k as int) =~= packed(rows@));
    let mut i: usize = 0;
    while i < rows.len()
        invariant
            i <= rows@.len(),
            labels@ == old(labels)@ + row_labels(rows@).take(i as int),
        decreases rows@.len() - i,
    {
        labels.push(rows[i].label);
        i = i + 1;
        assert(labels@ =~= old(labels)@ + row_labels(rows@).take(i as int));
    }
    assert(row_labels(rows@).take(i as int) =~= row_labels(rows@));
}

/// Place of dimension `d` of vector `j` in a block of panels.
spec fn block_place(j: int, d: int) -> int {
    (j / 8) * 112 + (d / 2) * 16 + (j % 8) * 2 + d % 2
}

/// A place in a block of panels belongs to one dimension of one vector.
#[verifier::spinoff_prover]
proof fn lemma_block_place(j: int, d: int, n: int)
    requires
        0 <= j < n,
        0 <= d < DIM,
    ensures
        ({
            let k = block_place(j, d);
            &&& 0 <= k < 112 * panels_for(n)
            &&& (k / 112) * 8 + (k % 16) / 2 == j
            &&& ((k % 112) / 16) * 2 + k % 2 == d
        }),
{
    let k = block_place(j, d);
    let low = (d / 2) * 16 + (j % 8) * 2 + d % 2;
    assert(0 <= low < 112);
    assert(k == (j / 8) * 112 + low);
    assert(k / 112 == j / 8);
    assert(k % 112 == low);
    assert(low / 16 == d / 2);
    assert(k % 16 == (j % 8) * 2 + d % 2);
    assert(k % 2 == d % 2);
}

/// Panels give back the rows that were packed into them.
#[verifier::spinoff_prover]
pub proof fn lemma_unpack(before: Seq<i16>, rows: Seq<RefRow>, after: Seq<i16>, j: int)
    requires
        before.len() % 112 == 0,
        0 <= j < rows.len(),
    ensures
        panel_vector(before + packed(rows) + after, before.len() as int / 112, j) == row_vector(
            rows[j],
        ),
{
    let start = before.len() as int / 112;
    let all = before + packed(rows) + after;
    let v = panel_vector(all, start, j);
    assert(start * 112 == before.len());
    assert forall|d: int| 0 <= d < DIM implies v[d] == row_vector(rows[j])[d] by {
        let k = block_place(j, d);
        lemma_block_place(j, d, rows.len() as int);
        assert(panel_offset(start + j / 8, j % 8, d) == before.len() + k);
        assert(all[before.len() + k] == packed(rows)[k]);
        assert(packed(rows)[k] == packed_coord(rows, k));
    }
    assert(v =~= row_vector(rows[j]));
}

} // verus!
