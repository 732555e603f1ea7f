//! Vectors, distances and bounding boxes.
//!
//! Reference vectors and queries are quantised to `i16`. Distances are
//! squared Euclidean distances, computed with the wrap-around of the 16-bit
//! and 32-bit lanes that the index format is laid out for.

use vstd::prelude::*;

verus! {

/// Number of feature dimensions.
pub const DIM: usize = 14;

/// Feature dimensions padded to a multiple of the lane width.
pub const PACKED_DIMS: usize = 16;

/// A query or reference vector, padded with zeros.
pub type QueryVector = [i16; PACKED_DIMS];

// ---------------------------------------------------------------------------
// Arithmetic model
// ---------------------------------------------------------------------------

/// The value that a 16-bit two's complement lane holds for `x`.
pub open spec fn wrap16(x: int) -> int {
    (x + 0x8000) % 0x1_0000 - 0x8000
}

/// The value that a 32-bit two's complement lane holds for `x`.
pub open spec fn wrap32(x: int) -> int {
    (x + 0x8000_0000) % 0x1_0000_0000 - 0x8000_0000
}

/// The larger of two integers.
pub open spec fn max2(a: int, b: int) -> int {
    if a >= b {
        a
    } else {
        b
    }
}

/// Sum of the squared lane differences over the first `n` dimensions.
pub open spec fn lane_total(v: Seq<i16>, q: Seq<i16>, n: int) -> int
    decreases n,
{
    if n <= 0 {
        0
    } else {
        lane_total(v, q, n - 1) + wrap16(v[n - 1] - q[n - 1]) * wrap16(v[n - 1] - q[n - 1])
    }
}

/// Distance of `v` from `q` as one 32-bit lane holds it. A negative value
/// means that the sum left the range of the lane.
pub open spec fn lane_distance(v: Seq<i16>, q: Seq<i16>) -> int {
    wrap32(lane_total(v, q, DIM as int))
}

/// Squared Euclidean distance over the first `n` dimensions.
pub open spec fn square_distance(v: Seq<i16>, q: Seq<i16>, n: int) -> int
    decreases n,
{
    if n <= 0 {
        0
    } else {
        square_distance(v, q, n - 1) + (v[n - 1] - q[n - 1]) * (v[n - 1] - q[n - 1])
    }
}

/// How far coordinate `d` of `q` lies outside of the box, as a 16-bit lane
/// holds it; zero inside of the box.
pub open spec fn box_gap(q: Seq<i16>, lo: Seq<i16>, hi: Seq<i16>, d: int) -> int {
    max2(max2(wrap16(lo[d] - q[d]), 0), max2(wrap16(q[d] - hi[d]), 0))
}

/// Sum of the squared gaps over the first `n` dimensions.
pub open spec fn box_total(q: Seq<i16>, lo: Seq<i16>, hi: Seq<i16>, n: int) -> int
    decreases n,
{
    if n <= 0 {
        0
    } else {
        box_total(q, lo, hi, n - 1) + box_gap(q, lo, hi, n - 1) * box_gap(q, lo, hi, n - 1)
    }
}

/// Squared distance from `q` to an axis-aligned box.
pub open spec fn box_bound(q: Seq<i16>, lo: Seq<i16>, hi: Seq<i16>) -> int {
    box_total(q, lo, hi, PACKED_DIMS as int)
}

// ---------------------------------------------------------------------------
// Queries
// ---------------------------------------------------------------------------

/// A vector of `DIM` coordinates followed by zeros.
pub open spec fn padded(v: Seq<i16>) -> Seq<i16> {
    Seq::new(PACKED_DIMS as nat, |d: int| if d < DIM { v[d] } else { 0i16 })
}

/// Pads a query to `PACKED_DIMS` coordinates with zeros.
pub fn pad_query(unpacked: &[i16; DIM]) -> (q: QueryVector)
    ensures
        q@ == padded(unpacked@),
        forall|d: int| 0 <= d < 14 ==> #[trigger] q@[d] == unpacked@[d],
        q@[14] == 0,
        q@[15] == 0,
{
    let mut q: QueryVector = [0i16; PACKED_DIMS];
    let mut d: usize = 0;
    while d < DIM
        invariant
            d <= DIM,
            unpacked@.len() == DIM,
            q@.len() == PACKED_DIMS,
            forall|k: int| 0 <= k < d ==> q@[k] == unpacked@[k],
            forall|k: int| d <= k < PACKED_DIMS ==> q@[k] == 0i16,
        decreases DIM - d,
    {
        q[d] = unpacked[d];
        d = d + 1;
    }
    assert(q@ =~= padded(unpacked@));
    q
}

/// The four ranges of the merchant-category risk.
pub open spec fn risk_bucket(risk: int) -> int {
    if risk <= 2047 {
        0
    } else if risk <= 4095 {
        1
    } else if risk <= 6143 {
        2
    } else {
        3
    }
}

/// One bit of a partition key.
pub open spec fn bit(on: bool, weight: int) -> int {
    if on {
        weight
    } else {
        0
    }
}

/// The partition that a vector belongs to: one bit each for a known previous
/// transaction, the three flags, a high amount ratio and a high transaction
/// count, and two bits for the risk bucket.
pub open spec fn partition_key(q: Seq<i16>) -> int {
    bit(q[5] >= 0, 1) + bit(q[9] > 0, 2) + bit(q[10] > 0, 4) + bit(q[11] > 0, 8) + 16 * risk_bucket(
        q[12] as int,
    ) + bit(q[2] > 4096, 64) + bit(q[8] > 2048, 128)
}

/// Computes the 8-bit partition key. Vectors that share a key occupy a tight
/// region of feature space, so the tree of each partition stays shallow.
pub fn compute_partition_key(q: &QueryVector) -> (key: u32)
    ensures
        key == partition_key(q@),
        key < 256,
        key % 2 == 1 <==> q@[5] >= 0,
        (key / 2) % 2 == 1 <==> q@[9] > 0,
        (key / 4) % 2 == 1 <==> q@[10] > 0,
        (key / 8) % 2 == 1 <==> q@[11] > 0,
        (key / 16) % 4 == 0 <==> q@[12] < 2048,
        (key / 16) % 4 == 1 <==> 2048 <= q@[12] < 4096,
        (key / 16) % 4 == 2 <==> 4096 <= q@[12] < 6144,
        (key / 16) % 4 == 3 <==> 6144 <= q@[12],
        (key / 64) % 2 == 1 <==> q@[2] > 4096,
        key / 128 == 1 <==> q@[8] > 2048,
{
    let mut key: u32 = 0;
    if q[5] >= 0 {
        key = key + 1;
    }
    if q[9] > 0 {
        key = key + 2;
    }
    if q[10] > 0 {
        key = key + 4;
    }
    if q[11] > 0 {
        key = key + 8;
    }
    let risk: i16 = q[12];
    let bucket: u32 = if risk <= 2047 {
        0
    } else if risk <= 4095 {
        1
    } else if risk <= 6143 {
        2
    } else {
        3
    };
    key = key + 16 * bucket;
    if q[2] > 4096 {
        key = key + 64;
    }
    if q[8] > 2048 {
        key = key + 128;
    }
    proof {
        lemma_key_parts(
            bit(q@[5] >= 0, 1),
            bit(q@[9] > 0, 1),
            bit(q@[10] > 0, 1),
            bit(q@[11] > 0, 1),
            bucket as int,
            bit(q@[2] > 4096, 1),
            bit(q@[8] > 2048, 1),
        );
    }
    key
}

/// The parts of a partition key can be told apart.
proof fn lemma_key_parts(a: int, b: int, c: int, d: int, risk: int, e: int, f: int)
    requires
        0 <= a < 2,
        0 <= b < 2,
        0 <= c < 2,
        0 <= d < 2,
        0 <= risk < 4,
        0 <= e < 2,
        0 <= f < 2,
    ensures
        ({
            let key = a + 2 * b + 4 * c + 8 * d + 16 * risk + 64 * e + 128 * f;
            &&& key % 2 == a
            &&& (key / 2) % 2 == b
            &&& (key / 4) % 2 == c
            &&& (key / 8) % 2 == d
            &&& (key / 16) % 4 == risk
            &&& (key / 64) % 2 == e
            &&& key / 128 == f
        }),
{
    let key = a + 2 * b + 4 * c + 8 * d + 16 * risk + 64 * e + 128 * f;
    assert(key / 2 == b + 2 * c + 4 * d + 8 * risk + 32 * e + 64 * f);
    assert(key / 4 == c + 2 * d + 4 * risk + 16 * e + 32 * f);
    assert(key / 8 == d + 2 * risk + 8 * e + 16 * f);
    assert(key / 16 == risk + 4 * e + 8 * f);
    assert(key / 64 == e + 2 * f);
    assert(key / 128 == f);
}

// ---------------------------------------------------------------------------
// Distances
// ---------------------------------------------------------------------------

/// The difference `a - b` as a 16-bit lane holds it.
fn lane_diff(a: i16, b: i16) -> (r: i64)
    ensures
        r == wrap16(a - b),
        -0x8000 <= r < 0x8000,
{
    let d: i64 = a as i64 - b as i64;
    if d > 0x7fff {
        d - 0x1_0000
    } else if d < -0x8000 {
        d + 0x1_0000
    } else {
        d
    }
}

/// A square of a lane value is at most `2^30`.
pub proof fn lemma_lane_square(x: int)
    requires
        -0x8000 <= x <= 0x8000,
    ensures
        0 <= x * x <= 0x4000_0000,
{
    assert(0 <= x * x <= 0x4000_0000) by (nonlinear_arith)
        requires
            -0x8000 <= x <= 0x8000,
    ;
}

/// Adds one squared lane difference to a running total.
pub fn add_square(total: i64, a: i16, b: i16) -> (r: i64)
    requires
        0 <= total <= 0x10_0000_0000,
    ensures
        r == total + wrap16(a - b) * wrap16(a - b),
        total <= r <= total + 0x4000_0000,
{
    let d: i64 = lane_diff(a, b);
    proof {
        lemma_lane_square(d as int);
    }
    total + d * d
}

/// The value that a 32-bit lane holds for a non-negative total.
pub fn to_lane(total: i64) -> (r: i64)
    requires
        0 <= total <= 0x10_0000_0000,
    ensures
        r == wrap32(total as int),
        -0x8000_0000 <= r < 0x8000_0000,
{
    (total + 0x8000_0000) % 0x1_0000_0000 - 0x8000_0000
}

/// Squared Euclidean lower bound from the query to an axis-aligned bounding
/// box. Each padding dimension is zero on both sides and adds nothing.
pub fn lower_bound_box(q: &QueryVector, min: &QueryVector, max: &QueryVector) -> (r: i64)
    ensures
        r == box_bound(q@, min@, max@),
        0 <= r <= 0x4_0000_0000,
{
    let mut total: i64 = 0;
    let mut d: usize = 0;
    while d < PACKED_DIMS
        invariant
            d <= PACKED_DIMS,
            q@.len() == PACKED_DIMS,
            min@.len() == PACKED_DIMS,
            max@.len() == PACKED_DIMS,
            total == box_total(q@, min@, max@, d as int),
            0 <= total <= d * 0x4000_0000,
        decreases PACKED_DIMS - d,
    {
        let below: i64 = lane_diff(min[d], q[d]);
        let above: i64 = lane_diff(q[d], max[d]);
        let mut gap: i64 = 0;
        if below > gap {
            gap = below;
        }
        if above > gap {
            gap = above;
        }
        assert(gap == box_gap(q@, min@, max@, d as int));
        proof {
            lemma_lane_square(gap as int);
        }
        total = total + gap * gap;
        d = d + 1;
    }
    total
}

/// A lower bound is far below the largest 64-bit value.
pub proof fn lemma_box_bound_range(q: Seq<i16>, lo: Seq<i16>, hi: Seq<i16>, n: int)
    requires
        0 <= n,
    ensures
        0 <= box_total(q, lo, hi, n) <= n * 0x4000_0000,
    decreases n,
{
    if n > 0 {
        lemma_box_bound_range(q, lo, hi, n - 1);
        lemma_lane_square(box_gap(q, lo, hi, n - 1));
    }
}

// ---------------------------------------------------------------------------
// The fast path
// ---------------------------------------------------------------------------

/// A transaction that is legitimate beyond doubt: known merchant, tiny
/// amount and ratio, few installments, few transactions, close to home, and
/// one of the low-risk merchant categories.
pub open spec fn obviously_legit(q: Seq<i16>) -> bool {
    &&& q[11] == 0
    &&& q[0] <= 500
    &&& q[2] <= 500
    &&& q[1] <= 2500
    &&& q[8] <= 2500
    &&& q[7] <= 500
    &&& (q[12] == 1500 || q[12] == 3000 || q[12] == 2000 || q[12] == 2500)
}

/// A transaction that is fraud beyond doubt: unknown merchant, huge amount,
/// many installments, many transactions, far from home.
pub open spec fn obviously_fraud(q: Seq<i16>) -> bool {
    &&& q[11] == 10000
    &&& q[0] >= 5000
    &&& q[1] >= 4167
    &&& q[8] >= 3000
    &&& q[7] >= 1500
}

/// Fast-path classifier on the quantised query. All conditions of a gate must
/// hold for it to answer; otherwise the neighbours decide.
pub fn tier1_classify(q: &[i16; DIM]) -> (r: Option<u8>)
    ensures
        r == (if obviously_legit(q@) {
            Some(0u8)
        } else if obviously_fraud(q@) {
            Some(5u8)
        } else {
            None
        }),
        r == Some(0u8) <==> {
            &&& q@[11] == 0
            &&& q@[0] <= 500 && q@[2] <= 500 && q@[7] <= 500
            &&& q@[1] <= 2500 && q@[8] <= 2500
            &&& q@[12] == 1500 || q@[12] == 2000 || q@[12] == 2500 || q@[12] == 3000
        },
        r == Some(5u8) <==> {
            &&& q@[11] == 10000
            &&& q@[0] >= 5000
            &&& q@[1] >= 4167
            &&& q@[7] >= 1500
            &&& q@[8] >= 3000
        },
        r matches Some(c) ==> c == 0 || c == 5,
{
    if q[11] == 0 && q[0] <= 500 && q[2] <= 500 && q[1] <= 2500 && q[8] <= 2500 && q[7] <= 500 && (
    q[12] == 1500 || q[12] == 3000 || q[12] == 2000 || q[12] == 2500) {
        return Some(0);
    }
    if q[11] == 10000 && q[0] >= 5000 && q[1] >= 4167 && q[8] >= 3000 && q[7] >= 1500 {
        return Some(5);
    }
    None
}

/// A transaction is called legitimate only within the limits of a small one:
/// amount, amount against the average and distance from home up to 0.05,
/// installments and transactions of the day up to 0.25, a known merchant and one
/// of the four low risks. And every such transaction is.
pub proof fn lemma_legit_limits(q: Seq<i16>)
    ensures
        obviously_legit(q) ==> q[0] <= 500 && q[2] <= 500 && q[7] <= 500,
        obviously_legit(q) ==> q[1] <= 2500 && q[8] <= 2500,
        obviously_legit(q) ==> q[11] == 0,
        obviously_legit(q) ==> q[12] == 1500 || q[12] == 2000 || q[12] == 2500 || q[12] == 3000,
        q[0] <= 500 && q[1] <= 2500 && q[2] <= 500 && q[7] <= 500 && q[8] <= 2500 && q[11] == 0 && (
        q[12] == 1500 || q[12] == 2000 || q[12] == 2500 || q[12] == 3000) ==> obviously_legit(q),
{
}

/// A transaction is called fraud only at an unknown merchant and beyond the
/// limits of a large one: half of the largest amount, five of twelve
/// installments, six of twenty transactions, 0.15 of the largest distance. And
/// every such transaction is.
pub proof fn lemma_fraud_limits(q: Seq<i16>)
    ensures
        obviously_fraud(q) ==> q[11] == 10000,
        obviously_fraud(q) ==> q[0] >= 5000 && q[1] >= 4167 && q[7] >= 1500 && q[8] >= 3000,
        q[0] >= 5000 && q[1] >= 4167 && q[7] >= 1500 && q[8] >= 3000 && q[11] == 10000
            ==> obviously_fraud(q),
{
}

/// No query passes both gates of the fast path.
pub proof fn lemma_gates_exclude_each_other(q: Seq<i16>)
    ensures
        !(obviously_legit(q) && obviously_fraud(q)),
{
}

// ---------------------------------------------------------------------------
// Lower bounds
// ---------------------------------------------------------------------------

/// A lane holds a number of its range that differs from the true one by a
/// multiple of what the lane can tell apart.
pub proof fn lemma_lanes_wrap(x: int)
    ensures
        -0x8000 <= wrap16(x) < 0x8000,
        (x - wrap16(x)) % 0x1_0000 == 0,
        -0x8000_0000 <= wrap32(x) < 0x8000_0000,
        (x - wrap32(x)) % 0x1_0000_0000 == 0,
{
}

/// Two vectors whose coordinate differences all fit a 16-bit lane.
pub open spec fn lanes_fit(v: Seq<i16>, q: Seq<i16>) -> bool {
    forall|d: int| 0 <= d < DIM ==> -0x8000 <= #[trigger] v[d] - q[d] < 0x8000
}

/// A lane holds the sum of fourteen squares, each of a difference as a lane holds
/// it, or what is left of it.
pub proof fn lemma_lane_distance_is_sum(v: Seq<i16>, q: Seq<i16>)
    ensures
        -0x8000_0000 <= lane_distance(v, q) < 0x8000_0000,
        ({
            let sum =
                wrap16(v[0] - q[0]) * wrap16(v[0] - q[0]) + wrap16(v[1] - q[1]) * wrap16(v[1] -
                q[1]) + wrap16(v[2] - q[2]) * wrap16(v[2] - q[2]) + wrap16(v[3] - q[3]) *
                wrap16(v[3] - q[3]) + wrap16(v[4] - q[4]) * wrap16(v[4] - q[4]) + wrap16(v[5] -
                q[5]) * wrap16(v[5] - q[5]) + wrap16(v[6] - q[6]) * wrap16(v[6] - q[6]) +
                wrap16(v[7] - q[7]) * wrap16(v[7] - q[7]) + wrap16(v[8] - q[8]) * wrap16(v[8] -
                q[8]) + wrap16(v[9] - q[9]) * wrap16(v[9] - q[9]) + wrap16(v[10] - q[10]) *
                wrap16(v[10] - q[10]) + wrap16(v[11] - q[11]) * wrap16(v[11] - q[11]) +
                wrap16(v[12] - q[12]) * wrap16(v[12] - q[12]) + wrap16(v[13] - q[13]) *
                wrap16(v[13] - q[13]);
            (sum - lane_distance(v, q)) % 0x1_0000_0000 == 0
        }),
{
    reveal_with_fuel(lane_total, 15);
    lemma_lanes_wrap(lane_total(v, q, 14));
}

/// The squared distance of two vectors counts each of the fourteen dimensions.
pub proof fn lemma_distance_is_sum(v: Seq<i16>, q: Seq<i16>)
    ensures
        square_distance(v, q, 14) == (v[0] - q[0]) * (v[0] - q[0]) + (v[1] - q[1]) * (v[1] - q[1])
            + (v[2] - q[2]) * (v[2] - q[2]) + (v[3] - q[3]) * (v[3] - q[3]) + (v[4] - q[4]) * (v[4]
            - q[4]) + (v[5] - q[5]) * (v[5] - q[5]) + (v[6] - q[6]) * (v[6] - q[6]) + (v[7] - q[7])
            * (v[7] - q[7]) + (v[8] - q[8]) * (v[8] - q[8]) + (v[9] - q[9]) * (v[9] - q[9]) + (v[10]
            - q[10]) * (v[10] - q[10]) + (v[11] - q[11]) * (v[11] - q[11]) + (v[12] - q[12]) * (
        v[12] - q[12]) + (v[13] - q[13]) * (v[13] - q[13]),
{
    reveal_with_fuel(square_distance, 15);
}

/// Whether the sides of a box in dimension `d` are within lane range of a query.
pub open spec fn lane_box(q: Seq<i16>, lo: Seq<i16>, hi: Seq<i16>, d: int) -> bool {
    &&& lo[d] <= hi[d]
    &&& -0x8000 <= lo[d] - q[d] < 0x8000
    &&& -0x8000 <= q[d] - hi[d] < 0x8000
}

/// The point of a box that is nearest to a query.
pub open spec fn nearest_point(q: Seq<i16>, lo: Seq<i16>, hi: Seq<i16>) -> Seq<i16> {
    Seq::new(
        q.len(),
        |d: int|
            if q[d] < lo[d] {
                lo[d]
            } else if q[d] > hi[d] {
                hi[d]
            } else {
                q[d]
            },
    )
}

/// The lower bound of a box is attained: where no lane wraps, it is the squared
/// distance of the nearest point of the box.
pub proof fn lemma_box_bound_attained(q: Seq<i16>, lo: Seq<i16>, hi: Seq<i16>, n: int)
    requires
        0 <= n <= q.len(),
        forall|d: int| 0 <= d < q.len() ==> #[trigger] lane_box(q, lo, hi, d),
    ensures
        box_total(q, lo, hi, n) == square_distance(nearest_point(q, lo, hi), q, n),
    decreases n,
{
    if n > 0 {
        lemma_box_bound_attained(q, lo, hi, n - 1);
        let d = n - 1;
        assert(lane_box(q, lo, hi, d));
        let x = nearest_point(q, lo, hi)[d] - q[d];
        let gap = box_gap(q, lo, hi, d);
        assert(gap == x || gap == -x);
        assert(gap * gap == x * x) by (nonlinear_arith)
            requires
                gap == x || gap == -x,
        ;
    }
}

/// Where no lane wraps, the lane total is the squared Euclidean distance.
pub proof fn lemma_lane_total_exact(v: Seq<i16>, q: Seq<i16>, n: int)
    requires
        lanes_fit(v, q),
        n <= DIM,
    ensures
        lane_total(v, q, n) == square_distance(v, q, n),
        square_distance(v, q, n) >= 0,
    decreases n,
{
    if n > 0 {
        lemma_lane_total_exact(v, q, n - 1);
        let x = v[n - 1] - q[n - 1];
        assert(wrap16(x) == x);
        lemma_lane_square(x);
    }
}

} // verus!
