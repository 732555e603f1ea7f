//! Synthetic queries.

use super::geometry::DIM;
use vstd::prelude::*;

verus! {

/// Where the sequence of synthetic queries starts.
pub const WARMUP_SEED: u64 = 0xDEAD_BEEF_CAFE_BABE;

/// One step of a 64-bit xorshift generator.
pub open spec fn xorshift(s: u64) -> u64 {
    let a = s ^ (s << 13);
    let b = a ^ (a >> 7);
    b ^ (b << 17)
}

/// The state of the generator after `n` steps.
pub open spec fn warmup_state(n: nat) -> u64
    decreases n,
{
    if n == 0 {
        WARMUP_SEED
    } else {
        xorshift(warmup_state((n - 1) as nat))
    }
}

/// `x` rotated to the left by `k` bits, `k` below 64.
pub open spec fn rotated(x: u64, k: u64) -> u64 {
    if k == 0 {
        x
    } else {
        (x << k) | (x >> ((64 - k) as u64))
    }
}

/// Coordinate `d` that a generator state stands for, between 0 and 10000.
pub open spec fn warmup_coord(s: u64, d: int) -> i16 {
    ((rotated(s, ((7 * d) % 64) as u64) % 0x1_0000_0000) % 10001) as i16
}

/// Synthetic query `i`. Every fourth one has no previous transaction.
pub open spec fn warmup_query(i: nat) -> Seq<i16> {
    Seq::new(
        DIM as nat,
        |d: int|
            if i % 4 == 0 && (d == 5 || d == 6) {
                -10000i16
            } else {
                warmup_coord(warmup_state(i + 1), d)
            },
    )
}

/// The states of the generator follow one upon the other from the seed.
pub proof fn lemma_states_follow(n: nat)
    ensures
        warmup_state(0) == 0xDEAD_BEEF_CAFE_BABE,
        ({
            let s = warmup_state(n);
            let a = s ^ (s << 13);
            let b = a ^ (a >> 7);
            warmup_state(n + 1) == b ^ (b << 17)
        }),
{
}

/// Takes one step of the generator.
pub fn next_state(s: u64) -> (r: u64)
    ensures
        r == xorshift(s),
        ({
            let a = s ^ (s << 13u64);
            let b = a ^ (a >> 7u64);
            r == b ^ (b << 17u64)
        }),
{
    let a: u64 = s ^ (s << 13u64);
    let b: u64 = a ^ (a >> 7u64);
    b ^ (b << 17u64)
}

fn rotate(x: u64, k: u64) -> (r: u64)
    requires
        k < 64,
    ensures
        r == rotated(x, k),
{
    if k == 0 {
        x
    } else {
        (x << k) | (x >> (64 - k))
    }
}

/// Makes the synthetic query that a generator state stands for.
pub fn make_query(s: u64, i: usize) -> (q: [i16; DIM])
    requires
        s == warmup_state((i + 1) as nat),
    ensures
        q@ == warmup_query(i as nat),
        forall|d: int|
            0 <= d < 14 && d != 5 && d != 6 ==> 0 <= #[trigger] q@[d] <= 10000,
        i % 4 == 0 ==> q@[5] == -10000 && q@[6] == -10000,
        q@[0] == (s % 0x1_0000_0000) % 10001,
        forall|d: int|
            0 < d <= 9 && !(i % 4 == 0 && (d == 5 || d == 6)) ==> #[trigger] q@[d] == (((s << ((7
                * d) as u64)) | (s >> ((64 - 7 * d) as u64))) % 0x1_0000_0000) % 10001,
        forall|d: int|
            10 <= d < 14 ==> #[trigger] q@[d] == (((s << ((7 * d - 64) as u64)) | (s >> ((128 - 7
                * d) as u64))) % 0x1_0000_0000) % 10001,
        i % 4 != 0 ==> 0 <= q@[5] <= 10000 && 0 <= q@[6] <= 10000,
{
    let mut q: [i16; DIM] = [0i16; DIM];
    let mut d: usize = 0;
    while d < DIM
        invariant
            d <= DIM,
            q@.len() == DIM,
            forall|k: int| 0 <= k < d ==> q@[k] == warmup_coord(s, k),
        decreases DIM - d,
    {
        let v: u64 = (rotate(s, ((7 * d) % 64) as u64) % 0x1_0000_0000) % 10001;
        q[d] = v as i16;
        d = d + 1;
    }
    if i % 4 == 0 {
        q[5] = -10000;
        q[6] = -10000;
    }
    assert(q@ =~= warmup_query(i as nat));
    q
}

} // verus!
