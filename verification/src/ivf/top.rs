//! The nearest neighbours found so far, in no order.

use vstd::prelude::*;

verus! {

/// Number of neighbours that are kept.
pub const TOP: usize = 5;

/// Order key of the farthest distance: the bits of the largest finite number.
pub const FARTHEST: u32 = 0x7f7f_ffff;

/// A neighbour: the order key of its distance, and its label.
pub type Neighbour = (u32, u8);

/// The neighbours found so far.
pub struct Top {
    pub keys: [u32; TOP],
    pub labels: [u8; TOP],
}

/// The neighbours as a list.
pub open spec fn top_of(t: Top) -> Seq<Neighbour> {
    Seq::new(TOP as nat, |i: int| (t.keys@[i], t.labels@[i]))
}

/// The list before any neighbour was found.
pub open spec fn no_neighbours() -> Seq<Neighbour> {
    Seq::new(TOP as nat, |i: int| (FARTHEST, 0u8))
}

/// Place of the first farthest entry among the first `n`.
pub open spec fn farthest(t: Seq<Neighbour>, n: int) -> int
    decreases n,
{
    if n <= 1 {
        0
    } else if t[n - 1].0 > t[farthest(t, n - 1)].0 {
        n - 1
    } else {
        farthest(t, n - 1)
    }
}

/// The list after one more neighbour was looked at: it takes the place of the
/// first farthest entry if it is nearer.
pub open spec fn offered(t: Seq<Neighbour>, e: Neighbour) -> Seq<Neighbour> {
    let w = farthest(t, TOP as int);
    if e.0 < t[w].0 {
        t.update(w, e)
    } else {
        t
    }
}

/// The list after the first `n` of some neighbours were looked at.
pub open spec fn best_of(keys: Seq<u32>, labels: Seq<u8>, n: int) -> Seq<Neighbour>
    decreases n,
{
    if n <= 0 {
        no_neighbours()
    } else {
        offered(best_of(keys, labels, n - 1), (keys[n - 1], labels[n - 1]))
    }
}

/// Number of fraud labels among the first `n` entries.
pub open spec fn frauds_among(t: Seq<Neighbour>, n: int) -> int
    decreases n,
{
    if n <= 0 {
        0
    } else {
        frauds_among(t, n - 1) + if t[n - 1].1 == 1 {
            1int
        } else {
            0
        }
    }
}

pub proof fn lemma_farthest(t: Seq<Neighbour>, n: int)
    requires
        1 <= n <= t.len(),
    ensures
        0 <= farthest(t, n) < n,
        forall|i: int| 0 <= i < n ==> (#[trigger] t[i]).0 <= t[farthest(t, n)].0,
    decreases n,
{
    if n > 1 {
        lemma_farthest(t, n - 1);
    }
}

impl Top {
    /// The list before any neighbour was found.
    pub fn new() -> (t: Top)
        ensures
            top_of(t) == no_neighbours(),
    {
        let t = Top { keys: [FARTHEST; TOP], labels: [0; TOP] };
        assert(top_of(t) =~= no_neighbours());
        t
    }

    /// Looks at one more neighbour.
    pub fn offer(&mut self, key: u32, label: u8)
        ensures
            top_of(*final(self)) == offered(top_of(*old(self)), (key, label)),
            exists|w: int|
                {
                    let far = #[trigger] old(self).keys@[w];
                    &&& 0 <= w < 5
                    &&& forall|i: int| 0 <= i < 5 ==> #[trigger] old(self).keys@[i] <= far
                    &&& forall|i: int| 0 <= i < w ==> #[trigger] old(self).keys@[i] < far
                    &&& key < far ==> final(self).keys@ == old(self).keys@.update(w, key) && final(self).labels@ == old(self).labels@.update(w, label)
                    &&& key >= far ==> final(self).keys@ == old(self).keys@ && final(self).labels@
                        == old(self).labels@
                },
    {
        let ghost t = top_of(*self);
        let mut worst: usize = 0;
        let mut i: usize = 1;
        while i < TOP
            invariant
                1 <= i <= TOP,
                worst < i,
                t == top_of(*self),
                self.keys@.len() == TOP,
                worst == farthest(t, i as int),
                *self == *old(self),
                forall|k: int| 0 <= k < i ==> #[trigger] self.keys@[k] <= self.keys@[worst as int],
                forall|k: int|
                    0 <= k < worst ==> #[trigger] self.keys@[k] < self.keys@[worst as int],
            decreases TOP - i,
        {
            assert(t[i as int].0 == self.keys@[i as int]);
            assert(t[worst as int].0 == self.keys@[worst as int]);
            if self.keys[i] > self.keys[worst] {
                worst = i;
            }
            i = i + 1;
        }
        assert(t[worst as int].0 == self.keys@[worst as int]);
        assert(old(self).keys@[worst as int] == self.keys@[worst as int]);
        if key < self.keys[worst] {
            self.keys[worst] = key;
            self.labels[worst] = label;
            assert(top_of(*self) =~= t.update(worst as int, (key, label)));
        }
    }

    /// Counts the fraud labels.
    pub fn frauds(&self) -> (n: u8)
        ensures
            n == frauds_among(top_of(*self), TOP as int),
            n <= TOP,
            n == (if self.labels@[0] == 1 { 1int } else { 0 }) + (if self.labels@[1] == 1 { 1int
            } else { 0 }) + (if self.labels@[2] == 1 { 1int } else { 0 }) + (if self.labels@[3]
                == 1 { 1int } else { 0 }) + (if self.labels@[4] == 1 { 1int } else { 0 }),
    {
        proof {
            reveal_with_fuel(frauds_among, 6);
        }
        let ghost t = top_of(*self);
        let mut n: u8 = 0;
        let mut i: usize = 0;
        while i < TOP
            invariant
                i <= TOP,
                n <= i,
                self.labels@.len() == TOP,
                t == top_of(*self),
                n == frauds_among(t, i as int),
            decreases TOP - i,
        {
            assert(t[i as int].1 == self.labels@[i as int]);
            if self.labels[i] == 1 {
                n = n + 1;
            }
            i = i + 1;
        }
        n
    }
}

// ---------------------------------------------------------------------------
// The list holds the nearest
// ---------------------------------------------------------------------------

/// Whether entry `i` of the list is neighbour `id`, or a filler where `id` is
/// negative.
pub open spec fn is_entry(
    t: Seq<Neighbour>,
    i: int,
    id: int,
    keys: Seq<u32>,
    labels: Seq<u8>,
) -> bool {
    if id < 0 {
        t[i] == (FARTHEST, 0u8)
    } else {
        t[i] == (keys[id], labels[id])
    }
}

/// Whether the list holds, of the first `n` neighbours, the ones in `ids`, none
/// of them twice, and no other is nearer than the farthest entry.
pub open spec fn keeps(
    t: Seq<Neighbour>,
    ids: Seq<int>,
    keys: Seq<u32>,
    labels: Seq<u8>,
    n: int,
) -> bool {
    &&& t.len() == TOP
    &&& ids.len() == TOP
    &&& forall|i: int| 0 <= i < TOP ==> #[trigger] ids[i] < n && is_entry(t, i, ids[i], keys, labels)
    &&& forall|i: int, j: int|
        0 <= i < j < TOP && 0 <= #[trigger] ids[i] ==> ids[i] != #[trigger] ids[j]
    &&& forall|x: int|
        0 <= x < n && !ids.contains(x) ==> #[trigger] keys[x] >= t[farthest(t, TOP as int)].0
}

/// The list always holds the nearest of the neighbours that were looked at.
#[verifier::spinoff_prover]
pub proof fn lemma_best_kept(keys: Seq<u32>, labels: Seq<u8>, n: int)
    requires
        0 <= n <= keys.len(),
        n <= labels.len(),
    ensures
        exists|ids: Seq<int>| #[trigger] keeps(best_of(keys, labels, n), ids, keys, labels, n),
    decreases n,
{
    if n == 0 {
        let ids = Seq::new(TOP as nat, |i: int| -1int);
        assert(keeps(no_neighbours(), ids, keys, labels, 0));
    } else {
        lemma_best_kept(keys, labels, n - 1);
        let t = best_of(keys, labels, n - 1);
        let ids = choose|ids: Seq<int>| #[trigger] keeps(t, ids, keys, labels, n - 1);
        let w = farthest(t, TOP as int);
        lemma_farthest(t, TOP as int);
        let x = n - 1;
        let next = best_of(keys, labels, n);
        if keys[x] < t[w].0 {
            let now = ids.update(w, x);
            assert(next == t.update(w, (keys[x], labels[x])));
            lemma_farthest(next, TOP as int);
            let v = farthest(next, TOP as int);
            assert(next[v].0 <= t[w].0) by {
                if v != w {
                    assert(next[v] == t[v]);
                }
            }
            assert forall|y: int| 0 <= y < n && !now.contains(y) implies #[trigger] keys[y]
                >= next[v].0 by {
                if y == x {
                    assert(now[w] == x);
                } else if ids.contains(y) {
                    let k = choose|k: int| 0 <= k < TOP && ids[k] == y;
                    if k != w {
                        assert(now[k] == y);
                    }
                    assert(is_entry(t, w, ids[w], keys, labels));
                }
            }
            assert forall|i: int| 0 <= i < TOP implies #[trigger] now[i] < n && is_entry(
                next,
                i,
                now[i],
                keys,
                labels,
            ) by {
                if i != w {
                    assert(now[i] == ids[i]);
                }
            }
            assert(keeps(next, now, keys, labels, n));
        } else {
            assert(keeps(next, ids, keys, labels, n));
        }
    }
}

/// Number of rows with the label 1 among some; a negative number stands for no
/// row.
pub open spec fn frauds_of(ids: Seq<int>, labels: Seq<u8>, n: int) -> int
    decreases n,
{
    if n <= 0 {
        0
    } else {
        frauds_of(ids, labels, n - 1) + if ids[n - 1] >= 0 && labels[ids[n - 1]] == 1 {
            1int
        } else {
            0
        }
    }
}

/// The frauds are counted among five different rows, none of them farther than
/// one that was left out; where there are not as many, what was left out is as
/// far as can be told.
pub proof fn lemma_frauds_of_nearest(keys: Seq<u32>, labels: Seq<u8>)
    requires
        keys.len() == labels.len(),
    ensures
        exists|ids: Seq<int>|
            {
                &&& ids.len() == 5
                &&& frauds_among(best_of(keys, labels, keys.len() as int), 5)
                    == #[trigger] frauds_of(ids, labels, 5)
                &&& forall|i: int| 0 <= i < 5 ==> #[trigger] ids[i] < keys.len()
                &&& forall|i: int, j: int|
                    0 <= i < j < 5 && #[trigger] ids[i] >= 0 ==> ids[i] != #[trigger] ids[j]
                &&& forall|i: int, x: int|
                    0 <= i < 5 && 0 <= x < keys.len() && !ids.contains(x) && #[trigger] ids[i] >= 0
                        ==> keys[ids[i]] <= #[trigger] keys[x]
                &&& forall|i: int, x: int|
                    0 <= i < 5 && 0 <= x < keys.len() && !ids.contains(x) && #[trigger] ids[i] < 0
                        ==> 0x7f7f_ffff <= #[trigger] keys[x]
            },
{
    let n = keys.len() as int;
    lemma_best_kept(keys, labels, n);
    let t = best_of(keys, labels, n);
    let ids = choose|ids: Seq<int>| #[trigger] keeps(t, ids, keys, labels, n);
    lemma_farthest(t, TOP as int);
    reveal_with_fuel(frauds_among, 6);
    reveal_with_fuel(frauds_of, 6);
    assert(is_entry(t, 0, ids[0], keys, labels) && is_entry(t, 1, ids[1], keys, labels));
    assert(is_entry(t, 2, ids[2], keys, labels) && is_entry(t, 3, ids[3], keys, labels));
    assert(is_entry(t, 4, ids[4], keys, labels));
    assert(frauds_among(t, 5) == frauds_of(ids, labels, 5));
    assert forall|i: int, x: int|
        0 <= i < 5 && 0 <= x < keys.len() && !ids.contains(x) implies t[i].0 <= #[trigger] keys[x]
        && is_entry(t, i, #[trigger] ids[i], keys, labels) by {
        assert(t[i].0 <= t[farthest(t, TOP as int)].0);
    }
}

} // verus!
