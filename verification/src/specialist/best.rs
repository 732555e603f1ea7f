//! The list of the best neighbours found so far.

use vstd::prelude::*;

verus! {

/// Number of neighbours that vote.
pub const K: usize = 5;

/// A neighbour: its distance and its label.
pub type Entry = (i64, u8);

/// The list that two parallel arrays hold.
pub open spec fn entries(dists: Seq<i64>, labels: Seq<u8>) -> Seq<Entry> {
    Seq::new(K as nat, |i: int| (dists[i], labels[i]))
}

/// The list before any neighbour was found.
pub open spec fn no_entries() -> Seq<Entry> {
    Seq::new(K as nat, |i: int| (i64::MAX, 0u8))
}

/// Distance of the last entry: what a further neighbour has to beat.
pub open spec fn worst(best: Seq<Entry>) -> i64 {
    best[K - 1].0
}

/// Whether distances never decrease along the list.
pub open spec fn is_sorted(best: Seq<Entry>) -> bool {
    forall|i: int, j: int| 0 <= i <= j < best.len() ==> best[i].0 <= best[j].0
}

/// Where a new distance goes among the first `n` entries: behind every entry
/// that is at least as near.
pub open spec fn slot(best: Seq<Entry>, dist: int, n: int) -> int
    decreases n,
{
    if n > 0 && dist < best[n - 1].0 {
        slot(best, dist, n - 1)
    } else {
        n
    }
}

/// The list with one more neighbour in its place and the farthest dropped.
pub open spec fn inserted(best: Seq<Entry>, e: Entry) -> Seq<Entry> {
    best.insert(slot(best, e.0 as int, K as int), e).take(K as int)
}

/// Sum of the first `n` labels.
pub open spec fn label_sum(labels: Seq<u8>, n: int) -> int
    decreases n,
{
    if n <= 0 {
        0
    } else {
        label_sum(labels, n - 1) + labels[n - 1]
    }
}

/// The sum of labels grows by one label at a time.
pub proof fn lemma_label_sum_grows(labels: Seq<u8>, n: int)
    requires
        0 <= n < labels.len(),
    ensures
        label_sum(labels, 0) == 0,
        label_sum(labels, n + 1) == label_sum(labels, n) + labels[n],
{
}

/// The labels of a list.
pub open spec fn labels_of(best: Seq<Entry>) -> Seq<u8> {
    best.map_values(|e: Entry| e.1)
}

/// Number of fraud labels in a list.
pub open spec fn votes(best: Seq<Entry>) -> int {
    label_sum(labels_of(best), K as int)
}

/// Whether all entries are legitimate, or all are fraud.
pub open spec fn unanimous(best: Seq<Entry>) -> bool {
    votes(best) == 0 || votes(best) == K
}

pub proof fn lemma_slot_bounds(best: Seq<Entry>, dist: int, n: int)
    requires
        0 <= n <= best.len(),
    ensures
        0 <= slot(best, dist, n) <= n,
        forall|i: int| slot(best, dist, n) <= i < n ==> dist < (#[trigger] best[i]).0,
        slot(best, dist, n) > 0 ==> best[slot(best, dist, n) - 1].0 <= dist,
    decreases n,
{
    if n > 0 && dist < best[n - 1].0 {
        lemma_slot_bounds(best, dist, n - 1);
    }
}

/// A neighbour that is no nearer than the last entry leaves the list as it is.
pub proof fn lemma_far_neighbour_ignored(best: Seq<Entry>, e: Entry)
    requires
        best.len() == K,
        e.0 >= worst(best),
    ensures
        inserted(best, e) == best,
{
    assert(inserted(best, e) =~= best);
}

/// Inserting keeps the length and the order, and never moves the bar up.
pub proof fn lemma_inserted_sorted(best: Seq<Entry>, e: Entry)
    requires
        best.len() == K,
        is_sorted(best),
    ensures
        inserted(best, e).len() == K,
        is_sorted(inserted(best, e)),
        worst(inserted(best, e)) <= worst(best),
{
    lemma_slot_bounds(best, e.0 as int, K as int);
}

/// Whether every label says legitimate (0) or fraud (1).
pub open spec fn binary(best: Seq<Entry>) -> bool {
    forall|i: int| 0 <= i < best.len() ==> (#[trigger] best[i]).1 <= 1
}

/// There are no more fraud labels than entries.
pub proof fn lemma_votes_range(best: Seq<Entry>)
    requires
        best.len() == K,
        binary(best),
    ensures
        0 <= votes(best) <= K,
{
    let a = labels_of(best);
    reveal_with_fuel(label_sum, 6);
    assert(best[0].1 <= 1 && best[1].1 <= 1 && best[2].1 <= 1 && best[3].1 <= 1 && best[4].1 <= 1);
    assert(a[0] <= 1 && a[1] <= 1 && a[2] <= 1 && a[3] <= 1 && a[4] <= 1);
}

/// One more neighbour moves the number of fraud labels by one at most.
pub proof fn lemma_votes_move_by_one(best: Seq<Entry>, e: Entry)
    requires
        best.len() == K,
        binary(best),
        e.1 <= 1,
    ensures
        votes(best) - 1 <= votes(inserted(best, e)) <= votes(best) + 1,
        0 <= votes(inserted(best, e)) <= K,
{
    lemma_slot_bounds(best, e.0 as int, K as int);
    let p = slot(best, e.0 as int, K as int);
    let next = inserted(best, e);
    let a = labels_of(best);
    let b = labels_of(next);
    reveal_with_fuel(label_sum, 6);
    assert(a.len() == K && b.len() == K);
    assert forall|i: int| 0 <= i < K implies b[i] == (if i < p {
        a[i]
    } else if i == p {
        e.1
    } else {
        a[i - 1]
    }) by {}
    assert forall|i: int| 0 <= i < K implies #[trigger] a[i] <= 1 by {
        assert(best[i].1 <= 1);
    }
    assert(a[0] <= 1 && a[1] <= 1 && a[2] <= 1 && a[3] <= 1 && a[4] <= 1);
    assert(b[0] == b[0] && b[1] == b[1] && b[2] == b[2] && b[3] == b[3] && b[4] == b[4]);
}

/// With unanimous entries, one more neighbour does not flip the outcome:
/// the count stays on its side of the 3-of-5 threshold.
pub proof fn lemma_unanimous_outcome_stays(best: Seq<Entry>, e: Entry)
    requires
        best.len() == K,
        binary(best),
        e.1 <= 1,
        unanimous(best),
    ensures
        votes(inserted(best, e)) >= 3 <==> votes(best) >= 3,
{
    lemma_votes_move_by_one(best, e);
}

/// Puts a neighbour into its place in the list, if it is near enough.
pub fn insert_best_i64(
    dist: i64,
    label: u8,
    best_dists: &mut [i64; K],
    best_labels: &mut [u8; K],
)
    ensures
        entries(final(best_dists)@, final(best_labels)@) == inserted(
            entries(old(best_dists)@, old(best_labels)@),
            (dist, label),
        ),
        dist >= old(best_dists)@[4] ==> final(best_dists)@ == old(best_dists)@ && final(best_labels)@ == old(best_labels)@,
        dist < old(best_dists)@[4] ==> exists|p: int|
            {
                &&& 0 <= p < 5
                &&& p > 0 ==> old(best_dists)@[p - 1] <= dist
                &&& forall|i: int| p <= i < 5 ==> dist < #[trigger] old(best_dists)@[i]
                &&& #[trigger] final(best_dists)@[p] == dist && final(best_labels)@[p] == label
                &&& forall|i: int|
                    0 <= i < p ==> #[trigger] final(best_dists)@[i] == old(best_dists)@[i]
                        && final(best_labels)@[i] == old(best_labels)@[i]
                &&& forall|i: int|
                    p < i < 5 ==> #[trigger] final(best_dists)@[i] == old(best_dists)@[i - 1]
                        && final(best_labels)@[i] == old(best_labels)@[i - 1]
            },
{
    let ghost before = entries(best_dists@, best_labels@);
    let ghost e: Entry = (dist, label);
    proof {
        lemma_slot_bounds(before, dist as int, K as int);
    }
    if dist >= best_dists[K - 1] {
        proof {
            lemma_far_neighbour_ignored(before, e);
        }
        return;
    }
    let mut pos: usize = K - 1;
    while pos > 0 && dist < best_dists[pos - 1]
        invariant
            pos <= K - 1,
            before.len() == K,
            best_dists@.len() == K,
            best_labels@.len() == K,
            slot(before, dist as int, K as int) == slot(before, dist as int, pos as int),
            forall|i: int| 0 <= i < pos ==> best_dists@[i] == (#[trigger] before[i]).0,
            forall|i: int| 0 <= i < pos ==> best_labels@[i] == (#[trigger] before[i]).1,
            forall|i: int| pos < i < K ==> #[trigger] best_dists@[i] == before[i - 1].0,
            forall|i: int| pos < i < K ==> #[trigger] best_labels@[i] == before[i - 1].1,
        decreases pos,
    {
        best_dists[pos] = best_dists[pos - 1];
        best_labels[pos] = best_labels[pos - 1];
        pos = pos - 1;
    }
    assert(slot(before, dist as int, K as int) == pos);
    let ghost dists0 = best_dists@;
    let ghost labels0 = best_labels@;
    best_dists[pos] = dist;
    best_labels[pos] = label;
    proof {
        assert forall|i: int| pos <= i < 5 implies dist < #[trigger] old(best_dists)@[i] by {
            assert(before[i].0 == old(best_dists)@[i]);
        }
        if pos > 0 {
            assert(before[pos - 1].0 == old(best_dists)@[pos - 1]);
        }
        assert forall|i: int| 0 <= i < pos implies #[trigger] best_dists@[i] == old(best_dists)@[i]
            && best_labels@[i] == old(best_labels)@[i] by {
            assert(dists0[i] == before[i].0 && labels0[i] == before[i].1);
            assert(before[i].0 == old(best_dists)@[i] && before[i].1 == old(best_labels)@[i]);
        }
        assert forall|i: int| pos < i < 5 implies #[trigger] best_dists@[i] == old(best_dists)@[i
            - 1] && best_labels@[i] == old(best_labels)@[i - 1] by {
            assert(dists0[i] == before[i - 1].0 && labels0[i] == before[i - 1].1);
            assert(before[i - 1].0 == old(best_dists)@[i - 1] && before[i - 1].1 == old(
                best_labels)@[i - 1]);
        }
        assert(best_dists@[pos as int] == dist);
    }
    assert(entries(best_dists@, best_labels@) =~= inserted(before, e));
}

/// Adds up the labels.
pub fn sum_labels(labels: &[u8; K]) -> (sum: u32)
    ensures
        sum == label_sum(labels@, K as int),
        sum <= K * 255,
        sum == labels@[0] + labels@[1] + labels@[2] + labels@[3] + labels@[4],
{
    proof {
        reveal_with_fuel(label_sum, 6);
    }
    let mut sum: u32 = 0;
    let mut i: usize = 0;
    while i < K
        invariant
            i <= K,
            labels@.len() == K,
            sum == label_sum(labels@, i as int),
            sum <= i * 255,
        decreases K - i,
    {
        sum = sum + labels[i] as u32;
        i = i + 1;
    }
    sum
}

/// True when the labels are all legitimate (sum 0) or all fraud (sum `K`).
/// One nearer neighbour moves the count by one at most, which stays on the
/// same side of the 3-of-5 threshold.
pub fn is_unanimous(labels: &[u8; K]) -> (r: bool)
    ensures
        r == (label_sum(labels@, K as int) == 0 || label_sum(labels@, K as int) == K),
        ({
            let sum = labels@[0] + labels@[1] + labels@[2] + labels@[3] + labels@[4];
            r <==> sum == 0 || sum == 5
        }),
{
    let s: u32 = sum_labels(labels);
    s == 0 || s == K as u32
}

} // verus!
