//! Putting items in order.

use vstd::prelude::*;

verus! {

/// `<[T]>::select_nth_unstable_by_key` on the first component: the same items,
/// with none before `nth` beyond the item there and none behind it short of
/// it. Nothing else is said of their order.
#[verifier::external_body]
pub(crate) fn select_nth<T>(items: &mut Vec<(i64, T)>, nth: usize)
    requires
        nth < old(items)@.len(),
    ensures
        final(items)@.to_multiset() == old(items)@.to_multiset(),
        forall|i: int, j: int|
            0 <= i <= nth <= j < final(items)@.len() ==> {
                let before = #[trigger] final(items)@[i];
                let behind = #[trigger] final(items)@[j];
                before.0 <= behind.0
            },
{
    items.select_nth_unstable_by_key(nth, |item| item.0);
}

/// `<[T]>::sort_unstable_by_key` on the first component: the same items, by
/// increasing key. Items with equal keys come in no particular order.
#[verifier::external_body]
pub(crate) fn sort_by_first<T>(items: &mut Vec<(i64, T)>)
    ensures
        final(items)@.to_multiset() == old(items)@.to_multiset(),
        forall|i: int, j: int|
            0 <= i <= j < final(items)@.len() ==> final(items)@[i].0 <= final(items)@[j].0,
{
    items.sort_unstable_by_key(|item| item.0);
}

/// What is made of the same items, item by item, is the same.
pub proof fn lemma_map_permuted<A, B>(a: Seq<A>, b: Seq<A>, f: spec_fn(A) -> B)
    requires
        a.to_multiset() == b.to_multiset(),
    ensures
        a.map_values(f).to_multiset() == b.map_values(f).to_multiset(),
    decreases a.len(),
{
    broadcast use vstd::seq_lib::group_to_multiset_ensures;

    assert(a.len() == a.to_multiset().len());
    assert(b.len() == b.to_multiset().len());
    if a.len() == 0 {
        assert(a.map_values(f) =~= b.map_values(f));
    } else {
        let x = a[0];
        assert(a.contains(x));
        assert(a.to_multiset().count(x) > 0);
        assert(b.contains(x));
        let i = choose|i: int| 0 <= i < b.len() && b[i] == x;
        vstd::seq_lib::to_multiset_remove(a, 0);
        vstd::seq_lib::to_multiset_remove(b, i);
        lemma_map_permuted(a.remove(0), b.remove(i), f);
        let ma = a.map_values(f);
        let mb = b.map_values(f);
        assert(ma.remove(0) =~= a.remove(0).map_values(f));
        assert(mb.remove(i) =~= b.remove(i).map_values(f));
        vstd::seq_lib::to_multiset_remove(ma, 0);
        vstd::seq_lib::to_multiset_remove(mb, i);
        assert(ma.contains(ma[0]) && mb.contains(mb[i]));
        assert(ma.to_multiset().count(f(x)) > 0 && mb.to_multiset().count(f(x)) > 0);
        assert(ma.to_multiset() =~= ma.to_multiset().remove(f(x)).insert(f(x)));
        assert(mb.to_multiset() =~= mb.to_multiset().remove(f(x)).insert(f(x)));
    }
}

} // verus!
