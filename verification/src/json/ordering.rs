//! Keys may come in any order, with white space between the tokens.

use super::document::{
    distinct_keys, field_of, fields_of, is_gap, join, payload_of, same, same_members, section_of,
    spaced, strings_of, tokens, well_formed, Doc, Pair,
};
use super::grammar::{
    blank_last, blank_payload, payload, with_last_field, with_last_fields, Field, LastTxView,
    Section,
};
use super::laws::{lemma_field_order, lemma_set_once_permuted, set_once, target};
use super::reading::lemma_document_read;
use super::words::{
    AMOUNT, AVG_AMOUNT, CARD_PRESENT, CUSTOMER, ID, INSTALLMENTS, IS_ONLINE, KM_FROM_CURRENT,
    KM_FROM_HOME, KNOWN_MERCHANTS, LAST_TRANSACTION, MCC, MERCHANT, REQUESTED_AT, TERMINAL,
    TIMESTAMP, TRANSACTION, TX_COUNT_24H,
};
use vstd::prelude::*;

verus! {

// ---------------------------------------------------------------------------
// The order of members does not matter
// ---------------------------------------------------------------------------

/// Whether two parts say the same, in whatever order.
spec fn alike(a: Option<Seq<Field>>, b: Option<Seq<Field>>) -> bool {
    match (a, b) {
        (Some(f), Some(g)) => f.to_multiset() == g.to_multiset(),
        (None, None) => true,
        _ => false,
    }
}

proof fn lemma_join_alike(
    a: Option<Seq<Field>>,
    b: Option<Seq<Field>>,
    c: Option<Seq<Field>>,
    d: Option<Seq<Field>>,
)
    requires
        alike(a, c),
        alike(b, d),
    ensures
        alike(join(a, b), join(c, d)),
        alike(join(a, b), join(b, a)),
{
    if let (Some(f), Some(g)) = (a, b) {
        vstd::seq_lib::lemma_multiset_commutative(f, g);
        vstd::seq_lib::lemma_multiset_commutative(g, f);
        vstd::seq_lib::lemma_multiset_commutative(c->Some_0, d->Some_0);
        assert((f + g).to_multiset() =~= (g + f).to_multiset());
    }
}

/// Of three parts, the first two may change places.
proof fn lemma_join_swap(
    a: Option<Seq<Field>>,
    b: Option<Seq<Field>>,
    c: Option<Seq<Field>>,
)
    ensures
        alike(join(a, join(b, c)), join(b, join(a, c))),
{
    if let (Some(f), Some(g)) = (a, b) {
        if let Some(h) = c {
            assert(f + (g + h) =~= (f + g) + h);
            assert(g + (f + h) =~= (g + f) + h);
            lemma_join_alike(a, b, a, b);
            lemma_join_alike(Some(f + g), c, Some(g + f), c);
        }
    }
}

/// The members behind one that is taken out.
proof fn lemma_fields_behind(section: Section, n: Seq<Pair>, j: int, k: int)
    requires
        0 <= j <= k < n.len(),
    ensures
        fields_of(section, n, k + 1) == fields_of(section, n.remove(j), k),
    decreases n.len() - k,
{
    let left = n.remove(j);
    if k + 1 < n.len() {
        assert(left[k] == n[k + 1]);
        lemma_fields_behind(section, n, j, k + 1);
    }
}

/// One member may be read before the others.
proof fn lemma_fields_remove(section: Section, n: Seq<Pair>, k: int, j: int)
    requires
        0 <= k <= j < n.len(),
    ensures
        alike(
            fields_of(section, n, k),
            join(field_of(section, n[j].key, n[j].value), fields_of(section, n.remove(j), k)),
        ),
    decreases j - k,
{
    let left = n.remove(j);
    let here = field_of(section, n[k].key, n[k].value);
    let one = field_of(section, n[j].key, n[j].value);
    if k == j {
        lemma_fields_behind(section, n, j, k);
    } else {
        lemma_fields_remove(section, n, k + 1, j);
        assert(left[k] == n[k]);
        let rest = fields_of(section, left, k + 1);
        lemma_join_alike(here, fields_of(section, n, k + 1), here, join(one, rest));
        lemma_join_swap(here, one, rest);
    }
}

/// The strings of lists that are the same.
proof fn lemma_same_strings(v: Seq<Doc>, w: Seq<Doc>)
    requires
        v.len() == w.len(),
        forall|i: int| 0 <= i < v.len() ==> same(#[trigger] v[i], w[i]),
    ensures
        strings_of(v, 0) == strings_of(w, 0),
{
    assert forall|i: int| 0 <= i < v.len() implies ((#[trigger] v[i]) is Text == w[i] is Text)
        && (v[i] is Text ==> v[i] == w[i]) by {
        assert(same(v[i], w[i]));
    }
    if strings_of(v, 0) is Some {
        assert forall|k: int| 0 <= k < w.len() implies (#[trigger] w[k]) is Text by {
            assert(v[k] is Text);
        }
        assert(strings_of(v, 0)->Some_0 =~= strings_of(w, 0)->Some_0) by {
            assert forall|k: int| 0 <= k < v.len() implies v[k]->Text_0 == w[k]->Text_0 by {
                assert(v[k] is Text);
            }
        }
    } else {
        let k = choose|k: int| 0 <= k < v.len() && !((#[trigger] v[k]) is Text);
        assert(!(w[k] is Text));
    }
}

/// The values of members of a section say the same if they are the same.
#[verifier::spinoff_prover]
proof fn lemma_inner_field_same(section: Section, key: Seq<u8>, a: Doc, b: Doc)
    requires
        same(a, b),
        !(section is Top),
    ensures
        field_of(section, key, a) == field_of(section, key, b),
{
    if let (Doc::List(v), Doc::List(w)) = (a, b) {
        lemma_same_strings(v, w);
    }
    match section {
        Section::Top => {},
        Section::Transaction => {},
        Section::Customer => {},
        Section::Merchant => {},
        Section::Terminal => {},
        Section::Last => {},
    }
}

/// The values of members say the same if they are the same but for the order
/// of members.
#[verifier::spinoff_prover]
proof fn lemma_field_same(section: Section, key: Seq<u8>, a: Doc, b: Doc)
    requires
        same(a, b),
        distinct_keys(a),
    ensures
        alike(field_of(section, key, a), field_of(section, key, b)),
    decreases a, 1int,
{
    if section is Top {
        lemma_section_same(Section::Transaction, a, b);
        lemma_section_same(Section::Customer, a, b);
        lemma_section_same(Section::Merchant, a, b);
        lemma_section_same(Section::Terminal, a, b);
        lemma_section_same(Section::Last, a, b);
        if let Some(f) = section_of(Section::Last, a) {
            lemma_section_set_once(Section::Last, a);
            lemma_last_field_order(blank_last(), f, section_of(Section::Last, b)->Some_0);
        }
        assert(a is Null == b is Null);
        assert(a is Text == b is Text);
    } else {
        lemma_inner_field_same(section, key, a, b);
    }
}

proof fn lemma_section_same(section: Section, a: Doc, b: Doc)
    requires
        same(a, b),
        distinct_keys(a),
    ensures
        alike(section_of(section, a), section_of(section, b)),
    decreases a, 0int,
{
    if let (Doc::Object(m), Doc::Object(n)) = (a, b) {
        lemma_members_same(section, m, 0, n);
    }
}

#[verifier::spinoff_prover]
proof fn lemma_members_same(section: Section, m: Seq<Pair>, i: int, n: Seq<Pair>)
    requires
        forall|k: int| 0 <= k < m.len() ==> distinct_keys((#[trigger] m[k]).value),
        0 <= i <= m.len(),
        same_members(m, i, n),
    ensures
        alike(fields_of(section, m, i), fields_of(section, n, 0)),
    decreases m, m.len() - i,
{
    if i < m.len() {
        let j = choose|j: int|
            {
                &&& 0 <= j < n.len()
                &&& (#[trigger] n[j]).key == m[i].key
                &&& same(m[i].value, n[j].value)
                &&& same_members(m, i + 1, n.remove(j))
            };
        let here = field_of(section, m[i].key, m[i].value);
        let there = field_of(section, n[j].key, n[j].value);
        lemma_field_same(section, m[i].key, m[i].value, n[j].value);
        lemma_members_same(section, m, i + 1, n.remove(j));
        lemma_fields_remove(section, n, 0, j);
        lemma_join_alike(
            here,
            fields_of(section, m, i + 1),
            there,
            fields_of(section, n.remove(j), 0),
        );
    }
}

// ---------------------------------------------------------------------------
// With distinct keys nothing is set twice
// ---------------------------------------------------------------------------

/// The key of the member that a field comes from.
pub open spec fn key_of(section: Section, f: Field) -> Seq<u8> {
    match section {
        Section::Top => match f {
            Field::Amount(_) => TRANSACTION@,
            Field::Installments(_) => TRANSACTION@,
            Field::RequestedAt(_) => TRANSACTION@,
            Field::CustomerAvg(_) => CUSTOMER@,
            Field::TxCount(_) => CUSTOMER@,
            Field::KnownMerchants(_) => CUSTOMER@,
            Field::MerchantId(_) => MERCHANT@,
            Field::MerchantMcc(_) => MERCHANT@,
            Field::MerchantAvg(_) => MERCHANT@,
            Field::IsOnline(_) => TERMINAL@,
            Field::CardPresent(_) => TERMINAL@,
            Field::KmFromHome(_) => TERMINAL@,
            Field::LastTransaction(_) => LAST_TRANSACTION@,
            Field::Timestamp(_) => TIMESTAMP@,
            Field::KmFromCurrent(_) => KM_FROM_CURRENT@,
        },
        _ => match f {
            Field::Amount(_) => AMOUNT@,
            Field::Installments(_) => INSTALLMENTS@,
            Field::RequestedAt(_) => REQUESTED_AT@,
            Field::CustomerAvg(_) => AVG_AMOUNT@,
            Field::TxCount(_) => TX_COUNT_24H@,
            Field::KnownMerchants(_) => KNOWN_MERCHANTS@,
            Field::MerchantId(_) => ID@,
            Field::MerchantMcc(_) => MCC@,
            Field::MerchantAvg(_) => AVG_AMOUNT@,
            Field::IsOnline(_) => IS_ONLINE@,
            Field::CardPresent(_) => CARD_PRESENT@,
            Field::KmFromHome(_) => KM_FROM_HOME@,
            Field::LastTransaction(_) => LAST_TRANSACTION@,
            Field::Timestamp(_) => TIMESTAMP@,
            Field::KmFromCurrent(_) => KM_FROM_CURRENT@,
        },
    }
}

/// Whether a field may come from a section.
pub open spec fn at_home(section: Section, f: Field) -> bool {
    match section {
        Section::Top => true,
        Section::Transaction => key_of(Section::Top, f) == TRANSACTION@,
        Section::Customer => key_of(Section::Top, f) == CUSTOMER@,
        Section::Merchant => key_of(Section::Top, f) == MERCHANT@,
        Section::Terminal => key_of(Section::Top, f) == TERMINAL@,
        Section::Last => true,
    }
}

/// Whether some fields come from the members of an object from `i` on, and none
/// is set twice.
pub open spec fn come_from(section: Section, f: Seq<Field>, m: Seq<Pair>, i: int) -> bool {
    &&& set_once(f)
    &&& forall|x: int| 0 <= x < f.len() ==> at_home(section, #[trigger] f[x])
    &&& forall|x: int|
        0 <= x < f.len() ==> exists|k: int|
            i <= k < m.len() && (#[trigger] m[k]).key == key_of(section, #[trigger] f[x])
}

/// Whether some fields come from one member, and none is set twice.
pub open spec fn come_from_one(section: Section, f: Seq<Field>, key: Seq<u8>) -> bool {
    &&& set_once(f)
    &&& forall|x: int|
        0 <= x < f.len() ==> at_home(section, #[trigger] f[x]) && key_of(section, f[x]) == key
}

#[verifier::spinoff_prover]
proof fn lemma_inner_field_set_once(section: Section, key: Seq<u8>, d: Doc)
    requires
        !(section is Top),
    ensures
        field_of(section, key, d) matches Some(f) ==> come_from_one(section, f, key),
{
    match section {
        Section::Top => {},
        Section::Transaction => {},
        Section::Customer => {},
        Section::Merchant => {},
        Section::Terminal => {},
        Section::Last => {},
    }
}

#[verifier::spinoff_prover]
pub proof fn lemma_field_set_once(section: Section, key: Seq<u8>, d: Doc)
    requires
        distinct_keys(d),
    ensures
        field_of(section, key, d) matches Some(f) ==> come_from_one(section, f, key),
    decreases d, 1int,
{
    if section is Top {
        lemma_section_set_once(Section::Transaction, d);
        lemma_section_set_once(Section::Customer, d);
        lemma_section_set_once(Section::Merchant, d);
        lemma_section_set_once(Section::Terminal, d);
    } else {
        lemma_inner_field_set_once(section, key, d);
    }
}

proof fn lemma_section_set_once(section: Section, d: Doc)
    requires
        distinct_keys(d),
    ensures
        section_of(section, d) matches Some(f) ==> set_once(f) && forall|x: int|
            0 <= x < f.len() ==> at_home(section, #[trigger] f[x]),
    decreases d, 0int,
{
    if let Doc::Object(m) = d {
        lemma_members_set_once(section, m, 0);
    }
}

#[verifier::spinoff_prover]
pub proof fn lemma_members_set_once(section: Section, m: Seq<Pair>, i: int)
    requires
        forall|k: int| 0 <= k < m.len() ==> distinct_keys((#[trigger] m[k]).value),
        forall|k: int, j: int|
            0 <= k < j < m.len() ==> (#[trigger] m[k]).key != (#[trigger] m[j]).key,
        0 <= i <= m.len(),
    ensures
        fields_of(section, m, i) matches Some(f) ==> come_from(section, f, m, i),
    decreases m, m.len() - i,
{
    if i < m.len() {
        let key = m[i].key;
        lemma_field_set_once(section, key, m[i].value);
        lemma_members_set_once(section, m, i + 1);
        if let Some(all) = fields_of(section, m, i) {
            let f = field_of(section, key, m[i].value)->Some_0;
            let g = fields_of(section, m, i + 1)->Some_0;
            assert(all == f + g);
            assert forall|x: int| 0 <= x < all.len() implies at_home(section, #[trigger] all[x])
                && exists|k: int|
                i <= k < m.len() && (#[trigger] m[k]).key == key_of(section, all[x]) by {
                if x < f.len() {
                    assert(all[x] == f[x]);
                    assert(m[i].key == key_of(section, f[x]));
                } else {
                    let y = g[x - f.len()];
                    assert(all[x] == y);
                    let k = choose|k: int|
                        i + 1 <= k < m.len() && (#[trigger] m[k]).key == key_of(section, y);
                    assert(i <= k < m.len() && m[k].key == key_of(section, y));
                }
            }
            assert forall|x: int, y: int| 0 <= x < y < all.len() implies target(#[trigger] all[x])
                != target(#[trigger] all[y]) by {
                if y < f.len() {
                    assert(all[x] == f[x] && all[y] == f[y]);
                } else if x >= f.len() {
                    assert(all[x] == g[x - f.len()] && all[y] == g[y - f.len()]);
                } else {
                    let b = g[y - f.len()];
                    assert(all[x] == f[x] && all[y] == b);
                    let k = choose|k: int|
                        i + 1 <= k < m.len() && (#[trigger] m[k]).key == key_of(section, b);
                    assert(m[i].key != m[k].key);
                    lemma_targets(section, f[x], b);
                }
            }
        }
    }
}

/// Fields from members of other keys set other parts.
proof fn lemma_targets(section: Section, a: Field, b: Field)
    requires
        key_of(section, a) != key_of(section, b),
    ensures
        target(a) != target(b),
{
}

/// A field of a previous transaction that is set once may be read last.
proof fn lemma_last_read_last(l: LastTxView, f: Seq<Field>, i: int)
    requires
        set_once(f),
        0 <= i < f.len(),
    ensures
        with_last_fields(l, f) == with_last_field(with_last_fields(l, f.remove(i)), f[i]),
    decreases f.len(),
{
    let rest = f.drop_last();
    if i == f.len() - 1 {
        assert(f.remove(i) =~= rest);
    } else {
        lemma_last_read_last(l, rest, i);
        assert(f.remove(i).drop_last() =~= rest.remove(i));
        assert(f.remove(i).last() == f.last());
        assert(target(f[i]) != target(f[f.len() - 1]));
    }
}

/// The fields of a previous transaction may be read in any order, as long as
/// nothing is set twice.
#[verifier::spinoff_prover]
pub proof fn lemma_last_field_order(l: LastTxView, f: Seq<Field>, g: Seq<Field>)
    requires
        set_once(f),
        f.to_multiset() == g.to_multiset(),
    ensures
        with_last_fields(l, f) == with_last_fields(l, g),
    decreases f.len(),
{
    broadcast use vstd::seq_lib::group_to_multiset_ensures;

    lemma_set_once_permuted(f, g);
    assert(f.len() == f.to_multiset().len());
    assert(g.len() == g.to_multiset().len());
    if f.len() > 0 {
        let x = f.last();
        assert(f.contains(x));
        assert(f.to_multiset().count(x) > 0);
        assert(g.contains(x));
        let i = choose|i: int| 0 <= i < g.len() && g[i] == x;
        lemma_last_read_last(l, g, i);
        let rest = f.drop_last();
        assert(f.remove(f.len() - 1) =~= rest);
        vstd::seq_lib::to_multiset_remove(f, f.len() - 1);
        vstd::seq_lib::to_multiset_remove(g, i);
        lemma_last_field_order(l, rest, g.remove(i));
    }
}

// ---------------------------------------------------------------------------
// Laws
// ---------------------------------------------------------------------------

/// The members of every object may come in any order, as long as no object has
/// two with one key: the document stands for the same payload.
pub proof fn lemma_member_order(a: Doc, b: Doc)
    requires
        same(a, b),
        distinct_keys(a),
    ensures
        payload_of(a) == payload_of(b),
{
    lemma_section_same(Section::Top, a, b);
    if let Some(f) = section_of(Section::Top, a) {
        lemma_section_set_once(Section::Top, a);
        lemma_field_order(blank_payload(), f, section_of(Section::Top, b)->Some_0);
    }
}

/// Two texts with the same tokens give the same payload, whatever white space
/// there is between them.
pub proof fn lemma_space_between_tokens(
    d: Doc,
    gap: spec_fn(int) -> Seq<u8>,
    other_gap: spec_fn(int) -> Seq<u8>,
    end: Seq<u8>,
    other_end: Seq<u8>,
)
    requires
        well_formed(d),
        is_gap(gap),
        is_gap(other_gap),
    ensures
        payload(spaced(tokens(d), gap, end)) == payload(spaced(tokens(d), other_gap, other_end)),
{
    lemma_document_read(d, gap, end);
    lemma_document_read(d, other_gap, other_end);
}

/// Keys may come in any order, in every object, with white space between any
/// two tokens: the same payload is read.
pub proof fn lemma_order_and_space(
    a: Doc,
    b: Doc,
    gap: spec_fn(int) -> Seq<u8>,
    other_gap: spec_fn(int) -> Seq<u8>,
    end: Seq<u8>,
    other_end: Seq<u8>,
)
    requires
        same(a, b),
        distinct_keys(a),
        well_formed(a),
        well_formed(b),
        is_gap(gap),
        is_gap(other_gap),
    ensures
        payload(spaced(tokens(a), gap, end)) == payload(spaced(tokens(b), other_gap, other_end)),
{
    lemma_document_read(a, gap, end);
    lemma_document_read(b, other_gap, other_end);
    lemma_member_order(a, b);
}

} // verus!
