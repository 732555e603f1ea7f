//! What a payload holds is what its document says under each key.

use super::document::{
    distinct_keys, field_of, fields_of, is_gap, spaced, strings_of, tokens, well_formed, Doc, Pair,
};
use super::grammar::{
    blank_last, blank_payload, payload, with_fields, with_last_fields, Field, LastTxView,
    PayloadView, Section,
};
use super::laws::{set_once, target};
use super::ordering::{key_of, lemma_field_set_once, lemma_members_set_once};
use super::reading::lemma_document_read;
use super::words::{
    AMOUNT, AVG_AMOUNT, CARD_PRESENT, CUSTOMER, ID, INSTALLMENTS, IS_ONLINE, KM_FROM_CURRENT,
    KM_FROM_HOME, KNOWN_MERCHANTS, LAST_TRANSACTION, MCC, MERCHANT, REQUESTED_AT, TERMINAL,
    TIMESTAMP, TRANSACTION, TX_COUNT_24H,
};
use super::ParseErr;
use vstd::prelude::*;

verus! {

// ---------------------------------------------------------------------------
// Looking up
// ---------------------------------------------------------------------------

/// The value of the member of an object with the given key.
pub open spec fn get(m: Seq<Pair>, key: Seq<u8>) -> Option<Doc>
    decreases m.len(),
{
    if m.len() == 0 {
        None
    } else if m.last().key == key {
        Some(m.last().value)
    } else {
        get(m.drop_last(), key)
    }
}

/// The value of a member of an object inside of an object.
pub open spec fn get_in(m: Seq<Pair>, outer: Seq<u8>, key: Seq<u8>) -> Option<Doc> {
    match get(m, outer) {
        Some(Doc::Object(n)) => get(n, key),
        _ => None,
    }
}

/// A number, or zero where there is none.
pub open spec fn number_in(d: Option<Doc>) -> Seq<u8> {
    match d {
        Some(Doc::Number(x)) => x,
        _ => seq![0x30u8],
    }
}

/// A string, or an empty one where there is none.
pub open spec fn text_in(d: Option<Doc>) -> Seq<u8> {
    match d {
        Some(Doc::Text(x)) => x,
        _ => seq![],
    }
}

/// `true` where it is said.
pub open spec fn flag_in(d: Option<Doc>) -> bool {
    d == Some(Doc::Flag(true))
}

/// Whether there is a number, or nothing.
pub open spec fn number_or_none(d: Option<Doc>) -> bool {
    d is None || d->Some_0 is Number
}

/// Whether there is a string, or nothing.
pub open spec fn text_or_none(d: Option<Doc>) -> bool {
    d is None || d->Some_0 is Text
}

/// Whether there is `true` or `false`, or nothing.
pub open spec fn flag_or_none(d: Option<Doc>) -> bool {
    d is None || d->Some_0 is Flag
}

/// Whether there is an object, or nothing.
pub open spec fn object_or_none(d: Option<Doc>) -> bool {
    d is None || d->Some_0 is Object
}

/// Whether there is a list of strings, or nothing.
pub open spec fn strings_or_none(d: Option<Doc>) -> bool {
    match d {
        None => true,
        Some(Doc::List(v)) => forall|i: int| 0 <= i < v.len() ==> (#[trigger] v[i]) is Text,
        _ => false,
    }
}

proof fn lemma_get(m: Seq<Pair>, key: Seq<u8>) -> (i: int)
    ensures
        match get(m, key) {
            Some(d) => 0 <= i < m.len() && m[i].key == key && m[i].value == d,
            None => forall|k: int| 0 <= k < m.len() ==> (#[trigger] m[k]).key != key,
        },
    decreases m.len(),
{
    if m.len() == 0 {
        0
    } else if m.last().key == key {
        m.len() - 1
    } else {
        let i = lemma_get(m.drop_last(), key);
        if get(m, key) is None {
            assert forall|k: int| 0 <= k < m.len() implies (#[trigger] m[k]).key != key by {
                if k < m.len() - 1 {
                    assert(m.drop_last()[k] == m[k]);
                }
            }
        }
        i
    }
}

/// Whether the keys of an object differ.
pub open spec fn keys_differ(m: Seq<Pair>) -> bool {
    forall|i: int, j: int| 0 <= i < j < m.len() ==> (#[trigger] m[i]).key != (#[trigger] m[j]).key
}

proof fn lemma_get_at(m: Seq<Pair>, i: int)
    requires
        keys_differ(m),
        0 <= i < m.len(),
    ensures
        get(m, m[i].key) == Some(m[i].value),
{
    let k = lemma_get(m, m[i].key);
    if get(m, m[i].key) is None {
        assert(m[i].key != m[i].key);
    }
    if k < i {
        assert(m[k].key != m[i].key);
    } else if i < k {
        assert(m[i].key != m[k].key);
    }
}

// ---------------------------------------------------------------------------
// Fields of an object
// ---------------------------------------------------------------------------

/// Whether a member says `f`.
spec fn says(section: Section, p: Pair, f: Field) -> bool {
    field_of(section, p.key, p.value) matches Some(g) && g.contains(f)
}

/// Whether a member can be read.
spec fn sound(section: Section, p: Pair) -> bool {
    field_of(section, p.key, p.value) is Some
}

proof fn lemma_all_sound(section: Section, m: Seq<Pair>, i: int)
    requires
        0 <= i <= m.len(),
    ensures
        fields_of(section, m, i) is Some <==> forall|k: int|
            i <= k < m.len() ==> #[trigger] sound(section, m[k]),
    decreases m.len() - i,
{
    if i < m.len() {
        lemma_all_sound(section, m, i + 1);
        if fields_of(section, m, i) is Some {
            assert forall|k: int| i <= k < m.len() implies #[trigger] sound(section, m[k]) by {
                if k > i {
                    assert(i + 1 <= k);
                }
            }
        } else if forall|k: int| i <= k < m.len() ==> #[trigger] sound(section, m[k]) {
            assert(sound(section, m[i]));
        }
    }
}

proof fn lemma_fields_said(section: Section, m: Seq<Pair>, i: int, f: Field)
    requires
        0 <= i <= m.len(),
        fields_of(section, m, i) is Some,
    ensures
        fields_of(section, m, i)->Some_0.contains(f) <==> exists|k: int|
            i <= k < m.len() && #[trigger] says(section, m[k], f),
    decreases m.len() - i,
{
    let all = fields_of(section, m, i)->Some_0;
    if i < m.len() {
        lemma_fields_said(section, m, i + 1, f);
        let here = field_of(section, m[i].key, m[i].value)->Some_0;
        let rest = fields_of(section, m, i + 1)->Some_0;
        assert(all == here + rest);
        if all.contains(f) {
            let x = choose|x: int| 0 <= x < all.len() && all[x] == f;
            if x < here.len() {
                assert(here[x] == f);
                assert(says(section, m[i], f));
            } else {
                assert(rest[x - here.len()] == f);
                let k = choose|k: int|
                    i + 1 <= k < m.len() && #[trigger] says(section, m[k], f);
                assert(i <= k < m.len() && says(section, m[k], f));
            }
        }
        if exists|k: int| i <= k < m.len() && #[trigger] says(section, m[k], f) {
            let k = choose|k: int| i <= k < m.len() && #[trigger] says(section, m[k], f);
            if k == i {
                let x = choose|x: int| 0 <= x < here.len() && here[x] == f;
                assert(all[x] == f);
            } else {
                assert(i + 1 <= k);
                let x = choose|x: int| 0 <= x < rest.len() && rest[x] == f;
                assert(all[here.len() + x] == f);
            }
        }
    }
}

/// Whether all objects in some members have different keys.
spec fn tidy(m: Seq<Pair>) -> bool {
    &&& keys_differ(m)
    &&& forall|k: int| 0 <= k < m.len() ==> distinct_keys((#[trigger] m[k]).value)
}

proof fn lemma_tidy_inside(m: Seq<Pair>, i: int)
    requires
        tidy(m),
        0 <= i < m.len(),
    ensures
        m[i].value matches Doc::Object(n) ==> tidy(n),
{
    let d = m[i].value;
    assert(distinct_keys(d));
    if let Doc::Object(n) = d {
        assert(tidy(n));
    }
}

/// What an object says under a key is what the member with that key says.
proof fn lemma_said_under(section: Section, m: Seq<Pair>, f: Field)
    requires
        tidy(m),
        fields_of(section, m, 0) is Some,
    ensures
        fields_of(section, m, 0)->Some_0.contains(f) <==> (get(m, key_of(section, f)) matches Some(d)
            && field_of(section, key_of(section, f), d) matches Some(g) && g.contains(f)),
{
    let key = key_of(section, f);
    lemma_fields_said(section, m, 0, f);
    let i = lemma_get(m, key);
    if fields_of(section, m, 0)->Some_0.contains(f) {
        let k = choose|k: int| 0 <= k < m.len() && #[trigger] says(section, m[k], f);
        lemma_field_set_once(section, m[k].key, m[k].value);
        let g = field_of(section, m[k].key, m[k].value)->Some_0;
        let x = choose|x: int| 0 <= x < g.len() && g[x] == f;
        assert(key_of(section, g[x]) == m[k].key);
        lemma_get_at(m, k);
    }
    if get(m, key) is Some && field_of(section, key, get(m, key)->Some_0) is Some && field_of(
        section,
        key,
        get(m, key)->Some_0,
    )->Some_0.contains(f) {
        assert(says(section, m[i], f));
    }
}

/// The object under a key is as tidy as the one around it.
proof fn lemma_tidy_under(m: Seq<Pair>, key: Seq<u8>)
    requires
        tidy(m),
    ensures
        get(m, key) matches Some(Doc::Object(n)) ==> tidy(n),
{
    let i = lemma_get(m, key);
    if get(m, key) is Some {
        lemma_tidy_inside(m, i);
    }
}

/// What a payload says of a section is what the section says under the key.
proof fn lemma_said_in(section: Section, m: Seq<Pair>, f: Field)
    requires
        tidy(m),
        fields_of(Section::Top, m, 0) is Some,
        match section {
            Section::Transaction => key_of(Section::Top, f) == TRANSACTION@,
            Section::Customer => key_of(Section::Top, f) == CUSTOMER@,
            Section::Merchant => key_of(Section::Top, f) == MERCHANT@,
            Section::Terminal => key_of(Section::Top, f) == TERMINAL@,
            _ => false,
        },
    ensures
        fields_of(Section::Top, m, 0)->Some_0.contains(f) <==> (get_in(
            m,
            key_of(Section::Top, f),
            key_of(section, f),
        ) matches Some(d) && field_of(section, key_of(section, f), d) matches Some(g)
            && g.contains(f)),
{
    let outer = key_of(Section::Top, f);
    lemma_section_words();
    lemma_said_under(Section::Top, m, f);
    lemma_tidy_under(m, outer);
    lemma_all_sound(Section::Top, m, 0);
    let i = lemma_get(m, outer);
    if let Some(Doc::Object(n)) = get(m, outer) {
        assert(sound(Section::Top, m[i]));
        assert(field_of(Section::Top, outer, m[i].value) == fields_of(section, n, 0));
        lemma_said_under(section, n, f);
    }
}

proof fn lemma_section_words()
    ensures
        TRANSACTION@ != ID@,
        CUSTOMER@ != ID@,
        MERCHANT@ != ID@,
        TERMINAL@ != ID@,
        LAST_TRANSACTION@ != ID@,
        CUSTOMER@ != TRANSACTION@,
        MERCHANT@ != TRANSACTION@,
        TERMINAL@ != TRANSACTION@,
        LAST_TRANSACTION@ != TRANSACTION@,
        MERCHANT@ != CUSTOMER@,
        TERMINAL@ != CUSTOMER@,
        LAST_TRANSACTION@ != CUSTOMER@,
        TERMINAL@ != MERCHANT@,
        LAST_TRANSACTION@ != MERCHANT@,
        LAST_TRANSACTION@ != TERMINAL@,
        AMOUNT@ != INSTALLMENTS@,
        AMOUNT@ != REQUESTED_AT@,
        INSTALLMENTS@ != REQUESTED_AT@,
        AVG_AMOUNT@ != TX_COUNT_24H@,
        AVG_AMOUNT@ != KNOWN_MERCHANTS@,
        TX_COUNT_24H@ != KNOWN_MERCHANTS@,
        ID@ != MCC@,
        ID@ != AVG_AMOUNT@,
        MCC@ != AVG_AMOUNT@,
        IS_ONLINE@ != CARD_PRESENT@,
        IS_ONLINE@ != KM_FROM_HOME@,
        CARD_PRESENT@ != KM_FROM_HOME@,
        TIMESTAMP@ != KM_FROM_CURRENT@,
{
    assert(TRANSACTION@.len() == 11 && CUSTOMER@.len() == 8 && MERCHANT@.len() == 8
        && TERMINAL@.len() == 8 && LAST_TRANSACTION@.len() == 16 && ID@.len() == 2);
    assert(CUSTOMER@[0] != MERCHANT@[0] && TERMINAL@[0] != CUSTOMER@[0] && TERMINAL@[0]
        != MERCHANT@[0]);
    assert(AMOUNT@.len() == 6 && INSTALLMENTS@.len() == 12 && REQUESTED_AT@.len() == 12);
    assert(INSTALLMENTS@[0] != REQUESTED_AT@[0]);
    assert(AVG_AMOUNT@.len() == 10 && TX_COUNT_24H@.len() == 12 && KNOWN_MERCHANTS@.len() == 15);
    assert(MCC@.len() == 3);
    assert(IS_ONLINE@.len() == 9 && CARD_PRESENT@.len() == 12 && KM_FROM_HOME@.len() == 12);
    assert(CARD_PRESENT@[0] != KM_FROM_HOME@[0]);
    assert(TIMESTAMP@.len() == 9 && KM_FROM_CURRENT@.len() == 15);
}

// ---------------------------------------------------------------------------
// Parts of a payload
// ---------------------------------------------------------------------------

/// Whether a payload holds what a field says; of the merchants, the first
/// sixteen.
spec fn shows(p: PayloadView, f: Field) -> bool {
    match f {
        Field::Amount(x) => p.amount == x,
        Field::Installments(x) => p.installments == x,
        Field::RequestedAt(x) => p.requested_at == x,
        Field::CustomerAvg(x) => p.customer_avg == x,
        Field::TxCount(x) => p.tx_count_24h == x,
        Field::KnownMerchants(m) => first_sixteen(p.known_merchants, m),
        Field::MerchantId(x) => p.merchant_id == x,
        Field::MerchantMcc(x) => p.merchant_mcc == x,
        Field::MerchantAvg(x) => p.merchant_avg == x,
        Field::IsOnline(x) => p.is_online == x,
        Field::CardPresent(x) => p.card_present == x,
        Field::KmFromHome(x) => p.terminal_km_from_home == x,
        Field::LastTransaction(x) => p.last_transaction == x,
        Field::Timestamp(_) => true,
        Field::KmFromCurrent(_) => true,
    }
}

/// Whether `some` are the strings `all`, or the first sixteen of more.
pub open spec fn first_sixteen(some: Seq<Seq<u8>>, all: Seq<Seq<u8>>) -> bool {
    &&& all.len() <= 16 ==> some.len() == all.len()
    &&& all.len() > 16 ==> some.len() == 16
    &&& forall|i: int| 0 <= i < some.len() ==> #[trigger] some[i] == all[i]
}

/// Whether two payloads agree in the part that a field sets.
spec fn agree(p: PayloadView, r: PayloadView, part: int) -> bool {
    &&& part == 0 ==> p.amount == r.amount
    &&& part == 1 ==> p.installments == r.installments
    &&& part == 2 ==> p.requested_at == r.requested_at
    &&& part == 3 ==> p.customer_avg == r.customer_avg
    &&& part == 4 ==> p.tx_count_24h == r.tx_count_24h
    &&& part == 5 ==> p.known_merchants == r.known_merchants
    &&& part == 6 ==> p.merchant_id == r.merchant_id
    &&& part == 7 ==> p.merchant_mcc == r.merchant_mcc
    &&& part == 8 ==> p.merchant_avg == r.merchant_avg
    &&& part == 9 ==> p.is_online == r.is_online
    &&& part == 10 ==> p.card_present == r.card_present
    &&& part == 11 ==> p.terminal_km_from_home == r.terminal_km_from_home
    &&& part == 12 ==> p.last_transaction == r.last_transaction
}

/// A part that no field sets stays as it is.
proof fn lemma_part_kept(p: PayloadView, f: Seq<Field>, part: int)
    requires
        forall|i: int| 0 <= i < f.len() ==> target(#[trigger] f[i]) != part,
    ensures
        agree(with_fields(p, f), p, part),
    decreases f.len(),
{
    if f.len() > 0 {
        let rest = f.drop_last();
        assert forall|i: int| 0 <= i < rest.len() implies target(#[trigger] rest[i]) != part by {
            assert(rest[i] == f[i]);
        }
        lemma_part_kept(p, rest, part);
        assert(target(f[f.len() - 1]) != part);
    }
}

/// A field that is set once is held.
proof fn lemma_part_set(p: PayloadView, f: Seq<Field>, x: Field)
    requires
        set_once(f),
        f.contains(x),
    ensures
        shows(with_fields(p, f), x),
    decreases f.len(),
{
    let rest = f.drop_last();
    let last = f.last();
    let before = with_fields(p, rest);
    if last != x {
        let i = choose|i: int| 0 <= i < f.len() && f[i] == x;
        assert(rest[i] == x);
        assert forall|a: int, b: int| 0 <= a < b < rest.len() implies target(#[trigger] rest[a])
            != target(#[trigger] rest[b]) by {
            assert(rest[a] == f[a] && rest[b] == f[b]);
        }
        lemma_part_set(p, rest, x);
        assert(target(f[i]) != target(f[f.len() - 1]));
    }
}

#[verifier::spinoff_prover]
proof fn lemma_amount(m: Seq<Pair>)
    requires
        tidy(m),
        fields_of(Section::Top, m, 0) is Some,
    ensures
        with_fields(blank_payload(), fields_of(Section::Top, m, 0)->Some_0).amount == number_in(
            get_in(m, TRANSACTION@, AMOUNT@),
        ),
{
    let f = fields_of(Section::Top, m, 0)->Some_0;
    lemma_members_set_once(Section::Top, m, 0);
    lemma_section_words();
    if let Some(Doc::Number(x)) = get_in(m, TRANSACTION@, AMOUNT@) {
        let one = Field::Amount(x);
        lemma_said_in(Section::Transaction, m, one);
        assert(seq![one][0] == one);
        lemma_part_set(blank_payload(), f, one);
    } else {
        assert forall|i: int| 0 <= i < f.len() implies target(#[trigger] f[i]) != 0 by {
            assert(f.contains(f[i]));
            if let Field::Amount(x) = f[i] {
                lemma_said_in(Section::Transaction, m, f[i]);
            }
        }
        lemma_part_kept(blank_payload(), f, 0);
    }
}

#[verifier::spinoff_prover]
proof fn lemma_installments(m: Seq<Pair>)
    requires
        tidy(m),
        fields_of(Section::Top, m, 0) is Some,
    ensures
        with_fields(blank_payload(), fields_of(Section::Top, m, 0)->Some_0).installments == number_in(
            get_in(m, TRANSACTION@, INSTALLMENTS@),
        ),
{
    let f = fields_of(Section::Top, m, 0)->Some_0;
    lemma_members_set_once(Section::Top, m, 0);
    lemma_section_words();
    if let Some(Doc::Number(x)) = get_in(m, TRANSACTION@, INSTALLMENTS@) {
        let one = Field::Installments(x);
        lemma_said_in(Section::Transaction, m, one);
        assert(seq![one][0] == one);
        lemma_part_set(blank_payload(), f, one);
    } else {
        assert forall|i: int| 0 <= i < f.len() implies target(#[trigger] f[i]) != 1 by {
            assert(f.contains(f[i]));
            if let Field::Installments(x) = f[i] {
                lemma_said_in(Section::Transaction, m, f[i]);
            }
        }
        lemma_part_kept(blank_payload(), f, 1);
    }
}

#[verifier::spinoff_prover]
proof fn lemma_requested_at(m: Seq<Pair>)
    requires
        tidy(m),
        fields_of(Section::Top, m, 0) is Some,
    ensures
        with_fields(blank_payload(), fields_of(Section::Top, m, 0)->Some_0).requested_at == text_in(
            get_in(m, TRANSACTION@, REQUESTED_AT@),
        ),
{
    let f = fields_of(Section::Top, m, 0)->Some_0;
    lemma_members_set_once(Section::Top, m, 0);
    lemma_section_words();
    if let Some(Doc::Text(x)) = get_in(m, TRANSACTION@, REQUESTED_AT@) {
        let one = Field::RequestedAt(x);
        lemma_said_in(Section::Transaction, m, one);
        assert(seq![one][0] == one);
        lemma_part_set(blank_payload(), f, one);
    } else {
        assert forall|i: int| 0 <= i < f.len() implies target(#[trigger] f[i]) != 2 by {
            assert(f.contains(f[i]));
            if let Field::RequestedAt(x) = f[i] {
                lemma_said_in(Section::Transaction, m, f[i]);
            }
        }
        lemma_part_kept(blank_payload(), f, 2);
    }
}

#[verifier::spinoff_prover]
proof fn lemma_customer_avg(m: Seq<Pair>)
    requires
        tidy(m),
        fields_of(Section::Top, m, 0) is Some,
    ensures
        with_fields(blank_payload(), fields_of(Section::Top, m, 0)->Some_0).customer_avg == number_in(
            get_in(m, CUSTOMER@, AVG_AMOUNT@),
        ),
{
    let f = fields_of(Section::Top, m, 0)->Some_0;
    lemma_members_set_once(Section::Top, m, 0);
    lemma_section_words();
    if let Some(Doc::Number(x)) = get_in(m, CUSTOMER@, AVG_AMOUNT@) {
        let one = Field::CustomerAvg(x);
        lemma_said_in(Section::Customer, m, one);
        assert(seq![one][0] == one);
        lemma_part_set(blank_payload(), f, one);
    } else {
        assert forall|i: int| 0 <= i < f.len() implies target(#[trigger] f[i]) != 3 by {
            assert(f.contains(f[i]));
            if let Field::CustomerAvg(x) = f[i] {
                lemma_said_in(Section::Customer, m, f[i]);
            }
        }
        lemma_part_kept(blank_payload(), f, 3);
    }
}

#[verifier::spinoff_prover]
proof fn lemma_tx_count(m: Seq<Pair>)
    requires
        tidy(m),
        fields_of(Section::Top, m, 0) is Some,
    ensures
        with_fields(blank_payload(), fields_of(Section::Top, m, 0)->Some_0).tx_count_24h == number_in(
            get_in(m, CUSTOMER@, TX_COUNT_24H@),
        ),
{
    let f = fields_of(Section::Top, m, 0)->Some_0;
    lemma_members_set_once(Section::Top, m, 0);
    lemma_section_words();
    if let Some(Doc::Number(x)) = get_in(m, CUSTOMER@, TX_COUNT_24H@) {
        let one = Field::TxCount(x);
        lemma_said_in(Section::Customer, m, one);
        assert(seq![one][0] == one);
        lemma_part_set(blank_payload(), f, one);
    } else {
        assert forall|i: int| 0 <= i < f.len() implies target(#[trigger] f[i]) != 4 by {
            assert(f.contains(f[i]));
            if let Field::TxCount(x) = f[i] {
                lemma_said_in(Section::Customer, m, f[i]);
            }
        }
        lemma_part_kept(blank_payload(), f, 4);
    }
}

#[verifier::spinoff_prover]
proof fn lemma_merchant_id(m: Seq<Pair>)
    requires
        tidy(m),
        fields_of(Section::Top, m, 0) is Some,
    ensures
        with_fields(blank_payload(), fields_of(Section::Top, m, 0)->Some_0).merchant_id == text_in(
            get_in(m, MERCHANT@, ID@),
        ),
{
    let f = fields_of(Section::Top, m, 0)->Some_0;
    lemma_members_set_once(Section::Top, m, 0);
    lemma_section_words();
    if let Some(Doc::Text(x)) = get_in(m, MERCHANT@, ID@) {
        let one = Field::MerchantId(x);
        lemma_said_in(Section::Merchant, m, one);
        assert(seq![one][0] == one);
        lemma_part_set(blank_payload(), f, one);
    } else {
        assert forall|i: int| 0 <= i < f.len() implies target(#[trigger] f[i]) != 6 by {
            assert(f.contains(f[i]));
            if let Field::MerchantId(x) = f[i] {
                lemma_said_in(Section::Merchant, m, f[i]);
            }
        }
        lemma_part_kept(blank_payload(), f, 6);
    }
}

#[verifier::spinoff_prover]
proof fn lemma_merchant_mcc(m: Seq<Pair>)
    requires
        tidy(m),
        fields_of(Section::Top, m, 0) is Some,
    ensures
        with_fields(blank_payload(), fields_of(Section::Top, m, 0)->Some_0).merchant_mcc == text_in(
            get_in(m, MERCHANT@, MCC@),
        ),
{
    let f = fields_of(Section::Top, m, 0)->Some_0;
    lemma_members_set_once(Section::Top, m, 0);
    lemma_section_words();
    if let Some(Doc::Text(x)) = get_in(m, MERCHANT@, MCC@) {
        let one = Field::MerchantMcc(x);
        lemma_said_in(Section::Merchant, m, one);
        assert(seq![one][0] == one);
        lemma_part_set(blank_payload(), f, one);
    } else {
        assert forall|i: int| 0 <= i < f.len() implies target(#[trigger] f[i]) != 7 by {
            assert(f.contains(f[i]));
            if let Field::MerchantMcc(x) = f[i] {
                lemma_said_in(Section::Merchant, m, f[i]);
            }
        }
        lemma_part_kept(blank_payload(), f, 7);
    }
}

#[verifier::spinoff_prover]
proof fn lemma_merchant_avg(m: Seq<Pair>)
    requires
        tidy(m),
        fields_of(Section::Top, m, 0) is Some,
    ensures
        with_fields(blank_payload(), fields_of(Section::Top, m, 0)->Some_0).merchant_avg == number_in(
            get_in(m, MERCHANT@, AVG_AMOUNT@),
        ),
{
    let f = fields_of(Section::Top, m, 0)->Some_0;
    lemma_members_set_once(Section::Top, m, 0);
    lemma_section_words();
    if let Some(Doc::Number(x)) = get_in(m, MERCHANT@, AVG_AMOUNT@) {
        let one = Field::MerchantAvg(x);
        lemma_said_in(Section::Merchant, m, one);
        assert(seq![one][0] == one);
        lemma_part_set(blank_payload(), f, one);
    } else {
        assert forall|i: int| 0 <= i < f.len() implies target(#[trigger] f[i]) != 8 by {
            assert(f.contains(f[i]));
            if let Field::MerchantAvg(x) = f[i] {
                lemma_said_in(Section::Merchant, m, f[i]);
            }
        }
        lemma_part_kept(blank_payload(), f, 8);
    }
}

#[verifier::spinoff_prover]
proof fn lemma_is_online(m: Seq<Pair>)
    requires
        tidy(m),
        fields_of(Section::Top, m, 0) is Some,
    ensures
        with_fields(blank_payload(), fields_of(Section::Top, m, 0)->Some_0).is_online == flag_in(
            get_in(m, TERMINAL@, IS_ONLINE@),
        ),
{
    let f = fields_of(Section::Top, m, 0)->Some_0;
    lemma_members_set_once(Section::Top, m, 0);
    lemma_section_words();
    if let Some(Doc::Flag(x)) = get_in(m, TERMINAL@, IS_ONLINE@) {
        let one = Field::IsOnline(x);
        lemma_said_in(Section::Terminal, m, one);
        assert(seq![one][0] == one);
        lemma_part_set(blank_payload(), f, one);
    } else {
        assert forall|i: int| 0 <= i < f.len() implies target(#[trigger] f[i]) != 9 by {
            assert(f.contains(f[i]));
            if let Field::IsOnline(x) = f[i] {
                lemma_said_in(Section::Terminal, m, f[i]);
            }
        }
        lemma_part_kept(blank_payload(), f, 9);
    }
}

#[verifier::spinoff_prover]
proof fn lemma_card_present(m: Seq<Pair>)
    requires
        tidy(m),
        fields_of(Section::Top, m, 0) is Some,
    ensures
        with_fields(blank_payload(), fields_of(Section::Top, m, 0)->Some_0).card_present == flag_in(
            get_in(m, TERMINAL@, CARD_PRESENT@),
        ),
{
    let f = fields_of(Section::Top, m, 0)->Some_0;
    lemma_members_set_once(Section::Top, m, 0);
    lemma_section_words();
    if let Some(Doc::Flag(x)) = get_in(m, TERMINAL@, CARD_PRESENT@) {
        let one = Field::CardPresent(x);
        lemma_said_in(Section::Terminal, m, one);
        assert(seq![one][0] == one);
        lemma_part_set(blank_payload(), f, one);
    } else {
        assert forall|i: int| 0 <= i < f.len() implies target(#[trigger] f[i]) != 10 by {
            assert(f.contains(f[i]));
            if let Field::CardPresent(x) = f[i] {
                lemma_said_in(Section::Terminal, m, f[i]);
            }
        }
        lemma_part_kept(blank_payload(), f, 10);
    }
}

#[verifier::spinoff_prover]
proof fn lemma_km_from_home(m: Seq<Pair>)
    requires
        tidy(m),
        fields_of(Section::Top, m, 0) is Some,
    ensures
        with_fields(blank_payload(), fields_of(Section::Top, m, 0)->Some_0).terminal_km_from_home == number_in(
            get_in(m, TERMINAL@, KM_FROM_HOME@),
        ),
{
    let f = fields_of(Section::Top, m, 0)->Some_0;
    lemma_members_set_once(Section::Top, m, 0);
    lemma_section_words();
    if let Some(Doc::Number(x)) = get_in(m, TERMINAL@, KM_FROM_HOME@) {
        let one = Field::KmFromHome(x);
        lemma_said_in(Section::Terminal, m, one);
        assert(seq![one][0] == one);
        lemma_part_set(blank_payload(), f, one);
    } else {
        assert forall|i: int| 0 <= i < f.len() implies target(#[trigger] f[i]) != 11 by {
            assert(f.contains(f[i]));
            if let Field::KmFromHome(x) = f[i] {
                lemma_said_in(Section::Terminal, m, f[i]);
            }
        }
        lemma_part_kept(blank_payload(), f, 11);
    }
}

#[verifier::spinoff_prover]
proof fn lemma_merchants(m: Seq<Pair>)
    requires
        tidy(m),
        fields_of(Section::Top, m, 0) is Some,
    ensures
        ({
            let known = with_fields(
                blank_payload(),
                fields_of(Section::Top, m, 0)->Some_0,
            ).known_merchants;
            match get_in(m, CUSTOMER@, KNOWN_MERCHANTS@) {
                Some(Doc::List(v)) => {
                    &&& forall|i: int| 0 <= i < v.len() ==> (#[trigger] v[i]) is Text
                    &&& v.len() <= 16 ==> known.len() == v.len()
                    &&& v.len() > 16 ==> known.len() == 16
                    &&& forall|i: int|
                        0 <= i < known.len() ==> #[trigger] known[i] == v[i]->Text_0
                },
                _ => known.len() == 0,
            }
        }),
{
    let f = fields_of(Section::Top, m, 0)->Some_0;
    lemma_members_set_once(Section::Top, m, 0);
    lemma_section_words();
    let i0 = lemma_get(m, CUSTOMER@);
    lemma_all_sound(Section::Top, m, 0);
    if let Some(Doc::List(v)) = get_in(m, CUSTOMER@, KNOWN_MERCHANTS@) {
        let n = get(m, CUSTOMER@)->Some_0->Object_0;
        assert(sound(Section::Top, m[i0]));
        assert(fields_of(Section::Customer, n, 0) is Some);
        lemma_all_sound(Section::Customer, n, 0);
        let j0 = lemma_get(n, KNOWN_MERCHANTS@);
        assert(sound(Section::Customer, n[j0]));
        assert(strings_of(v, 0) is Some);
        let s = strings_of(v, 0)->Some_0;
        let one = Field::KnownMerchants(s);
        lemma_said_in(Section::Customer, m, one);
        assert(seq![one][0] == one);
        lemma_part_set(blank_payload(), f, one);
    } else {
        assert forall|i: int| 0 <= i < f.len() implies target(#[trigger] f[i]) != 5 by {
            assert(f.contains(f[i]));
            if let Field::KnownMerchants(x) = f[i] {
                lemma_said_in(Section::Customer, m, f[i]);
            }
        }
        lemma_part_kept(blank_payload(), f, 5);
    }
}

/// A field of a previous transaction that no field sets stays as it is, and one
/// that is set once is held.
proof fn lemma_last_part(l: LastTxView, f: Seq<Field>, x: Seq<u8>)
    requires
        set_once(f),
    ensures
        f.contains(Field::Timestamp(x)) ==> with_last_fields(l, f).timestamp == x,
        f.contains(Field::KmFromCurrent(x)) ==> with_last_fields(l, f).km_from_current == x,
        (forall|i: int| 0 <= i < f.len() ==> target(#[trigger] f[i]) != 13) ==> with_last_fields(
            l,
            f,
        ).timestamp == l.timestamp,
        (forall|i: int| 0 <= i < f.len() ==> target(#[trigger] f[i]) != 14) ==> with_last_fields(
            l,
            f,
        ).km_from_current == l.km_from_current,
    decreases f.len(),
{
    if f.len() > 0 {
        let rest = f.drop_last();
        assert forall|a: int, b: int| 0 <= a < b < rest.len() implies target(#[trigger] rest[a])
            != target(#[trigger] rest[b]) by {
            assert(rest[a] == f[a] && rest[b] == f[b]);
        }
        lemma_last_part(l, rest, x);
        let last = f[f.len() - 1];
        if f.contains(Field::Timestamp(x)) {
            let i = choose|i: int| 0 <= i < f.len() && f[i] == Field::Timestamp(x);
            if i < f.len() - 1 {
                assert(rest[i] == f[i]);
                assert(target(f[i]) != target(last));
            }
        }
        if f.contains(Field::KmFromCurrent(x)) {
            let i = choose|i: int| 0 <= i < f.len() && f[i] == Field::KmFromCurrent(x);
            if i < f.len() - 1 {
                assert(rest[i] == f[i]);
                assert(target(f[i]) != target(last));
            }
        }
        if forall|i: int| 0 <= i < f.len() ==> target(#[trigger] f[i]) != 13 {
            assert forall|i: int| 0 <= i < rest.len() implies target(#[trigger] rest[i]) != 13 by {
                assert(rest[i] == f[i]);
            }
            assert(target(last) != 13);
        }
        if forall|i: int| 0 <= i < f.len() ==> target(#[trigger] f[i]) != 14 {
            assert forall|i: int| 0 <= i < rest.len() implies target(#[trigger] rest[i]) != 14 by {
                assert(rest[i] == f[i]);
            }
            assert(target(last) != 14);
        }
    }
}

/// What a previous transaction holds.
#[verifier::spinoff_prover]
proof fn lemma_last_held(n: Seq<Pair>)
    requires
        tidy(n),
        fields_of(Section::Last, n, 0) is Some,
    ensures
        ({
            let l = with_last_fields(blank_last(), fields_of(Section::Last, n, 0)->Some_0);
            &&& l.timestamp == text_in(get(n, TIMESTAMP@))
            &&& l.km_from_current == number_in(get(n, KM_FROM_CURRENT@))
        }),
{
    let f = fields_of(Section::Last, n, 0)->Some_0;
    lemma_members_set_once(Section::Last, n, 0);
    lemma_section_words();
    let nothing = Seq::<u8>::empty();
    if let Some(Doc::Text(x)) = get(n, TIMESTAMP@) {
        let one = Field::Timestamp(x);
        lemma_said_under(Section::Last, n, one);
        assert(seq![one][0] == one);
        lemma_last_part(blank_last(), f, x);
    } else {
        assert forall|i: int| 0 <= i < f.len() implies target(#[trigger] f[i]) != 13 by {
            assert(f.contains(f[i]));
            if let Field::Timestamp(x) = f[i] {
                lemma_said_under(Section::Last, n, f[i]);
            }
        }
        lemma_last_part(blank_last(), f, nothing);
    }
    if let Some(Doc::Number(x)) = get(n, KM_FROM_CURRENT@) {
        let one = Field::KmFromCurrent(x);
        lemma_said_under(Section::Last, n, one);
        assert(seq![one][0] == one);
        lemma_last_part(blank_last(), f, x);
    } else {
        assert forall|i: int| 0 <= i < f.len() implies target(#[trigger] f[i]) != 14 by {
            assert(f.contains(f[i]));
            if let Field::KmFromCurrent(x) = f[i] {
                lemma_said_under(Section::Last, n, f[i]);
            }
        }
        lemma_last_part(blank_last(), f, nothing);
    }
}

#[verifier::spinoff_prover]
proof fn lemma_last_transaction(m: Seq<Pair>)
    requires
        tidy(m),
        fields_of(Section::Top, m, 0) is Some,
    ensures
        ({
            let last = with_fields(
                blank_payload(),
                fields_of(Section::Top, m, 0)->Some_0,
            ).last_transaction;
            match get(m, LAST_TRANSACTION@) {
                Some(Doc::Object(n)) => {
                    &&& last is Some
                    &&& last->Some_0.timestamp == text_in(get(n, TIMESTAMP@))
                    &&& last->Some_0.km_from_current == number_in(get(n, KM_FROM_CURRENT@))
                },
                _ => last is None,
            }
        }),
{
    let f = fields_of(Section::Top, m, 0)->Some_0;
    lemma_members_set_once(Section::Top, m, 0);
    lemma_section_words();
    lemma_all_sound(Section::Top, m, 0);
    lemma_tidy_under(m, LAST_TRANSACTION@);
    let i0 = lemma_get(m, LAST_TRANSACTION@);
    if let Some(d) = get(m, LAST_TRANSACTION@) {
        assert(sound(Section::Top, m[i0]));
        let g = field_of(Section::Top, LAST_TRANSACTION@, d)->Some_0;
        assert(g.len() == 1);
        let one = g[0];
        assert(g.contains(one));
        lemma_said_under(Section::Top, m, one);
        lemma_part_set(blank_payload(), f, one);
        if let Doc::Object(n) = d {
            lemma_last_held(n);
        }
    } else {
        assert forall|i: int| 0 <= i < f.len() implies target(#[trigger] f[i]) != 12 by {
            assert(f.contains(f[i]));
            if let Field::LastTransaction(x) = f[i] {
                lemma_said_under(Section::Top, m, f[i]);
            }
        }
        lemma_part_kept(blank_payload(), f, 12);
    }
}

// ---------------------------------------------------------------------------
// Documents that are payloads
// ---------------------------------------------------------------------------

/// Whether everything in a document is of the kind that its key asks for.
/// Under a key that a payload does not know, anything may stand.
pub open spec fn right_kinds(m: Seq<Pair>) -> bool {
    &&& text_or_none(get(m, ID@))
    &&& object_or_none(get(m, TRANSACTION@))
    &&& number_or_none(get_in(m, TRANSACTION@, AMOUNT@))
    &&& number_or_none(get_in(m, TRANSACTION@, INSTALLMENTS@))
    &&& text_or_none(get_in(m, TRANSACTION@, REQUESTED_AT@))
    &&& object_or_none(get(m, CUSTOMER@))
    &&& number_or_none(get_in(m, CUSTOMER@, AVG_AMOUNT@))
    &&& number_or_none(get_in(m, CUSTOMER@, TX_COUNT_24H@))
    &&& strings_or_none(get_in(m, CUSTOMER@, KNOWN_MERCHANTS@))
    &&& object_or_none(get(m, MERCHANT@))
    &&& text_or_none(get_in(m, MERCHANT@, ID@))
    &&& text_or_none(get_in(m, MERCHANT@, MCC@))
    &&& number_or_none(get_in(m, MERCHANT@, AVG_AMOUNT@))
    &&& object_or_none(get(m, TERMINAL@))
    &&& flag_or_none(get_in(m, TERMINAL@, IS_ONLINE@))
    &&& flag_or_none(get_in(m, TERMINAL@, CARD_PRESENT@))
    &&& number_or_none(get_in(m, TERMINAL@, KM_FROM_HOME@))
    &&& get(m, LAST_TRANSACTION@) != Some(Doc::Null) ==> {
        &&& object_or_none(get(m, LAST_TRANSACTION@))
        &&& text_or_none(get_in(m, LAST_TRANSACTION@, TIMESTAMP@))
        &&& number_or_none(get_in(m, LAST_TRANSACTION@, KM_FROM_CURRENT@))
    }
}

/// Whether a member of an object with different keys can be read shows in what
/// is found under its key.
proof fn lemma_sound_by_key(section: Section, m: Seq<Pair>)
    requires
        keys_differ(m),
    ensures
        fields_of(section, m, 0) is Some <==> forall|key: Seq<u8>|
            (#[trigger] get(m, key)) matches Some(d) ==> field_of(section, key, d) is Some,
{
    lemma_all_sound(section, m, 0);
    if fields_of(section, m, 0) is Some {
        assert forall|key: Seq<u8>| (#[trigger] get(m, key)) matches Some(d) implies field_of(
            section,
            key,
            get(m, key)->Some_0,
        ) is Some by {
            let i = lemma_get(m, key);
            assert(sound(section, m[i]));
        }
    } else {
        let k = choose|k: int| 0 <= k < m.len() && !#[trigger] sound(section, m[k]);
        lemma_get_at(m, k);
        assert(get(m, m[k].key) is Some);
    }
}

proof fn lemma_strings_kinds()
    ensures
        forall|v: Seq<Doc>|
            strings_or_none(Some(Doc::List(v))) <==> #[trigger] strings_of(v, 0) is Some,
{
    assert forall|v: Seq<Doc>|
        strings_or_none(Some(Doc::List(v))) <==> #[trigger] strings_of(v, 0) is Some by {}
}

#[verifier::spinoff_prover]
proof fn lemma_transaction_kinds(n: Seq<Pair>)
    requires
        keys_differ(n),
    ensures
        fields_of(Section::Transaction, n, 0) is Some <==> {
            &&& number_or_none(get(n, AMOUNT@))
            &&& number_or_none(get(n, INSTALLMENTS@))
            &&& text_or_none(get(n, REQUESTED_AT@))
        },
{
    lemma_sound_by_key(Section::Transaction, n);
    lemma_section_words();
    let d0 = get(n, AMOUNT@);
    let d1 = get(n, INSTALLMENTS@);
    let d2 = get(n, REQUESTED_AT@);
    lemma_strings_kinds();
}

#[verifier::spinoff_prover]
proof fn lemma_customer_kinds(n: Seq<Pair>)
    requires
        keys_differ(n),
    ensures
        fields_of(Section::Customer, n, 0) is Some <==> {
            &&& number_or_none(get(n, AVG_AMOUNT@))
            &&& number_or_none(get(n, TX_COUNT_24H@))
            &&& strings_or_none(get(n, KNOWN_MERCHANTS@))
        },
{
    lemma_sound_by_key(Section::Customer, n);
    lemma_section_words();
    let d0 = get(n, AVG_AMOUNT@);
    let d1 = get(n, TX_COUNT_24H@);
    let d2 = get(n, KNOWN_MERCHANTS@);
    lemma_strings_kinds();
}

#[verifier::spinoff_prover]
proof fn lemma_merchant_kinds(n: Seq<Pair>)
    requires
        keys_differ(n),
    ensures
        fields_of(Section::Merchant, n, 0) is Some <==> {
            &&& text_or_none(get(n, ID@))
            &&& text_or_none(get(n, MCC@))
            &&& number_or_none(get(n, AVG_AMOUNT@))
        },
{
    lemma_sound_by_key(Section::Merchant, n);
    lemma_section_words();
    let d0 = get(n, ID@);
    let d1 = get(n, MCC@);
    let d2 = get(n, AVG_AMOUNT@);
    lemma_strings_kinds();
}

#[verifier::spinoff_prover]
proof fn lemma_terminal_kinds(n: Seq<Pair>)
    requires
        keys_differ(n),
    ensures
        fields_of(Section::Terminal, n, 0) is Some <==> {
            &&& flag_or_none(get(n, IS_ONLINE@))
            &&& flag_or_none(get(n, CARD_PRESENT@))
            &&& number_or_none(get(n, KM_FROM_HOME@))
        },
{
    lemma_sound_by_key(Section::Terminal, n);
    lemma_section_words();
    let d0 = get(n, IS_ONLINE@);
    let d1 = get(n, CARD_PRESENT@);
    let d2 = get(n, KM_FROM_HOME@);
    lemma_strings_kinds();
}

#[verifier::spinoff_prover]
proof fn lemma_last_kinds(n: Seq<Pair>)
    requires
        keys_differ(n),
    ensures
        fields_of(Section::Last, n, 0) is Some <==> {
            &&& text_or_none(get(n, TIMESTAMP@))
            &&& number_or_none(get(n, KM_FROM_CURRENT@))
        },
{
    lemma_sound_by_key(Section::Last, n);
    lemma_section_words();
    let d0 = get(n, TIMESTAMP@);
    let d1 = get(n, KM_FROM_CURRENT@);
    lemma_strings_kinds();
}

#[verifier::spinoff_prover]
proof fn lemma_right_kinds(m: Seq<Pair>)
    requires
        tidy(m),
    ensures
        fields_of(Section::Top, m, 0) is Some <==> right_kinds(m),
{
    lemma_sound_by_key(Section::Top, m);
    lemma_section_words();
    lemma_tidy_under(m, TRANSACTION@);
    lemma_tidy_under(m, CUSTOMER@);
    lemma_tidy_under(m, MERCHANT@);
    lemma_tidy_under(m, TERMINAL@);
    lemma_tidy_under(m, LAST_TRANSACTION@);
    if let Some(Doc::Object(n)) = get(m, TRANSACTION@) {
        lemma_transaction_kinds(n);
    }
    if let Some(Doc::Object(n)) = get(m, CUSTOMER@) {
        lemma_customer_kinds(n);
    }
    if let Some(Doc::Object(n)) = get(m, MERCHANT@) {
        lemma_merchant_kinds(n);
    }
    if let Some(Doc::Object(n)) = get(m, TERMINAL@) {
        lemma_terminal_kinds(n);
    }
    if let Some(Doc::Object(n)) = get(m, LAST_TRANSACTION@) {
        lemma_last_kinds(n);
    }
    let id = get(m, ID@);
}

// ---------------------------------------------------------------------------
// Laws
// ---------------------------------------------------------------------------

/// Whether a payload holds what a document says under each of its keys: numbers
/// and strings as they stand there, zero and nothing where the key is missing,
/// and of the known merchants the first sixteen, in their order.
pub open spec fn holds_what_is_said(p: PayloadView, m: Seq<Pair>) -> bool {
    &&& p.amount == number_in(get_in(m, TRANSACTION@, AMOUNT@))
    &&& p.installments == number_in(get_in(m, TRANSACTION@, INSTALLMENTS@))
    &&& p.requested_at == text_in(get_in(m, TRANSACTION@, REQUESTED_AT@))
    &&& p.customer_avg == number_in(get_in(m, CUSTOMER@, AVG_AMOUNT@))
    &&& p.tx_count_24h == number_in(get_in(m, CUSTOMER@, TX_COUNT_24H@))
    &&& p.merchant_id == text_in(get_in(m, MERCHANT@, ID@))
    &&& p.merchant_mcc == text_in(get_in(m, MERCHANT@, MCC@))
    &&& p.merchant_avg == number_in(get_in(m, MERCHANT@, AVG_AMOUNT@))
    &&& p.is_online == flag_in(get_in(m, TERMINAL@, IS_ONLINE@))
    &&& p.card_present == flag_in(get_in(m, TERMINAL@, CARD_PRESENT@))
    &&& p.terminal_km_from_home == number_in(get_in(m, TERMINAL@, KM_FROM_HOME@))
    &&& match get_in(m, CUSTOMER@, KNOWN_MERCHANTS@) {
        Some(Doc::List(v)) => {
            &&& v.len() <= 16 ==> p.known_merchants.len() == v.len()
            &&& v.len() > 16 ==> p.known_merchants.len() == 16
            &&& forall|i: int|
                0 <= i < v.len() && i < 16 ==> v[i] == Doc::Text(#[trigger] p.known_merchants[i])
        },
        _ => p.known_merchants.len() == 0,
    }
    &&& match get(m, LAST_TRANSACTION@) {
        Some(Doc::Object(n)) => {
            &&& p.last_transaction is Some
            &&& p.last_transaction->Some_0.timestamp == text_in(get(n, TIMESTAMP@))
            &&& p.last_transaction->Some_0.km_from_current == number_in(get(n, KM_FROM_CURRENT@))
        },
        _ => p.last_transaction is None,
    }
}

/// The text of an object is read as a payload if and only if everything in it
/// is of the right kind, and the payload then holds what the object says under
/// each of its keys.
#[verifier::spinoff_prover]
pub proof fn lemma_payload_by_keys(d: Doc, gap: spec_fn(int) -> Seq<u8>, end: Seq<u8>)
    requires
        d is Object,
        well_formed(d),
        distinct_keys(d),
        is_gap(gap),
    ensures
        match payload(spaced(tokens(d), gap, end)) {
            Ok(p) => right_kinds(d->Object_0) && holds_what_is_said(p, d->Object_0),
            Err(e) => !right_kinds(d->Object_0) && e == ParseErr::Unexpected,
        },
{
    let m = d->Object_0;
    assert(tidy(m));
    lemma_document_read(d, gap, end);
    lemma_right_kinds(m);
    if fields_of(Section::Top, m, 0) is Some {
        lemma_amount(m);
        lemma_installments(m);
        lemma_requested_at(m);
        lemma_customer_avg(m);
        lemma_tx_count(m);
        lemma_merchants(m);
        lemma_merchant_id(m);
        lemma_merchant_mcc(m);
        lemma_merchant_avg(m);
        lemma_is_online(m);
        lemma_card_present(m);
        lemma_km_from_home(m);
        lemma_last_transaction(m);
    }
}

} // verus!
