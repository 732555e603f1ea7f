//! White space, strings, numbers, and the order of fields.

use super::grammar::{
    after_comma, after_ws, blank_last, blank_payload, bool_at, digits_end, expect, field_at,
    is_number, is_space, lemma_after_ws, lemma_member_takes, lemma_tokens_take, member_at,
    members_at, null_at, number_at, object_at, payload, starts, string_at, string_len,
    value_skipped, with_field, with_fields, with_last_fields, zero, Field, PayloadView, Section,
};
use super::words::{CUSTOMER, MERCHANT, TERMINAL, TRANSACTION};
use super::ParseErr;
use vstd::prelude::*;

verus! {

// ---------------------------------------------------------------------------
// White space
// ---------------------------------------------------------------------------

/// Whether a text is white space.
pub open spec fn all_space(w: Seq<u8>) -> bool {
    forall|i: int| 0 <= i < w.len() ==> is_space(#[trigger] w[i])
}

pub proof fn lemma_space_skipped(w: Seq<u8>, s: Seq<u8>)
    requires
        all_space(w),
    ensures
        after_ws(w + s) == after_ws(s),
    decreases w.len(),
{
    if w.len() == 0 {
        assert(w + s =~= s);
    } else {
        assert((w + s).skip(1) =~= w.skip(1) + s);
        lemma_space_skipped(w.skip(1), s);
    }
}

/// White space before a token or a value changes nothing, and white space
/// before a whole payload changes nothing.
pub proof fn lemma_space_ignored(w: Seq<u8>, s: Seq<u8>)
    requires
        all_space(w),
    ensures
        forall|ch: u8| #[trigger] expect(w + s, ch) == expect(s, ch),
        string_at(w + s) == string_at(s),
        number_at(w + s) == number_at(s),
        bool_at(w + s) == bool_at(s),
        null_at(w + s) == null_at(s),
        value_skipped(w + s) == value_skipped(s),
        after_comma(w + s) == after_comma(s),
        payload(w + s) == payload(s),
{
    lemma_space_skipped(w, s);
}

// ---------------------------------------------------------------------------
// Order of fields
// ---------------------------------------------------------------------------

/// Which part of a payload a field sets.
pub open spec fn target(f: Field) -> int {
    match f {
        Field::Amount(_) => 0,
        Field::Installments(_) => 1,
        Field::RequestedAt(_) => 2,
        Field::CustomerAvg(_) => 3,
        Field::TxCount(_) => 4,
        Field::KnownMerchants(_) => 5,
        Field::MerchantId(_) => 6,
        Field::MerchantMcc(_) => 7,
        Field::MerchantAvg(_) => 8,
        Field::IsOnline(_) => 9,
        Field::CardPresent(_) => 10,
        Field::KmFromHome(_) => 11,
        Field::LastTransaction(_) => 12,
        Field::Timestamp(_) => 13,
        Field::KmFromCurrent(_) => 14,
    }
}

/// Whether nothing is set twice.
pub open spec fn set_once(f: Seq<Field>) -> bool {
    forall|i: int, j: int|
        0 <= i < j < f.len() ==> target(#[trigger] f[i]) != target(#[trigger] f[j])
}

proof fn lemma_fields_commute(p: PayloadView, a: Field, b: Field)
    requires
        target(a) != target(b),
    ensures
        with_field(with_field(p, a), b) == with_field(with_field(p, b), a),
{
}

/// A field that is set once may be read last.
proof fn lemma_read_last(p: PayloadView, f: Seq<Field>, i: int)
    requires
        set_once(f),
        0 <= i < f.len(),
    ensures
        with_fields(p, f) == with_field(with_fields(p, f.remove(i)), f[i]),
    decreases f.len(),
{
    let rest = f.drop_last();
    if i == f.len() - 1 {
        assert(f.remove(i) =~= rest);
    } else {
        lemma_read_last(p, rest, i);
        assert(f.remove(i).drop_last() =~= rest.remove(i));
        assert(f.remove(i).last() == f.last());
        lemma_fields_commute(with_fields(p, rest.remove(i)), f[i], f.last());
    }
}

pub proof fn lemma_set_once_permuted(f: Seq<Field>, g: Seq<Field>)
    requires
        set_once(f),
        f.to_multiset() == g.to_multiset(),
    ensures
        set_once(g),
{
    broadcast use vstd::seq_lib::group_to_multiset_ensures;

    assert(f.no_duplicates());
    f.lemma_multiset_has_no_duplicates();
    g.lemma_multiset_has_no_duplicates_conv();
    assert forall|i: int, j: int| 0 <= i < j < g.len() implies target(#[trigger] g[i]) != target(
        #[trigger] g[j],
    ) by {
        assert(g.contains(g[i]) && g.contains(g[j]));
        assert(g.to_multiset().count(g[i]) > 0 && g.to_multiset().count(g[j]) > 0);
        assert(f.contains(g[i]) && f.contains(g[j]));
        let a = choose|a: int| 0 <= a < f.len() && f[a] == g[i];
        let b = choose|b: int| 0 <= b < f.len() && f[b] == g[j];
        assert(a != b);
        if a < b {
            assert(target(f[a]) != target(f[b]));
        } else {
            assert(target(f[b]) != target(f[a]));
        }
    }
}

/// Fields may be read in any order, as long as nothing is set twice.
#[verifier::spinoff_prover]
pub proof fn lemma_field_order(p: PayloadView, f: Seq<Field>, g: Seq<Field>)
    requires
        set_once(f),
        f.to_multiset() == g.to_multiset(),
    ensures
        with_fields(p, f) == with_fields(p, g),
    decreases f.len(),
{
    broadcast use vstd::seq_lib::group_to_multiset_ensures;

    lemma_set_once_permuted(f, g);
    assert(f.len() == f.to_multiset().len());
    assert(g.len() == g.to_multiset().len());
    if f.len() > 0 {
        let x = f.last();
        assert(f.contains(x));
        assert(f.to_multiset().count(x) > 0);
        assert(g.contains(x));
        let i = choose|i: int| 0 <= i < g.len() && g[i] == x;
        lemma_read_last(p, g, i);
        let rest = f.drop_last();
        let left = g.remove(i);
        assert(f.remove(f.len() - 1) =~= rest);
        vstd::seq_lib::to_multiset_remove(f, f.len() - 1);
        vstd::seq_lib::to_multiset_remove(g, i);
        lemma_field_order(p, rest, left);
    }
}

// ---------------------------------------------------------------------------
// Strings
// ---------------------------------------------------------------------------

/// Whether a text can stand in quotes.
pub open spec fn quotable(x: Seq<u8>) -> bool {
    forall|i: int| 0 <= i < x.len() ==> #[trigger] x[i] != 0x22 && x[i] != 0x5c
}

/// A text in quotes.
pub open spec fn quoted(x: Seq<u8>) -> Seq<u8> {
    seq![0x22u8] + x + seq![0x22u8]
}

proof fn lemma_string_len_of(s: Seq<u8>, i: int, n: int)
    requires
        0 <= i <= n < s.len(),
        forall|k: int| i <= k < n ==> #[trigger] s[k] != 0x22 && s[k] != 0x5c,
        s[n] == 0x22,
    ensures
        string_len(s, i) == n,
    decreases n - i,
{
    if i < n {
        lemma_string_len_of(s, i + 1, n);
    }
}

/// A text in quotes is read as that text.
pub proof fn lemma_quoted_read(x: Seq<u8>, t: Seq<u8>)
    requires
        quotable(x),
    ensures
        string_at(quoted(x) + t) == Ok::<(Seq<u8>, Seq<u8>), ParseErr>((x, t)),
{
    let s = quoted(x) + t;
    assert(after_ws(s) == s);
    let r = s.skip(1);
    assert(r =~= x + seq![0x22u8] + t);
    lemma_string_len_of(r, 0, x.len() as int);
    assert(r.take(x.len() as int) =~= x);
    assert(r.skip(x.len() as int + 1) =~= t);
}

// ---------------------------------------------------------------------------
// Numbers
// ---------------------------------------------------------------------------

/// Whether a field that holds a number holds a decimal number.
spec fn field_is_sound(f: Field) -> bool {
    match f {
        Field::Amount(x) => is_number(x),
        Field::Installments(x) => is_number(x),
        Field::CustomerAvg(x) => is_number(x),
        Field::TxCount(x) => is_number(x),
        Field::MerchantAvg(x) => is_number(x),
        Field::KmFromHome(x) => is_number(x),
        Field::KmFromCurrent(x) => is_number(x),
        Field::LastTransaction(Some(l)) => is_number(l.km_from_current),
        _ => true,
    }
}

spec fn fields_are_sound(f: Seq<Field>) -> bool {
    forall|i: int| 0 <= i < f.len() ==> field_is_sound(#[trigger] f[i])
}

/// Whether the numbers of a payload are decimal numbers.
pub open spec fn numbers_are_sound(p: PayloadView) -> bool {
    &&& is_number(p.amount)
    &&& is_number(p.installments)
    &&& is_number(p.customer_avg)
    &&& is_number(p.tx_count_24h)
    &&& is_number(p.merchant_avg)
    &&& is_number(p.terminal_km_from_home)
    &&& p.last_transaction matches Some(l) ==> is_number(l.km_from_current)
}

proof fn lemma_zero_is_number()
    ensures
        is_number(zero()),
{
    reveal_with_fuel(digits_end, 3);
    assert(zero()[0] == 0x30);
    assert(digits_end(zero(), 0) == 1);
}

proof fn lemma_last_sound(f: Seq<Field>)
    requires
        fields_are_sound(f),
    ensures
        is_number(with_last_fields(blank_last(), f).km_from_current),
    decreases f.len(),
{
    lemma_zero_is_number();
    if f.len() > 0 {
        assert(fields_are_sound(f.drop_last()));
        lemma_last_sound(f.drop_last());
        assert(field_is_sound(f[f.len() - 1]));
    }
}

#[verifier::spinoff_prover]
proof fn lemma_field_sound(section: Section, key: Seq<u8>, s: Seq<u8>)
    ensures
        field_at(section, key, s) matches Ok((f, _)) ==> fields_are_sound(f),
    decreases s.len(), 1int,
{
    match section {
        Section::Top => {
            if key == TRANSACTION@ {
                lemma_object_sound(Section::Transaction, s);
            } else if key == CUSTOMER@ {
                lemma_object_sound(Section::Customer, s);
            } else if key == MERCHANT@ {
                lemma_object_sound(Section::Merchant, s);
            } else if key == TERMINAL@ {
                lemma_object_sound(Section::Terminal, s);
            } else {
                lemma_object_sound(Section::Last, s);
                if let Ok((f, _)) = object_at(Section::Last, s) {
                    lemma_last_sound(f);
                }
            }
        },
        Section::Transaction => {},
        Section::Customer => {},
        Section::Merchant => {},
        Section::Terminal => {},
        Section::Last => {},
    }
}

proof fn lemma_object_sound(section: Section, s: Seq<u8>)
    ensures
        object_at(section, s) matches Ok((f, _)) ==> fields_are_sound(f),
    decreases s.len(), 0int,
{
    lemma_tokens_take(s);
    if let Ok(t) = expect(s, 0x7b) {
        lemma_members_sound(section, t);
    }
}

proof fn lemma_members_sound(section: Section, s: Seq<u8>)
    ensures
        members_at(section, s) matches Ok((f, _)) ==> fields_are_sound(f),
    decreases s.len(), 2int,
{
    lemma_after_ws(s);
    let t = after_ws(s);
    if !starts(t, 0x7d) {
        let member = member_at(section, t);
        if let Ok((key, k)) = string_at(t) {
            lemma_tokens_take(t);
            lemma_tokens_take(k);
            if let Ok(v) = expect(k, 0x3a) {
                lemma_field_sound(section, key, v);
            }
        }
        lemma_member_takes(section, t);
        if let Ok((_, r)) = member {
            lemma_members_sound(section, r);
        }
    }
}

proof fn lemma_with_fields_sound(f: Seq<Field>)
    requires
        fields_are_sound(f),
    ensures
        numbers_are_sound(with_fields(blank_payload(), f)),
    decreases f.len(),
{
    lemma_zero_is_number();
    if f.len() > 0 {
        assert(fields_are_sound(f.drop_last()));
        lemma_with_fields_sound(f.drop_last());
        assert(field_is_sound(f[f.len() - 1]));
    }
}

/// Every number of a payload that was read is a decimal number.
pub proof fn lemma_payload_numbers(s: Seq<u8>)
    ensures
        payload(s) matches Ok(p) ==> numbers_are_sound(p),
{
    lemma_object_sound(Section::Top, s);
    if let Ok((f, _)) = object_at(Section::Top, s) {
        lemma_with_fields_sound(f);
    }
}

} // verus!
