//! What the text of a payload means.
//!
//! Every function reads from the start of a text and gives back what it has
//! read and the rest of the text.

use super::words::{
    AMOUNT, AVG_AMOUNT, CARD_PRESENT, CUSTOMER, FALSE, ID, INSTALLMENTS, IS_ONLINE, KM_FROM_CURRENT,
    KM_FROM_HOME, KNOWN_MERCHANTS, LAST_TRANSACTION, MCC, MERCHANT, NULL, REQUESTED_AT, TERMINAL,
    TIMESTAMP, TRANSACTION, TRUE, TX_COUNT_24H,
};
use super::{ParseErr, MAX_KNOWN_MERCHANTS};
use crate::decimal::is_digit;
use vstd::prelude::*;

verus! {

/// What was read, and the rest of the text.
pub type Read<T> = Result<(T, Seq<u8>), ParseErr>;

// ---------------------------------------------------------------------------
// Tokens
// ---------------------------------------------------------------------------

/// Whether a byte is white space.
pub open spec fn is_space(b: u8) -> bool {
    b == 0x20 || b == 0x09 || b == 0x0a || b == 0x0d
}

/// A text without the white space that it starts with.
pub open spec fn after_ws(s: Seq<u8>) -> Seq<u8>
    decreases s.len(),
{
    if s.len() > 0 && is_space(s[0]) {
        after_ws(s.skip(1))
    } else {
        s
    }
}

/// Whether a text starts with the byte `ch`.
pub open spec fn starts(s: Seq<u8>, ch: u8) -> bool {
    s.len() > 0 && s[0] == ch
}

/// Whether a text starts with `word`.
pub open spec fn starts_with(s: Seq<u8>, word: Seq<u8>) -> bool {
    word.len() <= s.len() && s.take(word.len() as int) == word
}

/// The rest of a text behind the byte `ch`.
pub open spec fn expect(s: Seq<u8>, ch: u8) -> Result<Seq<u8>, ParseErr> {
    let t = after_ws(s);
    if starts(t, ch) {
        Ok(t.skip(1))
    } else {
        Err(ParseErr::Unexpected)
    }
}

/// The rest of a text behind a comma, if one comes next.
pub open spec fn after_comma(s: Seq<u8>) -> Seq<u8> {
    let t = after_ws(s);
    if starts(t, 0x2c) {
        t.skip(1)
    } else {
        t
    }
}

/// Length of a string: up to the first quote or backslash.
pub open spec fn string_len(s: Seq<u8>, i: int) -> int
    decreases s.len() - i,
{
    if i < s.len() && s[i] != 0x22 && s[i] != 0x5c {
        string_len(s, i + 1)
    } else {
        i
    }
}

/// A string in quotes. Strings never hold escape sequences, so a backslash is
/// an error.
pub open spec fn string_at(s: Seq<u8>) -> Read<Seq<u8>> {
    let t = after_ws(s);
    if !starts(t, 0x22) {
        Err(ParseErr::Unexpected)
    } else {
        let r = t.skip(1);
        let n = string_len(r, 0);
        if n >= r.len() {
            Err(ParseErr::EndOfInput)
        } else if r[n] == 0x5c {
            Err(ParseErr::Unexpected)
        } else {
            Ok((r.take(n), r.skip(n + 1)))
        }
    }
}

/// Where reading a string stops that cannot be read: at the byte that is no
/// quote, at the backslash, or at the end of the text.
pub open spec fn string_stop(s: Seq<u8>) -> Seq<u8> {
    let t = after_ws(s);
    if !starts(t, 0x22) {
        t
    } else {
        t.skip(1).skip(string_len(t.skip(1), 0))
    }
}

/// Whether a byte may stand in a number.
pub open spec fn in_number(b: u8) -> bool {
    is_digit(b) || b == 0x2e || b == 0x65 || b == 0x45 || b == 0x2b || b == 0x2d
}

/// Length of the longest run of bytes that may stand in a number.
pub open spec fn number_len(s: Seq<u8>, i: int) -> int
    decreases s.len() - i,
{
    if i < s.len() && in_number(s[i]) {
        number_len(s, i + 1)
    } else {
        i
    }
}

/// Where the digits from `i` on end.
pub open spec fn digits_end(s: Seq<u8>, i: int) -> int
    decreases s.len() - i,
{
    if i < s.len() && is_digit(s[i]) {
        digits_end(s, i + 1)
    } else {
        i
    }
}

/// Whether a sign stands at `i`.
pub open spec fn sign_at(s: Seq<u8>, i: int) -> bool {
    i < s.len() && (s[i] == 0x2b || s[i] == 0x2d)
}

/// Whether an exponent stands at `i`, up to the end of `s`.
pub open spec fn exponent_at(s: Seq<u8>, i: int) -> bool {
    let first = if sign_at(s, i + 1) {
        i + 2
    } else {
        i + 1
    };
    &&& i < s.len()
    &&& s[i] == 0x65 || s[i] == 0x45
    &&& first < s.len()
    &&& digits_end(s, first) == s.len()
}

/// Whether `s` is a decimal number: an optional sign, digits with an optional
/// point before, between or behind them, and an optional exponent.
pub open spec fn is_number(s: Seq<u8>) -> bool {
    let a = if sign_at(s, 0) {
        1int
    } else {
        0
    };
    let b = digits_end(s, a);
    if b < s.len() && s[b] == 0x2e {
        let c = digits_end(s, b + 1);
        (a < b || b + 1 < c) && (c == s.len() || exponent_at(s, c))
    } else {
        a < b && (b == s.len() || exponent_at(s, b))
    }
}

/// A number, as its text.
pub open spec fn number_at(s: Seq<u8>) -> Read<Seq<u8>> {
    let t = after_ws(s);
    let n = number_len(t, 0);
    if n > 0 && is_number(t.take(n)) {
        Ok((t.take(n), t.skip(n)))
    } else {
        Err(ParseErr::Unexpected)
    }
}

/// Where reading a number stops that cannot be read: behind the bytes that may
/// stand in one.
pub open spec fn number_stop(s: Seq<u8>) -> Seq<u8> {
    let t = after_ws(s);
    t.skip(number_len(t, 0))
}

/// `true` or `false`.
pub open spec fn bool_at(s: Seq<u8>) -> Read<bool> {
    let t = after_ws(s);
    if starts_with(t, TRUE@) {
        Ok((true, t.skip(4)))
    } else if starts_with(t, FALSE@) {
        Ok((false, t.skip(5)))
    } else {
        Err(ParseErr::Unexpected)
    }
}

/// Whether `null` comes next, and the rest of the text behind it.
pub open spec fn null_at(s: Seq<u8>) -> (bool, Seq<u8>) {
    let t = after_ws(s);
    if starts_with(t, NULL@) {
        (true, t.skip(4))
    } else {
        (false, t)
    }
}

pub proof fn lemma_after_ws(s: Seq<u8>)
    ensures
        after_ws(s).len() <= s.len(),
        after_ws(s).len() > 0 ==> !is_space(after_ws(s)[0]),
        after_ws(after_ws(s)) == after_ws(s),
    decreases s.len(),
{
    if s.len() > 0 && is_space(s[0]) {
        lemma_after_ws(s.skip(1));
    }
}

pub proof fn lemma_string_len(s: Seq<u8>, i: int)
    requires
        0 <= i <= s.len(),
    ensures
        i <= string_len(s, i) <= s.len(),
        forall|k: int| i <= k < string_len(s, i) ==> #[trigger] s[k] != 0x22 && s[k] != 0x5c,
    decreases s.len() - i,
{
    if i < s.len() && s[i] != 0x22 && s[i] != 0x5c {
        lemma_string_len(s, i + 1);
    }
}

pub proof fn lemma_number_len(s: Seq<u8>, i: int)
    requires
        0 <= i <= s.len(),
    ensures
        i <= number_len(s, i) <= s.len(),
    decreases s.len() - i,
{
    if i < s.len() && in_number(s[i]) {
        lemma_number_len(s, i + 1);
    }
}

pub proof fn lemma_digits_end(s: Seq<u8>, i: int)
    requires
        0 <= i <= s.len(),
    ensures
        i <= digits_end(s, i) <= s.len(),
    decreases s.len() - i,
{
    if i < s.len() && is_digit(s[i]) {
        lemma_digits_end(s, i + 1);
    }
}

/// What a token takes of the text.
pub proof fn lemma_tokens_take(s: Seq<u8>)
    ensures
        forall|ch: u8|
            (#[trigger] expect(s, ch)) matches Ok(t) ==> t.len() < s.len(),
        string_at(s) matches Ok((_, t)) ==> t.len() < s.len(),
        number_at(s) matches Ok((_, t)) ==> t.len() < s.len(),
        bool_at(s) matches Ok((_, t)) ==> t.len() < s.len(),
        null_at(s).1.len() <= s.len(),
        after_comma(s).len() <= s.len(),
{
    lemma_after_ws(s);
    let t = after_ws(s);
    lemma_number_len(t, 0);
    if t.len() > 0 {
        lemma_string_len(t.skip(1), 0);
    }
}

// ---------------------------------------------------------------------------
// Values that are passed over
// ---------------------------------------------------------------------------

/// The rest of a text behind a value of any kind.
pub open spec fn value_skipped(s: Seq<u8>) -> Result<Seq<u8>, ParseErr>
    decreases s.len(), 0int,
{
    proof {
        lemma_after_ws(s);
    }
    let t = after_ws(s);
    if t.len() == 0 {
        Err(ParseErr::EndOfInput)
    } else if t[0] == 0x22 {
        match string_at(t) {
            Ok((_, r)) => Ok(r),
            Err(e) => Err(e),
        }
    } else if t[0] == 0x7b {
        pairs_skipped(t.skip(1))
    } else if t[0] == 0x5b {
        items_skipped(t.skip(1))
    } else if t[0] == 0x74 || t[0] == 0x66 {
        match bool_at(t) {
            Ok((_, r)) => Ok(r),
            Err(e) => Err(e),
        }
    } else if t[0] == 0x6e {
        Ok(null_at(t).1)
    } else {
        match number_at(t) {
            Ok((_, r)) => Ok(r),
            Err(e) => Err(e),
        }
    }
}

/// The rest of a text behind the items of an array.
pub open spec fn items_skipped(s: Seq<u8>) -> Result<Seq<u8>, ParseErr>
    decreases s.len(), 1int,
{
    proof {
        lemma_after_ws(s);
    }
    let t = after_ws(s);
    if starts(t, 0x5d) {
        Ok(t.skip(1))
    } else {
        match value_skipped(t) {
            Ok(r) => {
                let u = after_ws(r);
                if starts(u, 0x2c) && u.len() <= s.len() {
                    items_skipped(u.skip(1))
                } else {
                    expect(u, 0x5d)
                }
            },
            Err(e) => Err(e),
        }
    }
}

/// The rest of a text behind the members of an object.
pub open spec fn pairs_skipped(s: Seq<u8>) -> Result<Seq<u8>, ParseErr>
    decreases s.len(), 1int,
{
    proof {
        lemma_after_ws(s);
        lemma_tokens_take(after_ws(s));
    }
    let t = after_ws(s);
    if starts(t, 0x7d) {
        Ok(t.skip(1))
    } else {
        match string_at(t) {
            Ok((_, k)) => match expect(k, 0x3a) {
                Ok(v) => if v.len() < s.len() {
                    match value_skipped(v) {
                        Ok(r) => {
                            let u = after_ws(r);
                            if starts(u, 0x2c) && u.len() <= s.len() {
                                pairs_skipped(u.skip(1))
                            } else {
                                expect(u, 0x7d)
                            }
                        },
                        Err(e) => Err(e),
                    }
                } else {
                    Err(ParseErr::Unexpected)
                },
                Err(e) => Err(e),
            },
            Err(e) => Err(e),
        }
    }
}

/// A value takes what it takes from the front.
pub proof fn lemma_value_skipped(s: Seq<u8>)
    ensures
        value_skipped(s) matches Ok(r) ==> r.len() <= s.len(),
    decreases s.len(), 0int,
{
    lemma_after_ws(s);
    let t = after_ws(s);
    if t.len() > 0 {
        lemma_tokens_take(t);
        if t[0] == 0x7b {
            lemma_pairs_skipped(t.skip(1));
        } else if t[0] == 0x5b {
            lemma_items_skipped(t.skip(1));
        }
    }
}

pub proof fn lemma_items_skipped(s: Seq<u8>)
    ensures
        items_skipped(s) matches Ok(r) ==> r.len() <= s.len(),
    decreases s.len(), 1int,
{
    lemma_after_ws(s);
    let t = after_ws(s);
    if !starts(t, 0x5d) {
        lemma_value_skipped(t);
        if let Ok(r) = value_skipped(t) {
            lemma_after_ws(r);
            let u = after_ws(r);
            lemma_tokens_take(u);
            if starts(u, 0x2c) {
                lemma_items_skipped(u.skip(1));
            }
        }
    }
}

pub proof fn lemma_pairs_skipped(s: Seq<u8>)
    ensures
        pairs_skipped(s) matches Ok(r) ==> r.len() <= s.len(),
    decreases s.len(), 1int,
{
    lemma_after_ws(s);
    let t = after_ws(s);
    lemma_tokens_take(t);
    if !starts(t, 0x7d) {
        if let Ok((_, k)) = string_at(t) {
            lemma_tokens_take(k);
            if let Ok(v) = expect(k, 0x3a) {
                lemma_value_skipped(v);
                if let Ok(r) = value_skipped(v) {
                    lemma_after_ws(r);
                    let u = after_ws(r);
                    lemma_tokens_take(u);
                    if starts(u, 0x2c) {
                        lemma_pairs_skipped(u.skip(1));
                    }
                }
            }
        }
    }
}

// ---------------------------------------------------------------------------
// Payloads
// ---------------------------------------------------------------------------

/// A previous transaction.
pub struct LastTxView {
    pub timestamp: Seq<u8>,
    pub km_from_current: Seq<u8>,
}

/// A payload, with its numbers as text.
pub struct PayloadView {
    pub amount: Seq<u8>,
    pub installments: Seq<u8>,
    pub requested_at: Seq<u8>,
    pub customer_avg: Seq<u8>,
    pub tx_count_24h: Seq<u8>,
    pub known_merchants: Seq<Seq<u8>>,
    pub merchant_id: Seq<u8>,
    pub merchant_mcc: Seq<u8>,
    pub merchant_avg: Seq<u8>,
    pub is_online: bool,
    pub card_present: bool,
    pub terminal_km_from_home: Seq<u8>,
    pub last_transaction: Option<LastTxView>,
}

/// The number zero.
pub open spec fn zero() -> Seq<u8> {
    seq![0x30u8]
}

/// A previous transaction of which nothing was said.
pub open spec fn blank_last() -> LastTxView {
    LastTxView { timestamp: seq![], km_from_current: zero() }
}

/// A payload of which nothing was said.
pub open spec fn blank_payload() -> PayloadView {
    PayloadView {
        amount: zero(),
        installments: zero(),
        requested_at: seq![],
        customer_avg: zero(),
        tx_count_24h: zero(),
        known_merchants: seq![],
        merchant_id: seq![],
        merchant_mcc: seq![],
        merchant_avg: zero(),
        is_online: false,
        card_present: false,
        terminal_km_from_home: zero(),
        last_transaction: None,
    }
}

/// What one member of an object says.
pub enum Field {
    Amount(Seq<u8>),
    Installments(Seq<u8>),
    RequestedAt(Seq<u8>),
    CustomerAvg(Seq<u8>),
    TxCount(Seq<u8>),
    KnownMerchants(Seq<Seq<u8>>),
    MerchantId(Seq<u8>),
    MerchantMcc(Seq<u8>),
    MerchantAvg(Seq<u8>),
    IsOnline(bool),
    CardPresent(bool),
    KmFromHome(Seq<u8>),
    LastTransaction(Option<LastTxView>),
    Timestamp(Seq<u8>),
    KmFromCurrent(Seq<u8>),
}

/// The first of some merchants, as many as are kept.
pub open spec fn first_merchants(m: Seq<Seq<u8>>) -> Seq<Seq<u8>> {
    if m.len() <= MAX_KNOWN_MERCHANTS {
        m
    } else {
        m.take(MAX_KNOWN_MERCHANTS as int)
    }
}

/// A payload after one more field was read.
pub open spec fn with_field(p: PayloadView, f: Field) -> PayloadView {
    match f {
        Field::Amount(x) => PayloadView { amount: x, ..p },
        Field::Installments(x) => PayloadView { installments: x, ..p },
        Field::RequestedAt(x) => PayloadView { requested_at: x, ..p },
        Field::CustomerAvg(x) => PayloadView { customer_avg: x, ..p },
        Field::TxCount(x) => PayloadView { tx_count_24h: x, ..p },
        Field::KnownMerchants(m) => PayloadView { known_merchants: first_merchants(m), ..p },
        Field::MerchantId(x) => PayloadView { merchant_id: x, ..p },
        Field::MerchantMcc(x) => PayloadView { merchant_mcc: x, ..p },
        Field::MerchantAvg(x) => PayloadView { merchant_avg: x, ..p },
        Field::IsOnline(x) => PayloadView { is_online: x, ..p },
        Field::CardPresent(x) => PayloadView { card_present: x, ..p },
        Field::KmFromHome(x) => PayloadView { terminal_km_from_home: x, ..p },
        Field::LastTransaction(x) => PayloadView { last_transaction: x, ..p },
        Field::Timestamp(_) => p,
        Field::KmFromCurrent(_) => p,
    }
}

/// A previous transaction after one more field was read.
pub open spec fn with_last_field(l: LastTxView, f: Field) -> LastTxView {
    match f {
        Field::Timestamp(x) => LastTxView { timestamp: x, ..l },
        Field::KmFromCurrent(x) => LastTxView { km_from_current: x, ..l },
        _ => l,
    }
}

/// A payload after some fields were read, one after the other.
pub open spec fn with_fields(p: PayloadView, f: Seq<Field>) -> PayloadView
    decreases f.len(),
{
    if f.len() == 0 {
        p
    } else {
        with_field(with_fields(p, f.drop_last()), f.last())
    }
}

/// A previous transaction after some fields were read.
pub open spec fn with_last_fields(l: LastTxView, f: Seq<Field>) -> LastTxView
    decreases f.len(),
{
    if f.len() == 0 {
        l
    } else {
        with_last_field(with_last_fields(l, f.drop_last()), f.last())
    }
}

/// The objects of a payload.
#[derive(Copy, Clone)]
pub enum Section {
    Top,
    Transaction,
    Customer,
    Merchant,
    Terminal,
    Last,
}

/// One field from a string.
pub open spec fn text_field(r: Read<Seq<u8>>, field: spec_fn(Seq<u8>) -> Field) -> Read<Seq<Field>> {
    match r {
        Ok((x, t)) => Ok((seq![field(x)], t)),
        Err(e) => Err(e),
    }
}

/// One field from `true` or `false`.
pub open spec fn flag_field(r: Read<bool>, field: spec_fn(bool) -> Field) -> Read<Seq<Field>> {
    match r {
        Ok((x, t)) => Ok((seq![field(x)], t)),
        Err(e) => Err(e),
    }
}

/// No field, from a value that is passed over.
pub open spec fn no_field(r: Result<Seq<u8>, ParseErr>) -> Read<Seq<Field>> {
    match r {
        Ok(t) => Ok((seq![], t)),
        Err(e) => Err(e),
    }
}

/// The strings of an array. Commas between them may be missing.
pub open spec fn strings_at(s: Seq<u8>) -> Read<Seq<Seq<u8>>>
    decreases s.len(),
{
    proof {
        lemma_after_ws(s);
        lemma_tokens_take(after_ws(s));
    }
    let t = after_ws(s);
    if starts(t, 0x5d) {
        Ok((seq![], t.skip(1)))
    } else {
        match string_at(t) {
            Ok((x, r)) => if after_comma(r).len() < s.len() {
                match strings_at(after_comma(r)) {
                    Ok((more, rest)) => Ok((seq![x] + more, rest)),
                    Err(e) => Err(e),
                }
            } else {
                Err(ParseErr::Unexpected)
            },
            Err(e) => Err(e),
        }
    }
}

/// The known merchants.
pub open spec fn merchants_at(s: Seq<u8>) -> Read<Seq<Field>> {
    match expect(s, 0x5b) {
        Ok(t) => match strings_at(t) {
            Ok((m, r)) => Ok((seq![Field::KnownMerchants(m)], r)),
            Err(e) => Err(e),
        },
        Err(e) => Err(e),
    }
}

/// The value of a member of a section, by its key. Unknown keys are passed
/// over.
pub open spec fn field_at(section: Section, key: Seq<u8>, s: Seq<u8>) -> Read<Seq<Field>>
    decreases s.len(), 1int,
{
    match section {
        Section::Top => if key == ID@ {
            match string_at(s) {
                Ok((_, t)) => Ok((seq![], t)),
                Err(e) => Err(e),
            }
        } else if key == TRANSACTION@ {
            object_at(Section::Transaction, s)
        } else if key == CUSTOMER@ {
            object_at(Section::Customer, s)
        } else if key == MERCHANT@ {
            object_at(Section::Merchant, s)
        } else if key == TERMINAL@ {
            object_at(Section::Terminal, s)
        } else if key == LAST_TRANSACTION@ {
            let (is_null, t) = null_at(s);
            if is_null {
                Ok((seq![Field::LastTransaction(None)], t))
            } else {
                match object_at(Section::Last, s) {
                    Ok((f, r)) => Ok(
                        (
                            seq![
                                Field::LastTransaction(Some(with_last_fields(blank_last(), f))),
                            ],
                            r,
                        ),
                    ),
                    Err(e) => Err(e),
                }
            }
        } else {
            no_field(value_skipped(s))
        },
        Section::Transaction => if key == AMOUNT@ {
            text_field(number_at(s), |x: Seq<u8>| Field::Amount(x))
        } else if key == INSTALLMENTS@ {
            text_field(number_at(s), |x: Seq<u8>| Field::Installments(x))
        } else if key == REQUESTED_AT@ {
            text_field(string_at(s), |x: Seq<u8>| Field::RequestedAt(x))
        } else {
            no_field(value_skipped(s))
        },
        Section::Customer => if key == AVG_AMOUNT@ {
            text_field(number_at(s), |x: Seq<u8>| Field::CustomerAvg(x))
        } else if key == TX_COUNT_24H@ {
            text_field(number_at(s), |x: Seq<u8>| Field::TxCount(x))
        } else if key == KNOWN_MERCHANTS@ {
            merchants_at(s)
        } else {
            no_field(value_skipped(s))
        },
        Section::Merchant => if key == ID@ {
            text_field(string_at(s), |x: Seq<u8>| Field::MerchantId(x))
        } else if key == MCC@ {
            text_field(string_at(s), |x: Seq<u8>| Field::MerchantMcc(x))
        } else if key == AVG_AMOUNT@ {
            text_field(number_at(s), |x: Seq<u8>| Field::MerchantAvg(x))
        } else {
            no_field(value_skipped(s))
        },
        Section::Terminal => if key == IS_ONLINE@ {
            flag_field(bool_at(s), |x: bool| Field::IsOnline(x))
        } else if key == CARD_PRESENT@ {
            flag_field(bool_at(s), |x: bool| Field::CardPresent(x))
        } else if key == KM_FROM_HOME@ {
            text_field(number_at(s), |x: Seq<u8>| Field::KmFromHome(x))
        } else {
            no_field(value_skipped(s))
        },
        Section::Last => if key == TIMESTAMP@ {
            text_field(string_at(s), |x: Seq<u8>| Field::Timestamp(x))
        } else if key == KM_FROM_CURRENT@ {
            text_field(number_at(s), |x: Seq<u8>| Field::KmFromCurrent(x))
        } else {
            no_field(value_skipped(s))
        },
    }
}

/// An object of a section.
pub open spec fn object_at(section: Section, s: Seq<u8>) -> Read<Seq<Field>>
    decreases s.len(), 0int,
{
    proof {
        lemma_tokens_take(s);
    }
    match expect(s, 0x7b) {
        Ok(t) => members_at(section, t),
        Err(e) => Err(e),
    }
}

/// One member of an object: a key, a colon, a value, and a comma if one comes
/// next.
pub open spec fn member_at(section: Section, s: Seq<u8>) -> Read<Seq<Field>>
    decreases s.len(), 2int,
{
    proof {
        lemma_tokens_take(s);
    }
    match string_at(s) {
        Ok((key, k)) => match expect(k, 0x3a) {
            Ok(v) => if v.len() < s.len() {
                match field_at(section, key, v) {
                    Ok((f, r)) => Ok((f, after_comma(r))),
                    Err(e) => Err(e),
                }
            } else {
                Err(ParseErr::Unexpected)
            },
            Err(e) => Err(e),
        },
        Err(e) => Err(e),
    }
}

/// The members of an object, up to the closing brace.
pub open spec fn members_at(section: Section, s: Seq<u8>) -> Read<Seq<Field>>
    decreases s.len(), 3int,
{
    proof {
        lemma_after_ws(s);
    }
    let t = after_ws(s);
    if starts(t, 0x7d) {
        Ok((seq![], t.skip(1)))
    } else {
        match member_at(section, t) {
            Ok((f, r)) => if r.len() < s.len() {
                match members_at(section, r) {
                    Ok((more, rest)) => Ok((f + more, rest)),
                    Err(e) => Err(e),
                }
            } else {
                Err(ParseErr::Unexpected)
            },
            Err(e) => Err(e),
        }
    }
}

/// The payload that a text stands for.
pub open spec fn payload(s: Seq<u8>) -> Result<PayloadView, ParseErr> {
    match object_at(Section::Top, s) {
        Ok((f, _)) => Ok(with_fields(blank_payload(), f)),
        Err(e) => Err(e),
    }
}

// ---------------------------------------------------------------------------
// Facts
// ---------------------------------------------------------------------------

pub proof fn lemma_strings_take(s: Seq<u8>)
    ensures
        strings_at(s) matches Ok((_, r)) ==> r.len() < s.len(),
    decreases s.len(),
{
    lemma_after_ws(s);
    let t = after_ws(s);
    lemma_tokens_take(t);
    if !starts(t, 0x5d) {
        if let Ok((_, r)) = string_at(t) {
            lemma_tokens_take(r);
            lemma_strings_take(after_comma(r));
        }
    }
}

pub proof fn lemma_field_takes(section: Section, key: Seq<u8>, s: Seq<u8>)
    ensures
        field_at(section, key, s) matches Ok((_, r)) ==> r.len() <= s.len(),
    decreases s.len(), 1int,
{
    lemma_tokens_take(s);
    lemma_value_skipped(s);
    if let Ok(t) = expect(s, 0x5b) {
        lemma_strings_take(t);
    }
    lemma_object_takes(Section::Transaction, s);
    lemma_object_takes(Section::Customer, s);
    lemma_object_takes(Section::Merchant, s);
    lemma_object_takes(Section::Terminal, s);
    lemma_object_takes(Section::Last, s);
}

pub proof fn lemma_object_takes(section: Section, s: Seq<u8>)
    ensures
        object_at(section, s) matches Ok((_, r)) ==> r.len() < s.len(),
    decreases s.len(), 0int,
{
    lemma_tokens_take(s);
    if let Ok(t) = expect(s, 0x7b) {
        lemma_members_take(section, t);
    }
}

pub proof fn lemma_member_takes(section: Section, s: Seq<u8>)
    ensures
        member_at(section, s) matches Ok((_, r)) ==> r.len() < s.len(),
    decreases s.len(), 2int,
{
    lemma_tokens_take(s);
    if let Ok((key, k)) = string_at(s) {
        lemma_tokens_take(k);
        if let Ok(v) = expect(k, 0x3a) {
            lemma_field_takes(section, key, v);
            if let Ok((_, r)) = field_at(section, key, v) {
                lemma_tokens_take(r);
            }
        }
    }
}

pub proof fn lemma_members_take(section: Section, s: Seq<u8>)
    ensures
        members_at(section, s) matches Ok((_, r)) ==> r.len() < s.len(),
    decreases s.len(), 3int,
{
    lemma_after_ws(s);
    let t = after_ws(s);
    if !starts(t, 0x7d) {
        lemma_member_takes(section, t);
        if let Ok((_, r)) = member_at(section, t) {
            lemma_members_take(section, r);
        }
    }
}

/// Fields that are read in two goes.
pub proof fn lemma_with_fields_add(p: PayloadView, a: Seq<Field>, b: Seq<Field>)
    ensures
        with_fields(p, a + b) == with_fields(with_fields(p, a), b),
    decreases b.len(),
{
    if b.len() == 0 {
        assert(a + b =~= a);
    } else {
        lemma_with_fields_add(p, a, b.drop_last());
        assert((a + b).drop_last() =~= a + b.drop_last());
    }
}

pub proof fn lemma_with_last_fields_add(l: LastTxView, a: Seq<Field>, b: Seq<Field>)
    ensures
        with_last_fields(l, a + b) == with_last_fields(with_last_fields(l, a), b),
    decreases b.len(),
{
    if b.len() == 0 {
        assert(a + b =~= a);
    } else {
        lemma_with_last_fields_add(l, a, b.drop_last());
        assert((a + b).drop_last() =~= a + b.drop_last());
    }
}

} // verus!
