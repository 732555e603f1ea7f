//! From payloads to feature vectors.
//!
//! A feature is a number between 0 and 1, held in ten-thousandths. What comes
//! out of a division of decimal numbers is measured by the caller; everything
//! else is computed here.

pub mod calendar;

use crate::bytes::same_bytes;
use crate::decimal::{digits_among, digits_value, lemma_digits_push};
use crate::json::grammar::PayloadView;
use crate::json::Payload;
use crate::specialist::built::quantised;
use crate::specialist::geometry::{padded, DIM};
use calendar::{
    counting_year, epoch_days, epoch_seconds, lemma_weekday_follows_days, month_offset, quotient,
    weekday,
};
use vstd::prelude::*;

verus! {

// ---------------------------------------------------------------------------
// Moments
// ---------------------------------------------------------------------------

/// The number that two digits make up is ten times the first and the second; a
/// byte that is no digit is passed over.
pub proof fn lemma_digits_number(s: Seq<u8>, b: u8)
    ensures
        digits_number(seq![]) == 0,
        0x30 <= b <= 0x39 ==> digits_number(s.push(b)) == 10 * digits_number(s) + (b - 0x30),
        !(0x30 <= b <= 0x39) ==> digits_number(s.push(b)) == digits_number(s),
{
    let t = s.push(b);
    let n = s.len() as int;
    lemma_digits_of_front(s, t, n);
    assert(digits_among(Seq::<u8>::empty(), 0) =~= Seq::<u8>::empty());
    assert(digits_value(Seq::<u8>::empty()) == 0);
    if 0x30 <= b <= 0x39 {
        lemma_digits_push(digits_among(t, n), b);
    }
}

proof fn lemma_digits_of_front(s: Seq<u8>, t: Seq<u8>, n: int)
    requires
        forall|k: int| 0 <= k < n ==> s[k] == t[k],
    ensures
        digits_among(s, n) == digits_among(t, n),
    decreases n,
{
    if n > 0 {
        lemma_digits_of_front(s, t, n - 1);
    }
}

/// The number that the digits of a text make up; other bytes are passed over.
pub open spec fn digits_number(s: Seq<u8>) -> int {
    digits_value(digits_among(s, s.len() as int)) as int
}

fn read_digits(s: &[u8]) -> (r: i32)
    requires
        s@.len() <= 4,
    ensures
        r == digits_number(s@),
        0 <= r,
        s@.len() <= 2 ==> r <= 99,
        r <= 9999,
{
    let mut v: i32 = 0;
    let mut i: usize = 0;
    let ghost mut limit: int = 1;
    while i < s.len()
        invariant
            i <= s@.len() <= 4,
            v == digits_value(digits_among(s@, i as int)),
            0 <= v < limit,
            limit == (if i == 0 {
                1int
            } else if i == 1 {
                10
            } else if i == 2 {
                100
            } else if i == 3 {
                1000
            } else {
                10000
            }),
        decreases s@.len() - i,
    {
        let b: u8 = s[i];
        if b >= 0x30 && b <= 0x39 {
            proof {
                lemma_digits_push(digits_among(s@, i as int), b);
            }
            v = v * 10 + (b - 0x30) as i32;
        }
        proof {
            limit = limit * 10;
        }
        i = i + 1;
    }
    v
}

/// A moment: year, month, day, hour, minute and second.
pub type Moment = (i32, i32, i32, i32, i32, i32);

/// The moment that a text such as `2026-03-11T18:45:53Z` stands for. The
/// numbers are found by their places alone.
pub open spec fn moment(ts: Seq<u8>) -> (int, int, int, int, int, int) {
    (
        digits_number(ts.subrange(0, 4)),
        digits_number(ts.subrange(5, 7)),
        digits_number(ts.subrange(8, 10)),
        digits_number(ts.subrange(11, 13)),
        digits_number(ts.subrange(14, 16)),
        digits_number(ts.subrange(17, 19)),
    )
}

/// Reads a moment.
pub fn parse_iso(ts: &[u8]) -> (r: Moment)
    requires
        ts@.len() >= 19,
    ensures
        ({
            let m = moment(ts@);
            &&& r.0 == m.0 && r.1 == m.1 && r.2 == m.2 && r.3 == m.3 && r.4 == m.4 && r.5 == m.5
        }),
        0 <= r.0 <= 9999,
        0 <= r.1 <= 99,
        0 <= r.2 <= 99,
        0 <= r.3 <= 99,
        0 <= r.4 <= 99,
        0 <= r.5 <= 99,
        (forall|i: int|
            0 <= i < 19 && i != 4 && i != 7 && i != 10 && i != 13 && i != 16 ==> 0x30
                <= #[trigger] ts@[i] <= 0x39) ==> {
            &&& r.0 == 1000 * (ts@[0] - 0x30) + 100 * (ts@[1] - 0x30) + 10 * (ts@[2] - 0x30) + (
            ts@[3] - 0x30)
            &&& r.1 == 10 * (ts@[5] - 0x30) + (ts@[6] - 0x30)
            &&& r.2 == 10 * (ts@[8] - 0x30) + (ts@[9] - 0x30)
            &&& r.3 == 10 * (ts@[11] - 0x30) + (ts@[12] - 0x30)
            &&& r.4 == 10 * (ts@[14] - 0x30) + (ts@[15] - 0x30)
            &&& r.5 == 10 * (ts@[17] - 0x30) + (ts@[18] - 0x30)
        },
{
    proof {
        if forall|i: int|
            0 <= i < 19 && i != 4 && i != 7 && i != 10 && i != 13 && i != 16 ==> 0x30
                <= #[trigger] ts@[i] <= 0x39 {
            lemma_moment_digits(ts@);
        }
    }
    (
        read_digits(&ts[0..4]),
        read_digits(&ts[5..7]),
        read_digits(&ts[8..10]),
        read_digits(&ts[11..13]),
        read_digits(&ts[14..16]),
        read_digits(&ts[17..19]),
    )
}

const MONTH_OFFSETS: [i32; 12] = [0, 3, 2, 5, 0, 3, 5, 1, 4, 6, 2, 4];

fn divide(a: i32, b: i32) -> (r: i32)
    requires
        0 < b,
        -0x7fff_ffff <= a,
    ensures
        r == quotient(a as int, b as int),
        a >= 0 ==> 0 <= r <= a,
        a < 0 ==> a <= r <= 0,
{
    if a >= 0 {
        assert(0 <= a / b <= a) by (nonlinear_arith)
            requires
                0 <= a,
                0 < b,
        ;
        a / b
    } else {
        assert(0 <= (-a) / (b as int) <= -a) by (nonlinear_arith)
            requires
                a < 0,
                0 < b,
        ;
        -((-a) / b)
    }
}

/// Whether the sum that a day of the week is taken from fits 32 bits at every
/// step.
pub open spec fn weekday_fits(y: int, m: int, d: int) -> bool {
    let c = counting_year(y, m);
    let s1 = c + quotient(c, 4);
    let s2 = s1 - quotient(c, 100);
    let s3 = s2 + quotient(c, 400);
    let s4 = s3 + month_offset(m);
    &&& i32::MIN <= s1 <= i32::MAX
    &&& i32::MIN <= s2 <= i32::MAX
    &&& i32::MIN <= s3 <= i32::MAX
    &&& i32::MIN <= s4 <= i32::MAX
    &&& i32::MIN <= s4 + d <= i32::MAX
}

/// Day of the week by Sakamoto's method, from 0 for Monday to 6 for Sunday.
pub fn day_of_week(y: i32, m: i32, d: i32) -> (r: i32)
    requires
        1 <= m <= 12,
        weekday_fits(y as int, m as int, d as int),
    ensures
        r == weekday(y as int, m as int, d as int),
        0 <= r <= 6,
{
    let c: i32 = if m < 3 {
        y - 1
    } else {
        y
    };
    let offset: i32 = MONTH_OFFSETS[(m - 1) as usize];
    assert(offset == month_offset(m as int)) by {
        assert(MONTH_OFFSETS@ =~= seq![0i32, 3, 2, 5, 0, 3, 5, 1, 4, 6, 2, 4]);
    }
    let sum: i32 = c + divide(c, 4) - divide(c, 100) + divide(c, 400) + offset + d;
    let sunday_based: i32 = ((sum as i64 + 7 * 0x4000_0000) % 7) as i32;
    assert(sunday_based == sum % 7);
    (sunday_based + 6) % 7
}

/// The era of 400 years that a year is in, counted from the year 0.
fn era_of(y: i64) -> (r: i64)
    requires
        -0x1_0000_0000 <= y <= 0x1_0000_0000,
    ensures
        r == y as int / 400,
        -0x100_0000 <= r <= 0x100_0000,
{
    // Moved up by a multiple of the divisor, so that the division has no sign
    // to look at.
    (y + 400 * 0x100_0000) / 400 - 0x100_0000
}

/// Day of the year, counted from March, on which a month starts.
fn month_start(m: i64) -> (r: i64)
    requires
        -0x1_0000_0000 <= m <= 0x1_0000_0000,
    ensures
        r == quotient(153 * m + 2, 5),
        -0x100_0000_0000 <= r <= 0x100_0000_0000,
{
    let scaled: i64 = 153 * m + 2;
    if scaled >= 0 {
        scaled / 5
    } else {
        -((-scaled) / 5)
    }
}

/// Days from 1970-01-01, by Hinnant's method.
fn days_from_epoch(y: i32, mo: i32, d: i32) -> (r: i64)
    ensures
        r == epoch_days(y as int, mo as int, d as int),
        -0x1000_0000_0000 <= r <= 0x1000_0000_0000,
{
    let y2: i64 = if mo <= 2 {
        y as i64 - 1
    } else {
        y as i64
    };
    let era: i64 = era_of(y2);
    let yoe: i64 = y2 - era * 400;
    let m_adj: i64 = if mo > 2 {
        mo as i64 - 3
    } else {
        mo as i64 + 9
    };
    let doy: i64 = month_start(m_adj) + d as i64 - 1;
    let doe: i64 = yoe * 365 + yoe / 4 - yoe / 100 + doy;
    era * 146097 + doe - 719468
}

/// Seconds from the start of 1970.
pub fn ts_to_epoch(y: i32, mo: i32, d: i32, h: i32, mi: i32, s: i32) -> (r: i64)
    ensures
        r == epoch_seconds(y as int, mo as int, d as int, h as int, mi as int, s as int),
        r == 86400 * epoch_days(y as int, mo as int, d as int) + 3600 * h + 60 * mi + s,
        -0x4000_0000_0000_0000 <= r <= 0x4000_0000_0000_0000,
{
    days_from_epoch(y, mo, d) * 86400 + h as i64 * 3600 + mi as i64 * 60 + s as i64
}

// ---------------------------------------------------------------------------
// Features
// ---------------------------------------------------------------------------

/// Features of a payload that are quotients of decimal numbers, in
/// ten-thousandths, and its two counts.
#[derive(Copy, Clone, Debug)]
pub struct Measures {
    pub amount: i32,
    pub installments: i32,
    pub amount_vs_avg: i32,
    pub minutes_since_last: i32,
    pub km_from_last: i32,
    pub km_from_home: i32,
    pub tx_count_24h: i32,
    pub merchant_avg: i32,
}

/// The fraction `n / of` in ten-thousandths, rounded half up.
pub open spec fn fraction(n: int, of: int) -> int {
    (20000 * n + of) / (2 * of)
}

/// The fraction `n / of` in ten-thousandths, held between 0 and 1.
pub open spec fn capped(n: int, of: int) -> int {
    if n <= 0 {
        0
    } else if n >= of {
        10000
    } else {
        fraction(n, of)
    }
}

/// The nearest 16-bit number.
pub open spec fn clamped(x: int) -> i16 {
    if x < i16::MIN {
        i16::MIN
    } else if x > i16::MAX {
        i16::MAX
    } else {
        x as i16
    }
}

/// Risk of a merchant category, in ten-thousandths.
pub open spec fn category_risk(mcc: Seq<u8>) -> int {
    if mcc == seq![0x35u8, 0x34, 0x31, 0x31] {
        1500
    } else if mcc == seq![0x35u8, 0x38, 0x31, 0x32] {
        3000
    } else if mcc == seq![0x35u8, 0x39, 0x31, 0x32] {
        2000
    } else if mcc == seq![0x35u8, 0x39, 0x34, 0x34] {
        4500
    } else if mcc == seq![0x37u8, 0x38, 0x30, 0x31] {
        8000
    } else if mcc == seq![0x37u8, 0x38, 0x30, 0x32] {
        7500
    } else if mcc == seq![0x37u8, 0x39, 0x39, 0x35] {
        8500
    } else if mcc == seq![0x34u8, 0x35, 0x31, 0x31] {
        3500
    } else if mcc == seq![0x35u8, 0x33, 0x31, 0x31] {
        2500
    } else {
        5000
    }
}

/// Whether a payload has moments in it that can be placed in the calendar.
pub open spec fn placeable(p: PayloadView) -> bool {
    &&& p.requested_at.len() >= 19
    &&& 1 <= moment(p.requested_at).1 <= 12
    &&& p.last_transaction matches Some(l) ==> l.timestamp.len() >= 19
}

/// Seconds from the start of 1970 to the moment in a text.
pub open spec fn seconds_of(ts: Seq<u8>) -> int {
    let m = moment(ts);
    epoch_seconds(m.0, m.1, m.2, m.3, m.4, m.5)
}

/// Whether the merchant of a payload is among the known ones.
pub open spec fn merchant_known(p: PayloadView) -> bool {
    p.known_merchants.contains(p.merchant_id)
}

/// A flag as a feature.
pub open spec fn flag(on: bool) -> int {
    if on {
        10000
    } else {
        0
    }
}

/// The features of a payload, in ten-thousandths: amount, installments,
/// amount against the customer's average, hour of the day, day of the week,
/// minutes and distance since the previous transaction (-1 where there is
/// none), distance from home, transactions of the day, online, card present,
/// unknown merchant, category risk and the merchant's average.
pub open spec fn features(p: PayloadView, m: Measures) -> Seq<int> {
    let at = moment(p.requested_at);
    seq![
        m.amount as int,
        capped(m.installments as int, 12),
        m.amount_vs_avg as int,
        fraction(at.3, 23),
        fraction(weekday(at.0, at.1, at.2), 6),
        if p.last_transaction is Some { m.minutes_since_last as int } else { -10000 },
        if p.last_transaction is Some { m.km_from_last as int } else { -10000 },
        m.km_from_home as int,
        capped(m.tx_count_24h as int, 20),
        flag(p.is_online),
        flag(p.card_present),
        flag(!merchant_known(p)),
        category_risk(p.merchant_mcc),
        m.merchant_avg as int,
    ]
}

/// The feature vector of a payload.
pub open spec fn feature_vector(p: PayloadView, m: Measures) -> Seq<i16> {
    Seq::new(DIM as nat, |d: int| clamped(features(p, m)[d]))
}

fn fraction_of(n: i32, of: i32) -> (r: i32)
    requires
        0 <= n <= 9999,
        0 < of <= 100,
    ensures
        r == fraction(n as int, of as int),
        0 <= r,
{
    let top: i32 = 20000 * n + of;
    let bottom: i32 = 2 * of;
    assert(top / bottom >= 0) by (nonlinear_arith)
        requires
            top >= 0,
            bottom > 0,
    ;
    top / bottom
}

fn capped_fraction(n: i32, of: i32) -> (r: i32)
    requires
        0 < of <= 100,
    ensures
        r == capped(n as int, of as int),
{
    if n <= 0 {
        0
    } else if n >= of {
        10000
    } else {
        fraction_of(n, of)
    }
}

/// The nearest 16-bit number.
pub fn clamp16(x: i32) -> (r: i16)
    ensures
        r == clamped(x as int),
        x < -0x8000 ==> r == -0x8000,
        -0x8000 <= x <= 0x7fff ==> r == x,
        x > 0x7fff ==> r == 0x7fff,
{
    if x < -0x8000 {
        -0x8000
    } else if x > 0x7fff {
        0x7fff
    } else {
        x as i16
    }
}

/// Risk of a merchant category, in ten-thousandths.
pub fn mcc_risk(mcc: &[u8]) -> (r: i32)
    ensures
        r == category_risk(mcc@),
        mcc@ == seq![0x35u8, 0x34, 0x31, 0x31] ==> r == 1500,
        mcc@ == seq![0x35u8, 0x38, 0x31, 0x32] ==> r == 3000,
        mcc@ == seq![0x35u8, 0x39, 0x31, 0x32] ==> r == 2000,
        mcc@ == seq![0x35u8, 0x39, 0x34, 0x34] ==> r == 4500,
        mcc@ == seq![0x37u8, 0x38, 0x30, 0x31] ==> r == 8000,
        mcc@ == seq![0x37u8, 0x38, 0x30, 0x32] ==> r == 7500,
        mcc@ == seq![0x37u8, 0x39, 0x39, 0x35] ==> r == 8500,
        mcc@ == seq![0x34u8, 0x35, 0x31, 0x31] ==> r == 3500,
        mcc@ == seq![0x35u8, 0x33, 0x31, 0x31] ==> r == 2500,
        ({
            &&& mcc@ != seq![0x35u8, 0x34, 0x31, 0x31]
            &&& mcc@ != seq![0x35u8, 0x38, 0x31, 0x32]
            &&& mcc@ != seq![0x35u8, 0x39, 0x31, 0x32]
            &&& mcc@ != seq![0x35u8, 0x39, 0x34, 0x34]
            &&& mcc@ != seq![0x37u8, 0x38, 0x30, 0x31]
            &&& mcc@ != seq![0x37u8, 0x38, 0x30, 0x32]
            &&& mcc@ != seq![0x37u8, 0x39, 0x39, 0x35]
            &&& mcc@ != seq![0x34u8, 0x35, 0x31, 0x31]
            &&& mcc@ != seq![0x35u8, 0x33, 0x31, 0x31]
        }) ==> r == 5000,
{
    if mcc.len() != 4 {
        return 5000;
    }
    let code: (u8, u8, u8, u8) = (mcc[0], mcc[1], mcc[2], mcc[3]);
    let r: i32 = match code {
        (0x35, 0x34, 0x31, 0x31) => 1500,
        (0x35, 0x38, 0x31, 0x32) => 3000,
        (0x35, 0x39, 0x31, 0x32) => 2000,
        (0x35, 0x39, 0x34, 0x34) => 4500,
        (0x37, 0x38, 0x30, 0x31) => 8000,
        (0x37, 0x38, 0x30, 0x32) => 7500,
        (0x37, 0x39, 0x39, 0x35) => 8500,
        (0x34, 0x35, 0x31, 0x31) => 3500,
        (0x35, 0x33, 0x31, 0x31) => 2500,
        _ => 5000,
    };
    assert(mcc@ =~= seq![mcc@[0], mcc@[1], mcc@[2], mcc@[3]]);
    r
}

/// Tests whether the merchant of a payload is among the known ones.
pub fn knows_merchant(p: &Payload) -> (r: bool)
    requires
        p.wf(),
    ensures
        r == merchant_known(p@),
        r <==> exists|i: int|
            0 <= i < p.known_n && (#[trigger] p.known_merchants@[i])@ == p.merchant_id@,
{
    let mut i: usize = 0;
    while i < p.known_n
        invariant
            i <= p.known_n <= 16,
            p.known_merchants@.len() == 16,
            forall|k: int| 0 <= k < i ==> p@.known_merchants[k] != p@.merchant_id,
            forall|k: int|
                0 <= k < i ==> (#[trigger] p.known_merchants@[k])@ != p.merchant_id@,
        decreases p.known_n - i,
    {
        if same_bytes(p.known_merchants[i], p.merchant_id) {
            assert(p@.known_merchants[i as int] == p@.merchant_id);
            assert(p.known_merchants@[i as int]@ == p.merchant_id@);
            return true;
        }
        i = i + 1;
    }
    false
}

/// Tests whether a payload has moments in it that can be placed.
pub fn is_placeable(p: &Payload) -> (r: bool)
    ensures
        r == placeable(p@),
        r <==> {
            &&& p.requested_at@.len() >= 19
            &&& 1 <= digits_number(p.requested_at@.subrange(5, 7)) <= 12
            &&& p.last_transaction matches Some(l) ==> l.timestamp@.len() >= 19
        },
{
    if p.requested_at.len() < 19 {
        return false;
    }
    let at: Moment = parse_iso(p.requested_at);
    if at.1 < 1 || at.1 > 12 {
        return false;
    }
    match p.last_transaction {
        Some(l) => l.timestamp.len() >= 19,
        None => true,
    }
}

/// Seconds from the previous transaction to the request.
pub fn seconds_since_last(p: &Payload) -> (r: Option<i64>)
    requires
        placeable(p@),
    ensures
        r is Some <==> p@.last_transaction is Some,
        p@.last_transaction matches Some(l) ==> r matches Some(s) && s == seconds_of(
            p@.requested_at,
        ) - seconds_of(l.timestamp),
        p@.last_transaction matches Some(l) ==> {
            let a = moment(p@.requested_at);
            let b = moment(l.timestamp);
            r == Some(
                (86400 * (epoch_days(a.0, a.1, a.2) - epoch_days(b.0, b.1, b.2)) + 3600 * (a.3
                    - b.3) + 60 * (a.4 - b.4) + (a.5 - b.5)) as i64,
            )
        },
{
    match p.last_transaction {
        Some(l) => {
            let a: Moment = parse_iso(p.requested_at);
            let b: Moment = parse_iso(l.timestamp);
            let now: i64 = ts_to_epoch(a.0, a.1, a.2, a.3, a.4, a.5);
            let then_at: i64 = ts_to_epoch(b.0, b.1, b.2, b.3, b.4, b.5);
            Some(now - then_at)
        },
        None => None,
    }
}

/// Turns a payload into its feature vector.
#[verifier::spinoff_prover]
pub fn vectorize_int16(p: &Payload, m: &Measures) -> (v: [i16; DIM])
    requires
        p.wf(),
        placeable(p@),
    ensures
        v@ == feature_vector(p@, *m),
        -0x8000 <= m.amount <= 0x7fff ==> v@[0] == m.amount,
        m.installments <= 0 ==> v@[1] == 0,
        m.installments >= 12 ==> v@[1] == 10000,
        0 < m.installments < 12 ==> 20000 * m.installments - 12 < 24 * v@[1] <= 20000
            * m.installments + 12,
        -0x8000 <= m.amount_vs_avg <= 0x7fff ==> v@[2] == m.amount_vs_avg,
        ({
            let h = digits_number(p.requested_at@.subrange(11, 13));
            h <= 23 ==> 20000 * h - 23 < 46 * v@[3] <= 20000 * h + 23
        }),
        ({
            let at = moment(p.requested_at@);
            let w = (epoch_days(at.0, at.1, at.2) + 3) % 7;
            at.0 >= 1 ==> 20000 * w - 6 < 12 * v@[4] <= 20000 * w + 6
        }),
        p.last_transaction is None ==> v@[5] == -10000 && v@[6] == -10000,
        p.last_transaction is Some && -0x8000 <= m.minutes_since_last <= 0x7fff ==> v@[5]
            == m.minutes_since_last,
        p.last_transaction is Some && -0x8000 <= m.km_from_last <= 0x7fff ==> v@[6]
            == m.km_from_last,
        -0x8000 <= m.km_from_home <= 0x7fff ==> v@[7] == m.km_from_home,
        m.tx_count_24h <= 0 ==> v@[8] == 0,
        m.tx_count_24h >= 20 ==> v@[8] == 10000,
        0 < m.tx_count_24h < 20 ==> v@[8] == 500 * m.tx_count_24h,
        v@[9] == (if p.is_online {
            10000int
        } else {
            0
        }),
        v@[10] == (if p.card_present {
            10000int
        } else {
            0
        }),
        v@[11] == 0 || v@[11] == 10000,
        v@[11] == 0 <==> exists|i: int|
            0 <= i < p.known_n && (#[trigger] p.known_merchants@[i])@ == p.merchant_id@,
        p.merchant_mcc@ == seq![0x35u8, 0x34, 0x31, 0x31] ==> v@[12] == 1500,
        p.merchant_mcc@ == seq![0x35u8, 0x38, 0x31, 0x32] ==> v@[12] == 3000,
        p.merchant_mcc@ == seq![0x35u8, 0x39, 0x31, 0x32] ==> v@[12] == 2000,
        p.merchant_mcc@ == seq![0x35u8, 0x39, 0x34, 0x34] ==> v@[12] == 4500,
        p.merchant_mcc@ == seq![0x37u8, 0x38, 0x30, 0x31] ==> v@[12] == 8000,
        p.merchant_mcc@ == seq![0x37u8, 0x38, 0x30, 0x32] ==> v@[12] == 7500,
        p.merchant_mcc@ == seq![0x37u8, 0x39, 0x39, 0x35] ==> v@[12] == 8500,
        p.merchant_mcc@ == seq![0x34u8, 0x35, 0x31, 0x31] ==> v@[12] == 3500,
        p.merchant_mcc@ == seq![0x35u8, 0x33, 0x31, 0x31] ==> v@[12] == 2500,
        ({
            &&& p.merchant_mcc@ != seq![0x35u8, 0x34, 0x31, 0x31]
            &&& p.merchant_mcc@ != seq![0x35u8, 0x38, 0x31, 0x32]
            &&& p.merchant_mcc@ != seq![0x35u8, 0x39, 0x31, 0x32]
            &&& p.merchant_mcc@ != seq![0x35u8, 0x39, 0x34, 0x34]
            &&& p.merchant_mcc@ != seq![0x37u8, 0x38, 0x30, 0x31]
            &&& p.merchant_mcc@ != seq![0x37u8, 0x38, 0x30, 0x32]
            &&& p.merchant_mcc@ != seq![0x37u8, 0x39, 0x39, 0x35]
            &&& p.merchant_mcc@ != seq![0x34u8, 0x35, 0x31, 0x31]
            &&& p.merchant_mcc@ != seq![0x35u8, 0x33, 0x31, 0x31]
        }) ==> v@[12] == 5000,
        -0x8000 <= m.merchant_avg <= 0x7fff ==> v@[13] == m.merchant_avg,
{
    let at: Moment = parse_iso(p.requested_at);
    let known: bool = knows_merchant(p);
    let minutes: i32;
    let km: i32;
    match p.last_transaction {
        Some(_) => {
            minutes = m.minutes_since_last;
            km = m.km_from_last;
        },
        None => {
            minutes = -10000;
            km = -10000;
        },
    }
    let v: [i16; DIM] = [
        clamp16(m.amount),
        clamp16(capped_fraction(m.installments, 12)),
        clamp16(m.amount_vs_avg),
        clamp16(fraction_of(at.3, 23)),
        clamp16(fraction_of(day_of_week(at.0, at.1, at.2), 6)),
        clamp16(minutes),
        clamp16(km),
        clamp16(m.km_from_home),
        clamp16(capped_fraction(m.tx_count_24h, 20)),
        if p.is_online {
            10000
        } else {
            0
        },
        if p.card_present {
            10000
        } else {
            0
        },
        if known {
            0
        } else {
            10000
        },
        clamp16(mcc_risk(p.merchant_mcc)),
        clamp16(m.merchant_avg),
    ];
    assert(v@ =~= feature_vector(p@, *m));
    proof {
        lemma_weekday_feature(p@, *m);
        lemma_hour_feature(p@, *m);
        if 0 < m.installments < 12 {
            lemma_fraction(m.installments as int, 12);
        }
        if 0 < m.tx_count_24h < 20 {
            lemma_fraction(m.tx_count_24h as int, 20);
        }
    }
    v
}

// ---------------------------------------------------------------------------
// Laws
// ---------------------------------------------------------------------------

/// Whether a measured feature lies between 0 and 1.
pub open spec fn is_feature(x: int) -> bool {
    0 <= x <= 10000
}

/// Whether all measured features lie between 0 and 1.
pub open spec fn measures_are_features(m: Measures) -> bool {
    &&& is_feature(m.amount as int)
    &&& is_feature(m.amount_vs_avg as int)
    &&& is_feature(m.minutes_since_last as int)
    &&& is_feature(m.km_from_last as int)
    &&& is_feature(m.km_from_home as int)
    &&& is_feature(m.merchant_avg as int)
}

proof fn lemma_fraction_is_feature(n: int, of: int)
    requires
        0 <= n <= of,
        0 < of,
    ensures
        is_feature(fraction(n, of)),
{
    assert(0 <= (20000 * n + of) / (2 * of) <= 10000) by (nonlinear_arith)
        requires
            0 <= n <= of,
            0 < of,
    ;
}

/// A fraction in ten-thousandths is the nearest one.
proof fn lemma_fraction(n: int, of: int)
    requires
        0 <= n,
        0 < of,
    ensures
        20000 * n - of < 2 * of * fraction(n, of) <= 20000 * n + of,
{
    let top = 20000 * n + of;
    vstd::arithmetic::div_mod::lemma_fundamental_div_mod(top, 2 * of);
    vstd::arithmetic::div_mod::lemma_mod_bound(top, 2 * of);
}

/// Feature 12 is the risk of the merchant category, by the table of the nine
/// categories that have one of their own.
pub proof fn lemma_category_feature(p: PayloadView, m: Measures)
    ensures
        p.merchant_mcc == seq![0x35u8, 0x34, 0x31, 0x31] ==> feature_vector(p, m)[12] == 1500,
        p.merchant_mcc == seq![0x35u8, 0x38, 0x31, 0x32] ==> feature_vector(p, m)[12] == 3000,
        p.merchant_mcc == seq![0x35u8, 0x39, 0x31, 0x32] ==> feature_vector(p, m)[12] == 2000,
        p.merchant_mcc == seq![0x35u8, 0x39, 0x34, 0x34] ==> feature_vector(p, m)[12] == 4500,
        p.merchant_mcc == seq![0x37u8, 0x38, 0x30, 0x31] ==> feature_vector(p, m)[12] == 8000,
        p.merchant_mcc == seq![0x37u8, 0x38, 0x30, 0x32] ==> feature_vector(p, m)[12] == 7500,
        p.merchant_mcc == seq![0x37u8, 0x39, 0x39, 0x35] ==> feature_vector(p, m)[12] == 8500,
        p.merchant_mcc == seq![0x34u8, 0x35, 0x31, 0x31] ==> feature_vector(p, m)[12] == 3500,
        p.merchant_mcc == seq![0x35u8, 0x33, 0x31, 0x31] ==> feature_vector(p, m)[12] == 2500,
        ({
            &&& p.merchant_mcc != seq![0x35u8, 0x34, 0x31, 0x31]
            &&& p.merchant_mcc != seq![0x35u8, 0x38, 0x31, 0x32]
            &&& p.merchant_mcc != seq![0x35u8, 0x39, 0x31, 0x32]
            &&& p.merchant_mcc != seq![0x35u8, 0x39, 0x34, 0x34]
            &&& p.merchant_mcc != seq![0x37u8, 0x38, 0x30, 0x31]
            &&& p.merchant_mcc != seq![0x37u8, 0x38, 0x30, 0x32]
            &&& p.merchant_mcc != seq![0x37u8, 0x39, 0x39, 0x35]
            &&& p.merchant_mcc != seq![0x34u8, 0x35, 0x31, 0x31]
            &&& p.merchant_mcc != seq![0x35u8, 0x33, 0x31, 0x31]
        }) ==> feature_vector(p, m)[12] == 5000,
{
}

/// Feature 3 is the hour of the day, in parts of 23.
pub proof fn lemma_hour_feature(p: PayloadView, m: Measures)
    ensures
        ({
            let h = digits_number(p.requested_at.subrange(11, 13));
            h <= 23 ==> 20000 * h - 23 < 46 * feature_vector(p, m)[3] <= 20000 * h + 23
        }),
{
    let h = digits_number(p.requested_at.subrange(11, 13));
    if h <= 23 {
        lemma_fraction(h, 23);
    }
}

/// Feature 4 is the day of the week, in parts of six: it goes with the days
/// since the start of 1970.
pub proof fn lemma_weekday_feature(p: PayloadView, m: Measures)
    requires
        1 <= moment(p.requested_at).1 <= 12,
    ensures
        ({
            let at = moment(p.requested_at);
            let w = (epoch_days(at.0, at.1, at.2) + 3) % 7;
            at.0 >= 1 ==> 20000 * w - 6 < 12 * feature_vector(p, m)[4] <= 20000 * w + 6
        }),
{
    let at = moment(p.requested_at);
    if at.0 >= 1 {
        lemma_weekday_follows_days(at.0, at.1, at.2);
        lemma_fraction(weekday(at.0, at.1, at.2), 6);
    }
}

/// The places of a moment in a text: two digits each, and four of the year.
pub proof fn lemma_moment_digits(ts: Seq<u8>)
    requires
        ts.len() >= 19,
        forall|i: int|
            0 <= i < 19 && i != 4 && i != 7 && i != 10 && i != 13 && i != 16 ==> 0x30
                <= #[trigger] ts[i] <= 0x39,
    ensures
        moment(ts).0 == 1000 * (ts[0] - 0x30) + 100 * (ts[1] - 0x30) + 10 * (ts[2] - 0x30) + (ts[3]
            - 0x30),
        moment(ts).1 == 10 * (ts[5] - 0x30) + (ts[6] - 0x30),
        moment(ts).2 == 10 * (ts[8] - 0x30) + (ts[9] - 0x30),
        moment(ts).3 == 10 * (ts[11] - 0x30) + (ts[12] - 0x30),
        moment(ts).4 == 10 * (ts[14] - 0x30) + (ts[15] - 0x30),
        moment(ts).5 == 10 * (ts[17] - 0x30) + (ts[18] - 0x30),
{
    lemma_two_digits(ts.subrange(5, 7));
    lemma_two_digits(ts.subrange(8, 10));
    lemma_two_digits(ts.subrange(11, 13));
    lemma_two_digits(ts.subrange(14, 16));
    lemma_two_digits(ts.subrange(17, 19));
    let y = ts.subrange(0, 4);
    reveal_with_fuel(digits_among, 5);
    let d1 = digits_among(y, 1);
    let d2 = digits_among(y, 2);
    let d3 = digits_among(y, 3);
    assert(y[0] == ts[0] && y[1] == ts[1] && y[2] == ts[2] && y[3] == ts[3]);
    assert(digits_among(y, 0) =~= Seq::<u8>::empty());
    lemma_digits_push(digits_among(y, 0), y[0]);
    lemma_digits_push(d1, y[1]);
    lemma_digits_push(d2, y[2]);
    lemma_digits_push(d3, y[3]);
    assert(digits_value(Seq::<u8>::empty()) == 0);
}

proof fn lemma_two_digits(s: Seq<u8>)
    requires
        s.len() == 2,
        0x30 <= s[0] <= 0x39,
        0x30 <= s[1] <= 0x39,
    ensures
        digits_number(s) == 10 * (s[0] - 0x30) + (s[1] - 0x30),
{
    reveal_with_fuel(digits_among, 3);
    assert(digits_among(s, 0) =~= Seq::<u8>::empty());
    lemma_digits_push(digits_among(s, 0), s[0]);
    lemma_digits_push(digits_among(s, 1), s[1]);
    assert(digits_value(Seq::<u8>::empty()) == 0);
}

/// The feature vector of a request within the day is quantised: every feature
/// lies between 0 and 1, but for the -1 where there is no previous
/// transaction.
#[verifier::spinoff_prover]
pub proof fn lemma_vector_quantised(p: PayloadView, m: Measures)
    requires
        measures_are_features(m),
        moment(p.requested_at).3 <= 23,
    ensures
        quantised(padded(feature_vector(p, m))),
{
    let at = moment(p.requested_at);
    let f = features(p, m);
    lemma_fraction_is_feature(at.3, 23);
    lemma_fraction_is_feature(weekday(at.0, at.1, at.2), 6);
    if 0 < m.installments < 12 {
        lemma_fraction_is_feature(m.installments as int, 12);
    }
    if 0 < m.tx_count_24h < 20 {
        lemma_fraction_is_feature(m.tx_count_24h as int, 20);
    }
    let v = padded(feature_vector(p, m));
    assert(f[0] == m.amount && f[1] == capped(m.installments as int, 12) && f[2]
        == m.amount_vs_avg && f[3] == fraction(at.3, 23));
    assert(f[4] == fraction(weekday(at.0, at.1, at.2), 6));
    assert(-10000 <= f[5] <= 10000 && -10000 <= f[6] <= 10000);
    assert(f[7] == m.km_from_home && f[8] == capped(m.tx_count_24h as int, 20));
    assert(is_feature(f[9]) && is_feature(f[10]) && is_feature(f[11]) && is_feature(f[12]));
    assert(f[13] == m.merchant_avg);
    assert forall|d: int| 0 <= d < 16 implies (if d == 5 || d == 6 {
        -10000
    } else {
        0int
    }) <= #[trigger] v[d] <= (if d < DIM {
        10000
    } else {
        0int
    }) by {
        if d < DIM {
            assert(v[d] == clamped(f[d]));
            assert(d != 5 && d != 6 ==> is_feature(f[d]));
        }
    }
}

} // verus!
