//! Decimal numbers as the standard library reads them.

use vstd::prelude::*;

verus! {

/// Whether a byte is an ASCII digit.
pub open spec fn is_digit(b: u8) -> bool {
    0x30 <= b <= 0x39
}

/// Whether a byte string is one digit or more.
pub open spec fn is_digits(s: Seq<u8>) -> bool {
    s.len() > 0 && forall|i: int| 0 <= i < s.len() ==> is_digit(#[trigger] s[i])
}

/// The number that a string of digits stands for.
pub open spec fn digits_value(s: Seq<u8>) -> nat
    decreases s.len(),
{
    if s.len() == 0 {
        0
    } else {
        10 * digits_value(s.drop_last()) + (s.last() - 0x30) as nat
    }
}

/// The digits among the first `n` bytes.
pub open spec fn digits_among(s: Seq<u8>, n: int) -> Seq<u8>
    decreases n,
{
    if n <= 0 {
        seq![]
    } else if is_digit(s[n - 1]) {
        digits_among(s, n - 1).push(s[n - 1])
    } else {
        digits_among(s, n - 1)
    }
}

/// One more digit.
pub proof fn lemma_digits_push(d: Seq<u8>, b: u8)
    requires
        is_digit(b),
    ensures
        digits_value(d.push(b)) == 10 * digits_value(d) + (b - 0x30),
{
    assert(d.push(b).drop_last() =~= d);
}

/// A number in decimal.
pub open spec fn decimal(n: nat) -> Seq<u8>
    decreases n,
{
    if n < 10 {
        seq![(0x30 + n) as u8]
    } else {
        decimal(n / 10) + seq![(0x30 + n % 10) as u8]
    }
}

/// A number in decimal stands for that number.
pub proof fn lemma_decimal_value(n: nat)
    ensures
        is_digits(decimal(n)),
        digits_value(decimal(n)) == n,
    decreases n,
{
    let s = decimal(n);
    if n < 10 {
        assert(s.drop_last() =~= Seq::<u8>::empty());
        assert(digits_value(s.drop_last()) == 0);
    } else {
        lemma_decimal_value(n / 10);
        let front = decimal(n / 10);
        let last = (0x30 + n % 10) as u8;
        assert(s =~= front.push(last));
        lemma_digits_push(front, last);
        assert forall|i: int| 0 <= i < s.len() implies is_digit(#[trigger] s[i]) by {
            if i < front.len() {
                assert(is_digit(front[i]));
            }
        }
    }
}

/// The number that `s` stands for: an optional plus sign and digits.
pub open spec fn unsigned_value(s: Seq<u8>) -> Option<nat> {
    if s.len() > 0 && s[0] == 0x2b {
        if is_digits(s.skip(1)) {
            Some(digits_value(s.skip(1)))
        } else {
            None
        }
    } else if is_digits(s) {
        Some(digits_value(s))
    } else {
        None
    }
}

/// The number that `s` stands for: an optional sign and digits.
pub open spec fn signed_value(s: Seq<u8>) -> Option<int> {
    if s.len() > 0 && s[0] == 0x2d {
        if is_digits(s.skip(1)) {
            Some(-(digits_value(s.skip(1)) as int))
        } else {
            None
        }
    } else {
        match unsigned_value(s) {
            Some(v) => Some(v as int),
            None => None,
        }
    }
}

/// Numbers are read as they are written: in decimal, with any zeros in front, and
/// with a sign or without.
pub proof fn lemma_numbers_written(n: nat)
    ensures
        unsigned_value(decimal(n)) == Some(n),
        unsigned_value(seq![0x2bu8] + decimal(n)) == Some(n),
        signed_value(decimal(n)) == Some(n as int),
        signed_value(seq![0x2bu8] + decimal(n)) == Some(n as int),
        signed_value(seq![0x2du8] + decimal(n)) == Some(-(n as int)),
        unsigned_value(seq![0x2du8] + decimal(n)) is None,
{
    let s = decimal(n);
    lemma_decimal_value(n);
    assert(is_digit(s[0]));
    assert((seq![0x2bu8] + s).skip(1) =~= s);
    assert((seq![0x2du8] + s).skip(1) =~= s);
    assert(!is_digit((seq![0x2du8] + s)[0]));
}

/// Zeros in front of a number change nothing.
pub proof fn lemma_leading_zero(s: Seq<u8>)
    requires
        is_digits(s),
    ensures
        unsigned_value(seq![0x30u8] + s) == unsigned_value(s),
        unsigned_value(s) == Some(digits_value(s)),
{
    let t = seq![0x30u8] + s;
    assert(is_digit(s[0]));
    assert forall|i: int| 0 <= i < t.len() implies is_digit(#[trigger] t[i]) by {
        if i > 0 {
            assert(t[i] == s[i - 1]);
        }
    }
    lemma_zero_in_front(s);
}

proof fn lemma_zero_in_front(s: Seq<u8>)
    requires
        forall|i: int| 0 <= i < s.len() ==> is_digit(#[trigger] s[i]),
    ensures
        digits_value(seq![0x30u8] + s) == digits_value(s),
    decreases s.len(),
{
    let t = seq![0x30u8] + s;
    if s.len() == 0 {
        assert(t.drop_last() =~= Seq::<u8>::empty());
        assert(digits_value(t.drop_last()) == 0);
    } else {
        let front = s.drop_last();
        assert forall|i: int| 0 <= i < front.len() implies is_digit(#[trigger] front[i]) by {
            assert(front[i] == s[i]);
        }
        lemma_zero_in_front(front);
        assert(t.drop_last() =~= seq![0x30u8] + front);
        assert(t.last() == s.last());
    }
}

/// A text with anything in it but digits, and a sign in front of them, is no
/// number; nor is one without a digit.
pub proof fn lemma_no_number(s: Seq<u8>, i: int)
    requires
        s.len() == 0 || (0 <= i < s.len() && !(0x30 <= s[i] <= 0x39) && (i > 0 || (s[0] != 0x2b
            && s[0] != 0x2d) || s.len() == 1)),
    ensures
        unsigned_value(s) is None,
        signed_value(s) is None,
{
    if s.len() > 0 {
        let t = s.skip(1);
        if i > 0 {
            assert(t[i - 1] == s[i]);
        }
        assert(!is_digit(s[i]));
    }
}

/// Reads digits up to a largest number.
fn parse_digits(s: &[u8], max: u64) -> (r: Option<u64>)
    ensures
        r is Some <==> is_digits(s@) && digits_value(s@) <= max,
        r matches Some(v) ==> v == digits_value(s@),
{
    if s.len() == 0 {
        return None;
    }
    let mut value: u128 = 0;
    let mut over: bool = false;
    let mut i: usize = 0;
    assert(s@.take(0).len() == 0);
    while i < s.len()
        invariant
            i <= s@.len(),
            forall|k: int| 0 <= k < i ==> is_digit(#[trigger] s@[k]),
            over ==> digits_value(s@.take(i as int)) > max,
            !over ==> value == digits_value(s@.take(i as int)) && value <= max,
        decreases s@.len() - i,
    {
        let b: u8 = s[i];
        if b < 0x30 || b > 0x39 {
            assert(!is_digit(s@[i as int]));
            return None;
        }
        assert(s@.take(i + 1).drop_last() =~= s@.take(i as int));
        assert(s@.take(i + 1).last() == b);
        if !over {
            value = value * 10 + (b - 0x30) as u128;
            if value > max as u128 {
                over = true;
            }
        }
        i = i + 1;
    }
    assert(s@.take(i as int) =~= s@);
    if over {
        None
    } else {
        Some(value as u64)
    }
}

/// Reads a number up to a largest one.
pub fn parse_unsigned(s: &[u8], max: u64) -> (r: Option<u64>)
    ensures
        r is Some <==> (unsigned_value(s@) matches Some(v) && v <= max),
        r matches Some(n) ==> unsigned_value(s@) == Some(n as nat),
{
    assert(s@.len() > 0 ==> s@.subrange(1, s@.len() as int) =~= s@.skip(1));
    if s.len() > 0 && s[0] == 0x2b {
        parse_digits(&s[1..s.len()], max)
    } else {
        parse_digits(s, max)
    }
}

/// Reads a 32-bit number.
pub fn parse_u32(s: &[u8]) -> (r: Option<u32>)
    ensures
        r is Some <==> (unsigned_value(s@) matches Some(v) && v <= u32::MAX),
        r matches Some(n) ==> unsigned_value(s@) == Some(n as nat),
{
    match parse_unsigned(s, u32::MAX as u64) {
        Some(v) => Some(v as u32),
        None => None,
    }
}

/// Reads a signed 64-bit number.
pub fn parse_i64(s: &[u8]) -> (r: Option<i64>)
    ensures
        r is Some <==> (signed_value(s@) matches Some(v) && i64::MIN <= v <= i64::MAX),
        r matches Some(n) ==> signed_value(s@) == Some(n as int),
{
    assert(s@.len() > 0 ==> s@.subrange(1, s@.len() as int) =~= s@.skip(1));
    if s.len() > 0 && s[0] == 0x2d {
        match parse_digits(&s[1..s.len()], 0x8000_0000_0000_0000) {
            Some(v) => Some((-(v as i128)) as i64),
            None => None,
        }
    } else {
        match parse_unsigned(s, i64::MAX as u64) {
            Some(v) => Some(v as i64),
            None => None,
        }
    }
}

} // verus!
