//! Payloads of `POST /fraud-score`.
//!
//! The parser knows this one payload and nothing else. It allocates nothing:
//! strings and numbers are slices of the body. Keys may come in any order,
//! with white space between the tokens.

pub mod document;
pub mod grammar;
pub mod laws;
pub mod lookup;
pub mod ordering;
pub mod reading;
pub mod texts;
pub mod words;

use crate::bytes::same_bytes;
use grammar::{
    after_comma, after_ws, blank_last, blank_payload, bool_at, digits_end, expect, exponent_at,
    field_at, first_merchants, is_number, items_skipped, lemma_after_ws, lemma_member_takes,
    lemma_string_len, lemma_tokens_take, lemma_value_skipped, lemma_with_fields_add,
    lemma_with_last_fields_add, member_at, members_at, null_at, number_at, number_len, number_stop,
    object_at, pairs_skipped, payload, starts, starts_with, string_at, string_len, string_stop,
    strings_at, value_skipped, with_field, with_fields, with_last_field, with_last_fields, zero,
    Field, LastTxView, PayloadView, Read, Section,
};
use vstd::prelude::*;
use words::{
    AMOUNT, AVG_AMOUNT, CARD_PRESENT, CUSTOMER, FALSE, ID, INSTALLMENTS, IS_ONLINE, KM_FROM_CURRENT,
    KM_FROM_HOME, KNOWN_MERCHANTS, LAST_TRANSACTION, MCC, MERCHANT, NULL, REQUESTED_AT, TERMINAL,
    TIMESTAMP, TRANSACTION, TRUE, TX_COUNT_24H,
};

verus! {

/// Number of known merchants that a payload keeps.
pub const MAX_KNOWN_MERCHANTS: usize = 16;

/// Why a text is no payload.
#[derive(Copy, Clone, Debug, PartialEq, Eq, Structural)]
pub enum ParseErr {
    Unexpected,
    EndOfInput,
}

/// The text of a decimal number.
#[derive(Copy, Clone, Debug)]
pub struct Number<'a> {
    pub text: &'a [u8],
}

/// A previous transaction.
#[derive(Copy, Clone, Debug)]
pub struct LastTx<'a> {
    pub timestamp: &'a [u8],
    pub km_from_current: Number<'a>,
}

/// A payload.
#[derive(Copy, Clone, Debug)]
pub struct Payload<'a> {
    pub amount: Number<'a>,
    pub installments: Number<'a>,
    pub requested_at: &'a [u8],
    pub customer_avg: Number<'a>,
    pub tx_count_24h: Number<'a>,
    pub known_merchants: [&'a [u8]; MAX_KNOWN_MERCHANTS],
    pub known_n: usize,
    pub merchant_id: &'a [u8],
    pub merchant_mcc: &'a [u8],
    pub merchant_avg: Number<'a>,
    pub is_online: bool,
    pub card_present: bool,
    pub terminal_km_from_home: Number<'a>,
    pub last_transaction: Option<LastTx<'a>>,
}

impl<'a> View for LastTx<'a> {
    type V = LastTxView;

    open spec fn view(&self) -> LastTxView {
        LastTxView { timestamp: self.timestamp@, km_from_current: self.km_from_current.text@ }
    }
}

impl<'a> View for Payload<'a> {
    type V = PayloadView;

    open spec fn view(&self) -> PayloadView {
        PayloadView {
            amount: self.amount.text@,
            installments: self.installments.text@,
            requested_at: self.requested_at@,
            customer_avg: self.customer_avg.text@,
            tx_count_24h: self.tx_count_24h.text@,
            known_merchants: Seq::new(
                self.known_n as nat,
                |i: int| self.known_merchants@[i]@,
            ),
            merchant_id: self.merchant_id@,
            merchant_mcc: self.merchant_mcc@,
            merchant_avg: self.merchant_avg.text@,
            is_online: self.is_online,
            card_present: self.card_present,
            terminal_km_from_home: self.terminal_km_from_home.text@,
            last_transaction: match self.last_transaction {
                Some(l) => Some(l@),
                None => None,
            },
        }
    }
}

impl<'a> Payload<'a> {
    /// Whether the known merchants are counted right.
    pub open spec fn wf(self) -> bool {
        self.known_n <= MAX_KNOWN_MERCHANTS
    }
}

impl<'a> Default for Number<'a> {
    fn default() -> (r: Number<'a>)
        ensures
            r.text@ == zero(),
    {
        let text: &'a [u8] = &[0x30u8];
        assert(text@ =~= zero());
        Number { text }
    }
}

impl<'a> Default for Payload<'a> {
    fn default() -> (r: Payload<'a>)
        ensures
            r@ == blank_payload(),
            r.wf(),
    {
        let none: &'a [u8] = &[];
        let zero: Number<'a> = Number::default();
        let r = Payload {
            amount: zero,
            installments: zero,
            requested_at: none,
            customer_avg: zero,
            tx_count_24h: zero,
            known_merchants: [none; MAX_KNOWN_MERCHANTS],
            known_n: 0,
            merchant_id: none,
            merchant_mcc: none,
            merchant_avg: zero,
            is_online: false,
            card_present: false,
            terminal_km_from_home: zero,
            last_transaction: None,
        };
        assert(none@ =~= Seq::<u8>::empty());
        assert(r@.known_merchants =~= Seq::<Seq<u8>>::empty());
        r
    }
}

// ---------------------------------------------------------------------------
// Tokens
// ---------------------------------------------------------------------------

/// A place in a text.
struct Parser<'a> {
    b: &'a [u8],
    p: usize,
}

/// Whether reading `goal` has led to the result `r` and the rest `rest`.
spec fn read_ok(
    goal: Result<Seq<u8>, ParseErr>,
    r: Result<(), ParseErr>,
    rest: Seq<u8>,
) -> bool {
    match goal {
        Ok(t) => r is Ok && rest == t,
        Err(e) => r == Err::<(), ParseErr>(e),
    }
}

fn digits_from(s: &[u8], i: usize) -> (r: usize)
    requires
        i <= s@.len(),
    ensures
        r == digits_end(s@, i as int),
        i <= r <= s@.len(),
{
    let mut k: usize = i;
    while k < s.len() && s[k] >= 0x30 && s[k] <= 0x39
        invariant
            i <= k <= s@.len(),
            digits_end(s@, k as int) == digits_end(s@, i as int),
        decreases s@.len() - k,
    {
        k = k + 1;
    }
    k
}

fn check_exponent(s: &[u8], i: usize) -> (r: bool)
    requires
        i <= s@.len(),
    ensures
        r == exponent_at(s@, i as int),
{
    if i >= s.len() || (s[i] != 0x65 && s[i] != 0x45) {
        return false;
    }
    assert(s@.len() == s.len());
    let first: usize = if i + 1 < s.len() && (s[i + 1] == 0x2b || s[i + 1] == 0x2d) {
        i + 2
    } else {
        i + 1
    };
    first < s.len() && digits_from(s, first) == s.len()
}

fn check_number(s: &[u8]) -> (r: bool)
    ensures
        r == is_number(s@),
{
    let a: usize = if s.len() > 0 && (s[0] == 0x2b || s[0] == 0x2d) {
        1
    } else {
        0
    };
    let b: usize = digits_from(s, a);
    if b < s.len() && s[b] == 0x2e {
        let c: usize = digits_from(s, b + 1);
        (a < b || b + 1 < c) && (c == s.len() || check_exponent(s, c))
    } else {
        a < b && (b == s.len() || check_exponent(s, b))
    }
}

impl<'a> Parser<'a> {
    spec fn wf(self) -> bool {
        self.p <= self.b@.len()
    }

    /// The text that is left.
    spec fn rest(self) -> Seq<u8> {
        self.b@.skip(self.p as int)
    }

    /// Whether a parser has moved on in the same text.
    spec fn moved_to(self, next: Self) -> bool {
        next.wf() && next.b@ == self.b@ && self.p <= next.p
    }

    fn skip_ws(&mut self)
        requires
            old(self).wf(),
        ensures
            old(self).moved_to(*final(self)),
            final(self).rest() == after_ws(old(self).rest()),
    {
        while self.p < self.b.len() && (self.b[self.p] == 0x20 || self.b[self.p] == 0x09
            || self.b[self.p] == 0x0a || self.b[self.p] == 0x0d)
            invariant
                old(self).moved_to(*self),
                after_ws(self.rest()) == after_ws(old(self).rest()),
            decreases self.b@.len() - self.p,
        {
            assert(self.rest()[0] == self.b@[self.p as int]);
            assert(self.rest().skip(1) =~= self.b@.skip(self.p + 1));
            self.p = self.p + 1;
        }
        assert(self.rest().len() > 0 ==> self.rest()[0] == self.b@[self.p as int]);
    }

    fn peek(&self) -> (r: Option<u8>)
        requires
            self.wf(),
        ensures
            r == (if self.rest().len() > 0 {
                Some(self.rest()[0])
            } else {
                None::<u8>
            }),
    {
        if self.p < self.b.len() {
            Some(self.b[self.p])
        } else {
            None
        }
    }

    /// Tests whether the byte `ch` comes next, and takes it.
    fn take(&mut self, ch: u8) -> (r: bool)
        requires
            old(self).wf(),
        ensures
            old(self).moved_to(*final(self)),
            r == starts(old(self).rest(), ch),
            final(self).rest() == (if r {
                old(self).rest().skip(1)
            } else {
                old(self).rest()
            }),
    {
        if self.peek() == Some(ch) {
            assert(self.p < self.b.len());
            self.p = self.p + 1;
            assert(self.rest() =~= old(self).rest().skip(1));
            true
        } else {
            false
        }
    }

    fn consume(&mut self, ch: u8) -> (r: Result<(), ParseErr>)
        requires
            old(self).wf(),
        ensures
            old(self).moved_to(*final(self)),
            read_ok(expect(old(self).rest(), ch), r, final(self).rest()),
            r is Err ==> final(self).rest() == after_ws(old(self).rest()),
    {
        self.skip_ws();
        if self.take(ch) {
            Ok(())
        } else {
            Err(ParseErr::Unexpected)
        }
    }

    fn skip_comma(&mut self)
        requires
            old(self).wf(),
        ensures
            old(self).moved_to(*final(self)),
            final(self).rest() == after_comma(old(self).rest()),
    {
        self.skip_ws();
        let _ = self.take(0x2c);
    }

    fn parse_str(&mut self) -> (r: Result<&'a [u8], ParseErr>)
        requires
            old(self).wf(),
        ensures
            old(self).moved_to(*final(self)),
            match string_at(old(self).rest()) {
                Ok((x, t)) => r matches Ok(v) && v@ == x && final(self).rest() == t,
                Err(e) => r == Err::<&'a [u8], ParseErr>(e),
            },
            r is Err ==> final(self).rest() == string_stop(old(self).rest()),
    {
        self.skip_ws();
        if !self.take(0x22) {
            return Err(ParseErr::Unexpected);
        }
        let start: usize = self.p;
        let ghost text = self.rest();
        proof {
            lemma_string_len(text, 0);
        }
        while self.p < self.b.len() && self.b[self.p] != 0x22 && self.b[self.p] != 0x5c
            invariant
                start <= self.p <= self.b@.len(),
                old(self).moved_to(*self),
                text == self.b@.skip(start as int),
                string_len(text, self.p - start) == string_len(text, 0),
            decreases self.b@.len() - self.p,
        {
            assert(text[self.p - start] == self.b@[self.p as int]);
            self.p = self.p + 1;
        }
        assert(self.rest() =~= text.skip(self.p - start));
        if self.p >= self.b.len() {
            return Err(ParseErr::EndOfInput);
        }
        assert(text[self.p - start] == self.b@[self.p as int]);
        if self.b[self.p] == 0x5c {
            return Err(ParseErr::Unexpected);
        }
        let whole: &'a [u8] = self.b;
        let slice: &'a [u8] = &whole[start..self.p];
        assert(slice@ =~= text.take(self.p - start));
        self.p = self.p + 1;
        assert(self.rest() =~= text.skip(self.p - start));
        Ok(slice)
    }

    fn parse_number(&mut self) -> (r: Result<Number<'a>, ParseErr>)
        requires
            old(self).wf(),
        ensures
            old(self).moved_to(*final(self)),
            match number_at(old(self).rest()) {
                Ok((x, t)) => r matches Ok(v) && v.text@ == x && final(self).rest() == t,
                Err(e) => r == Err::<Number<'a>, ParseErr>(e),
            },
            r is Err ==> final(self).rest() == number_stop(old(self).rest()),
    {
        self.skip_ws();
        let start: usize = self.p;
        let ghost text = self.rest();
        while self.p < self.b.len() && ((self.b[self.p] >= 0x30 && self.b[self.p] <= 0x39)
            || self.b[self.p] == 0x2e || self.b[self.p] == 0x65 || self.b[self.p] == 0x45
            || self.b[self.p] == 0x2b || self.b[self.p] == 0x2d)
            invariant
                start <= self.p <= self.b@.len(),
                old(self).moved_to(*self),
                text == self.b@.skip(start as int),
                number_len(text, self.p - start) == number_len(text, 0),
            decreases self.b@.len() - self.p,
        {
            assert(text[self.p - start] == self.b@[self.p as int]);
            self.p = self.p + 1;
        }
        assert(self.p < self.b@.len() ==> text[self.p - start] == self.b@[self.p as int]);
        assert(self.rest() =~= text.skip(self.p - start));
        if self.p == start {
            return Err(ParseErr::Unexpected);
        }
        let whole: &'a [u8] = self.b;
        let text_slice: &'a [u8] = &whole[start..self.p];
        assert(text_slice@ =~= text.take(self.p - start));
        if check_number(text_slice) {
            Ok(Number { text: text_slice })
        } else {
            Err(ParseErr::Unexpected)
        }
    }

    /// Tests whether `word` comes next, and takes it.
    fn take_word(&mut self, word: &[u8]) -> (r: bool)
        requires
            old(self).wf(),
        ensures
            old(self).moved_to(*final(self)),
            r == starts_with(old(self).rest(), word@),
            final(self).rest() == (if r {
                old(self).rest().skip(word@.len() as int)
            } else {
                old(self).rest()
            }),
    {
        if self.b.len() - self.p < word.len() {
            return false;
        }
        let next: usize = self.p + word.len();
        let here: &[u8] = &self.b[self.p..next];
        assert(here@ =~= self.rest().take(word@.len() as int));
        if same_bytes(here, word) {
            self.p = next;
            assert(self.rest() =~= old(self).rest().skip(word@.len() as int));
            true
        } else {
            false
        }
    }

    fn parse_bool(&mut self) -> (r: Result<bool, ParseErr>)
        requires
            old(self).wf(),
        ensures
            old(self).moved_to(*final(self)),
            match bool_at(old(self).rest()) {
                Ok((x, t)) => r == Ok::<bool, ParseErr>(x) && final(self).rest() == t,
                Err(e) => r == Err::<bool, ParseErr>(e),
            },
            r is Err ==> final(self).rest() == after_ws(old(self).rest()),
    {
        self.skip_ws();
        if self.take_word(&TRUE) {
            Ok(true)
        } else if self.take_word(&FALSE) {
            Ok(false)
        } else {
            Err(ParseErr::Unexpected)
        }
    }

    fn parse_null(&mut self) -> (r: bool)
        requires
            old(self).wf(),
        ensures
            old(self).moved_to(*final(self)),
            null_at(old(self).rest()) == (r, final(self).rest()),
    {
        self.skip_ws();
        self.take_word(&NULL)
    }

    // -----------------------------------------------------------------------
    // Values that are passed over
    // -----------------------------------------------------------------------

    fn skip_value(&mut self) -> (r: Result<(), ParseErr>)
        requires
            old(self).wf(),
        ensures
            old(self).moved_to(*final(self)),
            read_ok(value_skipped(old(self).rest()), r, final(self).rest()),
        decreases old(self).rest().len(), 0int,
    {
        proof {
            lemma_after_ws(self.rest());
        }
        self.skip_ws();
        let c: u8 = match self.peek() {
            Some(c) => c,
            None => {
                return Err(ParseErr::EndOfInput);
            },
        };
        if c == 0x22 {
            match self.parse_str() {
                Ok(_) => Ok(()),
                Err(e) => Err(e),
            }
        } else if c == 0x7b {
            let _ = self.take(0x7b);
            self.skip_object()
        } else if c == 0x5b {
            let _ = self.take(0x5b);
            self.skip_array()
        } else if c == 0x74 || c == 0x66 {
            match self.parse_bool() {
                Ok(_) => Ok(()),
                Err(e) => Err(e),
            }
        } else if c == 0x6e {
            let _ = self.parse_null();
            Ok(())
        } else {
            match self.parse_number() {
                Ok(_) => Ok(()),
                Err(e) => Err(e),
            }
        }
    }

    /// Skips the items of an array behind its opening bracket.
    fn skip_array(&mut self) -> (r: Result<(), ParseErr>)
        requires
            old(self).wf(),
        ensures
            old(self).moved_to(*final(self)),
            read_ok(items_skipped(old(self).rest()), r, final(self).rest()),
        decreases old(self).rest().len(), 1int,
    {
        loop
            invariant
                old(self).moved_to(*self),
                items_skipped(self.rest()) == items_skipped(old(self).rest()),
            decreases self.rest().len(),
        {
            let ghost here = self.rest();
            proof {
                lemma_after_ws(here);
                lemma_value_skipped(after_ws(here));
            }
            self.skip_ws();
            if self.take(0x5d) {
                return Ok(());
            }
            match self.skip_value() {
                Ok(_) => {},
                Err(e) => {
                    return Err(e);
                },
            }
            proof {
                lemma_after_ws(self.rest());
            }
            self.skip_ws();
            if !self.take(0x2c) {
                return self.consume(0x5d);
            }
        }
    }

    /// Skips the members of an object behind its opening brace.
    fn skip_object(&mut self) -> (r: Result<(), ParseErr>)
        requires
            old(self).wf(),
        ensures
            old(self).moved_to(*final(self)),
            read_ok(pairs_skipped(old(self).rest()), r, final(self).rest()),
        decreases old(self).rest().len(), 1int,
    {
        loop
            invariant
                old(self).moved_to(*self),
                pairs_skipped(self.rest()) == pairs_skipped(old(self).rest()),
            decreases self.rest().len(),
        {
            let ghost here = self.rest();
            proof {
                lemma_after_ws(here);
                lemma_tokens_take(after_ws(here));
            }
            self.skip_ws();
            if self.take(0x7d) {
                return Ok(());
            }
            match self.parse_str() {
                Ok(_) => {},
                Err(e) => {
                    return Err(e);
                },
            }
            proof {
                lemma_tokens_take(self.rest());
            }
            match self.consume(0x3a) {
                Ok(_) => {},
                Err(e) => {
                    return Err(e);
                },
            }
            proof {
                lemma_value_skipped(self.rest());
            }
            match self.skip_value() {
                Ok(_) => {},
                Err(e) => {
                    return Err(e);
                },
            }
            proof {
                lemma_after_ws(self.rest());
            }
            self.skip_ws();
            if !self.take(0x2c) {
                return self.consume(0x7d);
            }
        }
    }

    // -----------------------------------------------------------------------
    // Members
    // -----------------------------------------------------------------------

    /// Reads the key of the next member and its colon, or the closing brace.
    fn next_key(&mut self) -> (r: Result<Option<&'a [u8]>, ParseErr>)
        requires
            old(self).wf(),
        ensures
            old(self).moved_to(*final(self)),
            key_read(old(self).rest(), r, final(self).rest()),
    {
        self.skip_ws();
        if self.take(0x7d) {
            return Ok(None);
        }
        proof {
            lemma_after_ws(old(self).rest());
        }
        let key: &'a [u8] = match self.parse_str() {
            Ok(k) => k,
            Err(e) => {
                return Err(e);
            },
        };
        match self.consume(0x3a) {
            Ok(_) => Ok(Some(key)),
            Err(e) => Err(e),
        }
    }

    /// Reads the strings of an array behind its opening bracket.
    #[verifier::spinoff_prover]
    fn parse_merchants(&mut self, p: &mut Payload<'a>) -> (r: Result<(), ParseErr>)
        requires
            old(self).wf(),
            old(p).wf(),
        ensures
            old(self).moved_to(*final(self)),
            final(p).wf(),
            match strings_at(old(self).rest()) {
                Ok((m, t)) => {
                    &&& r is Ok
                    &&& final(self).rest() == t
                    &&& final(p)@ == with_field(old(p)@, Field::KnownMerchants(m))
                },
                Err(e) => r == Err::<(), ParseErr>(e),
            },
            r is Err ==> *final(p) == (Payload {
                known_merchants: final(p).known_merchants,
                ..*old(p)
            }),
    {
        let ghost start = self.rest();
        let ghost mut found: Seq<Seq<u8>> = seq![];
        let mut n: usize = 0;
        proof {
            match strings_at(start) {
                Ok((m, _)) => assert(found + m =~= m),
                Err(_) => {},
            }
        }
        loop
            invariant
                start == old(self).rest(),
                old(self).moved_to(*self),
                p.wf(),
                *p == (Payload { known_merchants: p.known_merchants, ..*old(p) }),
                n <= MAX_KNOWN_MERCHANTS,
                n == first_merchants(found).len(),
                forall|i: int|
                    0 <= i < n ==> (#[trigger] p.known_merchants@[i])@ == found[i],
                strings_at(start) == (match strings_at(self.rest()) {
                    Ok((m, t)) => Ok::<(Seq<Seq<u8>>, Seq<u8>), ParseErr>((found + m, t)),
                    Err(e) => Err(e),
                }),
            decreases self.rest().len(),
        {
            let ghost here = self.rest();
            proof {
                lemma_after_ws(here);
                lemma_tokens_take(after_ws(here));
            }
            self.skip_ws();
            if self.take(0x5d) {
                p.known_n = n;
                proof {
                    assert(found + Seq::<Seq<u8>>::empty() =~= found);
                    let want = with_field(old(p)@, Field::KnownMerchants(found));
                    assert(p@.known_merchants =~= want.known_merchants);
                }
                return Ok(());
            }
            let s: &'a [u8] = match self.parse_str() {
                Ok(s) => s,
                Err(e) => {
                    return Err(e);
                },
            };
            if n < MAX_KNOWN_MERCHANTS {
                p.known_merchants[n] = s;
                n = n + 1;
            }
            proof {
                lemma_tokens_take(self.rest());
                let next = after_comma(self.rest());
                match strings_at(next) {
                    Ok((m, _)) => assert(found + (seq![s@] + m) =~= found.push(s@) + m),
                    Err(_) => {},
                }
                found = found.push(s@);
            }
            self.skip_comma();
        }
    }
}

/// Whether `r` is the key of the next member.
spec fn key_read<'a>(
    s: Seq<u8>,
    r: Result<Option<&'a [u8]>, ParseErr>,
    rest: Seq<u8>,
) -> bool {
    let t = after_ws(s);
    if starts(t, 0x7d) {
        r == Ok::<Option<&'a [u8]>, ParseErr>(None) && rest == t.skip(1)
    } else {
        match string_at(t) {
            Ok((key, k)) => match expect(k, 0x3a) {
                Ok(v) => (r matches Ok(Some(x)) && x@ == key) && rest == v,
                Err(e) => r == Err::<Option<&'a [u8]>, ParseErr>(e),
            },
            Err(e) => r == Err::<Option<&'a [u8]>, ParseErr>(e),
        }
    }
}

// ---------------------------------------------------------------------------
// Sections
// ---------------------------------------------------------------------------

/// Whether reading some fields has led from one payload to another.
spec fn fields_read(
    goal: Read<Seq<Field>>,
    before: PayloadView,
    r: Result<(), ParseErr>,
    rest: Seq<u8>,
    after: PayloadView,
) -> bool {
    match goal {
        Ok((f, t)) => r is Ok && rest == t && after == with_fields(before, f),
        Err(e) => r == Err::<(), ParseErr>(e),
    }
}

/// One field, or none.
proof fn lemma_few_fields(p: PayloadView)
    ensures
        with_fields(p, seq![]) == p,
        forall|f: Field| #[trigger] with_fields(p, seq![f]) == with_field(p, f),
{
    assert forall|f: Field| #[trigger] with_fields(p, seq![f]) == with_field(p, f) by {
        assert(seq![f].drop_last() =~= Seq::<Field>::empty());
        assert(seq![f].last() == f);
    }
}

/// Reads a member of the transaction.
fn transaction_field<'a>(parser: &mut Parser<'a>, p: &mut Payload<'a>, key: &[u8]) -> (r: Result<
    (),
    ParseErr,
>)
    requires
        old(parser).wf(),
        old(p).wf(),
    ensures
        old(parser).moved_to(*final(parser)),
        final(p).wf(),
        fields_read(
            field_at(Section::Transaction, key@, old(parser).rest()),
            old(p)@,
            r,
            final(parser).rest(),
            final(p)@,
        ),
        r is Err ==> *final(p) == *old(p),
{
    proof {
        lemma_few_fields(p@);
    }
    if same_bytes(key, &AMOUNT) {
        match parser.parse_number() {
            Ok(x) => {
                p.amount = x;
            },
            Err(e) => {
                return Err(e);
            },
        }
    } else if same_bytes(key, &INSTALLMENTS) {
        match parser.parse_number() {
            Ok(x) => {
                p.installments = x;
            },
            Err(e) => {
                return Err(e);
            },
        }
    } else if same_bytes(key, &REQUESTED_AT) {
        match parser.parse_str() {
            Ok(x) => {
                p.requested_at = x;
            },
            Err(e) => {
                return Err(e);
            },
        }
    } else {
        return parser.skip_value();
    }
    Ok(())
}

/// Reads a member of the customer.
fn customer_field<'a>(parser: &mut Parser<'a>, p: &mut Payload<'a>, key: &[u8]) -> (r: Result<
    (),
    ParseErr,
>)
    requires
        old(parser).wf(),
        old(p).wf(),
    ensures
        old(parser).moved_to(*final(parser)),
        final(p).wf(),
        fields_read(
            field_at(Section::Customer, key@, old(parser).rest()),
            old(p)@,
            r,
            final(parser).rest(),
            final(p)@,
        ),
        r is Err ==> *final(p) == (Payload {
            known_merchants: final(p).known_merchants,
            ..*old(p)
        }),
{
    proof {
        lemma_few_fields(p@);
    }
    if same_bytes(key, &AVG_AMOUNT) {
        match parser.parse_number() {
            Ok(x) => {
                p.customer_avg = x;
            },
            Err(e) => {
                return Err(e);
            },
        }
    } else if same_bytes(key, &TX_COUNT_24H) {
        match parser.parse_number() {
            Ok(x) => {
                p.tx_count_24h = x;
            },
            Err(e) => {
                return Err(e);
            },
        }
    } else if same_bytes(key, &KNOWN_MERCHANTS) {
        match parser.consume(0x5b) {
            Ok(_) => {},
            Err(e) => {
                return Err(e);
            },
        }
        match parser.parse_merchants(p) {
            Ok(_) => {},
            Err(e) => {
                return Err(e);
            },
        }
    } else {
        return parser.skip_value();
    }
    Ok(())
}

/// Reads a member of the merchant.
fn merchant_field<'a>(parser: &mut Parser<'a>, p: &mut Payload<'a>, key: &[u8]) -> (r: Result<
    (),
    ParseErr,
>)
    requires
        old(parser).wf(),
        old(p).wf(),
    ensures
        old(parser).moved_to(*final(parser)),
        final(p).wf(),
        fields_read(
            field_at(Section::Merchant, key@, old(parser).rest()),
            old(p)@,
            r,
            final(parser).rest(),
            final(p)@,
        ),
        r is Err ==> *final(p) == *old(p),
{
    proof {
        lemma_few_fields(p@);
    }
    if same_bytes(key, &ID) {
        match parser.parse_str() {
            Ok(x) => {
                p.merchant_id = x;
            },
            Err(e) => {
                return Err(e);
            },
        }
    } else if same_bytes(key, &MCC) {
        match parser.parse_str() {
            Ok(x) => {
                p.merchant_mcc = x;
            },
            Err(e) => {
                return Err(e);
            },
        }
    } else if same_bytes(key, &AVG_AMOUNT) {
        match parser.parse_number() {
            Ok(x) => {
                p.merchant_avg = x;
            },
            Err(e) => {
                return Err(e);
            },
        }
    } else {
        return parser.skip_value();
    }
    Ok(())
}

/// Reads a member of the terminal.
fn terminal_field<'a>(parser: &mut Parser<'a>, p: &mut Payload<'a>, key: &[u8]) -> (r: Result<
    (),
    ParseErr,
>)
    requires
        old(parser).wf(),
        old(p).wf(),
    ensures
        old(parser).moved_to(*final(parser)),
        final(p).wf(),
        fields_read(
            field_at(Section::Terminal, key@, old(parser).rest()),
            old(p)@,
            r,
            final(parser).rest(),
            final(p)@,
        ),
        r is Err ==> *final(p) == *old(p),
{
    proof {
        lemma_few_fields(p@);
    }
    if same_bytes(key, &IS_ONLINE) {
        match parser.parse_bool() {
            Ok(x) => {
                p.is_online = x;
            },
            Err(e) => {
                return Err(e);
            },
        }
    } else if same_bytes(key, &CARD_PRESENT) {
        match parser.parse_bool() {
            Ok(x) => {
                p.card_present = x;
            },
            Err(e) => {
                return Err(e);
            },
        }
    } else if same_bytes(key, &KM_FROM_HOME) {
        match parser.parse_number() {
            Ok(x) => {
                p.terminal_km_from_home = x;
            },
            Err(e) => {
                return Err(e);
            },
        }
    } else {
        return parser.skip_value();
    }
    Ok(())
}

/// How the members of an object that are left to read complete the ones that
/// were read.
spec fn goes_on(section: Section, start: Seq<u8>, read: Seq<Field>, rest: Seq<u8>) -> bool {
    members_at(section, start) == (match members_at(section, rest) {
        Ok((f, t)) => Ok::<(Seq<Field>, Seq<u8>), ParseErr>((read + f, t)),
        Err(e) => Err(e),
    })
}

proof fn lemma_goes_on_at_start(section: Section, start: Seq<u8>)
    ensures
        goes_on(section, start, seq![], start),
{
    if let Ok((f, _)) = members_at(section, start) {
        assert(Seq::<Field>::empty() + f =~= f);
    }
}

/// One more member was read.
proof fn lemma_goes_on(
    section: Section,
    start: Seq<u8>,
    read: Seq<Field>,
    here: Seq<u8>,
    f: Seq<Field>,
    next: Seq<u8>,
)
    requires
        goes_on(section, start, read, here),
        !starts(after_ws(here), 0x7d),
        member_at(section, after_ws(here)) == Ok::<(Seq<Field>, Seq<u8>), ParseErr>((f, next)),
    ensures
        goes_on(section, start, read + f, next),
        next.len() < here.len(),
{
    lemma_after_ws(here);
    lemma_member_takes(section, after_ws(here));
    if let Ok((more, _)) = members_at(section, next) {
        assert(read + (f + more) =~= (read + f) + more);
    }
}

/// Reads one object of a payload.
#[verifier::spinoff_prover]
fn parse_section<'a>(section: Section, parser: &mut Parser<'a>, p: &mut Payload<'a>) -> (r: Result<
    (),
    ParseErr,
>)
    requires
        !(section is Top) && !(section is Last),
        old(parser).wf(),
        old(p).wf(),
    ensures
        old(parser).moved_to(*final(parser)),
        final(p).wf(),
        fields_read(
            object_at(section, old(parser).rest()),
            old(p)@,
            r,
            final(parser).rest(),
            final(p)@,
        ),
{
    match parser.consume(0x7b) {
        Ok(_) => {},
        Err(e) => {
            return Err(e);
        },
    }
    let ghost start = parser.rest();
    let ghost mut read: Seq<Field> = seq![];
    proof {
        lemma_goes_on_at_start(section, start);
    }
    loop
        invariant
            !(section is Top) && !(section is Last),
            object_at(section, old(parser).rest()) == members_at(section, start),
            old(parser).moved_to(*parser),
            p.wf(),
            p@ == with_fields(old(p)@, read),
            goes_on(section, start, read, parser.rest()),
        decreases parser.rest().len(),
    {
        let ghost here = parser.rest();
        let key: &'a [u8] = match parser.next_key() {
            Ok(Some(k)) => k,
            Ok(None) => {
                assert(read + Seq::<Field>::empty() =~= read);
                return Ok(());
            },
            Err(e) => {
                assert(member_at(section, after_ws(here)) is Err);
                return Err(e);
            },
        };
        proof {
            let t = after_ws(here);
            lemma_tokens_take(t);
            lemma_tokens_take(string_at(t)->Ok_0.1);
        }
        let ghost value = parser.rest();
        let done: Result<(), ParseErr> = match section {
            Section::Transaction => transaction_field(parser, p, key),
            Section::Customer => customer_field(parser, p, key),
            Section::Merchant => merchant_field(parser, p, key),
            _ => terminal_field(parser, p, key),
        };
        match done {
            Ok(_) => {},
            Err(e) => {
                assert(member_at(section, after_ws(here)) is Err);
                return Err(e);
            },
        }
        let ghost f = field_at(section, key@, value)->Ok_0.0;
        parser.skip_comma();
        proof {
            lemma_goes_on(section, start, read, here, f, parser.rest());
            lemma_with_fields_add(old(p)@, read, f);
            read = read + f;
        }
    }
}

/// Reads the previous transaction, or `null` where there is none.
#[verifier::spinoff_prover]
fn parse_last_tx<'a>(parser: &mut Parser<'a>, p: &mut Payload<'a>) -> (r: Result<(), ParseErr>)
    requires
        old(parser).wf(),
        old(p).wf(),
    ensures
        old(parser).moved_to(*final(parser)),
        final(p).wf(),
        fields_read(
            field_at(Section::Top, LAST_TRANSACTION@, old(parser).rest()),
            old(p)@,
            r,
            final(parser).rest(),
            final(p)@,
        ),
        r is Err ==> *final(p) == *old(p),
{
    proof {
        lemma_few_fields(p@);
        lemma_after_ws(parser.rest());
        lemma_key_words();
    }
    if parser.parse_null() {
        p.last_transaction = None;
        return Ok(());
    }
    match parser.consume(0x7b) {
        Ok(_) => {},
        Err(e) => {
            return Err(e);
        },
    }
    let none: &'a [u8] = &[];
    assert(none@ =~= Seq::<u8>::empty());
    let mut last = LastTx { timestamp: none, km_from_current: Number::default() };
    let ghost start = parser.rest();
    let ghost mut read: Seq<Field> = seq![];
    proof {
        lemma_goes_on_at_start(Section::Last, start);
    }
    loop
        invariant
            object_at(Section::Last, old(parser).rest()) == members_at(Section::Last, start),
            !null_at(old(parser).rest()).0,
            old(parser).moved_to(*parser),
            *p == *old(p),
            p.wf(),
            last@ == with_last_fields(blank_last(), read),
            goes_on(Section::Last, start, read, parser.rest()),
            forall|f: Field| #[trigger] with_fields(old(p)@, seq![f]) == with_field(old(p)@, f),
            LAST_TRANSACTION@ != ID@,
            LAST_TRANSACTION@ != TRANSACTION@,
            LAST_TRANSACTION@ != CUSTOMER@,
            LAST_TRANSACTION@ != MERCHANT@,
            LAST_TRANSACTION@ != TERMINAL@,
        decreases parser.rest().len(),
    {
        let ghost here = parser.rest();
        let key: &'a [u8] = match parser.next_key() {
            Ok(Some(k)) => k,
            Ok(None) => {
                assert(read + Seq::<Field>::empty() =~= read);
                p.last_transaction = Some(last);
                return Ok(());
            },
            Err(e) => {
                assert(member_at(Section::Last, after_ws(here)) is Err);
                return Err(e);
            },
        };
        proof {
            let t = after_ws(here);
            lemma_tokens_take(t);
            lemma_tokens_take(string_at(t)->Ok_0.1);
        }
        let ghost value = parser.rest();
        let ghost before = last@;
        if same_bytes(key, &TIMESTAMP) {
            match parser.parse_str() {
                Ok(x) => {
                    last.timestamp = x;
                },
                Err(e) => {
                    assert(member_at(Section::Last, after_ws(here)) is Err);
                    return Err(e);
                },
            }
        } else if same_bytes(key, &KM_FROM_CURRENT) {
            match parser.parse_number() {
                Ok(x) => {
                    last.km_from_current = x;
                },
                Err(e) => {
                    assert(member_at(Section::Last, after_ws(here)) is Err);
                    return Err(e);
                },
            }
        } else {
            match parser.skip_value() {
                Ok(_) => {},
                Err(e) => {
                    assert(member_at(Section::Last, after_ws(here)) is Err);
                    return Err(e);
                },
            }
        }
        let ghost f = field_at(Section::Last, key@, value)->Ok_0.0;
        proof {
            lemma_few_last_fields(before);
            assert(last@ == with_last_fields(before, f));
        }
        parser.skip_comma();
        proof {
            lemma_goes_on(Section::Last, start, read, here, f, parser.rest());
            lemma_with_last_fields_add(blank_last(), read, f);
            read = read + f;
        }
    }
}

proof fn lemma_few_last_fields(l: LastTxView)
    ensures
        with_last_fields(l, seq![]) == l,
        forall|f: Field| #[trigger] with_last_fields(l, seq![f]) == with_last_field(l, f),
{
    assert(with_last_fields(l, Seq::<Field>::empty()) == l);
    assert forall|f: Field| #[trigger] with_last_fields(l, seq![f]) == with_last_field(l, f) by {
        assert(seq![f].drop_last() =~= Seq::<Field>::empty());
        assert(seq![f].last() == f);
    }
}

/// The key of the previous transaction is no other key of a payload.
proof fn lemma_key_words()
    ensures
        LAST_TRANSACTION@ != ID@,
        LAST_TRANSACTION@ != TRANSACTION@,
        LAST_TRANSACTION@ != CUSTOMER@,
        LAST_TRANSACTION@ != MERCHANT@,
        LAST_TRANSACTION@ != TERMINAL@,
{
    assert(LAST_TRANSACTION@.len() == 16);
    assert(TRANSACTION@.len() == 11);
}

/// Reads a member of the whole payload.
fn top_field<'a>(parser: &mut Parser<'a>, p: &mut Payload<'a>, key: &[u8]) -> (r: Result<
    (),
    ParseErr,
>)
    requires
        old(parser).wf(),
        old(p).wf(),
    ensures
        old(parser).moved_to(*final(parser)),
        final(p).wf(),
        fields_read(
            field_at(Section::Top, key@, old(parser).rest()),
            old(p)@,
            r,
            final(parser).rest(),
            final(p)@,
        ),
{
    proof {
        lemma_few_fields(p@);
    }
    if same_bytes(key, &ID) {
        match parser.parse_str() {
            Ok(_) => Ok(()),
            Err(e) => Err(e),
        }
    } else if same_bytes(key, &TRANSACTION) {
        parse_section(Section::Transaction, parser, p)
    } else if same_bytes(key, &CUSTOMER) {
        parse_section(Section::Customer, parser, p)
    } else if same_bytes(key, &MERCHANT) {
        parse_section(Section::Merchant, parser, p)
    } else if same_bytes(key, &TERMINAL) {
        parse_section(Section::Terminal, parser, p)
    } else if same_bytes(key, &LAST_TRANSACTION) {
        parse_last_tx(parser, p)
    } else {
        parser.skip_value()
    }
}

/// Parses a payload.
#[verifier::spinoff_prover]
pub fn parse_payload<'a>(body: &'a [u8]) -> (r: Result<Payload<'a>, ParseErr>)
    ensures
        match payload(body@) {
            Ok(v) => r matches Ok(p) && p@ == v && p.wf(),
            Err(e) => r == Err::<Payload<'a>, ParseErr>(e),
        },
{
    let mut p: Payload<'a> = Payload::default();
    let mut parser = Parser { b: body, p: 0 };
    assert(parser.rest() =~= body@);
    match parser.consume(0x7b) {
        Ok(_) => {},
        Err(e) => {
            return Err(e);
        },
    }
    let ghost start = parser.rest();
    let ghost mut read: Seq<Field> = seq![];
    proof {
        lemma_goes_on_at_start(Section::Top, start);
    }
    loop
        invariant
            object_at(Section::Top, body@) == members_at(Section::Top, start),
            parser.wf(),
            p.wf(),
            p@ == with_fields(blank_payload(), read),
            goes_on(Section::Top, start, read, parser.rest()),
        decreases parser.rest().len(),
    {
        let ghost here = parser.rest();
        let key: &'a [u8] = match parser.next_key() {
            Ok(Some(k)) => k,
            Ok(None) => {
                assert(read + Seq::<Field>::empty() =~= read);
                return Ok(p);
            },
            Err(e) => {
                assert(member_at(Section::Top, after_ws(here)) is Err);
                return Err(e);
            },
        };
        proof {
            let t = after_ws(here);
            lemma_tokens_take(t);
            lemma_tokens_take(string_at(t)->Ok_0.1);
        }
        let ghost value = parser.rest();
        match top_field(&mut parser, &mut p, key) {
            Ok(_) => {},
            Err(e) => {
                assert(member_at(Section::Top, after_ws(here)) is Err);
                return Err(e);
            },
        }
        let ghost f = field_at(Section::Top, key@, value)->Ok_0.0;
        parser.skip_comma();
        proof {
            lemma_goes_on(Section::Top, start, read, here, f, parser.rest());
            lemma_with_fields_add(blank_payload(), read, f);
            read = read + f;
        }
    }
}

} // verus!
