//! Tokens are what they are written as, and objects are closed.

use super::grammar::{
    after_comma, after_ws, bool_at, digits_end, expect, exponent_at, field_at, in_number, is_number,
    is_space, items_skipped, lemma_after_ws, lemma_string_len, lemma_tokens_take,
    lemma_value_skipped, member_at, members_at, merchants_at, null_at, number_at, number_len,
    object_at, pairs_skipped, payload, sign_at, starts, string_at, string_len, strings_at,
    value_skipped, with_field, Field, PayloadView, Section,
};
use super::laws::target;
use super::words::{CUSTOMER, MERCHANT, TERMINAL, TRANSACTION};
use super::ParseErr;
use crate::decimal::is_digit;
use vstd::prelude::*;

verus! {

// ---------------------------------------------------------------------------
// Tokens
// ---------------------------------------------------------------------------

/// Spaces, tabs and ends of lines are passed over, and nothing else.
pub proof fn lemma_space_passed(s: Seq<u8>)
    ensures
        ({
            let t = after_ws(s);
            let j = s.len() - t.len();
            &&& 0 <= j
            &&& t == s.skip(j)
            &&& forall|k: int|
                0 <= k < j ==> #[trigger] s[k] == 0x20 || s[k] == 0x09 || s[k] == 0x0a || s[k]
                    == 0x0d
            &&& t.len() > 0 ==> t[0] != 0x20 && t[0] != 0x09 && t[0] != 0x0a && t[0] != 0x0d
        }),
    decreases s.len(),
{
    if s.len() > 0 && is_space(s[0]) {
        let rest = s.skip(1);
        lemma_space_passed(rest);
        let t = after_ws(rest);
        let j = s.len() - t.len();
        assert(t =~= s.skip(j));
        assert forall|k: int| 0 <= k < j implies #[trigger] s[k] == 0x20 || s[k] == 0x09 || s[k]
            == 0x0a || s[k] == 0x0d by {
            if k > 0 {
                assert(rest[k - 1] == s[k]);
            }
        }
    } else {
        assert(s.skip(0) =~= s);
    }
}

/// A string is what stands between its quotes, without a quote or a backslash in
/// it. A backslash before the closing quote is an error, and so is a text that
/// ends before it.
pub proof fn lemma_string_of(s: Seq<u8>)
    ensures
        ({
            let t = after_ws(s);
            match string_at(s) {
                Ok((x, r)) => t == seq![0x22u8] + x + seq![0x22u8] + r && forall|k: int|
                    0 <= k < x.len() ==> #[trigger] x[k] != 0x22 && x[k] != 0x5c,
                Err(ParseErr::EndOfInput) => t.len() > 0 && t[0] == 0x22 && forall|k: int|
                    1 <= k < t.len() ==> #[trigger] t[k] != 0x22 && t[k] != 0x5c,
                Err(ParseErr::Unexpected) => t.len() == 0 || t[0] != 0x22 || exists|n: int|
                    {
                        &&& 1 <= n < t.len()
                        &&& #[trigger] t[n] == 0x5c
                        &&& forall|k: int| 1 <= k < n ==> #[trigger] t[k] != 0x22 && t[k] != 0x5c
                    },
            }
        }),
{
    let t = after_ws(s);
    if starts(t, 0x22) {
        let r = t.skip(1);
        lemma_string_len(r, 0);
        let n = string_len(r, 0);
        lemma_string_stop(r, 0);
        assert forall|k: int| 1 <= k < n + 1 implies #[trigger] t[k] != 0x22 && t[k] != 0x5c by {
            assert(r[k - 1] == t[k]);
        }
        if n < r.len() {
            assert(t[n + 1] == r[n]);
            if r[n] != 0x5c {
                let x = r.take(n);
                assert(t =~= seq![0x22u8] + x + seq![0x22u8] + r.skip(n + 1));
                assert forall|k: int| 0 <= k < x.len() implies #[trigger] x[k] != 0x22 && x[k]
                    != 0x5c by {
                    assert(x[k] == r[k]);
                }
            }
        }
    }
}

proof fn lemma_string_stop(s: Seq<u8>, i: int)
    requires
        0 <= i <= s.len(),
    ensures
        ({
            let n = string_len(s, i);
            n < s.len() ==> s[n] == 0x22 || s[n] == 0x5c
        }),
    decreases s.len() - i,
{
    if i < s.len() && s[i] != 0x22 && s[i] != 0x5c {
        lemma_string_stop(s, i + 1);
    }
}

/// Whether a text is digits, or nothing.
pub open spec fn digits_only(s: Seq<u8>) -> bool {
    forall|i: int| 0 <= i < s.len() ==> 0x30 <= #[trigger] s[i] <= 0x39
}

/// Whether a text is a sign, or nothing.
pub open spec fn sign_only(s: Seq<u8>) -> bool {
    s.len() == 0 || s == seq![0x2bu8] || s == seq![0x2du8]
}

proof fn lemma_digits_end_is(s: Seq<u8>, i: int, e: int)
    requires
        0 <= i <= e <= s.len(),
        forall|k: int| i <= k < e ==> is_digit(#[trigger] s[k]),
        e < s.len() ==> !is_digit(s[e]),
    ensures
        digits_end(s, i) == e,
    decreases e - i,
{
    if i < e {
        lemma_digits_end_is(s, i + 1, e);
    }
}

proof fn lemma_exponent_of(s: Seq<u8>, i: int, mark: u8, sign: Seq<u8>, c: Seq<u8>)
    requires
        0 <= i < s.len(),
        mark == 0x65 || mark == 0x45,
        sign_only(sign),
        digits_only(c),
        s.skip(i) == seq![mark] + sign + c,
    ensures
        exponent_at(s, i) <==> c.len() > 0,
{
    let t = s.skip(i);
    let tail = seq![mark] + sign + c;
    assert(t.len() == s.len() - i);
    assert(tail.len() == 1 + sign.len() + c.len());
    assert(s[i] == t[0]);
    assert(tail[0] == mark);
    let first = i + 1 + sign.len();
    assert(sign_at(s, i + 1) <==> sign.len() == 1) by {
        if sign.len() == 1 {
            assert(s[i + 1] == t[1]);
            assert(tail[1] == sign[0]);
        } else if c.len() > 0 {
            assert(s[i + 1] == t[1]);
            assert(tail[1] == c[0]);
        }
    }
    if c.len() > 0 {
        assert forall|k: int| first <= k < s.len() implies is_digit(#[trigger] s[k]) by {
            assert(s[k] == t[k - i]);
            assert(tail[k - i] == c[k - first]);
        }
        lemma_digits_end_is(s, first, s.len() as int);
    }
}

/// A number is a sign or none, digits with a point among them or none, and an
/// exponent or none: with a digit at least before the exponent, and one in it.
#[verifier::spinoff_prover]
pub proof fn lemma_numbers_of(
    sign: Seq<u8>,
    a: Seq<u8>,
    b: Seq<u8>,
    mark: u8,
    sign2: Seq<u8>,
    c: Seq<u8>,
)
    requires
        sign_only(sign),
        digits_only(a),
        digits_only(b),
        mark == 0x65 || mark == 0x45,
        sign_only(sign2),
        digits_only(c),
    ensures
        is_number(sign + a) <==> a.len() > 0,
        is_number(sign + a + seq![0x2eu8] + b) <==> a.len() + b.len() > 0,
        is_number(sign + a + (seq![mark] + sign2 + c)) <==> a.len() > 0 && c.len() > 0,
        is_number(sign + a + seq![0x2eu8] + b + (seq![mark] + sign2 + c)) <==> a.len() + b.len() > 0
            && c.len() > 0,
{
    let n0 = sign.len() as int;
    let n1 = n0 + a.len();
    let n2 = n1 + 1 + b.len();
    let tail = seq![mark] + sign2 + c;
    let s1 = sign + a;
    let s2 = sign + a + seq![0x2eu8] + b;
    let s3 = sign + a + tail;
    let s4 = sign + a + seq![0x2eu8] + b + tail;
    assert(s1.take(n1) =~= sign + a);
    assert(s2.take(n1) =~= sign + a && s2[n1] == 0x2e);
    assert(s3.take(n1) =~= sign + a && s3[n1] == mark);
    assert(s4.take(n1) =~= sign + a && s4[n1] == 0x2e);
    lemma_whole_part(s1, sign, a);
    lemma_whole_part(s2, sign, a);
    lemma_whole_part(s3, sign, a);
    lemma_whole_part(s4, sign, a);
    assert(s2[n1] == 0x2e && s4[n1] == 0x2e);
    assert forall|k: int| n1 + 1 <= k < n2 implies is_digit(#[trigger] s2[k]) by {
        assert(s2[k] == b[k - n1 - 1]);
    }
    lemma_digits_end_is(s2, n1 + 1, n2);
    assert forall|k: int| n1 + 1 <= k < n2 implies is_digit(#[trigger] s4[k]) by {
        assert(s4[k] == b[k - n1 - 1]);
    }
    assert(s4[n2] == mark);
    lemma_digits_end_is(s4, n1 + 1, n2);
    assert(s3[n1] == mark);
    assert(s3.skip(n1) =~= tail);
    assert(s4.skip(n2) =~= tail);
    lemma_exponent_of(s3, n1, mark, sign2, c);
    lemma_exponent_of(s4, n2, mark, sign2, c);
}

/// The digits before the point of a number.
proof fn lemma_whole_part(s: Seq<u8>, sign: Seq<u8>, a: Seq<u8>)
    requires
        sign_only(sign),
        digits_only(a),
        sign.len() + a.len() <= s.len(),
        s.take((sign.len() + a.len()) as int) == sign + a,
        s.len() > sign.len() + a.len() ==> {
            let x = s[(sign.len() + a.len()) as int];
            !is_digit(x) && x != 0x2b && x != 0x2d
        },
    ensures
        sign_at(s, 0) <==> sign.len() == 1,
        digits_end(s, sign.len() as int) == sign.len() + a.len(),
{
    let n = (sign.len() + a.len()) as int;
    let front = s.take(n);
    if n > 0 {
        assert(s[0] == front[0]);
        if sign.len() == 0 {
            assert(front[0] == a[0]);
        } else {
            assert(front[0] == sign[0]);
        }
    }
    assert forall|k: int| sign.len() <= k < n implies is_digit(#[trigger] s[k]) by {
        assert(s[k] == front[k]);
        assert(front[k] == a[k - sign.len()]);
    }
    lemma_digits_end_is(s, sign.len() as int, n);
}

/// A number takes the longest run of digits, points, signs and marks of an
/// exponent.
pub proof fn lemma_number_of(s: Seq<u8>)
    ensures
        ({
            let t = after_ws(s);
            match number_at(s) {
                Ok((x, r)) => {
                    &&& t == x + r
                    &&& x.len() > 0
                    &&& is_number(x)
                    &&& forall|k: int|
                        0 <= k < x.len() ==> (0x30 <= #[trigger] x[k] <= 0x39 || x[k] == 0x2e || x[k]
                            == 0x65 || x[k] == 0x45 || x[k] == 0x2b || x[k] == 0x2d)
                    &&& r.len() > 0 ==> !(0x30 <= r[0] <= 0x39 || r[0] == 0x2e || r[0] == 0x65
                        || r[0] == 0x45 || r[0] == 0x2b || r[0] == 0x2d)
                },
                Err(e) => e == ParseErr::Unexpected,
            }
        }),
{
    let t = after_ws(s);
    lemma_number_run(t, 0);
    let n = number_len(t, 0);
    let x = t.take(n);
    assert(t =~= x + t.skip(n));
    assert forall|k: int| 0 <= k < n implies in_number(#[trigger] x[k]) by {
        assert(x[k] == t[k]);
    }
}

proof fn lemma_number_run(s: Seq<u8>, i: int)
    requires
        0 <= i <= s.len(),
    ensures
        ({
            let n = number_len(s, i);
            &&& i <= n <= s.len()
            &&& forall|k: int| i <= k < n ==> in_number(#[trigger] s[k])
            &&& n < s.len() ==> !in_number(s[n])
        }),
    decreases s.len() - i,
{
    if i < s.len() && in_number(s[i]) {
        lemma_number_run(s, i + 1);
    }
}

/// Of two fields for one part of a payload, the later one counts.
pub proof fn lemma_later_counts(p: PayloadView, a: Field, b: Field)
    requires
        target(a) == target(b),
    ensures
        with_field(with_field(p, a), b) == with_field(p, b),
{
}

// ---------------------------------------------------------------------------
// Objects are closed
// ---------------------------------------------------------------------------

/// Whether `t` is the rest of `s`.
pub open spec fn is_rest(t: Seq<u8>, s: Seq<u8>) -> bool {
    t.len() <= s.len() && t == s.skip(s.len() - t.len())
}

/// Whether `t` is the rest of `s` behind the byte `ch`.
pub open spec fn is_behind(t: Seq<u8>, s: Seq<u8>, ch: u8) -> bool {
    &&& t.len() < s.len()
    &&& t == s.skip(s.len() - t.len())
    &&& s[s.len() - t.len() - 1] == ch
}

proof fn lemma_rest_of_rest(u: Seq<u8>, t: Seq<u8>, s: Seq<u8>)
    requires
        is_rest(u, t),
        is_rest(t, s),
    ensures
        is_rest(u, s),
{
    assert(u =~= s.skip(s.len() - u.len()));
}

proof fn lemma_behind_rest(u: Seq<u8>, t: Seq<u8>, s: Seq<u8>, ch: u8)
    requires
        is_behind(u, t, ch),
        is_rest(t, s),
    ensures
        is_behind(u, s, ch),
{
    assert(u =~= s.skip(s.len() - u.len()));
    let k = t.len() - u.len() - 1;
    assert(t[k] == s[s.len() - t.len() + k]);
}

proof fn lemma_token_rests(s: Seq<u8>)
    ensures
        is_rest(after_ws(s), s),
        forall|ch: u8| (#[trigger] expect(s, ch)) matches Ok(t) ==> is_behind(t, s, ch),
        string_at(s) matches Ok((_, t)) ==> is_rest(t, s),
        number_at(s) matches Ok((_, t)) ==> is_rest(t, s),
        bool_at(s) matches Ok((_, t)) ==> is_rest(t, s),
        is_rest(null_at(s).1, s),
        is_rest(after_comma(s), s),
{
    lemma_space_passed(s);
    let t = after_ws(s);
    assert(is_rest(t, s));
    assert forall|n: int| 0 <= n <= t.len() implies is_rest(#[trigger] t.skip(n), s) by {
        assert(is_rest(t.skip(n), t));
        lemma_rest_of_rest(t.skip(n), t, s);
    }
    assert forall|ch: u8| (#[trigger] expect(s, ch)) is Ok implies is_behind(
        expect(s, ch)->Ok_0,
        s,
        ch,
    ) by {
        assert(is_behind(t.skip(1), t, ch));
        lemma_behind_rest(t.skip(1), t, s, ch);
    }
    if t.len() > 0 {
        let r = t.skip(1);
        lemma_string_len(r, 0);
        let n = string_len(r, 0);
        if n < r.len() {
            assert(r.skip(n + 1) =~= t.skip(n + 2));
        }
    }
    lemma_number_run(t, 0);
}

proof fn lemma_value_rest(s: Seq<u8>)
    ensures
        value_skipped(s) matches Ok(t) ==> is_rest(t, s),
    decreases s.len(), 0int,
{
    lemma_after_ws(s);
    lemma_token_rests(s);
    let t = after_ws(s);
    lemma_token_rests(t);
    if t.len() > 0 {
        assert(is_rest(t.skip(1), t));
        lemma_pairs_rest(t.skip(1));
        lemma_items_rest(t.skip(1));
        if let Ok(r) = value_skipped(s) {
            if t[0] == 0x7b || t[0] == 0x5b {
                lemma_rest_of_rest(r, t.skip(1), t);
            }
            lemma_rest_of_rest(r, t, s);
        }
    }
}

proof fn lemma_items_rest(s: Seq<u8>)
    ensures
        items_skipped(s) matches Ok(t) ==> is_rest(t, s),
    decreases s.len(), 1int,
{
    lemma_after_ws(s);
    lemma_token_rests(s);
    let t = after_ws(s);
    if starts(t, 0x5d) {
        assert(is_rest(t.skip(1), t));
        lemma_rest_of_rest(t.skip(1), t, s);
    } else {
        lemma_value_rest(t);
        lemma_value_skipped(t);
        if let Ok(r) = value_skipped(t) {
            lemma_token_rests(r);
            lemma_after_ws(r);
            let u = after_ws(r);
            lemma_token_rests(u);
            lemma_rest_of_rest(u, r, t);
            lemma_rest_of_rest(u, t, s);
            if starts(u, 0x2c) {
                lemma_items_rest(u.skip(1));
                assert(is_rest(u.skip(1), u));
                lemma_rest_of_rest(u.skip(1), u, s);
                if let Ok(x) = items_skipped(u.skip(1)) {
                    lemma_rest_of_rest(x, u.skip(1), s);
                }
            } else if let Ok(x) = expect(u, 0x5d) {
                lemma_rest_of_rest(x, u, s);
            }
        }
    }
}

proof fn lemma_pairs_rest(s: Seq<u8>)
    ensures
        pairs_skipped(s) matches Ok(t) ==> is_rest(t, s),
    decreases s.len(), 1int,
{
    lemma_after_ws(s);
    lemma_token_rests(s);
    let t = after_ws(s);
    lemma_token_rests(t);
    lemma_tokens_take(t);
    if starts(t, 0x7d) {
        assert(is_rest(t.skip(1), t));
        lemma_rest_of_rest(t.skip(1), t, s);
    } else if let Ok((_, k)) = string_at(t) {
        lemma_token_rests(k);
        lemma_tokens_take(k);
        lemma_rest_of_rest(k, t, s);
        if let Ok(v) = expect(k, 0x3a) {
            lemma_rest_of_rest(v, k, s);
            lemma_value_rest(v);
            lemma_value_skipped(v);
            if let Ok(r) = value_skipped(v) {
                lemma_rest_of_rest(r, v, s);
                lemma_token_rests(r);
                lemma_after_ws(r);
                let u = after_ws(r);
                lemma_token_rests(u);
                lemma_rest_of_rest(u, r, s);
                if starts(u, 0x2c) {
                    lemma_pairs_rest(u.skip(1));
                    assert(is_rest(u.skip(1), u));
                    lemma_rest_of_rest(u.skip(1), u, s);
                    if let Ok(x) = pairs_skipped(u.skip(1)) {
                        lemma_rest_of_rest(x, u.skip(1), s);
                    }
                } else if let Ok(x) = expect(u, 0x7d) {
                    lemma_rest_of_rest(x, u, s);
                }
            }
        }
    }
}

proof fn lemma_strings_rest(s: Seq<u8>)
    ensures
        strings_at(s) matches Ok((_, t)) ==> is_rest(t, s),
    decreases s.len(),
{
    lemma_after_ws(s);
    lemma_token_rests(s);
    let t = after_ws(s);
    lemma_token_rests(t);
    lemma_tokens_take(t);
    if starts(t, 0x5d) {
        assert(is_rest(t.skip(1), t));
        lemma_rest_of_rest(t.skip(1), t, s);
    } else if let Ok((_, r)) = string_at(t) {
        lemma_token_rests(r);
        lemma_tokens_take(r);
        lemma_rest_of_rest(r, t, s);
        lemma_rest_of_rest(after_comma(r), r, s);
        lemma_strings_rest(after_comma(r));
        if let Ok((_, x)) = strings_at(after_comma(r)) {
            lemma_rest_of_rest(x, after_comma(r), s);
        }
    }
}

#[verifier::spinoff_prover]
proof fn lemma_inner_field_rest(section: Section, key: Seq<u8>, s: Seq<u8>)
    requires
        !(section is Top),
    ensures
        field_at(section, key, s) matches Ok((_, t)) ==> is_rest(t, s),
{
    lemma_token_rests(s);
    lemma_value_rest(s);
    lemma_merchants_rest(s);
    match section {
        Section::Top => {},
        Section::Transaction => {},
        Section::Customer => {},
        Section::Merchant => {},
        Section::Terminal => {},
        Section::Last => {},
    }
}

proof fn lemma_merchants_rest(s: Seq<u8>)
    ensures
        merchants_at(s) matches Ok((_, t)) ==> is_rest(t, s),
{
    lemma_token_rests(s);
    if let Ok(t) = expect(s, 0x5b) {
        lemma_strings_rest(t);
        if let Ok((_, x)) = strings_at(t) {
            lemma_rest_of_rest(x, t, s);
        }
    }
}

#[verifier::spinoff_prover]
proof fn lemma_field_rest(section: Section, key: Seq<u8>, s: Seq<u8>)
    ensures
        field_at(section, key, s) matches Ok((_, t)) ==> is_rest(t, s),
    decreases s.len(), 1int,
{
    if section is Top {
        lemma_token_rests(s);
        lemma_value_rest(s);
        if key == TRANSACTION@ {
            lemma_object_closed(Section::Transaction, s);
        } else if key == CUSTOMER@ {
            lemma_object_closed(Section::Customer, s);
        } else if key == MERCHANT@ {
            lemma_object_closed(Section::Merchant, s);
        } else if key == TERMINAL@ {
            lemma_object_closed(Section::Terminal, s);
        } else {
            lemma_object_closed(Section::Last, s);
        }
    } else {
        lemma_inner_field_rest(section, key, s);
    }
}

/// An object is read up to a closing brace.
pub proof fn lemma_object_closed(section: Section, s: Seq<u8>)
    ensures
        object_at(section, s) matches Ok((_, t)) ==> is_behind(t, s, 0x7d),
    decreases s.len(), 0int,
{
    lemma_token_rests(s);
    lemma_tokens_take(s);
    if let Ok(t) = expect(s, 0x7b) {
        lemma_members_closed(section, t);
        if let Ok((_, x)) = members_at(section, t) {
            lemma_behind_rest(x, t, s, 0x7d);
        }
    }
}

proof fn lemma_members_closed(section: Section, s: Seq<u8>)
    ensures
        members_at(section, s) matches Ok((_, t)) ==> is_behind(t, s, 0x7d),
    decreases s.len(), 2int,
{
    lemma_after_ws(s);
    lemma_token_rests(s);
    let t = after_ws(s);
    lemma_token_rests(t);
    lemma_tokens_take(t);
    if starts(t, 0x7d) {
        assert(is_behind(t.skip(1), t, 0x7d));
        lemma_behind_rest(t.skip(1), t, s, 0x7d);
    } else {
        let member = member_at(section, t);
        if let Ok((key, k)) = string_at(t) {
            lemma_token_rests(k);
            lemma_tokens_take(k);
            lemma_rest_of_rest(k, t, s);
            if let Ok(v) = expect(k, 0x3a) {
                lemma_rest_of_rest(v, k, s);
                lemma_field_rest(section, key, v);
                if let Ok((_, r)) = field_at(section, key, v) {
                    lemma_rest_of_rest(r, v, s);
                    lemma_token_rests(r);
                    lemma_rest_of_rest(after_comma(r), r, s);
                }
            }
        }
        if let Ok((_, r)) = member {
            assert(is_rest(r, s));
            if r.len() < s.len() {
                lemma_members_closed(section, r);
                if let Ok((_, x)) = members_at(section, r) {
                    lemma_behind_rest(x, r, s, 0x7d);
                }
            }
        }
    }
}

/// A body is a payload only if it opens an object, behind white space at most,
/// and closes it.
pub proof fn lemma_payload_closed(s: Seq<u8>)
    ensures
        payload(s) is Ok ==> exists|i: int, j: int|
            {
                &&& 0 <= i < j < s.len()
                &&& #[trigger] s[i] == 0x7b
                &&& #[trigger] s[j] == 0x7d
                &&& forall|k: int|
                    0 <= k < i ==> s[k] == 0x20 || s[k] == 0x09 || s[k] == 0x0a || s[k] == 0x0d
            },
{
    lemma_space_passed(s);
    let t = after_ws(s);
    if payload(s) is Ok {
        let open = t.skip(1);
        lemma_members_closed(Section::Top, open);
        let x = members_at(Section::Top, open)->Ok_0.1;
        let i = s.len() - t.len();
        assert(s[i] == t[0]);
        let k = open.len() - x.len() - 1;
        let j = i + 1 + k;
        assert(open[k] == t[k + 1]);
        assert(s[j] == t[k + 1]);
    }
}

} // verus!
