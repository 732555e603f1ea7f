//! A document is read as it is written, with white space between its tokens.

use super::document::{
    comma_if, field_of, fields_of, is_gap, items_tokens, pairs_tokens, payload_of, section_of,
    spaced, strings_of, tokens, well_formed, Doc, Pair,
};
use super::grammar::{
    after_comma, after_ws, bool_at, digits_end, expect, exponent_at, field_at, in_number, is_number,
    is_space, items_skipped, lemma_after_ws, lemma_member_takes, lemma_tokens_take,
    lemma_value_skipped, members_at, merchants_at, null_at, number_at, number_len, object_at,
    pairs_skipped, payload, sign_at, starts, starts_with, string_at, strings_at, value_skipped,
    Field, PayloadView, Section,
};
use super::laws::{all_space, lemma_quoted_read, lemma_space_skipped, quotable, quoted};
use super::words::{FALSE, NULL, TRUE};
use super::ParseErr;
use crate::decimal::is_digit;
use vstd::prelude::*;

verus! {

// ---------------------------------------------------------------------------
// Tokens are read as they are written
// ---------------------------------------------------------------------------

/// What is read of a text that was written as a whole.
spec fn reading(f: Option<Seq<Field>>, rest: Seq<u8>) -> Result<(Seq<Field>, Seq<u8>), ParseErr> {
    match f {
        Some(f) => Ok((f, rest)),
        None => Err(ParseErr::Unexpected),
    }
}

/// Whether some tokens start with one that can follow a value.
spec fn delimited(tokens: Seq<Seq<u8>>) -> bool {
    tokens.len() > 0 && (tokens[0] == seq![0x2cu8] || tokens[0] == seq![0x5du8] || tokens[0]
        == seq![0x7du8])
}

/// White space before a token is passed over.
proof fn lemma_front(
    x: Seq<u8>,
    more: Seq<Seq<u8>>,
    gap: spec_fn(int) -> Seq<u8>,
    end: Seq<u8>,
)
    requires
        is_gap(gap),
        x.len() > 0,
        !is_space(x[0]),
    ensures
        after_ws(spaced(seq![x] + more, gap, end)) == x + spaced(more, gap, end),
{
    let all = seq![x] + more;
    let r = spaced(more, gap, end);
    assert(all.skip(1) =~= more);
    let g = gap(all.len() as int);
    assert(all_space(g));
    lemma_space_skipped(g, x + r);
    assert((x + r)[0] == x[0]);
}

/// A token of one byte.
proof fn lemma_mark(ch: u8, more: Seq<Seq<u8>>, gap: spec_fn(int) -> Seq<u8>, end: Seq<u8>)
    requires
        is_gap(gap),
        !is_space(ch),
    ensures
        ({
            let s = spaced(seq![seq![ch]] + more, gap, end);
            let r = spaced(more, gap, end);
            &&& after_ws(s) == seq![ch] + r
            &&& starts(after_ws(s), ch)
            &&& after_ws(s)[0] == ch
            &&& after_ws(s).skip(1) == r
            &&& expect(s, ch) == Ok::<Seq<u8>, ParseErr>(r)
        }),
{
    lemma_front(seq![ch], more, gap, end);
    let r = spaced(more, gap, end);
    assert((seq![ch] + r).skip(1) =~= r);
}

/// A string.
proof fn lemma_text(x: Seq<u8>, more: Seq<Seq<u8>>, gap: spec_fn(int) -> Seq<u8>, end: Seq<u8>)
    requires
        is_gap(gap),
        quotable(x),
    ensures
        ({
            let s = spaced(seq![quoted(x)] + more, gap, end);
            let r = spaced(more, gap, end);
            &&& starts(after_ws(s), 0x22)
            &&& string_at(s) == Ok::<(Seq<u8>, Seq<u8>), ParseErr>((x, r))
        }),
{
    let s = spaced(seq![quoted(x)] + more, gap, end);
    let r = spaced(more, gap, end);
    assert(quoted(x)[0] == 0x22);
    lemma_front(quoted(x), more, gap, end);
    lemma_quoted_read(x, r);
    lemma_after_ws(s);
    assert(string_at(quoted(x) + r) == string_at(s));
}

/// A word.
proof fn lemma_word(x: Seq<u8>, r: Seq<u8>)
    ensures
        starts_with(x + r, x),
        (x + r).skip(x.len() as int) == r,
{
    assert((x + r).take(x.len() as int) =~= x);
    assert((x + r).skip(x.len() as int) =~= r);
}

/// A text that starts with another byte does not start with a word.
proof fn lemma_no_word(s: Seq<u8>, x: Seq<u8>)
    requires
        x.len() > 0,
        s.len() > 0 ==> s[0] != x[0],
    ensures
        !starts_with(s, x),
{
    if starts_with(s, x) {
        assert(s.take(x.len() as int)[0] == s[0]);
    }
}

proof fn lemma_digits(s: Seq<u8>, i: int)
    requires
        0 <= i <= s.len(),
    ensures
        i <= digits_end(s, i) <= s.len(),
        forall|k: int| i <= k < digits_end(s, i) ==> is_digit(#[trigger] s[k]),
    decreases s.len() - i,
{
    if i < s.len() && is_digit(s[i]) {
        lemma_digits(s, i + 1);
    }
}

proof fn lemma_exponent_bytes(s: Seq<u8>, i: int)
    requires
        0 <= i,
        exponent_at(s, i),
    ensures
        forall|k: int| i <= k < s.len() ==> in_number(#[trigger] s[k]),
{
    let first = if sign_at(s, i + 1) {
        i + 2
    } else {
        i + 1
    };
    lemma_digits(s, first);
}

/// A number is made of the bytes that may stand in one.
pub proof fn lemma_number_bytes(s: Seq<u8>)
    requires
        is_number(s),
    ensures
        s.len() > 0,
        forall|k: int| 0 <= k < s.len() ==> in_number(#[trigger] s[k]),
{
    let a = if sign_at(s, 0) {
        1int
    } else {
        0
    };
    let b = digits_end(s, a);
    lemma_digits(s, a);
    if b < s.len() && s[b] == 0x2e {
        lemma_digits(s, b + 1);
        let c = digits_end(s, b + 1);
        if c < s.len() {
            lemma_exponent_bytes(s, c);
        }
    } else if b < s.len() {
        lemma_exponent_bytes(s, b);
    }
}

proof fn lemma_number_len_of(s: Seq<u8>, i: int, n: int)
    requires
        0 <= i <= n <= s.len(),
        forall|k: int| i <= k < n ==> in_number(#[trigger] s[k]),
        n < s.len() ==> !in_number(s[n]),
    ensures
        number_len(s, i) == n,
    decreases n - i,
{
    if i < n {
        lemma_number_len_of(s, i + 1, n);
    }
}

/// What follows a value does not go on with a number.
proof fn lemma_delimited(more: Seq<Seq<u8>>, gap: spec_fn(int) -> Seq<u8>, end: Seq<u8>)
    requires
        is_gap(gap),
        delimited(more),
    ensures
        spaced(more, gap, end).len() > 0,
        !in_number(spaced(more, gap, end)[0]),
{
    let g = gap(more.len() as int);
    assert(all_space(g));
    let r = spaced(more, gap, end);
    let rest = more[0] + spaced(more.skip(1), gap, end);
    assert(r == g + rest);
    if g.len() > 0 {
        assert(r[0] == g[0]);
        assert(is_space(g[0]));
    } else {
        assert(r[0] == more[0][0]);
    }
}

/// A number.
proof fn lemma_number(x: Seq<u8>, more: Seq<Seq<u8>>, gap: spec_fn(int) -> Seq<u8>, end: Seq<u8>)
    requires
        is_gap(gap),
        is_number(x),
        delimited(more),
    ensures
        ({
            let s = spaced(seq![x] + more, gap, end);
            let r = spaced(more, gap, end);
            &&& after_ws(s).len() > 0
            &&& in_number(after_ws(s)[0])
            &&& number_at(s) == Ok::<(Seq<u8>, Seq<u8>), ParseErr>((x, r))
        }),
{
    let s = spaced(seq![x] + more, gap, end);
    let r = spaced(more, gap, end);
    lemma_number_bytes(x);
    assert(in_number(x[0]));
    lemma_front(x, more, gap, end);
    lemma_delimited(more, gap, end);
    let t = x + r;
    let n = x.len() as int;
    assert forall|k: int| 0 <= k < n implies in_number(#[trigger] t[k]) by {
        assert(t[k] == x[k]);
    }
    assert(t[n] == r[0]);
    lemma_number_len_of(t, 0, n);
    assert(t.take(n) =~= x);
    assert(t.skip(n) =~= r);
}

/// The first byte of a document.
spec fn head(d: Doc) -> u8 {
    match d {
        Doc::Text(_) => 0x22,
        Doc::Number(x) => x[0],
        Doc::Flag(b) => if b {
            0x74
        } else {
            0x66
        },
        Doc::Null => 0x6e,
        Doc::List(_) => 0x5b,
        Doc::Object(_) => 0x7b,
    }
}

/// A document starts with its first byte, behind white space.
proof fn lemma_head(d: Doc, more: Seq<Seq<u8>>, gap: spec_fn(int) -> Seq<u8>, end: Seq<u8>)
    requires
        is_gap(gap),
        well_formed(d),
    ensures
        starts(after_ws(spaced(tokens(d) + more, gap, end)), head(d)),
        d is Number ==> in_number(head(d)),
{
    let first = tokens(d)[0];
    let rest = tokens(d).skip(1) + more;
    assert(tokens(d) + more =~= seq![first] + rest);
    if let Doc::Number(x) = d {
        lemma_number_bytes(x);
        assert(in_number(x[0]));
    }
    assert(first.len() > 0 && first[0] == head(d)) by {
        if let Doc::Flag(b) = d {
            assert(TRUE@[0] == 0x74 && FALSE@[0] == 0x66);
        }
        assert(NULL@[0] == 0x6e);
    }
    lemma_front(first, rest, gap, end);
    assert((first + spaced(rest, gap, end))[0] == head(d));
}

/// What is not a string, a number or a flag is not read as one.
proof fn lemma_wrong_kind(d: Doc, more: Seq<Seq<u8>>, gap: spec_fn(int) -> Seq<u8>, end: Seq<u8>)
    requires
        is_gap(gap),
        well_formed(d),
    ensures
        ({
            let s = spaced(tokens(d) + more, gap, end);
            &&& !(d is Text) ==> string_at(s) == Err::<(Seq<u8>, Seq<u8>), ParseErr>(
                ParseErr::Unexpected,
            )
            &&& !(d is Number) ==> number_at(s) == Err::<(Seq<u8>, Seq<u8>), ParseErr>(
                ParseErr::Unexpected,
            )
            &&& !(d is Flag) ==> bool_at(s) == Err::<(bool, Seq<u8>), ParseErr>(
                ParseErr::Unexpected,
            )
            &&& !(d is Null) ==> !null_at(s).0
            &&& !(d is List) ==> expect(s, 0x5b) == Err::<Seq<u8>, ParseErr>(ParseErr::Unexpected)
            &&& !(d is Object) ==> expect(s, 0x7b) == Err::<Seq<u8>, ParseErr>(
                ParseErr::Unexpected,
            )
        }),
{
    lemma_head(d, more, gap, end);
    let t = after_ws(spaced(tokens(d) + more, gap, end));
    assert(TRUE@[0] == 0x74 && FALSE@[0] == 0x66 && NULL@[0] == 0x6e);
    if !(d is Flag) {
        lemma_no_word(t, TRUE@);
        lemma_no_word(t, FALSE@);
    }
    if !(d is Null) {
        lemma_no_word(t, NULL@);
    }
}

/// `true`, `false` and `null`.
proof fn lemma_words_read(
    b: bool,
    more: Seq<Seq<u8>>,
    gap: spec_fn(int) -> Seq<u8>,
    end: Seq<u8>,
)
    requires
        is_gap(gap),
    ensures
        bool_at(spaced(tokens(Doc::Flag(b)) + more, gap, end)) == Ok::<
            (bool, Seq<u8>),
            ParseErr,
        >((b, spaced(more, gap, end))),
        null_at(spaced(tokens(Doc::Null) + more, gap, end)) == (true, spaced(more, gap, end)),
{
    let r = spaced(more, gap, end);
    assert(TRUE@[0] == 0x74 && FALSE@[0] == 0x66 && NULL@[0] == 0x6e);
    assert(TRUE@.len() == 4 && FALSE@.len() == 5 && NULL@.len() == 4);
    lemma_front(NULL@, more, gap, end);
    lemma_word(NULL@, r);
    if b {
        lemma_front(TRUE@, more, gap, end);
        lemma_word(TRUE@, r);
    } else {
        lemma_front(FALSE@, more, gap, end);
        lemma_word(FALSE@, r);
        lemma_no_word(FALSE@ + r, TRUE@);
    }
}

// ---------------------------------------------------------------------------
// Values that are passed over
// ---------------------------------------------------------------------------

/// A document is passed over as a whole.
#[verifier::spinoff_prover]
proof fn lemma_doc_skipped(
    d: Doc,
    more: Seq<Seq<u8>>,
    gap: spec_fn(int) -> Seq<u8>,
    end: Seq<u8>,
)
    requires
        is_gap(gap),
        well_formed(d),
        delimited(more),
    ensures
        value_skipped(spaced(tokens(d) + more, gap, end)) == Ok::<Seq<u8>, ParseErr>(
            spaced(more, gap, end),
        ),
    decreases d, 0int,
{
    let s = spaced(tokens(d) + more, gap, end);
    let t = after_ws(s);
    lemma_head(d, more, gap, end);
    lemma_after_ws(s);
    assert(string_at(t) == string_at(s) && number_at(t) == number_at(s) && bool_at(t) == bool_at(s)
        && null_at(t) == null_at(s));
    match d {
        Doc::Text(x) => {
            lemma_text(x, more, gap, end);
        },
        Doc::Number(x) => {
            lemma_number(x, more, gap, end);
        },
        Doc::Flag(b) => {
            lemma_words_read(b, more, gap, end);
        },
        Doc::Null => {
            lemma_words_read(true, more, gap, end);
        },
        Doc::List(v) => {
            let rest = items_tokens(v, 0) + more;
            assert(tokens(d) + more =~= seq![seq![0x5bu8]] + rest);
            lemma_mark(0x5b, rest, gap, end);
            lemma_list_skipped(v, 0, more, gap, end);
        },
        Doc::Object(m) => {
            let rest = pairs_tokens(m, 0) + more;
            assert(tokens(d) + more =~= seq![seq![0x7bu8]] + rest);
            lemma_mark(0x7b, rest, gap, end);
            lemma_members_skipped(m, 0, more, gap, end);
        },
    }
}

/// The tokens behind item or member `i` of `n`.
proof fn lemma_delimiter(i: int, n: int, rest: Seq<Seq<u8>>, close: u8)
    requires
        i + 1 >= n ==> rest.len() > 0 && rest[0] == seq![close],
        close == 0x5d || close == 0x7d,
    ensures
        delimited(comma_if(i + 1 < n) + rest),
{
}

#[verifier::spinoff_prover]
proof fn lemma_list_skipped(
    v: Seq<Doc>,
    i: int,
    more: Seq<Seq<u8>>,
    gap: spec_fn(int) -> Seq<u8>,
    end: Seq<u8>,
)
    requires
        is_gap(gap),
        forall|k: int| 0 <= k < v.len() ==> well_formed(#[trigger] v[k]),
        0 <= i <= v.len(),
        i < v.len() || v.len() == 0,
    ensures
        items_skipped(spaced(items_tokens(v, i) + more, gap, end)) == Ok::<Seq<u8>, ParseErr>(
            spaced(more, gap, end),
        ),
    decreases v, v.len() - i,
{
    let s = spaced(items_tokens(v, i) + more, gap, end);
    let t = after_ws(s);
    lemma_after_ws(s);
    if i >= v.len() {
        lemma_mark(0x5d, more, gap, end);
    } else {
        let tail = items_tokens(v, i + 1) + more;
        let rest = comma_if(i + 1 < v.len()) + tail;
        assert(items_tokens(v, i) + more =~= tokens(v[i]) + rest);
        lemma_delimiter(i, v.len() as int, tail, 0x5d);
        lemma_head(v[i], rest, gap, end);
        lemma_doc_skipped(v[i], rest, gap, end);
        lemma_value_skipped(s);
        let r = spaced(rest, gap, end);
        let u = after_ws(r);
        lemma_after_ws(r);
        assert(value_skipped(t) == value_skipped(s));
        lemma_value_skipped(t);
        if i + 1 < v.len() {
            assert(rest =~= seq![seq![0x2cu8]] + tail);
            lemma_mark(0x2c, tail, gap, end);
            lemma_list_skipped(v, i + 1, more, gap, end);
        } else {
            assert(rest =~= seq![seq![0x5du8]] + more);
            lemma_mark(0x5d, more, gap, end);
        }
    }
}

#[verifier::spinoff_prover]
proof fn lemma_members_skipped(
    m: Seq<Pair>,
    i: int,
    more: Seq<Seq<u8>>,
    gap: spec_fn(int) -> Seq<u8>,
    end: Seq<u8>,
)
    requires
        is_gap(gap),
        forall|k: int|
            0 <= k < m.len() ==> quotable((#[trigger] m[k]).key) && well_formed(m[k].value),
        0 <= i <= m.len(),
        i < m.len() || m.len() == 0,
    ensures
        pairs_skipped(spaced(pairs_tokens(m, i) + more, gap, end)) == Ok::<Seq<u8>, ParseErr>(
            spaced(more, gap, end),
        ),
    decreases m, m.len() - i,
{
    let s = spaced(pairs_tokens(m, i) + more, gap, end);
    let t = after_ws(s);
    lemma_after_ws(s);
    if i >= m.len() {
        lemma_mark(0x7d, more, gap, end);
    } else {
        let key = m[i].key;
        let d = m[i].value;
        assert(quotable(key) && well_formed(d));
        let tail = pairs_tokens(m, i + 1) + more;
        let rest = comma_if(i + 1 < m.len()) + tail;
        let value = tokens(d) + rest;
        let colon = seq![seq![0x3au8]] + value;
        assert(pairs_tokens(m, i) + more =~= seq![quoted(key)] + colon);
        lemma_text(key, colon, gap, end);
        lemma_mark(0x3a, value, gap, end);
        let k = spaced(colon, gap, end);
        let w = spaced(value, gap, end);
        assert(string_at(t) == string_at(s));
        lemma_tokens_take(t);
        lemma_tokens_take(k);
        lemma_delimiter(i, m.len() as int, tail, 0x7d);
        lemma_doc_skipped(d, rest, gap, end);
        lemma_value_skipped(w);
        let r = spaced(rest, gap, end);
        lemma_after_ws(r);
        if i + 1 < m.len() {
            assert(rest =~= seq![seq![0x2cu8]] + tail);
            lemma_mark(0x2c, tail, gap, end);
            lemma_members_skipped(m, i + 1, more, gap, end);
        } else {
            assert(rest =~= seq![seq![0x7du8]] + more);
            lemma_mark(0x7d, more, gap, end);
        }
    }
}

// ---------------------------------------------------------------------------
// Documents are read as they are written
// ---------------------------------------------------------------------------

/// What comes behind item or member `i` of `n`, and the comma if there is one.
proof fn lemma_comma_read(
    more_to_come: bool,
    tail: Seq<Seq<u8>>,
    close: u8,
    gap: spec_fn(int) -> Seq<u8>,
    end: Seq<u8>,
)
    requires
        is_gap(gap),
        !more_to_come ==> tail.len() > 0 && tail[0] == seq![close],
        close == 0x5d || close == 0x7d,
    ensures
        after_ws(after_comma(spaced(comma_if(more_to_come) + tail, gap, end))) == after_ws(
            spaced(tail, gap, end),
        ),
{
    let rest = comma_if(more_to_come) + tail;
    let r = spaced(rest, gap, end);
    lemma_after_ws(r);
    if more_to_come {
        lemma_mark(0x2c, tail, gap, end);
    } else {
        assert(rest =~= tail);
        let behind = tail.skip(1);
        assert(tail =~= seq![seq![close]] + behind);
        lemma_mark(close, behind, gap, end);
    }
}

proof fn lemma_strings_of(v: Seq<Doc>, i: int)
    requires
        0 <= i < v.len(),
    ensures
        strings_of(v, i) == (match v[i] {
            Doc::Text(x) => match strings_of(v, i + 1) {
                Some(more) => Some(seq![x] + more),
                None => None,
            },
            _ => None,
        }),
{
    if v[i] is Text && strings_of(v, i + 1) is Some {
        let more = strings_of(v, i + 1)->Some_0;
        assert forall|k: int| i <= k < v.len() implies (#[trigger] v[k]) is Text by {
            if k > i {
                assert(i + 1 <= k);
            }
        }
        assert(strings_of(v, i)->Some_0 =~= seq![v[i]->Text_0] + more);
    } else if v[i] is Text {
        let k = choose|k: int| i + 1 <= k < v.len() && !((#[trigger] v[k]) is Text);
        assert(!(v[k] is Text));
    }
}

#[verifier::spinoff_prover]
proof fn lemma_strings_read(
    s: Seq<u8>,
    v: Seq<Doc>,
    i: int,
    more: Seq<Seq<u8>>,
    gap: spec_fn(int) -> Seq<u8>,
    end: Seq<u8>,
)
    requires
        is_gap(gap),
        forall|k: int| 0 <= k < v.len() ==> well_formed(#[trigger] v[k]),
        0 <= i <= v.len(),
        after_ws(s) == after_ws(spaced(items_tokens(v, i) + more, gap, end)),
    ensures
        strings_at(s) == (match strings_of(v, i) {
            Some(x) => Ok::<(Seq<Seq<u8>>, Seq<u8>), ParseErr>((x, spaced(more, gap, end))),
            None => Err(ParseErr::Unexpected),
        }),
    decreases v.len() - i,
{
    let t = after_ws(s);
    lemma_after_ws(s);
    if i >= v.len() {
        lemma_mark(0x5d, more, gap, end);
        assert(strings_of(v, i)->Some_0 =~= Seq::<Seq<u8>>::empty());
    } else {
        let tail = items_tokens(v, i + 1) + more;
        let rest = comma_if(i + 1 < v.len()) + tail;
        let whole = items_tokens(v, i) + more;
        assert(whole =~= tokens(v[i]) + rest);
        lemma_head(v[i], rest, gap, end);
        lemma_wrong_kind(v[i], rest, gap, end);
        lemma_strings_of(v, i);
        assert(string_at(t) == string_at(spaced(whole, gap, end)));
        if let Doc::Text(x) = v[i] {
            lemma_text(x, rest, gap, end);
            let r = spaced(rest, gap, end);
            lemma_comma_read(i + 1 < v.len(), tail, 0x5d, gap, end);
            lemma_tokens_take(t);
            lemma_tokens_take(r);
            lemma_strings_read(after_comma(r), v, i + 1, more, gap, end);
        }
    }
}

/// A value is read as the kind that it is of.
#[verifier::spinoff_prover]
proof fn lemma_kinds_read(
    d: Doc,
    more: Seq<Seq<u8>>,
    gap: spec_fn(int) -> Seq<u8>,
    end: Seq<u8>,
)
    requires
        is_gap(gap),
        well_formed(d),
        delimited(more),
    ensures
        ({
            let s = spaced(tokens(d) + more, gap, end);
            let r = spaced(more, gap, end);
            let wrong = ParseErr::Unexpected;
            &&& string_at(s) == (match d {
                Doc::Text(x) => Ok::<(Seq<u8>, Seq<u8>), ParseErr>((x, r)),
                _ => Err(wrong),
            })
            &&& number_at(s) == (match d {
                Doc::Number(x) => Ok::<(Seq<u8>, Seq<u8>), ParseErr>((x, r)),
                _ => Err(wrong),
            })
            &&& bool_at(s) == (match d {
                Doc::Flag(x) => Ok::<(bool, Seq<u8>), ParseErr>((x, r)),
                _ => Err(wrong),
            })
            &&& null_at(s).0 == (d is Null)
            &&& d is Null ==> null_at(s).1 == r
            &&& merchants_at(s) == (match d {
                Doc::List(v) => match strings_of(v, 0) {
                    Some(x) => Ok::<(Seq<Field>, Seq<u8>), ParseErr>(
                        (seq![Field::KnownMerchants(x)], r),
                    ),
                    None => Err(wrong),
                },
                _ => Err(wrong),
            })
            &&& value_skipped(s) == Ok::<Seq<u8>, ParseErr>(r)
        }),
{
    lemma_doc_skipped(d, more, gap, end);
    lemma_wrong_kind(d, more, gap, end);
    match d {
        Doc::Text(x) => {
            lemma_text(x, more, gap, end);
        },
        Doc::Number(x) => {
            lemma_number(x, more, gap, end);
        },
        Doc::Flag(b) => {
            lemma_words_read(b, more, gap, end);
        },
        Doc::Null => {
            lemma_words_read(true, more, gap, end);
        },
        Doc::List(v) => {
            let rest = items_tokens(v, 0) + more;
            assert(tokens(d) + more =~= seq![seq![0x5bu8]] + rest);
            lemma_mark(0x5b, rest, gap, end);
            lemma_strings_read(spaced(rest, gap, end), v, 0, more, gap, end);
        },
        Doc::Object(_) => {},
    }
}

/// The value of a member of a section is read as what it says.
#[verifier::spinoff_prover]
proof fn lemma_inner_field_read(
    section: Section,
    key: Seq<u8>,
    d: Doc,
    more: Seq<Seq<u8>>,
    gap: spec_fn(int) -> Seq<u8>,
    end: Seq<u8>,
)
    requires
        is_gap(gap),
        well_formed(d),
        delimited(more),
        !(section is Top),
    ensures
        field_at(section, key, spaced(tokens(d) + more, gap, end)) == reading(
            field_of(section, key, d),
            spaced(more, gap, end),
        ),
{
    lemma_kinds_read(d, more, gap, end);
    match section {
        Section::Top => {},
        Section::Transaction => {},
        Section::Customer => {},
        Section::Merchant => {},
        Section::Terminal => {},
        Section::Last => {},
    }
}

/// The value of a member is read as what it says.
#[verifier::spinoff_prover]
proof fn lemma_field_read(
    section: Section,
    key: Seq<u8>,
    d: Doc,
    more: Seq<Seq<u8>>,
    gap: spec_fn(int) -> Seq<u8>,
    end: Seq<u8>,
)
    requires
        is_gap(gap),
        well_formed(d),
        delimited(more),
    ensures
        field_at(section, key, spaced(tokens(d) + more, gap, end)) == reading(
            field_of(section, key, d),
            spaced(more, gap, end),
        ),
    decreases d, 1int,
{
    if section is Top {
        lemma_kinds_read(d, more, gap, end);
        lemma_section_read(Section::Transaction, d, more, gap, end);
        lemma_section_read(Section::Customer, d, more, gap, end);
        lemma_section_read(Section::Merchant, d, more, gap, end);
        lemma_section_read(Section::Terminal, d, more, gap, end);
        lemma_section_read(Section::Last, d, more, gap, end);
    } else {
        lemma_inner_field_read(section, key, d, more, gap, end);
    }
}

/// A section is read as what it says.
proof fn lemma_section_read(
    section: Section,
    d: Doc,
    more: Seq<Seq<u8>>,
    gap: spec_fn(int) -> Seq<u8>,
    end: Seq<u8>,
)
    requires
        is_gap(gap),
        well_formed(d),
    ensures
        object_at(section, spaced(tokens(d) + more, gap, end)) == reading(
            section_of(section, d),
            spaced(more, gap, end),
        ),
    decreases d, 0int,
{
    lemma_wrong_kind(d, more, gap, end);
    if let Doc::Object(m) = d {
        let rest = pairs_tokens(m, 0) + more;
        assert(tokens(d) + more =~= seq![seq![0x7bu8]] + rest);
        lemma_mark(0x7b, rest, gap, end);
        lemma_members_read(section, spaced(rest, gap, end), m, 0, more, gap, end);
    }
}

/// The members of an object are read as what they say.
#[verifier::spinoff_prover]
proof fn lemma_members_read(
    section: Section,
    s: Seq<u8>,
    m: Seq<Pair>,
    i: int,
    more: Seq<Seq<u8>>,
    gap: spec_fn(int) -> Seq<u8>,
    end: Seq<u8>,
)
    requires
        is_gap(gap),
        forall|k: int|
            0 <= k < m.len() ==> quotable((#[trigger] m[k]).key) && well_formed(m[k].value),
        0 <= i <= m.len(),
        after_ws(s) == after_ws(spaced(pairs_tokens(m, i) + more, gap, end)),
    ensures
        members_at(section, s) == reading(fields_of(section, m, i), spaced(more, gap, end)),
    decreases m, m.len() - i,
{
    let t = after_ws(s);
    lemma_after_ws(s);
    if i >= m.len() {
        lemma_mark(0x7d, more, gap, end);
    } else {
        let key = m[i].key;
        let d = m[i].value;
        assert(quotable(key) && well_formed(d));
        let tail = pairs_tokens(m, i + 1) + more;
        let rest = comma_if(i + 1 < m.len()) + tail;
        let value = tokens(d) + rest;
        let colon = seq![seq![0x3au8]] + value;
        let whole = pairs_tokens(m, i) + more;
        assert(whole =~= seq![quoted(key)] + colon);
        lemma_text(key, colon, gap, end);
        lemma_mark(0x3a, value, gap, end);
        assert(string_at(t) == string_at(spaced(whole, gap, end)));
        lemma_tokens_take(t);
        lemma_tokens_take(spaced(colon, gap, end));
        lemma_delimiter(i, m.len() as int, tail, 0x7d);
        lemma_field_read(section, key, d, rest, gap, end);
        let r = spaced(rest, gap, end);
        lemma_comma_read(i + 1 < m.len(), tail, 0x7d, gap, end);
        lemma_member_takes(section, t);
        lemma_members_read(section, after_comma(r), m, i + 1, more, gap, end);
    }
}

/// A document is read as the payload that it stands for, and refused where it
/// stands for none, whatever white space there is between its tokens and
/// whatever follows it.
pub proof fn lemma_document_read(d: Doc, gap: spec_fn(int) -> Seq<u8>, end: Seq<u8>)
    requires
        well_formed(d),
        is_gap(gap),
    ensures
        payload(spaced(tokens(d), gap, end)) == (match payload_of(d) {
            Some(p) => Ok::<PayloadView, ParseErr>(p),
            None => Err(ParseErr::Unexpected),
        }),
{
    assert(tokens(d) + Seq::<Seq<u8>>::empty() =~= tokens(d));
    lemma_section_read(Section::Top, d, seq![], gap, end);
}

} // verus!
