//! Requests are read as they are written.

use super::{
    closes, content_length, header_of, is_blank, kind_of, leading_number, length_in, lines_from,
    number_end, request, trimmed, RequestKind, CLOSE, COLON, CONNECTION, CONTENT_LENGTH, CRLF,
    FRAUD_SCORE_PATH, GET, HEAD_END, POST, READY_PATH, SPACE,
};
use crate::bytes::{find_from, holds_at, lemma_find_from, lemma_found_first, same_letters};
use crate::decimal::{decimal, digits_among, is_digit, is_digits, lemma_decimal_value};
use vstd::prelude::*;

verus! {

// ---------------------------------------------------------------------------
// Lines
// ---------------------------------------------------------------------------

/// Whether a text has no end of a line in it.
pub open spec fn is_line(l: Seq<u8>) -> bool {
    forall|i: int| 0 <= i < l.len() - 1 ==> !(#[trigger] l[i] == 0x0d && l[i + 1] == 0x0a)
}

/// Some lines with ends of lines between them.
pub open spec fn joined(lines: Seq<Seq<u8>>) -> Seq<u8>
    decreases lines.len(),
{
    if lines.len() == 0 {
        seq![]
    } else if lines.len() == 1 {
        lines[0]
    } else {
        lines[0] + (seq![0x0du8, 0x0au8] + joined(lines.skip(1)))
    }
}

/// A head and what follows it.
pub open spec fn with_head(lines: Seq<Seq<u8>>, tail: Seq<u8>) -> Seq<u8> {
    joined(lines) + (seq![0x0du8, 0x0au8, 0x0du8, 0x0au8] + tail)
}

proof fn lemma_pair(s: Seq<u8>, k: int)
    ensures
        holds_at(s, CRLF@, k) <==> 0 <= k && k + 2 <= s.len() && s[k] == 0x0d && s[k + 1] == 0x0a,
{
    if 0 <= k && k + 2 <= s.len() {
        let part = s.subrange(k, k + 2);
        assert(part[0] == s[k] && part[1] == s[k + 1]);
        assert(CRLF@[0] == 0x0d && CRLF@[1] == 0x0a);
        if s[k] == 0x0d && s[k + 1] == 0x0a {
            assert(part =~= CRLF@);
        }
    }
}

proof fn lemma_two_pairs(s: Seq<u8>, k: int)
    ensures
        holds_at(s, HEAD_END@, k) <==> {
            &&& 0 <= k && k + 4 <= s.len()
            &&& s[k] == 0x0d && s[k + 1] == 0x0a && s[k + 2] == 0x0d && s[k + 3] == 0x0a
        },
{
    if 0 <= k && k + 4 <= s.len() {
        let part = s.subrange(k, k + 4);
        assert(part[0] == s[k] && part[1] == s[k + 1] && part[2] == s[k + 2] && part[3] == s[k
            + 3]);
        assert(HEAD_END@[0] == 0x0d && HEAD_END@[1] == 0x0a && HEAD_END@[2] == 0x0d && HEAD_END@[3]
            == 0x0a);
        if s[k] == 0x0d && s[k + 1] == 0x0a && s[k + 2] == 0x0d && s[k + 3] == 0x0a {
            assert(part =~= HEAD_END@);
        }
    }
}

/// A head is split into its lines.
proof fn lemma_lines(before: Seq<u8>, lines: Seq<Seq<u8>>)
    requires
        lines.len() > 0,
        forall|i: int| 0 <= i < lines.len() ==> is_line(#[trigger] lines[i]),
    ensures
        lines_from(before + joined(lines), before.len() as int) == lines,
    decreases lines.len(),
{
    let s = before + joined(lines);
    let a = before.len() as int;
    let first = lines[0];
    assert(is_line(first));
    let b = a + first.len();
    if lines.len() == 1 {
        assert forall|k: int| a <= k implies !#[trigger] holds_at(s, CRLF@, k) by {
            lemma_pair(s, k);
            if k + 2 <= s.len() {
                assert(s[k] == first[k - a] && s[k + 1] == first[k - a + 1]);
            }
        }
        lemma_find_from(s, CRLF@, a);
        assert(find_from(s, CRLF@, a) is None);
        assert(s.subrange(a, s.len() as int) =~= first);
        assert(lines_from(s, a) =~= lines);
    } else {
        let later = lines.skip(1);
        let next = before + first + seq![0x0du8, 0x0au8];
        assert(s =~= next + joined(later));
        assert(s[b] == 0x0d && s[b + 1] == 0x0a);
        lemma_pair(s, b);
        assert forall|k: int| a <= k < b implies !#[trigger] holds_at(s, CRLF@, k) by {
            lemma_pair(s, k);
            assert(s[k] == first[k - a]);
            if k + 1 < b {
                assert(s[k + 1] == first[k - a + 1]);
            }
        }
        lemma_found_first(s, CRLF@, a, b);
        assert(s.subrange(a, b) =~= first);
        assert forall|i: int| 0 <= i < later.len() implies is_line(#[trigger] later[i]) by {
            assert(later[i] == lines[i + 1]);
        }
        lemma_lines(next, later);
        assert(lines_from(s, a) =~= seq![first] + later);
        assert(seq![first] + later =~= lines);
    }
}

/// A head does not end before its last line.
proof fn lemma_no_earlier_end(before: Seq<u8>, lines: Seq<Seq<u8>>, tail: Seq<u8>, k: int)
    requires
        lines.len() > 0,
        forall|i: int| 0 <= i < lines.len() ==> is_line(#[trigger] lines[i]),
        forall|i: int| 1 <= i < lines.len() ==> (#[trigger] lines[i]).len() > 0,
        before.len() <= k < before.len() + joined(lines).len(),
    ensures
        !holds_at(before + with_head(lines, tail), HEAD_END@, k),
    decreases lines.len(),
{
    let s = before + with_head(lines, tail);
    let a = before.len() as int;
    let first = lines[0];
    assert(is_line(first));
    let b = a + first.len();
    lemma_two_pairs(s, k);
    if lines.len() == 1 {
        assert(s[k] == first[k - a]);
        if k + 1 < b {
            assert(s[k + 1] == first[k - a + 1]);
        } else {
            assert(s[k + 1] == 0x0d);
        }
    } else {
        let later = lines.skip(1);
        let next = before + first + seq![0x0du8, 0x0au8];
        assert(s =~= next + with_head(later, tail));
        assert(s[b] == 0x0d && s[b + 1] == 0x0a);
        if k < b {
            assert(s[k] == first[k - a]);
            if k + 1 < b {
                assert(s[k + 1] == first[k - a + 1]);
            }
        } else if k == b {
            let second = lines[1];
            assert(later[0] == second && is_line(second) && second.len() > 0);
            assert(s[b + 2] == second[0]);
            if second.len() > 1 {
                assert(s[b + 3] == second[1]);
                assert(!(second[0] == 0x0d && second[0int + 1] == 0x0a));
            } else {
                assert(s[b + 3] == 0x0d);
            }
        } else if k == b + 1 {
        } else {
            assert forall|i: int| 0 <= i < later.len() implies is_line(#[trigger] later[i]) by {
                assert(later[i] == lines[i + 1]);
            }
            assert forall|i: int| 1 <= i < later.len() implies (#[trigger] later[i]).len() > 0 by {
                assert(later[i] == lines[i + 1]);
            }
            assert(joined(lines).len() == first.len() + 2 + joined(later).len());
            lemma_no_earlier_end(next, later, tail, k);
        }
    }
}

/// The head of a request is found, and split into its lines.
proof fn lemma_head_read(lines: Seq<Seq<u8>>, tail: Seq<u8>)
    requires
        lines.len() > 0,
        forall|i: int| 0 <= i < lines.len() ==> is_line(#[trigger] lines[i]),
        forall|i: int| 1 <= i < lines.len() ==> (#[trigger] lines[i]).len() > 0,
    ensures
        ({
            let s = with_head(lines, tail);
            let end = joined(lines).len() as int;
            &&& find_from(s, HEAD_END@, 0) == Some(end)
            &&& lines_from(s.take(end), 0) == lines
            &&& s.len() == end + 4 + tail.len()
            &&& forall|n: int|
                0 <= n <= tail.len() ==> #[trigger] s.subrange(end + 4, end + 4 + n) == tail.take(n)
        }),
{
    let s = with_head(lines, tail);
    let end = joined(lines).len() as int;
    let nothing = Seq::<u8>::empty();
    assert(nothing + s =~= s);
    assert forall|k: int| 0 <= k < end implies !#[trigger] holds_at(s, HEAD_END@, k) by {
        lemma_no_earlier_end(nothing, lines, tail, k);
    }
    lemma_two_pairs(s, end);
    assert(s[end] == 0x0d && s[end + 1] == 0x0a && s[end + 2] == 0x0d && s[end + 3] == 0x0a);
    lemma_found_first(s, HEAD_END@, 0, end);
    assert(s.take(end) =~= joined(lines));
    assert(nothing + joined(lines) =~= joined(lines));
    lemma_lines(nothing, lines);
    assert forall|n: int| 0 <= n <= tail.len() implies #[trigger] s.subrange(end + 4, end + 4 + n)
        == tail.take(n) by {
        assert(s.subrange(end + 4, end + 4 + n) =~= tail.take(n));
    }
}

// ---------------------------------------------------------------------------
// Request lines
// ---------------------------------------------------------------------------

proof fn lemma_byte(s: Seq<u8>, part: Seq<u8>, k: int)
    requires
        part.len() == 1,
    ensures
        holds_at(s, part, k) <==> 0 <= k < s.len() && s[k] == part[0],
{
    if 0 <= k < s.len() {
        let here = s.subrange(k, k + 1);
        assert(here[0] == s[k]);
        if s[k] == part[0] {
            assert(here =~= part);
        }
    }
}

/// A request line names what is asked for by its method and its path.
proof fn lemma_kind_read(method: Seq<u8>, path: Seq<u8>, version: Seq<u8>)
    requires
        forall|i: int| 0 <= i < method.len() ==> #[trigger] method[i] != 0x20,
        forall|i: int| 0 <= i < path.len() ==> #[trigger] path[i] != 0x20,
    ensures
        kind_of(method + seq![0x20u8] + path + seq![0x20u8] + version) == (if method == POST@
            && path == FRAUD_SCORE_PATH@ {
            RequestKind::FraudScore
        } else if method == GET@ && path == READY_PATH@ {
            RequestKind::Ready
        } else {
            RequestKind::NotFound
        }),
{
    let line = method + seq![0x20u8] + path + seq![0x20u8] + version;
    let a = method.len() as int;
    let b = a + 1 + path.len();
    assert(SPACE@.len() == 1 && SPACE@[0] == 0x20);
    assert forall|k: int| 0 <= k < a implies !#[trigger] holds_at(line, SPACE@, k) by {
        lemma_byte(line, SPACE@, k);
        assert(line[k] == method[k]);
    }
    assert(line[a] == 0x20 && line[b] == 0x20);
    lemma_byte(line, SPACE@, a);
    lemma_byte(line, SPACE@, b);
    assert forall|k: int| a + 1 <= k < b implies !#[trigger] holds_at(line, SPACE@, k) by {
        lemma_byte(line, SPACE@, k);
        assert(line[k] == path[k - a - 1]);
    }
    lemma_found_first(line, SPACE@, 0, a);
    lemma_found_first(line, SPACE@, a + 1, b);
    assert(line.take(a) =~= method);
    assert(line.subrange(a + 1, b) =~= path);
}

// ---------------------------------------------------------------------------
// Header lines
// ---------------------------------------------------------------------------

/// Whether `s` holds the letters of `word`, in whatever case, from `at` on.
pub open spec fn spells(s: Seq<u8>, at: int, word: Seq<u8>) -> bool {
    &&& at + word.len() <= s.len()
    &&& forall|k: int|
        0 <= k < word.len() ==> (s[at + k] == #[trigger] word[k] || (0x61 <= word[k] <= 0x7a && s[at
            + k] + 0x20 == word[k]))
}

/// Whether a header line is one of `content-length`.
pub open spec fn is_length_line(l: Seq<u8>) -> bool {
    spells(l, 0, CONTENT_LENGTH@) && l.len() > 14 && l[14] == 0x3a
}

/// The length that a line of `content-length` announces.
pub open spec fn announced(l: Seq<u8>) -> int {
    match leading_number(l.skip(15)) {
        Some(n) => n,
        None => 0,
    }
}

/// Whether a header line is one of `connection` with the word `close`, behind
/// any blanks.
pub open spec fn is_close_line(l: Seq<u8>) -> bool {
    &&& spells(l, 0, CONNECTION@) && l.len() > 10 && l[10] == 0x3a
    &&& exists|j: int|
        {
            &&& 11 <= j && j + 5 == l.len()
            &&& #[trigger] spells(l, j, CLOSE@)
            &&& forall|k: int| 11 <= k < j ==> l[k] == 0x20 || l[k] == 0x09
        }
}

proof fn lemma_spells(s: Seq<u8>, at: int, word: Seq<u8>)
    requires
        0 <= at,
        forall|k: int|
            0 <= k < word.len() ==> 0x61 <= #[trigger] word[k] <= 0x7a || word[k] == 0x2d,
        at + word.len() <= s.len(),
    ensures
        spells(s, at, word) <==> same_letters(s.subrange(at, at + word.len()), word),
{
    let part = s.subrange(at, at + word.len());
    if spells(s, at, word) {
        assert forall|k: int| 0 <= k < part.len() implies crate::bytes::ascii_lower(
            #[trigger] part[k],
        ) == crate::bytes::ascii_lower(word[k]) by {
            assert(part[k] == s[at + k]);
            let w = word[k];
        }
    }
    if same_letters(part, word) {
        assert forall|k: int| 0 <= k < word.len() implies (s[at + k] == #[trigger] word[k] || (0x61
            <= word[k] <= 0x7a && s[at + k] + 0x20 == word[k])) by {
            assert(part[k] == s[at + k]);
        }
    }
}

/// The name of a header line ends at its first colon.
proof fn lemma_name(l: Seq<u8>, word: Seq<u8>)
    requires
        forall|k: int|
            0 <= k < word.len() ==> 0x61 <= #[trigger] word[k] <= 0x7a || word[k] == 0x2d,
    ensures
        (header_of(l) matches Some((name, _)) && same_letters(name, word)) <==> spells(l, 0, word)
            && l.len() > word.len() && l[word.len() as int] == 0x3a,
        spells(l, 0, word) && l.len() > word.len() && l[word.len() as int] == 0x3a ==> header_of(l)
            == Some((l.take(word.len() as int), trimmed(l.skip(word.len() as int + 1)))),
{
    let n = word.len() as int;
    assert(COLON@.len() == 1 && COLON@[0] == 0x3a);
    lemma_find_from(l, COLON@, 0);
    if spells(l, 0, word) && l.len() > n && l[n] == 0x3a {
        assert forall|k: int| 0 <= k < n implies !#[trigger] holds_at(l, COLON@, k) by {
            lemma_byte(l, COLON@, k);
            let w = word[k];
            assert(l[0 + k] == w || l[0 + k] + 0x20 == w);
        }
        lemma_byte(l, COLON@, n);
        lemma_found_first(l, COLON@, 0, n);
        lemma_spells(l, 0, word);
        assert(l.take(n) =~= l.subrange(0, n));
    } else if let Some((name, _)) = header_of(l) {
        let c = find_from(l, COLON@, 0)->0;
        lemma_byte(l, COLON@, c);
        if same_letters(name, word) {
            lemma_spells(l, 0, word);
            assert(l.take(n) =~= l.subrange(0, n));
        }
    }
}

proof fn lemma_words_spelled()
    ensures
        CONTENT_LENGTH@.len() == 14,
        CONNECTION@.len() == 10,
        CLOSE@.len() == 5,
        forall|k: int|
            0 <= k < 14 ==> 0x61 <= #[trigger] CONTENT_LENGTH@[k] <= 0x7a || CONTENT_LENGTH@[k]
                == 0x2d,
        forall|k: int|
            0 <= k < 10 ==> 0x61 <= #[trigger] CONNECTION@[k] <= 0x7a || CONNECTION@[k] == 0x2d,
        forall|k: int| 0 <= k < 5 ==> 0x61 <= #[trigger] CLOSE@[k] <= 0x7a || CLOSE@[k] == 0x2d,
{
}

proof fn lemma_trimmed(s: Seq<u8>)
    ensures
        ({
            let t = trimmed(s);
            let j = s.len() - t.len();
            &&& 0 <= j
            &&& t == s.skip(j)
            &&& forall|k: int| 0 <= k < j ==> is_blank(#[trigger] s[k])
            &&& t.len() > 0 ==> !is_blank(t[0])
        }),
    decreases s.len(),
{
    if s.len() > 0 && is_blank(s[0]) {
        let rest = s.skip(1);
        lemma_trimmed(rest);
        let t = trimmed(rest);
        let j = s.len() - t.len();
        assert(t =~= s.skip(j));
        assert forall|k: int| 0 <= k < j implies is_blank(#[trigger] s[k]) by {
            if k > 0 {
                assert(rest[k - 1] == s[k]);
            }
        }
    } else {
        assert(s.skip(0) =~= s);
    }
}

/// Blanks before a text are trimmed.
proof fn lemma_trimmed_at(s: Seq<u8>, j: int)
    requires
        0 <= j <= s.len(),
        forall|k: int| 0 <= k < j ==> is_blank(#[trigger] s[k]),
        j < s.len() ==> !is_blank(s[j]),
    ensures
        trimmed(s) == s.skip(j),
    decreases j,
{
    if j > 0 {
        let rest = s.skip(1);
        assert(is_blank(s[0]));
        assert forall|k: int| 0 <= k < j - 1 implies is_blank(#[trigger] rest[k]) by {
            assert(rest[k] == s[k + 1]);
        }
        lemma_trimmed_at(rest, j - 1);
        assert(rest.skip(j - 1) =~= s.skip(j));
    } else {
        assert(s.skip(0) =~= s);
    }
}

/// What a header line says is read off its name and its value.
#[verifier::spinoff_prover]
proof fn lemma_header_read(l: Seq<u8>)
    ensures
        length_in(l) == (if is_length_line(l) {
            Some(announced(l))
        } else {
            None
        }),
        closes(l) == is_close_line(l),
{
    lemma_words_spelled();
    lemma_name(l, CONTENT_LENGTH@);
    lemma_name(l, CONNECTION@);
    if is_length_line(l) {
        lemma_trimmed(l.skip(15));
        lemma_blanks_in_front(l.skip(15));
    }
    if spells(l, 0, CONNECTION@) && l.len() > 10 && l[10] == 0x3a {
        let rest = l.skip(11);
        let value = trimmed(rest);
        lemma_trimmed(rest);
        if closes(l) {
            let j = l.len() - 5;
            assert(value.len() == 5);
            assert(l.subrange(j, j + 5) =~= value);
            lemma_spells(l, j, CLOSE@);
            assert forall|k: int| 11 <= k < j implies l[k] == 0x20 || l[k] == 0x09 by {
                assert(is_blank(rest[k - 11]));
            }
            assert(spells(l, j, CLOSE@));
        }
        if is_close_line(l) {
            let j = choose|j: int|
                {
                    &&& 11 <= j && j + 5 == l.len()
                    &&& #[trigger] spells(l, j, CLOSE@)
                    &&& forall|k: int| 11 <= k < j ==> l[k] == 0x20 || l[k] == 0x09
                };
            let c = CLOSE@[0];
            assert(l[j + 0] == c || l[j + 0] + 0x20 == c);
            assert forall|k: int| 0 <= k < j - 11 implies is_blank(#[trigger] rest[k]) by {
                assert(rest[k] == l[k + 11]);
            }
            lemma_trimmed_at(rest, j - 11);
            lemma_spells(l, j, CLOSE@);
            assert(l.subrange(j, j + 5) =~= value);
        }
    }
}

// ---------------------------------------------------------------------------
// Numbers
// ---------------------------------------------------------------------------

/// Where the number in `s` ends, seen from `i`: at the first byte that is no
/// part of it.
proof fn lemma_number_end_at(s: Seq<u8>, i: int)
    requires
        0 <= i <= s.len(),
    ensures
        ({
            let e = number_end(s, i);
            &&& i <= e <= s.len()
            &&& forall|k: int| i <= k < e ==> is_digit(#[trigger] s[k]) || is_blank(s[k])
            &&& e < s.len() ==> !is_digit(s[e]) && !is_blank(s[e])
        }),
    decreases s.len() - i,
{
    if i < s.len() && (is_digit(s[i]) || is_blank(s[i])) {
        lemma_number_end_at(s, i + 1);
    }
}

proof fn lemma_number_end_is(s: Seq<u8>, i: int, e: int)
    requires
        0 <= i <= e <= s.len(),
        forall|k: int| i <= k < e ==> is_digit(#[trigger] s[k]) || is_blank(s[k]),
        e < s.len() ==> !is_digit(s[e]) && !is_blank(s[e]),
    ensures
        number_end(s, i) == e,
    decreases e - i,
{
    if i < e {
        lemma_number_end_is(s, i + 1, e);
    }
}

proof fn lemma_digits_alike(s: Seq<u8>, t: Seq<u8>, n: int)
    requires
        forall|k: int| 0 <= k < n ==> s[k] == t[k],
    ensures
        digits_among(s, n) == digits_among(t, n),
    decreases n,
{
    if n > 0 {
        lemma_digits_alike(s, t, n - 1);
    }
}

/// A text with one byte taken out that is no digit has the same digits.
proof fn lemma_digits_without(s: Seq<u8>, t: Seq<u8>, at: int, n: int)
    requires
        0 <= at < n,
        !is_digit(s[at]),
        forall|k: int| 0 <= k < at ==> s[k] == t[k],
        forall|k: int| at < k < n ==> s[k] == t[k - 1],
    ensures
        digits_among(s, n) == digits_among(t, n - 1),
    decreases n,
{
    if n == at + 1 {
        lemma_digits_alike(s, t, at);
    } else {
        lemma_digits_without(s, t, at, n - 1);
    }
}

/// A blank changes nothing, wherever it stands in a number.
pub proof fn lemma_blank_in_number(a: Seq<u8>, blank: u8, b: Seq<u8>)
    requires
        blank == 0x20 || blank == 0x09,
    ensures
        leading_number(a + seq![blank] + b) == leading_number(a + b),
{
    let s = a + seq![blank] + b;
    let t = a + b;
    let at = a.len() as int;
    lemma_number_end_at(t, 0);
    let e = number_end(t, 0);
    if e < at {
        assert forall|k: int| 0 <= k < e implies is_digit(#[trigger] s[k]) || is_blank(s[k]) by {
            assert(s[k] == t[k]);
        }
        assert(s[e] == t[e]);
        lemma_number_end_is(s, 0, e);
        lemma_digits_alike(s, t, e);
    } else {
        assert forall|k: int| 0 <= k < e + 1 implies is_digit(#[trigger] s[k]) || is_blank(
            s[k],
        ) by {
            if k < at {
                assert(s[k] == t[k]);
            } else if k > at {
                assert(s[k] == t[k - 1]);
            }
        }
        if e < t.len() {
            assert(s[e + 1] == t[e]);
        }
        lemma_number_end_is(s, 0, e + 1);
        lemma_digits_without(s, t, at, e + 1);
    }
}

/// A number ends with the first byte that is neither digit nor blank.
pub proof fn lemma_number_stops(a: Seq<u8>, stop: u8, b: Seq<u8>)
    requires
        !(0x30 <= stop <= 0x39),
        stop != 0x20,
        stop != 0x09,
    ensures
        leading_number(a + seq![stop] + b) == leading_number(a),
{
    let s = a + seq![stop] + b;
    lemma_number_end_at(a, 0);
    let e = number_end(a, 0);
    assert forall|k: int| 0 <= k < e implies is_digit(#[trigger] s[k]) || is_blank(s[k]) by {
        assert(s[k] == a[k]);
    }
    if e < a.len() {
        assert(s[e] == a[e]);
    } else {
        assert(s[e] == stop);
    }
    lemma_number_end_is(s, 0, e);
    lemma_digits_alike(s, a, e);
}

proof fn lemma_all_digits(s: Seq<u8>, n: int)
    requires
        is_digits(s),
        0 <= n <= s.len(),
    ensures
        digits_among(s, n) == s.take(n),
    decreases n,
{
    if n > 0 {
        lemma_all_digits(s, n - 1);
        assert(is_digit(s[n - 1]));
        assert(s.take(n) =~= s.take(n - 1).push(s[n - 1]));
    } else {
        assert(s.take(0) =~= Seq::<u8>::empty());
    }
}

/// A number in decimal is read as that number, unless it is too large; without
/// digits there is none.
pub proof fn lemma_decimal_number(n: nat)
    ensures
        n <= usize::MAX ==> leading_number(decimal(n)) == Some(n as int),
        n > usize::MAX ==> leading_number(decimal(n)) is None,
        leading_number(seq![]) is None,
{
    let s = decimal(n);
    lemma_decimal_value(n);
    assert forall|k: int| 0 <= k < s.len() implies is_digit(#[trigger] s[k]) || is_blank(s[k]) by {
        assert(is_digit(s[k]));
    }
    lemma_number_end_is(s, 0, s.len() as int);
    lemma_all_digits(s, s.len() as int);
    assert(s.take(s.len() as int) =~= s);
    assert(number_end(Seq::<u8>::empty(), 0) == 0);
}

/// Blanks before a number are passed over.
proof fn lemma_blanks_in_front(s: Seq<u8>)
    ensures
        leading_number(trimmed(s)) == leading_number(s),
    decreases s.len(),
{
    if s.len() > 0 && is_blank(s[0]) {
        let rest = s.skip(1);
        lemma_blanks_in_front(rest);
        let nothing = Seq::<u8>::empty();
        lemma_blank_in_number(nothing, s[0], rest);
        assert(nothing + seq![s[0]] + rest =~= s);
        assert(nothing + rest =~= rest);
    }
}

// ---------------------------------------------------------------------------
// Laws
// ---------------------------------------------------------------------------

/// Whether a line is the last of some that announces a length.
pub open spec fn is_last_length(lines: Seq<Seq<u8>>, i: int) -> bool {
    &&& 0 <= i < lines.len()
    &&& is_length_line(lines[i])
    &&& forall|j: int| i < j < lines.len() ==> !is_length_line(#[trigger] lines[j])
}

proof fn lemma_last_length(lines: Seq<Seq<u8>>, i: int)
    requires
        is_last_length(lines, i),
    ensures
        content_length(lines) == announced(lines[i]),
    decreases lines.len(),
{
    let last = lines.last();
    lemma_header_read(last);
    if i < lines.len() - 1 {
        let fewer = lines.drop_last();
        assert(!is_length_line(lines[lines.len() - 1]));
        assert forall|j: int| i < j < fewer.len() implies !is_length_line(#[trigger] fewer[j]) by {
            assert(fewer[j] == lines[j]);
        }
        assert(is_last_length(fewer, i));
        lemma_last_length(fewer, i);
    }
}

proof fn lemma_no_length(lines: Seq<Seq<u8>>)
    requires
        forall|j: int| 0 <= j < lines.len() ==> !is_length_line(#[trigger] lines[j]),
    ensures
        content_length(lines) == 0,
    decreases lines.len(),
{
    if lines.len() > 0 {
        lemma_header_read(lines[lines.len() - 1]);
        let fewer = lines.drop_last();
        assert forall|j: int| 0 <= j < fewer.len() implies !is_length_line(#[trigger] fewer[j]) by {
            assert(fewer[j] == lines[j]);
        }
        lemma_no_length(fewer);
    }
}

/// A request is read as it is written: what is asked for by its method and its
/// path; a body of the length that the last header line to do so announces,
/// wherever it stands among the lines, and none if no line does; and to be kept
/// alive unless a line asks to close.
#[verifier::spinoff_prover]
pub proof fn lemma_request_read(
    method: Seq<u8>,
    path: Seq<u8>,
    version: Seq<u8>,
    headers: Seq<Seq<u8>>,
    tail: Seq<u8>,
)
    requires
        forall|i: int| 0 <= i < method.len() ==> #[trigger] method[i] != 0x20,
        forall|i: int| 0 <= i < path.len() ==> #[trigger] path[i] != 0x20,
        is_line(method + seq![0x20u8] + path + seq![0x20u8] + version),
        forall|i: int|
            0 <= i < headers.len() ==> is_line(#[trigger] headers[i]) && headers[i].len() > 0,
    ensures
        ({
            let line = method + seq![0x20u8] + path + seq![0x20u8] + version;
            let head = joined(seq![line] + headers);
            let r = request(with_head(seq![line] + headers, tail));
            let kind = if method == POST@ && path == FRAUD_SCORE_PATH@ {
                RequestKind::FraudScore
            } else if method == GET@ && path == READY_PATH@ {
                RequestKind::Ready
            } else {
                RequestKind::NotFound
            };
            &&& forall|i: int| #[trigger]
                is_last_length(headers, i) ==> {
                    let n = announced(headers[i]);
                    if n <= tail.len() {
                        &&& r.kind == kind
                        &&& r.body == tail.take(n)
                        &&& r.consumed == head.len() + 4 + n
                    } else {
                        &&& r.kind == RequestKind::NeedMore
                        &&& r.body.len() == 0
                        &&& r.consumed == 0
                    }
                }
            &&& (forall|i: int| 0 <= i < headers.len() ==> !is_length_line(#[trigger] headers[i]))
                ==> {
                &&& r.kind == kind
                &&& r.body.len() == 0
                &&& r.consumed == head.len() + 4
            }
            &&& r.keep_alive <==> forall|i: int|
                0 <= i < headers.len() ==> !is_close_line(#[trigger] headers[i])
        }),
{
    let line = method + seq![0x20u8] + path + seq![0x20u8] + version;
    let lines = seq![line] + headers;
    assert forall|i: int| 0 <= i < lines.len() implies is_line(#[trigger] lines[i]) by {
        if i > 0 {
            assert(lines[i] == headers[i - 1]);
        }
    }
    assert forall|i: int| 1 <= i < lines.len() implies (#[trigger] lines[i]).len() > 0 by {
        assert(lines[i] == headers[i - 1]);
    }
    lemma_head_read(lines, tail);
    assert(lines.skip(1) =~= headers);
    assert(lines[0] == line);
    lemma_kind_read(method, path, version);
    let s = with_head(lines, tail);
    let r = request(s);
    assert(tail.take(0) =~= Seq::<u8>::empty());
    assert forall|i: int| #[trigger] is_last_length(headers, i) implies content_length(headers)
        == announced(headers[i]) && announced(headers[i]) >= 0 by {
        lemma_last_length(headers, i);
    }
    if forall|i: int| 0 <= i < headers.len() ==> !is_length_line(#[trigger] headers[i]) {
        lemma_no_length(headers);
    }
    assert forall|i: int| 0 <= i < headers.len() implies closes(#[trigger] headers[i])
        == is_close_line(headers[i]) by {
        lemma_header_read(headers[i]);
    }
}

/// A request line without two spaces makes a bad request.
pub proof fn lemma_bad_request(line: Seq<u8>, headers: Seq<Seq<u8>>, tail: Seq<u8>)
    requires
        is_line(line),
        forall|i: int|
            0 <= i < headers.len() ==> is_line(#[trigger] headers[i]) && headers[i].len() > 0,
        forall|i: int, j: int|
            0 <= i < j < line.len() ==> #[trigger] line[i] != 0x20 || #[trigger] line[j] != 0x20,
    ensures
        ({
            let r = request(with_head(seq![line] + headers, tail));
            r.kind == RequestKind::BadRequest && r.body.len() == 0 && r.consumed == 0
                && !r.keep_alive
        }),
{
    let lines = seq![line] + headers;
    assert forall|i: int| 0 <= i < lines.len() implies is_line(#[trigger] lines[i]) by {
        if i > 0 {
            assert(lines[i] == headers[i - 1]);
        }
    }
    assert forall|i: int| 1 <= i < lines.len() implies (#[trigger] lines[i]).len() > 0 by {
        assert(lines[i] == headers[i - 1]);
    }
    lemma_head_read(lines, tail);
    assert(lines[0] == line);
    assert(SPACE@.len() == 1 && SPACE@[0] == 0x20);
    lemma_find_from(line, SPACE@, 0);
    if let Some(a) = find_from(line, SPACE@, 0) {
        lemma_byte(line, SPACE@, a);
        lemma_find_from(line, SPACE@, a + 1);
        if let Some(b) = find_from(line, SPACE@, a + 1) {
            lemma_byte(line, SPACE@, b);
            assert(line[a] != 0x20 || line[b] != 0x20);
        }
    }
}

/// As long as the head has not ended, more bytes are needed.
pub proof fn lemma_head_awaited(s: Seq<u8>)
    requires
        forall|k: int|
            0 <= k && k + 4 <= s.len() ==> !(#[trigger] s[k] == 0x0d && s[k + 1] == 0x0a && s[k + 2]
                == 0x0d && s[k + 3] == 0x0a),
    ensures
        request(s).kind == RequestKind::NeedMore,
        request(s).consumed == 0,
        request(s).body.len() == 0,
{
    lemma_find_from(s, HEAD_END@, 0);
    if let Some(k) = find_from(s, HEAD_END@, 0) {
        lemma_two_pairs(s, k);
    }
}

} // verus!
