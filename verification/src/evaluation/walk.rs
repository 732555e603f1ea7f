//! Entries are walked one by one.

use super::{entry_start, is_next, is_separator, object_end, request_of, Step, EXPECTED, REQUEST};
use crate::bytes::{holds_at, lemma_find_from, lemma_found_first};
use crate::json::document::{
    comma_if, is_gap, items_tokens, pairs_tokens, spaced, tokens, well_formed, Doc, Pair,
};
use crate::json::grammar::{in_number, is_space};
use crate::json::laws::{all_space, quotable, quoted};
use crate::json::reading::lemma_number_bytes;
use crate::json::words::{FALSE, NULL, TRUE};
use vstd::prelude::*;

verus! {

// ---------------------------------------------------------------------------
// Objects
// ---------------------------------------------------------------------------

/// Whether a byte is none that the walk looks at.
spec fn plain(b: u8) -> bool {
    b != 0x22 && b != 0x7b && b != 0x7d
}

/// Bytes that mean nothing outside of strings are passed over.
proof fn lemma_plain(s: Seq<u8>, i: int, j: int, depth: int)
    requires
        0 <= i <= j <= s.len(),
        forall|k: int| i <= k < j ==> plain(#[trigger] s[k]),
    ensures
        object_end(s, i, depth, false) == object_end(s, j, depth, false),
    decreases j - i,
{
    if i < j {
        assert(plain(s[i]));
        lemma_plain(s, i + 1, j, depth);
    }
}

/// The bytes of a string are passed over up to its closing quote.
proof fn lemma_inside(s: Seq<u8>, i: int, j: int, depth: int)
    requires
        0 <= i <= j < s.len(),
        forall|k: int| i <= k < j ==> #[trigger] s[k] != 0x22 && s[k] != 0x5c,
        s[j] == 0x22,
    ensures
        object_end(s, i, depth, true) == object_end(s, j + 1, depth, false),
    decreases j - i,
{
    if i < j {
        assert(s[i] != 0x22 && s[i] != 0x5c);
        lemma_inside(s, i + 1, j, depth);
    }
}

/// A string in quotes is passed over.
proof fn lemma_quoted_passed(s: Seq<u8>, at: int, x: Seq<u8>, depth: int)
    requires
        0 <= at,
        at + x.len() + 2 <= s.len(),
        quotable(x),
        s.subrange(at, at + x.len() + 2) == quoted(x),
    ensures
        object_end(s, at, depth, false) == object_end(s, at + x.len() + 2, depth, false),
{
    let part = s.subrange(at, at + x.len() + 2);
    assert(s[at] == part[0]);
    assert(quoted(x)[0] == 0x22);
    let j = at + x.len() + 1;
    assert(s[j] == part[x.len() as int + 1]);
    assert(quoted(x)[x.len() as int + 1] == 0x22);
    assert forall|k: int| at + 1 <= k < j implies #[trigger] s[k] != 0x22 && s[k] != 0x5c by {
        assert(s[k] == part[k - at]);
        assert(quoted(x)[k - at] == x[k - at - 1]);
    }
    lemma_inside(s, at + 1, j, depth);
}

/// Where some tokens start in a text that ends with them.
spec fn place(s: Seq<u8>, ts: Seq<Seq<u8>>, gap: spec_fn(int) -> Seq<u8>, end: Seq<u8>) -> int {
    s.len() - spaced(ts, gap, end).len()
}

/// Whether a text ends with some tokens.
spec fn ends_with(s: Seq<u8>, ts: Seq<Seq<u8>>, gap: spec_fn(int) -> Seq<u8>, end: Seq<u8>) -> bool {
    &&& place(s, ts, gap, end) >= 0
    &&& s.skip(place(s, ts, gap, end)) == spaced(ts, gap, end)
}

/// The first of some tokens, behind its white space.
proof fn lemma_first_token(
    s: Seq<u8>,
    x: Seq<u8>,
    more: Seq<Seq<u8>>,
    gap: spec_fn(int) -> Seq<u8>,
    end: Seq<u8>,
    depth: int,
) -> (at: int)
    requires
        is_gap(gap),
        ends_with(s, seq![x] + more, gap, end),
    ensures
        0 <= at,
        at + x.len() == place(s, more, gap, end),
        at + x.len() <= s.len(),
        s.subrange(at, at + x.len()) == x,
        object_end(s, place(s, seq![x] + more, gap, end), depth, false) == object_end(
            s,
            at,
            depth,
            false,
        ),
        ends_with(s, more, gap, end),
{
    let ts = seq![x] + more;
    assert(ts.skip(1) =~= more);
    let g = gap(ts.len() as int);
    assert(all_space(g));
    let i = place(s, ts, gap, end);
    let r = spaced(more, gap, end);
    let text = spaced(ts, gap, end);
    assert(text == g + (x + r));
    let at = i + g.len();
    assert forall|k: int| i <= k < at implies plain(#[trigger] s[k]) by {
        assert(s[k] == s.skip(i)[k - i]);
        assert(is_space(g[k - i]));
    }
    lemma_plain(s, i, at, depth);
    assert(s.subrange(at, at + x.len()) =~= x) by {
        assert forall|k: int| 0 <= k < x.len() implies s.subrange(at, at + x.len())[k] == x[k] by {
            assert(s[at + k] == s.skip(i)[g.len() + k]);
        }
    }
    assert(s.skip(at + x.len()) =~= r) by {
        assert forall|k: int| 0 <= k < r.len() implies s.skip(at + x.len())[k] == r[k] by {
            assert(s[at + x.len() + k] == s.skip(i)[g.len() + x.len() + k]);
        }
    }
    at
}

/// A token without quotes and braces is passed over.
proof fn lemma_plain_token(
    s: Seq<u8>,
    x: Seq<u8>,
    more: Seq<Seq<u8>>,
    gap: spec_fn(int) -> Seq<u8>,
    end: Seq<u8>,
    depth: int,
)
    requires
        is_gap(gap),
        ends_with(s, seq![x] + more, gap, end),
        forall|k: int| 0 <= k < x.len() ==> plain(#[trigger] x[k]),
    ensures
        object_end(s, place(s, seq![x] + more, gap, end), depth, false) == object_end(
            s,
            place(s, more, gap, end),
            depth,
            false,
        ),
        ends_with(s, more, gap, end),
{
    let at = lemma_first_token(s, x, more, gap, end, depth);
    assert forall|k: int| at <= k < at + x.len() implies plain(#[trigger] s[k]) by {
        assert(s[k] == s.subrange(at, at + x.len())[k - at]);
    }
    lemma_plain(s, at, at + x.len(), depth);
}

/// A document inside of an object is passed over.
#[verifier::spinoff_prover]
proof fn lemma_doc_passed(
    s: Seq<u8>,
    d: Doc,
    more: Seq<Seq<u8>>,
    gap: spec_fn(int) -> Seq<u8>,
    end: Seq<u8>,
    depth: int,
)
    requires
        is_gap(gap),
        well_formed(d),
        depth >= 1,
        ends_with(s, tokens(d) + more, gap, end),
    ensures
        object_end(s, place(s, tokens(d) + more, gap, end), depth, false) == object_end(
            s,
            place(s, more, gap, end),
            depth,
            false,
        ),
        ends_with(s, more, gap, end),
    decreases d, 0int,
{
    match d {
        Doc::Text(x) => {
            let at = lemma_first_token(s, quoted(x), more, gap, end, depth);
            lemma_quoted_passed(s, at, x, depth);
        },
        Doc::Number(x) => {
            lemma_number_bytes(x);
            assert forall|k: int| 0 <= k < x.len() implies plain(#[trigger] x[k]) by {
                assert(in_number(x[k]));
            }
            lemma_plain_token(s, x, more, gap, end, depth);
        },
        Doc::Flag(b) => {
            let x = if b {
                TRUE@
            } else {
                FALSE@
            };
            assert forall|k: int| 0 <= k < x.len() implies plain(#[trigger] x[k]) by {
                assert(TRUE@ =~= seq![0x74u8, 0x72, 0x75, 0x65]);
                assert(FALSE@ =~= seq![0x66u8, 0x61, 0x6c, 0x73, 0x65]);
            }
            lemma_plain_token(s, x, more, gap, end, depth);
        },
        Doc::Null => {
            assert forall|k: int| 0 <= k < NULL@.len() implies plain(#[trigger] NULL@[k]) by {
                assert(NULL@ =~= seq![0x6eu8, 0x75, 0x6c, 0x6c]);
            }
            lemma_plain_token(s, NULL@, more, gap, end, depth);
        },
        Doc::List(v) => {
            let rest = items_tokens(v, 0) + more;
            assert(tokens(d) + more =~= seq![seq![0x5bu8]] + rest);
            lemma_plain_token(s, seq![0x5bu8], rest, gap, end, depth);
            lemma_items_passed(s, v, 0, more, gap, end, depth);
        },
        Doc::Object(m) => {
            let rest = pairs_tokens(m, 0) + more;
            assert(tokens(d) + more =~= seq![seq![0x7bu8]] + rest);
            let at = lemma_first_token(s, seq![0x7bu8], rest, gap, end, depth);
            assert(s[at] == s.subrange(at, at + 1)[0]);
            assert(object_end(s, at, depth, false) == object_end(s, at + 1, depth + 1, false));
            lemma_pairs_passed(s, m, 0, more, gap, end, depth + 1);
        },
    }
}

#[verifier::spinoff_prover]
proof fn lemma_items_passed(
    s: Seq<u8>,
    v: Seq<Doc>,
    i: int,
    more: Seq<Seq<u8>>,
    gap: spec_fn(int) -> Seq<u8>,
    end: Seq<u8>,
    depth: int,
)
    requires
        is_gap(gap),
        forall|k: int| 0 <= k < v.len() ==> well_formed(#[trigger] v[k]),
        0 <= i <= v.len(),
        depth >= 1,
        ends_with(s, items_tokens(v, i) + more, gap, end),
    ensures
        object_end(s, place(s, items_tokens(v, i) + more, gap, end), depth, false) == object_end(
            s,
            place(s, more, gap, end),
            depth,
            false,
        ),
        ends_with(s, more, gap, end),
    decreases v, v.len() - i,
{
    if i >= v.len() {
        lemma_plain_token(s, seq![0x5du8], more, gap, end, depth);
    } else {
        let tail = items_tokens(v, i + 1) + more;
        let rest = comma_if(i + 1 < v.len()) + tail;
        assert(items_tokens(v, i) + more =~= tokens(v[i]) + rest);
        lemma_doc_passed(s, v[i], rest, gap, end, depth);
        if i + 1 < v.len() {
            lemma_plain_token(s, seq![0x2cu8], tail, gap, end, depth);
        } else {
            assert(rest =~= tail);
        }
        lemma_items_passed(s, v, i + 1, more, gap, end, depth);
    }
}

/// The members of an object are passed over, and its closing brace is counted.
#[verifier::spinoff_prover]
proof fn lemma_pairs_passed(
    s: Seq<u8>,
    m: Seq<Pair>,
    i: int,
    more: Seq<Seq<u8>>,
    gap: spec_fn(int) -> Seq<u8>,
    end: Seq<u8>,
    depth: int,
)
    requires
        is_gap(gap),
        forall|k: int|
            0 <= k < m.len() ==> quotable((#[trigger] m[k]).key) && well_formed(m[k].value),
        0 <= i <= m.len(),
        depth >= 1,
        ends_with(s, pairs_tokens(m, i) + more, gap, end),
    ensures
        object_end(s, place(s, pairs_tokens(m, i) + more, gap, end), depth, false) == (if depth
            == 1 {
            place(s, more, gap, end)
        } else {
            object_end(s, place(s, more, gap, end), depth - 1, false)
        }),
        ends_with(s, more, gap, end),
    decreases m, m.len() - i,
{
    if i >= m.len() {
        let at = lemma_first_token(s, seq![0x7du8], more, gap, end, depth);
        assert(s[at] == s.subrange(at, at + 1)[0]);
    } else {
        let key = m[i].key;
        let d = m[i].value;
        assert(quotable(key) && well_formed(d));
        let tail = pairs_tokens(m, i + 1) + more;
        let rest = comma_if(i + 1 < m.len()) + tail;
        let value = tokens(d) + rest;
        let colon = seq![seq![0x3au8]] + value;
        assert(pairs_tokens(m, i) + more =~= seq![quoted(key)] + colon);
        let at = lemma_first_token(s, quoted(key), colon, gap, end, depth);
        lemma_quoted_passed(s, at, key, depth);
        lemma_plain_token(s, seq![0x3au8], value, gap, end, depth);
        lemma_doc_passed(s, d, rest, gap, end, depth);
        if i + 1 < m.len() {
            lemma_plain_token(s, seq![0x2cu8], tail, gap, end, depth);
        } else {
            assert(rest =~= tail);
        }
        lemma_pairs_passed(s, m, i + 1, more, gap, end, depth);
    }
}

// ---------------------------------------------------------------------------
// Laws
// ---------------------------------------------------------------------------

/// The end of an object is found behind its own closing brace, whatever braces
/// and quotes are inside of it and whatever follows.
pub proof fn lemma_object_end_found(
    before: Seq<u8>,
    d: Doc,
    gap: spec_fn(int) -> Seq<u8>,
    end: Seq<u8>,
)
    requires
        d is Object,
        well_formed(d),
        is_gap(gap),
    ensures
        ({
            let text = spaced(tokens(d), gap, end);
            object_end(before + text, before.len() as int, 0, false) == before.len() + text.len()
                - end.len()
        }),
{
    let text = spaced(tokens(d), gap, end);
    let s = before + text;
    let m = d->Object_0;
    let nothing = Seq::<Seq<u8>>::empty();
    let rest = pairs_tokens(m, 0);
    assert(s.skip(before.len() as int) =~= text);
    assert(tokens(d) =~= seq![seq![0x7bu8]] + rest);
    assert(ends_with(s, tokens(d), gap, end));
    let at = lemma_first_token(s, seq![0x7bu8], rest, gap, end, 0);
    assert(s[at] == s.subrange(at, at + 1)[0]);
    assert(object_end(s, at, 0, false) == object_end(s, at + 1, 1, false));
    assert(rest + nothing =~= rest);
    lemma_pairs_passed(s, m, 0, nothing, gap, end, 1);
    assert(spaced(nothing, gap, end) == end);
}

/// Inside of a string a backslash hides the byte behind it, be it a quote or a
/// brace, and braces do not count.
pub proof fn lemma_hidden_in_string(s: Seq<u8>, i: int, depth: int)
    requires
        0 <= i < s.len(),
    ensures
        s[i] == 0x5c ==> object_end(s, i, depth, true) == object_end(s, i + 2, depth, true),
        s[i] == 0x7b || s[i] == 0x7d ==> object_end(s, i, depth, true) == object_end(
            s,
            i + 1,
            depth,
            true,
        ),
        s[i] == 0x22 ==> object_end(s, i, depth, true) == object_end(s, i + 1, depth, false),
        s[i] == 0x22 ==> object_end(s, i, depth, false) == object_end(s, i + 1, depth, true),
{
}

proof fn lemma_entry_start(s: Seq<u8>, i: int, j: int)
    requires
        0 <= i <= j <= s.len(),
        forall|k: int| i <= k < j ==> is_separator(#[trigger] s[k]),
        j < s.len() ==> !is_separator(s[j]),
    ensures
        entry_start(s, i) == j,
    decreases j - i,
{
    if i < j {
        assert(is_separator(s[i]));
        lemma_entry_start(s, i + 1, j);
    }
}

/// Entries stand behind commas and white space. The next one is the object that
/// comes next; the text is done at its end or at the closing bracket.
pub proof fn lemma_next_entry(s: Seq<u8>, i: int, j: int, step: Step)
    requires
        0 <= i <= j <= s.len(),
        forall|k: int|
            i <= k < j ==> #[trigger] s[k] == 0x2c || s[k] == 0x20 || s[k] == 0x0a || s[k] == 0x0d
                || s[k] == 0x09,
        j < s.len() ==> s[j] != 0x2c && s[j] != 0x20 && s[j] != 0x0a && s[j] != 0x0d && s[j]
            != 0x09,
        is_next(s, i, step),
    ensures
        j == s.len() || s[j] == 0x5d ==> step is Done,
        j < s.len() && s[j] != 0x5d ==> !(step is Done),
        step matches Step::Entry(e) ==> {
            let entry = s.subrange(j, e.next as int);
            &&& e.next == object_end(s, j, 0, false)
            &&& Some(e.request@) == request_of(entry)
            &&& e.expected <==> exists|k: int| #[trigger] holds_at(entry, EXPECTED@, k)
        },
{
    lemma_entry_start(s, i, j);
    if let Step::Entry(e) = step {
        let entry = s.subrange(j, e.next as int);
        lemma_find_from(entry, EXPECTED@, 0);
        if exists|k: int| #[trigger] holds_at(entry, EXPECTED@, k) {
            let k = choose|k: int| #[trigger] holds_at(entry, EXPECTED@, k);
            assert(0 <= k);
        }
    }
}

/// The request of an entry is the object behind its key.
pub proof fn lemma_request_found(
    before: Seq<u8>,
    d: Doc,
    gap: spec_fn(int) -> Seq<u8>,
    end: Seq<u8>,
)
    requires
        d is Object,
        well_formed(d),
        is_gap(gap),
        ({
            let text = spaced(tokens(d), gap, end);
            &&& text[0] == 0x7b
            &&& forall|k: int|
                0 <= k < before.len() ==> !#[trigger] holds_at(
                    before + REQUEST@.take(10) + text,
                    REQUEST@,
                    k,
                )
        }),
    ensures
        ({
            let text = spaced(tokens(d), gap, end);
            request_of(before + REQUEST@.take(10) + text) == Some(
                text.take(text.len() - end.len()),
            )
        }),
{
    let text = spaced(tokens(d), gap, end);
    let s = before + REQUEST@.take(10) + text;
    let k = before.len() as int;
    let nothing = Seq::<u8>::empty();
    assert(REQUEST@.len() == 11 && REQUEST@[10] == 0x7b);
    lemma_object_end_found(nothing, d, gap, end);
    assert(nothing + text =~= text);
    lemma_spaced_longer(tokens(d), gap, end);
    assert(text.len() > 0) by {
        assert(tokens(d)[0] == seq![0x7bu8]);
    }
    assert(s.subrange(k, k + 11) =~= REQUEST@);
    lemma_found_first(s, REQUEST@, 0, k);
    assert(s.skip(k + 10) =~= text);
}

proof fn lemma_spaced_longer(ts: Seq<Seq<u8>>, gap: spec_fn(int) -> Seq<u8>, end: Seq<u8>)
    ensures
        spaced(ts, gap, end).len() >= end.len(),
        ts.len() > 0 ==> spaced(ts, gap, end).len() >= end.len() + ts[0].len(),
    decreases ts.len(),
{
    if ts.len() > 0 {
        lemma_spaced_longer(ts.skip(1), gap, end);
    }
}

} // verus!
