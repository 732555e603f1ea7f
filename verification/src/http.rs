//! Minimal HTTP/1.1 requests.
//!
//! Only `POST /fraud-score` and `GET /ready` are served, with keep-alive. No
//! chunked encoding, no multipart.

pub mod written;

use crate::bytes::{
    eq_ascii_case, find_from, find_part, holds_at, lemma_find_from, lemma_found_first, same_bytes,
    same_letters,
};
use crate::decimal::{digits_among, digits_value, is_digit, lemma_digits_push};
use vstd::prelude::*;

verus! {

/// What a client asks for.
#[derive(Copy, Clone, Debug, PartialEq, Eq, Structural)]
pub enum RequestKind {
    FraudScore,
    Ready,
    NotFound,
    NeedMore,
    BadRequest,
}

/// A request at the start of a buffer.
pub struct ParsedRequest<'a> {
    pub kind: RequestKind,
    pub body: &'a [u8],
    /// Length of the request in the buffer.
    pub consumed: usize,
    pub keep_alive: bool,
}

/// `\r\n`, between two lines.
pub const CRLF: [u8; 2] = [0x0d, 0x0a];

/// `\r\n\r\n`, behind the last line.
pub const HEAD_END: [u8; 4] = [0x0d, 0x0a, 0x0d, 0x0a];

/// `POST`
pub const POST: [u8; 4] = [0x50, 0x4f, 0x53, 0x54];

/// `GET`
pub const GET: [u8; 3] = [0x47, 0x45, 0x54];

/// `/fraud-score`
pub const FRAUD_SCORE_PATH: [u8; 12] = [
    0x2f, 0x66, 0x72, 0x61, 0x75, 0x64, 0x2d, 0x73, 0x63, 0x6f, 0x72, 0x65,
];

/// `/ready`
pub const READY_PATH: [u8; 6] = [0x2f, 0x72, 0x65, 0x61, 0x64, 0x79];

/// `content-length`
pub const CONTENT_LENGTH: [u8; 14] = [
    0x63, 0x6f, 0x6e, 0x74, 0x65, 0x6e, 0x74, 0x2d, 0x6c, 0x65, 0x6e, 0x67, 0x74, 0x68,
];

/// `connection`
pub const CONNECTION: [u8; 10] = [
    0x63, 0x6f, 0x6e, 0x6e, 0x65, 0x63, 0x74, 0x69, 0x6f, 0x6e,
];

/// `close`
pub const CLOSE: [u8; 5] = [0x63, 0x6c, 0x6f, 0x73, 0x65];

/// A space.
pub const SPACE: [u8; 1] = [0x20];

/// `:`
pub const COLON: [u8; 1] = [0x3a];

// ---------------------------------------------------------------------------
// Numbers
// ---------------------------------------------------------------------------

/// Whether a byte is a space or a tab.
pub open spec fn is_blank(b: u8) -> bool {
    b == 0x20 || b == 0x09
}

/// Where a number ends: at the first byte that is neither digit nor blank.
pub open spec fn number_end(s: Seq<u8>, i: int) -> int
    decreases s.len() - i,
{
    if i < s.len() && (is_digit(s[i]) || is_blank(s[i])) {
        number_end(s, i + 1)
    } else {
        i
    }
}

/// The number at the start of `s`. Blanks are passed over wherever they
/// stand; there is none without a digit, or where it is too large.
pub open spec fn leading_number(s: Seq<u8>) -> Option<int> {
    let digits = digits_among(s, number_end(s, 0));
    if digits.len() > 0 && digits_value(digits) <= usize::MAX {
        Some(digits_value(digits) as int)
    } else {
        None
    }
}

proof fn lemma_digits_grow(s: Seq<u8>, n: int, m: int)
    requires
        0 <= n <= m,
    ensures
        digits_value(digits_among(s, n)) <= digits_value(digits_among(s, m)),
        digits_among(s, n).len() <= digits_among(s, m).len(),
    decreases m - n,
{
    if n < m {
        lemma_digits_grow(s, n, m - 1);
        if is_digit(s[m - 1]) {
            lemma_digits_push(digits_among(s, m - 1), s[m - 1]);
        }
    }
}

proof fn lemma_number_end(s: Seq<u8>, i: int)
    ensures
        i <= number_end(s, i),
    decreases s.len() - i,
{
    if i < s.len() && (is_digit(s[i]) || is_blank(s[i])) {
        lemma_number_end(s, i + 1);
    }
}

/// Reads the number at the start of a header value.
pub fn parse_usize(s: &[u8]) -> (r: Option<usize>)
    ensures
        r is Some <==> leading_number(s@) is Some,
        r matches Some(n) ==> leading_number(s@) == Some(n as int),
{
    let ghost end = number_end(s@, 0);
    let mut n: usize = 0;
    let mut any: bool = false;
    let mut i: usize = 0;
    while i < s.len()
        invariant
            i <= s@.len(),
            end == number_end(s@, 0),
            number_end(s@, i as int) == end,
            n == digits_value(digits_among(s@, i as int)),
            any <==> digits_among(s@, i as int).len() > 0,
        decreases s@.len() - i,
    {
        let b: u8 = s[i];
        if b >= 0x30 && b <= 0x39 {
            proof {
                lemma_number_end(s@, i + 1);
                lemma_digits_grow(s@, i + 1, end);
                lemma_digits_push(digits_among(s@, i as int), b);
            }
            n =
            match n.checked_mul(10) {
                Some(t) => match t.checked_add((b - 0x30) as usize) {
                    Some(v) => v,
                    None => {
                        return None;
                    },
                },
                None => {
                    return None;
                },
            };
            any = true;
        } else if b != 0x20 && b != 0x09 {
            return if any {
                Some(n)
            } else {
                None
            };
        }
        i = i + 1;
    }
    if any {
        Some(n)
    } else {
        None
    }
}

// ---------------------------------------------------------------------------
// Lines
// ---------------------------------------------------------------------------

/// The lines of a head, from `i` on.
pub open spec fn lines_from(head: Seq<u8>, i: int) -> Seq<Seq<u8>>
    decreases head.len() + 2 - i,
    when 0 <= i
{
    match find_from(head, CRLF@, i) {
        Some(j) => if i <= j < head.len() {
            seq![head.subrange(i, j)] + lines_from(head, j + 2)
        } else {
            seq![]
        },
        None => if i <= head.len() {
            seq![head.subrange(i, head.len() as int)]
        } else {
            seq![]
        },
    }
}

/// A string without the blanks that it starts with.
pub open spec fn trimmed(s: Seq<u8>) -> Seq<u8>
    decreases s.len(),
{
    if s.len() > 0 && is_blank(s[0]) {
        trimmed(s.skip(1))
    } else {
        s
    }
}

/// The name and the value of a header line.
pub open spec fn header_of(line: Seq<u8>) -> Option<(Seq<u8>, Seq<u8>)> {
    match find_from(line, COLON@, 0) {
        Some(c) => Some((line.take(c), trimmed(line.skip(c + 1)))),
        None => None,
    }
}

/// The content length that a header line announces; one that cannot be read
/// counts as zero.
pub open spec fn length_in(line: Seq<u8>) -> Option<int> {
    match header_of(line) {
        Some((name, value)) => if same_letters(name, CONTENT_LENGTH@) {
            match leading_number(value) {
                Some(n) => Some(n),
                None => Some(0),
            }
        } else {
            None
        },
        None => None,
    }
}

/// Whether a header line asks to close the connection.
pub open spec fn closes(line: Seq<u8>) -> bool {
    header_of(line) matches Some((name, value)) && same_letters(name, CONNECTION@) && same_letters(
        value,
        CLOSE@,
    )
}

/// The content length that the last of the lines to do so announces.
pub open spec fn content_length(lines: Seq<Seq<u8>>) -> int
    decreases lines.len(),
{
    if lines.len() == 0 {
        0
    } else {
        match length_in(lines.last()) {
            Some(n) => n,
            None => content_length(lines.drop_last()),
        }
    }
}

/// Whether none of the lines asks to close the connection.
pub open spec fn keeps_alive(lines: Seq<Seq<u8>>) -> bool {
    forall|i: int| 0 <= i < lines.len() ==> !closes(#[trigger] lines[i])
}

/// What a request line asks for: a method, a path and whatever follows, with
/// a space behind each of the first two.
pub open spec fn kind_of(line: Seq<u8>) -> RequestKind {
    match find_from(line, SPACE@, 0) {
        Some(a) => match find_from(line, SPACE@, a + 1) {
            Some(b) => {
                let method = line.take(a);
                let path = line.subrange(a + 1, b);
                if method == POST@ && path == FRAUD_SCORE_PATH@ {
                    RequestKind::FraudScore
                } else if method == GET@ && path == READY_PATH@ {
                    RequestKind::Ready
                } else {
                    RequestKind::NotFound
                }
            },
            None => RequestKind::BadRequest,
        },
        None => RequestKind::BadRequest,
    }
}

/// A request as a value.
pub struct RequestView {
    pub kind: RequestKind,
    pub body: Seq<u8>,
    pub consumed: int,
    pub keep_alive: bool,
}

impl<'a> View for ParsedRequest<'a> {
    type V = RequestView;

    open spec fn view(&self) -> RequestView {
        RequestView {
            kind: self.kind,
            body: self.body@,
            consumed: self.consumed as int,
            keep_alive: self.keep_alive,
        }
    }
}

/// A request that is not there, or not whole.
pub open spec fn no_request(kind: RequestKind, keep_alive: bool) -> RequestView {
    RequestView { kind, body: seq![], consumed: 0, keep_alive }
}

/// The request at the start of `s`: more bytes are needed until the head has
/// ended and the body is there in full.
pub open spec fn request(s: Seq<u8>) -> RequestView {
    match find_from(s, HEAD_END@, 0) {
        Some(end) => {
            let lines = lines_from(s.take(end), 0);
            let kind = kind_of(lines[0]);
            let keep_alive = keeps_alive(lines.skip(1));
            let total = end + 4 + content_length(lines.skip(1));
            if kind == RequestKind::BadRequest {
                no_request(kind, false)
            } else if s.len() < total {
                no_request(RequestKind::NeedMore, keep_alive)
            } else {
                RequestView { kind, body: s.subrange(end + 4, total), consumed: total, keep_alive }
            }
        },
        None => no_request(RequestKind::NeedMore, false),
    }
}

// ---------------------------------------------------------------------------
// Parsing
// ---------------------------------------------------------------------------

/// Finds where `needle` first stands.
pub fn find_seq(buf: &[u8], needle: &[u8]) -> (r: Option<usize>)
    ensures
        r is Some <==> find_from(buf@, needle@, 0) is Some,
        r matches Some(i) ==> find_from(buf@, needle@, 0) == Some(i as int),
{
    find_part(buf, needle, 0)
}

/// Finds the next end of a line.
pub fn find_crlf(buf: &[u8], start: usize) -> (r: Option<usize>)
    ensures
        r is Some <==> find_from(buf@, CRLF@, start as int) is Some,
        r matches Some(i) ==> find_from(buf@, CRLF@, start as int) == Some(i as int),
{
    find_part(buf, &CRLF, start)
}

fn trim_blanks<'a>(s: &'a [u8]) -> (r: &'a [u8])
    ensures
        r@ == trimmed(s@),
{
    let mut i: usize = 0;
    assert(s@.skip(0) =~= s@);
    while i < s.len() && (s[i] == 0x20 || s[i] == 0x09)
        invariant
            i <= s@.len(),
            trimmed(s@.skip(i as int)) == trimmed(s@),
        decreases s@.len() - i,
    {
        assert(s@.skip(i as int)[0] == s@[i as int]);
        assert(s@.skip(i as int).skip(1) =~= s@.skip(i + 1));
        i = i + 1;
    }
    let r: &'a [u8] = &s[i..s.len()];
    assert(r@ =~= s@.skip(i as int));
    r
}

fn parse_line(line: &[u8]) -> (kind: RequestKind)
    ensures
        kind == kind_of(line@),
{
    proof {
        lemma_find_from(line@, SPACE@, 0);
    }
    match find_part(line, &SPACE, 0) {
        Some(a) => {
            proof {
                lemma_find_from(line@, SPACE@, a + 1);
            }
            assert(line@.len() == line.len());
            match find_part(line, &SPACE, a + 1) {
                Some(b) => {
                    let method: &[u8] = &line[0..a];
                    let path: &[u8] = &line[a + 1..b];
                    assert(method@ =~= line@.take(a as int));
                    if same_bytes(method, &POST) && same_bytes(path, &FRAUD_SCORE_PATH) {
                        RequestKind::FraudScore
                    } else if same_bytes(method, &GET) && same_bytes(path, &READY_PATH) {
                        RequestKind::Ready
                    } else {
                        RequestKind::NotFound
                    }
                },
                None => RequestKind::BadRequest,
            }
        },
        None => RequestKind::BadRequest,
    }
}

/// What one header line says.
enum HeaderLine {
    Length(usize),
    Close,
    Other,
}

fn parse_header(line: &[u8]) -> (h: HeaderLine)
    ensures
        match h {
            HeaderLine::Length(n) => length_in(line@) == Some(n as int) && !closes(line@),
            HeaderLine::Close => length_in(line@) is None && closes(line@),
            HeaderLine::Other => length_in(line@) is None && !closes(line@),
        },
{
    proof {
        lemma_find_from(line@, COLON@, 0);
    }
    match find_part(line, &COLON, 0) {
        Some(c) => {
            assert(line@.len() == line.len());
            let name: &[u8] = &line[0..c];
            let rest: &[u8] = &line[c + 1..line.len()];
            assert(name@ =~= line@.take(c as int));
            assert(rest@ =~= line@.skip(c + 1));
            let value: &[u8] = trim_blanks(rest);
            if eq_ascii_case(name, &CONTENT_LENGTH) {
                match parse_usize(value) {
                    Some(n) => HeaderLine::Length(n),
                    None => HeaderLine::Length(0),
                }
            } else if eq_ascii_case(name, &CONNECTION) && eq_ascii_case(value, &CLOSE) {
                HeaderLine::Close
            } else {
                HeaderLine::Other
            }
        },
        None => HeaderLine::Other,
    }
}

/// Parses the header lines of a head, from `start` on.
#[verifier::spinoff_prover]
fn parse_headers(head: &[u8], start: usize) -> (r: (usize, bool))
    ensures
        r.0 == content_length(lines_from(head@, start as int)),
        r.1 == keeps_alive(lines_from(head@, start as int)),
{
    let ghost lines = lines_from(head@, start as int);
    let mut length: usize = 0;
    let mut keep_alive: bool = true;
    let mut i: usize = start;
    let ghost mut k: int = 0;
    assert(lines.skip(0) =~= lines);
    assert(lines.take(0).len() == 0);
    assert(head@.len() == head.len());
    while i <= head.len()
        invariant
            0 <= k <= lines.len(),
            lines == lines_from(head@, start as int),
            head@.len() == head.len(),
            lines_from(head@, i as int) == lines.skip(k),
            length == content_length(lines.take(k)),
            keep_alive == keeps_alive(lines.take(k)),
        decreases head@.len() + 1 - i,
    {
        proof {
            lemma_find_from(head@, CRLF@, i as int);
        }
        let found: Option<usize> = find_crlf(head, i);
        let line_end: usize = match found {
            Some(j) => j,
            None => head.len(),
        };
        let line: &[u8] = &head[i..line_end];
        assert(lines.skip(k).len() > 0);
        assert(line@ == lines.skip(k)[0]);
        assert(lines.take(k + 1).drop_last() =~= lines.take(k));
        assert(lines.take(k + 1).last() == line@);
        let ghost before = keep_alive;
        match parse_header(line) {
            HeaderLine::Length(n) => {
                length = n;
            },
            HeaderLine::Close => {
                keep_alive = false;
            },
            HeaderLine::Other => {},
        }
        proof {
            let now = lines.take(k + 1);
            if keep_alive {
                assert forall|m: int| 0 <= m < now.len() implies !closes(#[trigger] now[m]) by {
                    if m < k {
                        assert(lines.take(k)[m] == now[m]);
                    }
                }
            } else if before {
                assert(closes(now[k]));
            } else {
                let m = choose|m: int| 0 <= m < k && closes(lines.take(k)[m]);
                assert(now[m] == lines.take(k)[m]);
            }
            k = k + 1;
        }
        match found {
            Some(j) => {
                i = j + 2;
                assert(lines.skip(k) =~= lines.skip(k - 1).skip(1));
                assert(lines_from(head@, i as int) =~= lines.skip(k));
            },
            None => {
                assert(lines.skip(k) =~= lines.skip(k - 1).skip(1));
                assert(lines.skip(k).len() == 0);
                assert(lines.take(k) =~= lines);
                return (length, keep_alive);
            },
        }
    }
    assert(lines.skip(k).len() == 0) by {
        lemma_find_from(head@, CRLF@, i as int);
    }
    assert(lines.take(k) =~= lines);
    (length, keep_alive)
}

/// Parses the request at the start of a buffer.
#[verifier::spinoff_prover]
pub fn parse_request<'a>(buf: &'a [u8]) -> (r: ParsedRequest<'a>)
    ensures
        r@ == request(buf@),
{
    proof {
        lemma_find_from(buf@, HEAD_END@, 0);
    }
    let nothing: &'a [u8] = &buf[0..0];
    assert(nothing@ =~= Seq::<u8>::empty());
    let end: usize = match find_seq(buf, &HEAD_END) {
        Some(i) => i,
        None => {
            return ParsedRequest {
                kind: RequestKind::NeedMore,
                body: nothing,
                consumed: 0,
                keep_alive: false,
            };
        },
    };
    assert(buf@.len() == buf.len());
    let head: &[u8] = &buf[0..end];
    assert(head@ =~= buf@.take(end as int));
    let ghost lines = lines_from(head@, 0);
    proof {
        lemma_find_from(head@, CRLF@, 0);
    }
    let first_end: usize;
    let rest: usize;
    match find_crlf(head, 0) {
        Some(j) => {
            first_end = j;
            rest = j + 2;
            assert(lines.skip(1) =~= lines_from(head@, rest as int));
        },
        None => {
            first_end = end;
            rest = end + 1;
            assert(lines.skip(1) =~= lines_from(head@, rest as int)) by {
                lemma_find_from(head@, CRLF@, rest as int);
            }
        },
    }
    let kind: RequestKind = parse_line(&head[0..first_end]);
    if kind == RequestKind::BadRequest {
        return ParsedRequest { kind, body: nothing, consumed: 0, keep_alive: false };
    }
    let (length, keep_alive): (usize, bool) = parse_headers(head, rest);
    let body_start: usize = end + 4;
    if buf.len() - body_start < length {
        return ParsedRequest {
            kind: RequestKind::NeedMore,
            body: nothing,
            consumed: 0,
            keep_alive,
        };
    }
    let total: usize = body_start + length;
    ParsedRequest { kind, body: &buf[body_start..total], consumed: total, keep_alive }
}

// ---------------------------------------------------------------------------
// Laws
// ---------------------------------------------------------------------------

/// A string that was found stays where it was found when more bytes follow.
proof fn lemma_found_stays(s: Seq<u8>, more: Seq<u8>, part: Seq<u8>)
    requires
        find_from(s, part, 0) is Some,
    ensures
        find_from(s + more, part, 0) == find_from(s, part, 0),
{
    lemma_find_from(s, part, 0);
    let i = find_from(s, part, 0)->0;
    let all = s + more;
    assert(all.subrange(i, i + part.len()) =~= s.subrange(i, i + part.len()));
    assert forall|k: int| 0 <= k < i implies !#[trigger] holds_at(all, part, k) by {
        assert(all.subrange(k, k + part.len()) =~= s.subrange(k, k + part.len()));
        assert(!holds_at(s, part, k));
    }
    lemma_found_first(all, part, 0, i);
}

/// Bytes that arrive later never change a request that is whole: whatever
/// does not need more stays as it is.
pub proof fn lemma_request_stays(s: Seq<u8>, more: Seq<u8>)
    requires
        request(s).kind != RequestKind::NeedMore,
    ensures
        request(s + more) == request(s),
{
    lemma_found_stays(s, more, HEAD_END@);
    lemma_find_from(s, HEAD_END@, 0);
    let end = find_from(s, HEAD_END@, 0)->0;
    let all = s + more;
    assert(all.take(end) =~= s.take(end));
    let r = request(s);
    if r.kind != RequestKind::BadRequest {
        lemma_content_length(lines_from(s.take(end), 0).skip(1));
        assert(all.subrange(end + 4, r.consumed) =~= s.subrange(end + 4, r.consumed));
    }
}

proof fn lemma_content_length(lines: Seq<Seq<u8>>)
    ensures
        content_length(lines) >= 0,
    decreases lines.len(),
{
    if lines.len() > 0 {
        lemma_content_length(lines.drop_last());
    }
}

/// A whole request takes part of the buffer, and never nothing: its body is
/// what stands behind the head.
pub proof fn lemma_request_extent(s: Seq<u8>)
    ensures
        ({
            let r = request(s);
            match r.kind {
                RequestKind::NeedMore | RequestKind::BadRequest => r.consumed == 0 && r.body.len()
                    == 0,
                _ => {
                    &&& 4 <= r.consumed <= s.len()
                    &&& r.body.len() <= r.consumed - 4
                    &&& holds_at(s, HEAD_END@ + r.body, r.consumed - r.body.len() - 4)
                },
            }
        }),
{
    lemma_find_from(s, HEAD_END@, 0);
    let r = request(s);
    if r.kind != RequestKind::NeedMore && r.kind != RequestKind::BadRequest {
        let end = find_from(s, HEAD_END@, 0)->0;
        lemma_content_length(lines_from(s.take(end), 0).skip(1));
        assert(s.subrange(end, r.consumed) =~= HEAD_END@ + r.body) by {
            assert(s.subrange(end, end + 4) == HEAD_END@);
            assert(s.subrange(end, r.consumed) =~= s.subrange(end, end + 4) + r.body);
        }
    }
}

} // verus!
