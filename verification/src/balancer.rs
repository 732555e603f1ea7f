//! The load balancer: upstreams in turn.

use vstd::prelude::*;

verus! {

// ---------------------------------------------------------------------------
// Upstreams
// ---------------------------------------------------------------------------

/// Whether a character is white space.
pub open spec fn is_white(c: char) -> bool {
    ||| 0x09 <= c as u32 <= 0x0d
    ||| c as u32 == 0x20
    ||| c as u32 == 0x85
    ||| c as u32 == 0xa0
    ||| c as u32 == 0x1680
    ||| 0x2000 <= c as u32 <= 0x200a
    ||| c as u32 == 0x2028
    ||| c as u32 == 0x2029
    ||| c as u32 == 0x202f
    ||| c as u32 == 0x205f
    ||| c as u32 == 0x3000
}

/// A text without the white space at its start.
pub open spec fn start_trimmed(s: Seq<char>) -> Seq<char>
    decreases s.len(),
{
    if s.len() > 0 && is_white(s[0]) {
        start_trimmed(s.skip(1))
    } else {
        s
    }
}

/// A text without the white space at its end.
pub open spec fn end_trimmed(s: Seq<char>) -> Seq<char>
    decreases s.len(),
{
    if s.len() > 0 && is_white(s.last()) {
        end_trimmed(s.drop_last())
    } else {
        s
    }
}

/// Place of the first comma at `i` or behind, or the end of the text.
pub open spec fn comma_from(s: Seq<char>, i: int) -> int
    decreases s.len() - i,
{
    if i < s.len() && s[i] != ',' {
        comma_from(s, i + 1)
    } else {
        i
    }
}

/// The upstreams in a text, from `i` on: the pieces between the commas,
/// without the white space around them and without the empty ones.
pub open spec fn upstreams_from(s: Seq<char>, i: int) -> Seq<Seq<char>>
    decreases s.len() + 1 - i,
    when 0 <= i <= s.len() + 1
{
    if i > s.len() {
        seq![]
    } else {
        proof {
            lemma_comma_from(s, i);
        }
        let end = comma_from(s, i);
        let piece = end_trimmed(start_trimmed(s.subrange(i, end)));
        let rest = upstreams_from(s, end + 1);
        if piece.len() > 0 {
            seq![piece] + rest
        } else {
            rest
        }
    }
}

pub proof fn lemma_comma_from(s: Seq<char>, i: int)
    requires
        0 <= i <= s.len(),
    ensures
        i <= comma_from(s, i) <= s.len(),
    decreases s.len() - i,
{
    if i < s.len() && s[i] != ',' {
        lemma_comma_from(s, i + 1);
    }
}

/// The views of some texts.
pub open spec fn texts(v: Seq<Vec<char>>) -> Seq<Seq<char>> {
    v.map_values(|t: Vec<char>| t@)
}

fn white(c: char) -> (r: bool)
    ensures
        r == is_white(c),
{
    let x: u32 = c as u32;
    (x >= 0x09 && x <= 0x0d) || x == 0x20 || x == 0x85 || x == 0xa0 || x == 0x1680 || (x >= 0x2000
        && x <= 0x200a) || x == 0x2028 || x == 0x2029 || x == 0x202f || x == 0x205f || x == 0x3000
}

/// Copies the part of a text from `a` to `b` without the white space around
/// it.
fn trimmed_part(s: &Vec<char>, a: usize, b: usize) -> (r: Vec<char>)
    requires
        a <= b <= s@.len(),
    ensures
        r@ == end_trimmed(start_trimmed(s@.subrange(a as int, b as int))),
{
    let ghost whole = s@.subrange(a as int, b as int);
    let mut i: usize = a;
    while i < b && white(s[i])
        invariant
            a <= i <= b <= s@.len(),
            start_trimmed(s@.subrange(i as int, b as int)) == start_trimmed(whole),
        decreases b - i,
    {
        let ghost here = s@.subrange(i as int, b as int);
        assert(here[0] == s@[i as int]);
        assert(here.skip(1) =~= s@.subrange(i + 1, b as int));
        i = i + 1;
    }
    let ghost front = s@.subrange(i as int, b as int);
    assert(front.len() > 0 ==> front[0] == s@[i as int]);
    let mut j: usize = b;
    while i < j && white(s[j - 1])
        invariant
            i <= j <= b <= s@.len(),
            end_trimmed(s@.subrange(i as int, j as int)) == end_trimmed(front),
        decreases j - i,
    {
        let ghost here = s@.subrange(i as int, j as int);
        assert(here.last() == s@[j - 1]);
        assert(here.drop_last() =~= s@.subrange(i as int, j - 1));
        j = j - 1;
    }
    let ghost part = s@.subrange(i as int, j as int);
    assert(part.len() > 0 ==> part.last() == s@[j - 1]);
    let mut out: Vec<char> = Vec::new();
    let mut k: usize = i;
    while k < j
        invariant
            i <= k <= j <= s@.len(),
            out@ == s@.subrange(i as int, k as int),
        decreases j - k,
    {
        out.push(s[k]);
        k = k + 1;
        assert(out@ =~= s@.subrange(i as int, k as int));
    }
    out
}

/// Reads a list of upstreams.
pub fn parse_upstreams(raw: &Vec<char>) -> (r: Vec<Vec<char>>)
    ensures
        texts(r@) == upstreams_from(raw@, 0),
{
    let mut out: Vec<Vec<char>> = Vec::new();
    let mut start: usize = 0;
    assert(texts(out@) + upstreams_from(raw@, 0) =~= upstreams_from(raw@, 0));
    loop
        invariant
            start <= raw@.len(),
            raw@.len() == raw.len(),
            texts(out@) + upstreams_from(raw@, start as int) == upstreams_from(raw@, 0),
        decreases raw@.len() - start,
    {
        let mut end: usize = start;
        while end < raw.len() && raw[end] != ','
            invariant
                start <= end <= raw@.len(),
                comma_from(raw@, end as int) == comma_from(raw@, start as int),
            decreases raw@.len() - end,
        {
            end = end + 1;
        }
        let piece: Vec<char> = trimmed_part(raw, start, end);
        let ghost before = texts(out@);
        let ghost text = piece@;
        let ghost rest = upstreams_from(raw@, end + 1);
        if piece.len() > 0 {
            out.push(piece);
            assert(texts(out@) =~= before.push(text));
            assert(before + (seq![text] + rest) =~= texts(out@) + rest);
        }
        if end >= raw.len() {
            assert(rest.len() == 0);
            assert(texts(out@) + rest =~= texts(out@));
            return out;
        }
        start = end + 1;
    }
}

/// A piece of a list of upstreams: a name with white space around it, or white
/// space alone.
pub struct Piece {
    pub before: Seq<char>,
    pub name: Seq<char>,
    pub behind: Seq<char>,
}

/// Whether a text is white space.
pub open spec fn all_white(s: Seq<char>) -> bool {
    forall|i: int| 0 <= i < s.len() ==> is_white(#[trigger] s[i])
}

/// Whether a piece can be told apart from the white space and the commas around
/// it.
pub open spec fn is_piece(p: Piece) -> bool {
    &&& all_white(p.before)
    &&& all_white(p.behind)
    &&& p.name.len() > 0 ==> !is_white(p.name[0]) && !is_white(p.name.last())
    &&& forall|i: int| 0 <= i < p.name.len() ==> #[trigger] p.name[i] != ','
}

/// The text of a piece.
pub open spec fn piece_text(p: Piece) -> Seq<char> {
    p.before + p.name + p.behind
}

/// Some pieces with commas between them.
pub open spec fn listed(pieces: Seq<Piece>) -> Seq<char>
    decreases pieces.len(),
{
    if pieces.len() == 0 {
        seq![]
    } else if pieces.len() == 1 {
        piece_text(pieces[0])
    } else {
        piece_text(pieces[0]) + (seq![','] + listed(pieces.skip(1)))
    }
}

/// The names in some pieces, without the empty ones.
pub open spec fn names_of(pieces: Seq<Piece>) -> Seq<Seq<char>>
    decreases pieces.len(),
{
    if pieces.len() == 0 {
        seq![]
    } else if pieces[0].name.len() > 0 {
        seq![pieces[0].name] + names_of(pieces.skip(1))
    } else {
        names_of(pieces.skip(1))
    }
}

proof fn lemma_start_trimmed(w: Seq<char>, s: Seq<char>)
    requires
        all_white(w),
        s.len() > 0 ==> !is_white(s[0]),
    ensures
        start_trimmed(w + s) == s,
    decreases w.len(),
{
    if w.len() == 0 {
        assert(w + s =~= s);
    } else {
        assert(is_white(w[0]));
        let rest = w.skip(1);
        assert forall|i: int| 0 <= i < rest.len() implies is_white(#[trigger] rest[i]) by {
            assert(rest[i] == w[i + 1]);
        }
        lemma_start_trimmed(rest, s);
        assert((w + s).skip(1) =~= rest + s);
    }
}

proof fn lemma_end_trimmed(s: Seq<char>, w: Seq<char>)
    requires
        all_white(w),
        s.len() > 0 ==> !is_white(s.last()),
    ensures
        end_trimmed(s + w) == s,
    decreases w.len(),
{
    if w.len() == 0 {
        assert(s + w =~= s);
    } else {
        assert(is_white(w[w.len() - 1]));
        let rest = w.drop_last();
        assert forall|i: int| 0 <= i < rest.len() implies is_white(#[trigger] rest[i]) by {
            assert(rest[i] == w[i]);
        }
        lemma_end_trimmed(s, rest);
        assert((s + w).drop_last() =~= s + rest);
    }
}

proof fn lemma_piece_trimmed(p: Piece)
    requires
        is_piece(p),
    ensures
        end_trimmed(start_trimmed(piece_text(p))) == p.name,
        forall|i: int| 0 <= i < piece_text(p).len() ==> #[trigger] piece_text(p)[i] != ',',
{
    let text = piece_text(p);
    if p.name.len() > 0 {
        let s = p.name + p.behind;
        assert(text =~= p.before + s);
        assert(s[0] == p.name[0]);
        lemma_start_trimmed(p.before, s);
        lemma_end_trimmed(p.name, p.behind);
    } else {
        let nothing = Seq::<char>::empty();
        assert forall|i: int| 0 <= i < text.len() implies is_white(#[trigger] text[i]) by {
            if i < p.before.len() {
                assert(text[i] == p.before[i]);
            } else {
                assert(text[i] == p.behind[i - p.before.len()]);
            }
        }
        lemma_start_trimmed(text, nothing);
        assert(text + nothing =~= text);
        assert(p.name =~= nothing);
    }
    assert forall|i: int| 0 <= i < text.len() implies #[trigger] text[i] != ',' by {
        if i < p.before.len() {
            assert(is_white(p.before[i]));
        } else if i < p.before.len() + p.name.len() {
            assert(text[i] == p.name[i - p.before.len()]);
        } else {
            assert(is_white(p.behind[i - p.before.len() - p.name.len()]));
        }
    }
}

proof fn lemma_comma_at(s: Seq<char>, i: int, e: int)
    requires
        0 <= i <= e <= s.len(),
        forall|k: int| i <= k < e ==> #[trigger] s[k] != ',',
        e < s.len() ==> s[e] == ',',
    ensures
        comma_from(s, i) == e,
    decreases e - i,
{
    if i < e {
        lemma_comma_at(s, i + 1, e);
    }
}

proof fn lemma_listed_from(before: Seq<char>, pieces: Seq<Piece>)
    requires
        pieces.len() > 0,
        forall|i: int| 0 <= i < pieces.len() ==> is_piece(#[trigger] pieces[i]),
    ensures
        upstreams_from(before + listed(pieces), before.len() as int) == names_of(pieces),
    decreases pieces.len(),
{
    let s = before + listed(pieces);
    let a = before.len() as int;
    let p = pieces[0];
    assert(is_piece(p));
    let text = piece_text(p);
    lemma_piece_trimmed(p);
    let e = a + text.len();
    assert forall|k: int| a <= k < e implies #[trigger] s[k] != ',' by {
        assert(s[k] == text[k - a]);
    }
    if pieces.len() > 1 {
        assert(s[e] == ',');
    }
    lemma_comma_at(s, a, e);
    assert(s.subrange(a, e) =~= text);
    let later = pieces.skip(1);
    if pieces.len() == 1 {
        assert(upstreams_from(s, e + 1) =~= Seq::<Seq<char>>::empty());
        assert(names_of(later) =~= Seq::<Seq<char>>::empty());
    } else {
        let next = before + text + seq![','];
        assert(s =~= next + listed(later));
        assert forall|i: int| 0 <= i < later.len() implies is_piece(#[trigger] later[i]) by {
            assert(later[i] == pieces[i + 1]);
        }
        lemma_listed_from(next, later);
    }
}

/// A list of upstreams is read as it is written: the names between the commas, in
/// their order, without the white space around them and without empty ones.
pub proof fn lemma_upstreams_read(pieces: Seq<Piece>)
    requires
        pieces.len() > 0,
        forall|i: int| 0 <= i < pieces.len() ==> is_piece(#[trigger] pieces[i]),
    ensures
        upstreams_from(listed(pieces), 0) == names_of(pieces),
{
    let nothing = Seq::<char>::empty();
    assert(nothing + listed(pieces) =~= listed(pieces));
    lemma_listed_from(nothing, pieces);
}

// ---------------------------------------------------------------------------
// In turn
// ---------------------------------------------------------------------------

/// The upstream that is tried after `i` others, for a connection that is
/// number `start`.
pub open spec fn turn(start: int, i: int, n: int) -> int {
    (start + i) % n
}

/// Picks the upstream to try after `i` others, if one is left.
pub fn pick_upstream(start: usize, i: usize, n: usize) -> (r: Option<usize>)
    ensures
        match r {
            Some(u) => i < n && u == turn(start as int, i as int, n as int) && u < n,
            None => i >= n,
        },
        i < n ==> r == Some(((start + i) % (n as int)) as usize),
{
    if i >= n {
        return None;
    }
    let s: usize = start % n;
    let u: usize = if i < n - s {
        s + i
    } else {
        i - (n - s)
    };
    proof {
        lemma_turn(start as int, i as int, n as int);
    }
    Some(u)
}

proof fn lemma_turn(start: int, i: int, n: int)
    requires
        0 <= start,
        0 <= i < n,
    ensures
        turn(start, i, n) == (if i < n - start % n {
            start % n + i
        } else {
            start % n + i - n
        }),
{
    let s = start % n;
    let q = start / n;
    assert(0 <= s < n) by (nonlinear_arith)
        requires
            s == start % n,
            0 < n,
    ;
    vstd::arithmetic::div_mod::lemma_fundamental_div_mod(start, n);
    if i < n - s {
        assert(start + i == n * q + (s + i));
        vstd::arithmetic::div_mod::lemma_fundamental_div_mod_converse(start + i, n, q, s + i);
    } else {
        assert(start + i == n * (q + 1) + (s + i - n)) by (nonlinear_arith)
            requires
                start == n * q + s,
        ;
        vstd::arithmetic::div_mod::lemma_fundamental_div_mod_converse(
            start + i,
            n,
            q + 1,
            s + i - n,
        );
    }
}

/// A connection is offered to every upstream once before it is refused.
pub proof fn lemma_every_upstream_tried(start: int, n: int, u: int)
    requires
        0 <= start,
        0 <= u < n,
    ensures
        exists|i: int| 0 <= i < n && #[trigger] turn(start, i, n) == u,
        forall|i: int, j: int|
            0 <= i < j < n ==> #[trigger] turn(start, i, n) != #[trigger] turn(start, j, n),
{
    let s = start % n;
    assert(0 <= s < n) by (nonlinear_arith)
        requires
            s == start % n,
            0 < n,
    ;
    let i = if u >= s {
        u - s
    } else {
        u - s + n
    };
    lemma_turn(start, i, n);
    assert(turn(start, i, n) == u);
    assert forall|i: int, j: int| 0 <= i < j < n implies #[trigger] turn(start, i, n)
        != #[trigger] turn(start, j, n) by {
        lemma_turn(start, i, n);
        lemma_turn(start, j, n);
    }
}

/// The next connection starts at the next upstream.
pub proof fn lemma_turns_rotate(start: int, i: int, n: int)
    ensures
        turn(start + 1, i, n) == turn(start, i + 1, n),
{
}

// ---------------------------------------------------------------------------
// Finding an upstream
// ---------------------------------------------------------------------------

/// What to do next with a connection.
#[derive(Copy, Clone, Debug, PartialEq, Eq, Structural)]
pub enum Dispatch {
    /// Hand it to this upstream.
    Try(usize),
    /// An upstream has taken it.
    Sent,
    /// No upstream takes it: answer with `BAD_GATEWAY`.
    Refuse,
}

/// What a client is answered that no upstream takes: `502 Bad Gateway`, with
/// no body, on a connection that closes.
pub const BAD_GATEWAY: [u8; 66] = [
    0x48, 0x54, 0x54, 0x50, 0x2f, 0x31, 0x2e, 0x31, 0x20, 0x35, 0x30, 0x32,
    0x20, 0x42, 0x61, 0x64, 0x20, 0x47, 0x61, 0x74, 0x65, 0x77, 0x61, 0x79,
    0x0d, 0x0a, 0x43, 0x6f, 0x6e, 0x74, 0x65, 0x6e, 0x74, 0x2d, 0x4c, 0x65,
    0x6e, 0x67, 0x74, 0x68, 0x3a, 0x20, 0x30, 0x0d, 0x0a, 0x43, 0x6f, 0x6e,
    0x6e, 0x65, 0x63, 0x74, 0x69, 0x6f, 0x6e, 0x3a, 0x20, 0x63, 0x6c, 0x6f,
    0x73, 0x65, 0x0d, 0x0a, 0x0d, 0x0a,
];

/// What to do with connection number `start` once `tried` upstreams have not
/// taken it.
pub open spec fn next_try(start: int, tried: int, n: int) -> Dispatch {
    if tried < n {
        Dispatch::Try(turn(start, tried, n) as usize)
    } else {
        Dispatch::Refuse
    }
}

/// What to do first with connection number `start`.
pub fn first_try(start: usize, n: usize) -> (d: Dispatch)
    ensures
        d == next_try(start as int, 0, n as int),
        n == 0 ==> d == Dispatch::Refuse,
        n > 0 ==> d == Dispatch::Try(((start as int) % (n as int)) as usize),
{
    match pick_upstream(start, 0, n) {
        Some(u) => Dispatch::Try(u),
        None => Dispatch::Refuse,
    }
}

/// What to do with connection number `start` once one more upstream was tried
/// behind `tried` others, and has taken it or not.
pub fn after_try(start: usize, tried: usize, n: usize, took: bool) -> (d: Dispatch)
    ensures
        d == (if took {
            Dispatch::Sent
        } else if tried + 1 < n {
            Dispatch::Try(turn(start as int, tried + 1, n as int) as usize)
        } else {
            Dispatch::Refuse
        }),
        took ==> d == Dispatch::Sent,
        !took && tried + 1 < n ==> d == Dispatch::Try(
            ((start + tried + 1) % (n as int)) as usize,
        ),
        !took && tried + 1 >= n ==> d == Dispatch::Refuse,
{
    if took {
        return Dispatch::Sent;
    }
    if tried >= n {
        return Dispatch::Refuse;
    }
    match pick_upstream(start, tried + 1, n) {
        Some(u) => Dispatch::Try(u),
        None => Dispatch::Refuse,
    }
}

/// What to do with connection number `start` after `k` steps, where upstream
/// `u` takes it if `takes[u]`.
pub open spec fn dispatch_after(start: int, takes: Seq<bool>, k: int) -> Dispatch
    decreases k,
{
    let n = takes.len() as int;
    if k <= 0 {
        next_try(start, 0, n)
    } else {
        match dispatch_after(start, takes, k - 1) {
            Dispatch::Try(u) => if takes[u as int] {
                Dispatch::Sent
            } else {
                next_try(start, k, n)
            },
            d => d,
        }
    }
}

proof fn lemma_still_trying(start: int, takes: Seq<bool>, k: int)
    requires
        0 <= start,
        0 <= k <= takes.len() <= usize::MAX,
        forall|j: int| 0 <= j < k ==> !takes[#[trigger] turn(start, j, takes.len() as int)],
    ensures
        dispatch_after(start, takes, k) == next_try(start, k, takes.len() as int),
    decreases k,
{
    let n = takes.len() as int;
    if k > 0 {
        lemma_still_trying(start, takes, k - 1);
        lemma_turn(start, k - 1, n);
        vstd::arithmetic::div_mod::lemma_mod_bound(start, n);
        assert(!takes[turn(start, k - 1, n)]);
    }
}

/// A connection goes to the first upstream in turn that takes it: those before
/// it are tried, and none behind it.
pub proof fn lemma_first_taker(start: int, takes: Seq<bool>, i: int)
    requires
        0 <= start,
        0 <= i < takes.len() <= usize::MAX,
        forall|j: int| 0 <= j < i ==> !takes[#[trigger] turn(start, j, takes.len() as int)],
        takes[turn(start, i, takes.len() as int)],
    ensures
        forall|k: int|
            0 <= k <= i ==> #[trigger] dispatch_after(start, takes, k) == Dispatch::Try(
                turn(start, k, takes.len() as int) as usize,
            ),
        dispatch_after(start, takes, i + 1) == Dispatch::Sent,
{
    let n = takes.len() as int;
    assert forall|k: int| 0 <= k <= i implies #[trigger] dispatch_after(start, takes, k)
        == Dispatch::Try(turn(start, k, n) as usize) by {
        lemma_still_trying(start, takes, k);
    }
    lemma_turn(start, i, n);
    vstd::arithmetic::div_mod::lemma_mod_bound(start, n);
    assert(dispatch_after(start, takes, i) == Dispatch::Try(turn(start, i, n) as usize));
}

/// A connection is refused if no upstream takes it, once each of them was
/// tried, and only then.
pub proof fn lemma_refused_by_all(start: int, takes: Seq<bool>)
    requires
        0 <= start,
        takes.len() <= usize::MAX,
    ensures
        (forall|u: int| 0 <= u < takes.len() ==> !#[trigger] takes[u]) ==> {
            &&& dispatch_after(start, takes, takes.len() as int) == Dispatch::Refuse
            &&& forall|k: int|
                0 <= k < takes.len() ==> #[trigger] dispatch_after(start, takes, k)
                    == Dispatch::Try(turn(start, k, takes.len() as int) as usize)
        },
        (exists|u: int| 0 <= u < takes.len() && #[trigger] takes[u]) ==> dispatch_after(
            start,
            takes,
            takes.len() as int,
        ) == Dispatch::Sent,
{
    let n = takes.len() as int;
    if forall|u: int| 0 <= u < n ==> !#[trigger] takes[u] {
        assert forall|k: int| 0 <= k <= n implies #[trigger] dispatch_after(start, takes, k)
            == next_try(start, k, n) by {
            assert forall|j: int| 0 <= j < k implies !takes[#[trigger] turn(start, j, n)] by {
                lemma_turn(start, j, n);
                vstd::arithmetic::div_mod::lemma_mod_bound(start, n);
            }
            lemma_still_trying(start, takes, k);
        }
    } else {
        let u = choose|u: int| 0 <= u < n && #[trigger] takes[u];
        lemma_every_upstream_tried(start, n, u);
        let last = choose|i: int| 0 <= i < n && #[trigger] turn(start, i, n) == u;
        let i = lemma_least_taker(start, takes, last);
        lemma_first_taker(start, takes, i);
        lemma_stays_sent(start, takes, i + 1, n);
    }
}

/// The first of the upstreams in turn that takes a connection.
proof fn lemma_least_taker(start: int, takes: Seq<bool>, last: int) -> (i: int)
    requires
        0 <= last < takes.len(),
        takes[turn(start, last, takes.len() as int)],
    ensures
        0 <= i <= last,
        takes[turn(start, i, takes.len() as int)],
        forall|j: int| 0 <= j < i ==> !takes[#[trigger] turn(start, j, takes.len() as int)],
    decreases last,
{
    let n = takes.len() as int;
    if exists|j: int| 0 <= j < last && takes[#[trigger] turn(start, j, n)] {
        let j = choose|j: int| 0 <= j < last && takes[#[trigger] turn(start, j, n)];
        lemma_least_taker(start, takes, j)
    } else {
        last
    }
}

proof fn lemma_stays_sent(start: int, takes: Seq<bool>, k: int, n: int)
    requires
        0 <= k <= n,
        dispatch_after(start, takes, k) == Dispatch::Sent,
    ensures
        dispatch_after(start, takes, n) == Dispatch::Sent,
    decreases n - k,
{
    if k < n {
        lemma_stays_sent(start, takes, k, n - 1);
    }
}

// ---------------------------------------------------------------------------
// Handing a connection over
// ---------------------------------------------------------------------------

/// How far handing a connection to an upstream has come.
#[derive(Copy, Clone, Debug, PartialEq, Eq, Structural)]
pub enum Handover {
    /// Connect to the upstream.
    Connect,
    /// Send the connection.
    Send,
    /// Close the link to the upstream and connect again.
    Reconnect,
    /// Send the connection once more.
    Resend,
    /// The upstream has taken the connection.
    Sent,
    /// The upstream cannot be reached.
    Unreachable,
    /// The upstream was reached and has not taken the connection.
    Refused,
}

/// Where a handover starts.
pub open spec fn handover_start(connected: bool) -> Handover {
    if connected {
        Handover::Send
    } else {
        Handover::Connect
    }
}

/// How a handover goes on once its step has succeeded or failed: a send that
/// fails is tried once more over a new link.
pub open spec fn handover_next(h: Handover, ok: bool) -> Handover {
    match h {
        Handover::Connect => if ok {
            Handover::Send
        } else {
            Handover::Unreachable
        },
        Handover::Send => if ok {
            Handover::Sent
        } else {
            Handover::Reconnect
        },
        Handover::Reconnect => if ok {
            Handover::Resend
        } else {
            Handover::Unreachable
        },
        Handover::Resend => if ok {
            Handover::Sent
        } else {
            Handover::Refused
        },
        _ => h,
    }
}

/// Whether a handover is over.
pub open spec fn is_over(h: Handover) -> bool {
    h == Handover::Sent || h == Handover::Unreachable || h == Handover::Refused
}

/// A handover after its first `n` steps.
pub open spec fn handover_after(connected: bool, oks: Seq<bool>, n: int) -> Handover
    decreases n,
{
    if n <= 0 {
        handover_start(connected)
    } else {
        handover_next(handover_after(connected, oks, n - 1), oks[n - 1])
    }
}

impl Handover {
    /// Starts a handover; `connected` says whether there is a link to the
    /// upstream.
    pub fn start(connected: bool) -> (h: Handover)
        ensures
            h == handover_start(connected),
            h == (if connected {
                Handover::Send
            } else {
                Handover::Connect
            }),
    {
        if connected {
            Handover::Send
        } else {
            Handover::Connect
        }
    }

    /// Goes on once the step has succeeded or failed.
    pub fn next(self, ok: bool) -> (h: Handover)
        ensures
            h == handover_next(self, ok),
            self == Handover::Connect && ok ==> h == Handover::Send,
            self == Handover::Connect && !ok ==> h == Handover::Unreachable,
            self == Handover::Send && ok ==> h == Handover::Sent,
            self == Handover::Send && !ok ==> h == Handover::Reconnect,
            self == Handover::Reconnect && ok ==> h == Handover::Resend,
            self == Handover::Reconnect && !ok ==> h == Handover::Unreachable,
            self == Handover::Resend && ok ==> h == Handover::Sent,
            self == Handover::Resend && !ok ==> h == Handover::Refused,
            is_over(self) ==> h == self,
    {
        match self {
            Handover::Connect => if ok {
                Handover::Send
            } else {
                Handover::Unreachable
            },
            Handover::Send => if ok {
                Handover::Sent
            } else {
                Handover::Reconnect
            },
            Handover::Reconnect => if ok {
                Handover::Resend
            } else {
                Handover::Unreachable
            },
            Handover::Resend => if ok {
                Handover::Sent
            } else {
                Handover::Refused
            },
            _ => self,
        }
    }
}

/// A handover is over after four steps at most.
pub proof fn lemma_handover_ends(connected: bool, oks: Seq<bool>)
    requires
        oks.len() >= 4,
    ensures
        is_over(handover_after(connected, oks, 4)),
{
    reveal_with_fuel(handover_after, 5);
}

/// A connection is handed over if the first send over the link succeeds, or if
/// a new link can be made and the second send succeeds; without a link, one has
/// to be made first.
pub proof fn lemma_handover_outcome(oks: Seq<bool>)
    requires
        oks.len() >= 4,
    ensures
        handover_after(true, oks, 4) == Handover::Sent <==> oks[0] || (oks[1] && oks[2]),
        handover_after(true, oks, 4) == Handover::Unreachable <==> !oks[0] && !oks[1],
        handover_after(true, oks, 4) == Handover::Refused <==> !oks[0] && oks[1] && !oks[2],
        handover_after(false, oks, 4) == Handover::Sent <==> oks[0] && (oks[1] || (oks[2]
            && oks[3])),
        handover_after(false, oks, 4) == Handover::Unreachable <==> !oks[0] || (!oks[1]
            && !oks[2]),
        handover_after(false, oks, 4) == Handover::Refused <==> oks[0] && !oks[1] && oks[2]
            && !oks[3],
{
    reveal_with_fuel(handover_after, 5);
}

/// An upstream that takes the connection at once is sent it once, over the
/// link that there is.
pub proof fn lemma_handover_over_link(oks: Seq<bool>)
    requires
        oks.len() >= 1,
        oks[0],
    ensures
        handover_after(true, oks, 1) == Handover::Sent,
{
    reveal_with_fuel(handover_after, 2);
}

// ---------------------------------------------------------------------------
// Waiting for upstreams
// ---------------------------------------------------------------------------

/// How often the upstreams are looked for before starting without them.
pub const WAIT_ROUNDS: u32 = 200;

/// What to do after a round of looking for the upstreams.
#[derive(Copy, Clone, Debug, PartialEq, Eq, Structural)]
pub enum Waiting {
    Ready,
    Again,
    GiveUp,
}

/// Decides what to do after round `round`, which found `ready` of `total`
/// upstreams.
pub fn after_round(round: u32, ready: usize, total: usize) -> (w: Waiting)
    ensures
        w == (if ready == total {
            Waiting::Ready
        } else if round + 1 < WAIT_ROUNDS {
            Waiting::Again
        } else {
            Waiting::GiveUp
        }),
        ready == total ==> w == Waiting::Ready,
        ready != total && round < 199 ==> w == Waiting::Again,
        ready != total && round >= 199 ==> w == Waiting::GiveUp,
{
    if ready == total {
        Waiting::Ready
    } else if round < WAIT_ROUNDS - 1 {
        Waiting::Again
    } else {
        Waiting::GiveUp
    }
}

} // verus!
