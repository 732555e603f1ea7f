//! Connections of the API server.
//!
//! A connection is a state that events move on: bytes that arrive, answers to
//! the requests among them, and bytes that the socket has taken.

use crate::bytes::write_bytes;
use crate::http::{
    lemma_request_extent, lemma_request_stays, parse_request, request, ParsedRequest, RequestKind,
    RequestView,
};
use crate::json::grammar::payload;
use crate::json::{parse_payload, ParseErr, Payload};
use crate::normalize::{feature_vector, placeable, vectorize_int16, Measures};
use crate::specialist::best::K;
use crate::specialist::counts::binary_labels;
use crate::specialist::geometry::DIM;
use crate::specialist::SpecialistIndex;
use vstd::prelude::*;

verus! {

/// Number of bytes that a connection holds for requests that are not answered
/// yet.
pub const READ_BUF_SIZE: usize = 8192;

/// `HTTP/1.1 404 Not Found`, `Content-Length: 0`, `Connection: close` and an
/// empty line.
pub const NOT_FOUND: [u8; 64] = [
    0x48, 0x54, 0x54, 0x50, 0x2f, 0x31, 0x2e, 0x31, 0x20, 0x34, 0x30, 0x34, 0x20, 0x4e, 0x6f, 0x74,
    0x20, 0x46, 0x6f, 0x75, 0x6e, 0x64, 0x0d, 0x0a, 0x43, 0x6f, 0x6e, 0x74, 0x65, 0x6e, 0x74, 0x2d,
    0x4c, 0x65, 0x6e, 0x67, 0x74, 0x68, 0x3a, 0x20, 0x30, 0x0d, 0x0a, 0x43, 0x6f, 0x6e, 0x6e, 0x65,
    0x63, 0x74, 0x69, 0x6f, 0x6e, 0x3a, 0x20, 0x63, 0x6c, 0x6f, 0x73, 0x65, 0x0d, 0x0a, 0x0d, 0x0a,
];

/// A connection.
pub struct Conn {
    read_buf: Vec<u8>,
    write_buf: Vec<u8>,
    write_pos: usize,
    want_close: bool,
}

/// A connection as a value.
pub struct ConnView {
    /// Bytes that arrived and are not answered yet.
    pub input: Seq<u8>,
    /// Bytes that are still to be sent.
    pub output: Seq<u8>,
    /// Number of bytes that were sent already and are still held.
    pub held: nat,
    /// Whether the connection is to be closed once everything is sent.
    pub want_close: bool,
}

impl View for Conn {
    type V = ConnView;

    closed spec fn view(&self) -> ConnView {
        ConnView {
            input: self.read_buf@,
            output: self.write_buf@.skip(self.write_pos as int),
            held: self.write_pos as nat,
            want_close: self.want_close,
        }
    }
}

// ---------------------------------------------------------------------------
// Receiving
// ---------------------------------------------------------------------------

/// What came of receiving.
pub enum Arrival<'a> {
    Bytes(&'a [u8]),
    /// Nothing more for now.
    Nothing,
    /// The peer has closed, or receiving has failed.
    Closed,
}

/// What to do next with the incoming side.
#[derive(Copy, Clone, Debug, PartialEq, Eq, Structural)]
pub enum Intake {
    Receive,
    Process,
    Close,
}

/// What to do next after `input` has arrived: a connection that has no room
/// left is closed.
pub open spec fn intake_of(input: Seq<u8>) -> Intake {
    if input.len() >= READ_BUF_SIZE {
        Intake::Close
    } else {
        Intake::Receive
    }
}

/// The bytes of an arrival.
pub open spec fn arrived(a: Arrival) -> Seq<u8> {
    match a {
        Arrival::Bytes(b) => b@,
        _ => seq![],
    }
}

// ---------------------------------------------------------------------------
// Answering
// ---------------------------------------------------------------------------

/// What to do next with the requests that have arrived.
#[derive(Copy, Clone, Debug, PartialEq, Eq, Structural)]
pub enum Turn {
    /// A payload waits to be scored.
    Score,
    /// Nothing is left to answer.
    Flush,
    Close,
}

/// A connection after the request `r` was answered.
pub open spec fn answered(c: ConnView, r: RequestView, response: Seq<u8>) -> ConnView {
    ConnView {
        input: c.input.skip(r.consumed),
        output: c.output + response,
        want_close: c.want_close || !r.keep_alive,
        ..c
    }
}

/// A connection after the next request was answered, by whether its payload can
/// be read.
pub open spec fn responded(c: ConnView, scored: Seq<u8>, fallback: Seq<u8>) -> ConnView {
    let r = request(c.input);
    answered(
        c,
        r,
        if payload(r.body) is Ok {
            scored
        } else {
            fallback
        },
    )
}

/// A connection after all requests up to the next payload were answered, and
/// what to do next. An unknown path is answered last.
pub open spec fn advanced(c: ConnView, ready: Seq<u8>) -> (ConnView, Turn)
    decreases c.input.len(),
{
    proof {
        lemma_request_extent(c.input);
    }
    let r = request(c.input);
    match r.kind {
        RequestKind::NeedMore => (c, Turn::Flush),
        RequestKind::BadRequest => (c, Turn::Close),
        RequestKind::Ready => advanced(answered(c, r, ready), ready),
        RequestKind::NotFound => (
            ConnView { want_close: true, ..answered(c, r, NOT_FOUND@) },
            Turn::Flush,
        ),
        RequestKind::FraudScore => (c, Turn::Score),
    }
}

// ---------------------------------------------------------------------------
// Sending
// ---------------------------------------------------------------------------

/// What came of sending.
#[derive(Copy, Clone, Debug)]
pub enum Sent {
    Bytes(usize),
    /// The socket takes no more for now.
    Full,
    Failed,
}

/// What to do next with the outgoing side.
#[derive(Copy, Clone, Debug, PartialEq, Eq, Structural)]
pub enum Flush {
    Send,
    /// Wait until the socket takes more.
    Wait,
    /// Everything is sent: wait for more requests.
    Idle,
    Close,
}

/// What to do next while `c` is being sent.
pub open spec fn flush_of(c: ConnView) -> Flush {
    if c.output.len() > 0 {
        Flush::Send
    } else if c.want_close {
        Flush::Close
    } else {
        Flush::Idle
    }
}

/// A connection after the socket has taken `n` bytes. Nothing that was sent is
/// held once everything is sent.
pub open spec fn taken(c: ConnView, n: int) -> ConnView {
    ConnView {
        output: c.output.skip(n),
        held: if n == c.output.len() {
            0
        } else {
            (c.held + n) as nat
        },
        ..c
    }
}

impl Conn {
    /// Whether the buffers are in order: the incoming one within its size, and
    /// the outgoing one empty once everything is sent.
    pub closed spec fn wf(self) -> bool {
        &&& self.read_buf@.len() <= READ_BUF_SIZE
        &&& self.write_pos <= self.write_buf@.len()
        &&& self.write_pos == self.write_buf@.len() ==> self.write_pos == 0
    }

    /// Nothing that was sent is held once everything is sent.
    pub proof fn lemma_nothing_held(&self)
        requires
            self.wf(),
        ensures
            self@.output.len() == 0 ==> self@.held == 0,
            self@.input.len() <= READ_BUF_SIZE,
    {
    }

    /// A connection that nothing has arrived on.
    pub fn new() -> (c: Conn)
        ensures
            c.wf(),
            c@ == (ConnView { input: seq![], output: seq![], held: 0, want_close: false }),
    {
        let c = Conn {
            read_buf: Vec::new(),
            write_buf: Vec::new(),
            write_pos: 0,
            want_close: false,
        };
        assert(c@.input =~= Seq::<u8>::empty());
        assert(c@.output =~= Seq::<u8>::empty());
        c
    }

    /// Number of bytes that there is room for.
    pub fn room(&self) -> (n: usize)
        requires
            self.wf(),
        ensures
            n == READ_BUF_SIZE - self@.input.len(),
            n == 8192 - self@.input.len(),
    {
        READ_BUF_SIZE - self.read_buf.len()
    }

    /// What to do first when the socket has something to receive.
    pub fn start_intake(&self) -> (i: Intake)
        requires
            self.wf(),
        ensures
            i == intake_of(self@.input),
            self@.input.len() >= 8192 ==> i == Intake::Close,
            self@.input.len() < 8192 ==> i == Intake::Receive,
    {
        if self.read_buf.len() >= READ_BUF_SIZE {
            Intake::Close
        } else {
            Intake::Receive
        }
    }

    /// Takes in what has arrived.
    pub fn intake(&mut self, a: Arrival) -> (i: Intake)
        requires
            old(self).wf(),
            arrived(a).len() <= READ_BUF_SIZE - old(self)@.input.len(),
        ensures
            final(self).wf(),
            final(self)@ == (ConnView { input: old(self)@.input + arrived(a), ..old(self)@ }),
            i == (match a {
                Arrival::Bytes(_) => intake_of(final(self)@.input),
                Arrival::Nothing => Intake::Process,
                Arrival::Closed => Intake::Close,
            }),
            a matches Arrival::Bytes(b) ==> {
                &&& final(self)@.input == old(self)@.input + b@
                &&& final(self)@.input.len() >= 8192 ==> i == Intake::Close
                &&& final(self)@.input.len() < 8192 ==> i == Intake::Receive
            },
            !(a is Bytes) ==> final(self)@.input == old(self)@.input,
            a is Nothing ==> i == Intake::Process,
            a is Closed ==> i == Intake::Close,
            final(self)@.output == old(self)@.output,
            final(self)@.want_close == old(self)@.want_close,
    {
        assert(self@.input + Seq::<u8>::empty() =~= self@.input);
        match a {
            Arrival::Bytes(b) => {
                write_bytes(&mut self.read_buf, b);
                self.start_intake()
            },
            Arrival::Nothing => Intake::Process,
            Arrival::Closed => Intake::Close,
        }
    }

    /// Takes a request off the incoming side.
    fn drop_request(&mut self, consumed: usize)
        requires
            old(self).wf(),
            consumed <= old(self)@.input.len(),
        ensures
            final(self).wf(),
            final(self)@ == (ConnView {
                input: old(self)@.input.skip(consumed as int),
                ..old(self)@
            }),
    {
        let rest: Vec<u8> = self.read_buf.split_off(consumed);
        self.read_buf = rest;
        assert(self.read_buf@ =~= old(self)@.input.skip(consumed as int));
    }

    /// Puts a response on the outgoing side.
    fn push_response(&mut self, response: &[u8])
        requires
            old(self).wf(),
        ensures
            final(self).wf(),
            final(self)@ == (ConnView { output: old(self)@.output + response@, ..old(self)@ }),
    {
        write_bytes(&mut self.write_buf, response);
        assert(self@.output =~= old(self)@.output + response@);
    }

    /// Answers requests up to the next payload; `ready` is the response to a
    /// readiness probe.
    pub fn advance(&mut self, ready: &[u8]) -> (t: Turn)
        requires
            old(self).wf(),
        ensures
            final(self).wf(),
            (final(self)@, t) == advanced(old(self)@, ready@),
    {
        loop
            invariant
                self.wf(),
                advanced(self@, ready@) == advanced(old(self)@, ready@),
            decreases self@.input.len(),
        {
            proof {
                lemma_request_extent(self@.input);
            }
            let parsed: ParsedRequest = parse_request(&self.read_buf);
            let consumed: usize = parsed.consumed;
            let keep_alive: bool = parsed.keep_alive;
            match parsed.kind {
                RequestKind::NeedMore => {
                    return Turn::Flush;
                },
                RequestKind::BadRequest => {
                    return Turn::Close;
                },
                RequestKind::Ready => {
                    self.drop_request(consumed);
                    self.push_response(ready);
                    if !keep_alive {
                        self.want_close = true;
                    }
                },
                RequestKind::NotFound => {
                    self.drop_request(consumed);
                    self.push_response(&NOT_FOUND);
                    self.want_close = true;
                    return Turn::Flush;
                },
                RequestKind::FraudScore => {
                    return Turn::Score;
                },
            }
        }
    }

    /// Reads the payload that waits to be scored.
    pub fn payload<'a>(&'a self) -> (r: Result<Payload<'a>, ParseErr>)
        ensures
            match payload(request(self@.input).body) {
                Ok(v) => r matches Ok(p) && p@ == v && p.wf(),
                Err(e) => r == Err::<Payload<'a>, ParseErr>(e),
            },
    {
        let parsed: ParsedRequest<'a> = parse_request(&self.read_buf);
        parse_payload(parsed.body)
    }

    /// Answers the request whose payload was scored.
    pub fn answer(&mut self, response: &[u8])
        requires
            old(self).wf(),
            request(old(self)@.input).kind == RequestKind::FraudScore,
        ensures
            final(self).wf(),
            final(self)@ == answered(old(self)@, request(old(self)@.input), response@),
            final(self)@.output == old(self)@.output + response@,
            final(self)@.input == old(self)@.input.skip(request(old(self)@.input).consumed),
            final(self)@.want_close <==> old(self)@.want_close || !request(
                old(self)@.input,
            ).keep_alive,
    {
        proof {
            lemma_request_extent(self@.input);
        }
        let parsed: ParsedRequest = parse_request(&self.read_buf);
        let consumed: usize = parsed.consumed;
        let keep_alive: bool = parsed.keep_alive;
        self.drop_request(consumed);
        self.push_response(response);
        if !keep_alive {
            self.want_close = true;
        }
    }

    /// Answers the request whose payload was to be scored: with `scored` if the
    /// payload can be read, and with `fallback` if it cannot.
    pub fn respond(&mut self, scored: &[u8], fallback: &[u8])
        requires
            old(self).wf(),
            request(old(self)@.input).kind == RequestKind::FraudScore,
        ensures
            final(self).wf(),
            final(self)@ == responded(old(self)@, scored@, fallback@),
            payload(request(old(self)@.input).body) is Ok ==> final(self)@.output
                == old(self)@.output + scored@,
            payload(request(old(self)@.input).body) is Err ==> final(self)@.output
                == old(self)@.output + fallback@,
            final(self)@.input == old(self)@.input.skip(request(old(self)@.input).consumed),
            final(self)@.want_close <==> old(self)@.want_close || !request(
                old(self)@.input,
            ).keep_alive,
    {
        let readable: bool = match self.payload() {
            Ok(_) => true,
            Err(_) => false,
        };
        if readable {
            self.answer(scored);
        } else {
            self.answer(fallback);
        }
    }

    /// The bytes to hand to the socket.
    pub fn unsent(&self) -> (s: &[u8])
        requires
            self.wf(),
        ensures
            s@ == self@.output,
    {
        let all: &[u8] = &self.write_buf;
        let s: &[u8] = &all[self.write_pos..all.len()];
        assert(s@ =~= self@.output);
        s
    }

    /// What to do first to send what is there.
    pub fn start_flush(&self) -> (f: Flush)
        requires
            self.wf(),
        ensures
            f == flush_of(self@),
            self@.output.len() > 0 ==> f == Flush::Send,
            self@.output.len() == 0 && self@.want_close ==> f == Flush::Close,
            self@.output.len() == 0 && !self@.want_close ==> f == Flush::Idle,
    {
        if self.write_pos < self.write_buf.len() {
            Flush::Send
        } else if self.want_close {
            Flush::Close
        } else {
            Flush::Idle
        }
    }

    /// Takes off what the socket has taken.
    pub fn flush(&mut self, s: Sent) -> (f: Flush)
        requires
            old(self).wf(),
            s matches Sent::Bytes(n) ==> n <= old(self)@.output.len(),
        ensures
            final(self).wf(),
            match s {
                Sent::Bytes(n) => {
                    &&& final(self)@ == taken(old(self)@, n as int)
                    &&& f == flush_of(final(self)@)
                },
                Sent::Full => final(self)@ == old(self)@ && f == Flush::Wait,
                Sent::Failed => final(self)@ == old(self)@ && f == Flush::Close,
            },
            s matches Sent::Bytes(n) ==> {
                &&& final(self)@.output == old(self)@.output.skip(n as int)
                &&& n < old(self)@.output.len() ==> f == Flush::Send && final(self)@.held
                    == old(self)@.held + n
                &&& n == old(self)@.output.len() ==> final(self)@.held == 0 && f == (if old(self)@.want_close {
                    Flush::Close
                } else {
                    Flush::Idle
                })
            },
            final(self)@.input == old(self)@.input,
            final(self)@.want_close == old(self)@.want_close,
    {
        match s {
            Sent::Bytes(n) => {
                assert(self.write_pos + n <= self.write_buf.len());
                self.write_pos = self.write_pos + n;
                assert(self@.output =~= old(self)@.output.skip(n as int));
                if self.write_pos == self.write_buf.len() {
                    self.write_buf.clear();
                    self.write_pos = 0;
                    assert(self@.output =~= old(self)@.output.skip(n as int));
                }
                self.start_flush()
            },
            Sent::Full => Flush::Wait,
            Sent::Failed => Flush::Close,
        }
    }
}

/// Scores a payload: the number of frauds among its nearest neighbours.
pub fn score(index: &SpecialistIndex, p: &Payload, m: &Measures) -> (frauds: u8)
    requires
        index.wf(),
        index@.searchable(),
        p.wf(),
        placeable(p@),
    ensures
        index@.answers(feature_vector(p@, *m), frauds as int),
        binary_labels(index@.labels) ==> frauds <= K,
{
    let q: [i16; DIM] = vectorize_int16(p, m);
    index.fraud_count(&q)
}

// ---------------------------------------------------------------------------
// Laws
// ---------------------------------------------------------------------------

/// A request that has arrived in full is not changed by what arrives behind
/// it, and once it is answered what is left is what arrived behind it.
pub proof fn lemma_requests_in_order(c: ConnView, first: Seq<u8>, more: Seq<u8>, response: Seq<u8>)
    requires
        c.input == first + more,
        request(first).consumed == first.len(),
        request(first).kind != RequestKind::NeedMore,
        request(first).kind != RequestKind::BadRequest,
    ensures
        request(c.input) == request(first),
        answered(c, request(c.input), response).input == more,
        answered(c, request(c.input), response).output == c.output + response,
{
    lemma_request_stays(first, more);
    assert((first + more).skip(first.len() as int) =~= more);
}

/// Requests are answered by their kind: nothing changes while more bytes are
/// needed, before a bad request and before a payload; an unknown path is
/// answered, and then nothing more; and a probe is answered before the next
/// request is looked at.
pub proof fn lemma_answers_by_kind(c: ConnView, ready: Seq<u8>)
    ensures
        ({
            let r = request(c.input);
            let (next, turn) = advanced(c, ready);
            &&& r.kind == RequestKind::NeedMore ==> next == c && turn == Turn::Flush
            &&& r.kind == RequestKind::BadRequest ==> next == c && turn == Turn::Close
            &&& r.kind == RequestKind::FraudScore ==> next == c && turn == Turn::Score
            &&& r.kind == RequestKind::NotFound ==> {
                &&& turn == Turn::Flush
                &&& next.want_close
                &&& next.output == c.output + NOT_FOUND@
                &&& next.input == c.input.skip(r.consumed)
                &&& next.held == c.held
            }
            &&& r.kind == RequestKind::Ready ==> (next, turn) == advanced(
                (ConnView {
                    input: c.input.skip(r.consumed),
                    output: c.output + ready,
                    held: c.held,
                    want_close: c.want_close || !r.keep_alive,
                }),
                ready,
            )
        }),
{
    lemma_request_extent(c.input);
}

/// A connection on which more bytes have arrived.
pub open spec fn with_more(c: ConnView, more: Seq<u8>) -> ConnView {
    ConnView { input: c.input + more, ..c }
}

/// Whether an unknown path comes up before the next payload.
pub open spec fn meets_unknown_path(c: ConnView, ready: Seq<u8>) -> bool
    decreases c.input.len(),
{
    proof {
        lemma_request_extent(c.input);
    }
    let r = request(c.input);
    match r.kind {
        RequestKind::Ready => meets_unknown_path(answered(c, r, ready), ready),
        RequestKind::NotFound => true,
        _ => false,
    }
}

/// Requests may arrive in any pieces: answering what is there and then what
/// arrives later comes to the same as answering all at once. (An unknown path
/// ends the answers for the time being, whatever has arrived behind it.)
pub proof fn lemma_pieces_do_not_matter(c: ConnView, more: Seq<u8>, ready: Seq<u8>)
    requires
        !meets_unknown_path(c, ready),
    ensures
        advanced(with_more(advanced(c, ready).0, more), ready) == advanced(
            with_more(c, more),
            ready,
        ),
    decreases c.input.len(),
{
    lemma_request_extent(c.input);
    let r = request(c.input);
    if r.kind == RequestKind::Ready {
        let next = answered(c, r, ready);
        lemma_pieces_do_not_matter(next, more, ready);
        lemma_request_stays(c.input, more);
        let all = with_more(c, more);
        assert(all.input.skip(r.consumed) =~= next.input + more);
        assert(answered(all, r, ready) == with_more(next, more));
    }
}

/// Answers are only ever put behind what is to be sent already.
pub proof fn lemma_output_grows(c: ConnView, ready: Seq<u8>)
    ensures
        c.output.is_prefix_of(advanced(c, ready).0.output),
        c.want_close ==> advanced(c, ready).0.want_close,
        advanced(c, ready).1 == Turn::Score ==> request(advanced(c, ready).0.input).kind
            == RequestKind::FraudScore,
    decreases c.input.len(),
{
    lemma_request_extent(c.input);
    let r = request(c.input);
    match r.kind {
        RequestKind::Ready => {
            let next = answered(c, r, ready);
            lemma_output_grows(next, ready);
            let all = advanced(next, ready).0.output;
            assert(all.take(next.output.len() as int) == next.output);
            assert(next.output.take(c.output.len() as int) =~= c.output);
            assert(all.take(c.output.len() as int) =~= next.output.take(c.output.len() as int)) by {
                assert forall|i: int| 0 <= i < c.output.len() implies all[i] == next.output[i] by {
                    assert(all.take(next.output.len() as int)[i] == all[i]);
                }
            }
        },
        RequestKind::NotFound => {
            let all = c.output + NOT_FOUND@;
            assert(all.take(c.output.len() as int) =~= c.output);
        },
        _ => {
            assert(c.output.take(c.output.len() as int) =~= c.output);
        },
    }
}

/// A connection after everything up to the end of `responses` was answered, and
/// what to do next: payloads are answered with the responses, one after the
/// other.
pub open spec fn served(c: ConnView, ready: Seq<u8>, responses: Seq<Seq<u8>>) -> (ConnView, Turn)
    decreases responses.len(),
{
    let (next, turn) = advanced(c, ready);
    if turn == Turn::Score && responses.len() > 0 {
        served(answered(next, request(next.input), responses[0]), ready, responses.skip(1))
    } else {
        (next, turn)
    }
}

/// Whether a text is one whole request that is answered and leaves more to
/// come: a payload or a readiness probe.
pub open spec fn is_request(s: Seq<u8>) -> bool {
    &&& request(s).consumed == s.len()
    &&& request(s).kind == RequestKind::FraudScore || request(s).kind == RequestKind::Ready
}

/// Some requests, one after the other.
pub open spec fn in_a_row(requests: Seq<Seq<u8>>) -> Seq<u8>
    decreases requests.len(),
{
    if requests.len() == 0 {
        seq![]
    } else {
        requests[0] + in_a_row(requests.skip(1))
    }
}

/// Number of payloads among some requests.
pub open spec fn payload_count(requests: Seq<Seq<u8>>) -> nat
    decreases requests.len(),
{
    if requests.len() == 0 {
        0
    } else {
        payload_count(requests.skip(1)) + if request(requests[0]).kind == RequestKind::FraudScore {
            1nat
        } else {
            0nat
        }
    }
}

/// The answers to some requests, one after the other.
pub open spec fn replies(
    requests: Seq<Seq<u8>>,
    ready: Seq<u8>,
    responses: Seq<Seq<u8>>,
) -> Seq<u8>
    decreases requests.len(),
{
    if requests.len() == 0 {
        seq![]
    } else if request(requests[0]).kind == RequestKind::FraudScore {
        responses[0] + replies(requests.skip(1), ready, responses.skip(1))
    } else {
        ready + replies(requests.skip(1), ready, responses)
    }
}

/// Whether one of some requests asks for the connection to be closed.
pub open spec fn asks_to_close(requests: Seq<Seq<u8>>) -> bool {
    exists|i: int| 0 <= i < requests.len() && !request(#[trigger] requests[i]).keep_alive
}

/// A connection after some requests were answered, with `rest` behind them.
pub open spec fn all_answered(
    c: ConnView,
    requests: Seq<Seq<u8>>,
    ready: Seq<u8>,
    responses: Seq<Seq<u8>>,
    rest: Seq<u8>,
) -> ConnView {
    ConnView {
        input: rest,
        output: c.output + replies(requests, ready, responses),
        want_close: c.want_close || asks_to_close(requests),
        ..c
    }
}

/// Requests that arrive together are answered in their order, whatever stands
/// behind them: it goes on from where they are all answered.
pub proof fn lemma_served_in_order(
    c: ConnView,
    requests: Seq<Seq<u8>>,
    ready: Seq<u8>,
    responses: Seq<Seq<u8>>,
    rest: Seq<u8>,
)
    requires
        c.input == in_a_row(requests) + rest,
        forall|i: int| 0 <= i < requests.len() ==> is_request(#[trigger] requests[i]),
        payload_count(requests) == responses.len(),
    ensures
        served(c, ready, responses) == served(
            all_answered(c, requests, ready, responses, rest),
            ready,
            seq![],
        ),
    decreases requests.len(),
{
    if requests.len() == 0 {
        assert(c.input =~= rest);
        assert(c.output + Seq::<u8>::empty() =~= c.output);
        assert(responses =~= Seq::<Seq<u8>>::empty());
        assert(all_answered(c, requests, ready, responses, rest) == c);
    } else {
        let first = requests[0];
        let later = requests.skip(1);
        let more = in_a_row(later) + rest;
        assert(is_request(first));
        assert(c.input =~= first + more);
        let r = request(c.input);
        lemma_request_extent(c.input);
        let response = if request(first).kind == RequestKind::FraudScore {
            responses[0]
        } else {
            ready
        };
        let left = if request(first).kind == RequestKind::FraudScore {
            responses.skip(1)
        } else {
            responses
        };
        lemma_requests_in_order(c, first, more, response);
        let next = answered(c, r, response);
        assert forall|i: int| 0 <= i < later.len() implies is_request(#[trigger] later[i]) by {
            assert(later[i] == requests[i + 1]);
        }
        assert(asks_to_close(requests) == (!request(first).keep_alive || asks_to_close(later))) by {
            if asks_to_close(later) {
                let i = choose|i: int|
                    0 <= i < later.len() && !request(#[trigger] later[i]).keep_alive;
                assert(requests[i + 1] == later[i]);
            }
            if asks_to_close(requests) {
                let i = choose|i: int|
                    0 <= i < requests.len() && !request(#[trigger] requests[i]).keep_alive;
                if i > 0 {
                    assert(later[i - 1] == requests[i]);
                }
            }
        }
        lemma_served_in_order(next, later, ready, left, rest);
        assert(all_answered(next, later, ready, left, rest).output =~= all_answered(
            c,
            requests,
            ready,
            responses,
            rest,
        ).output);
        assert(all_answered(next, later, ready, left, rest) == all_answered(
            c,
            requests,
            ready,
            responses,
            rest,
        ));
        assert(served(c, ready, responses) == served(next, ready, left));
    }
}

/// With nothing whole behind them, requests that arrive together leave the
/// connection with each payload answered by its response and each probe by
/// `ready`, in order and behind what is to be sent already, and with what has
/// arrived behind the last request.
pub proof fn lemma_pipelined_requests(
    c: ConnView,
    requests: Seq<Seq<u8>>,
    ready: Seq<u8>,
    responses: Seq<Seq<u8>>,
    rest: Seq<u8>,
)
    requires
        c.input == in_a_row(requests) + rest,
        forall|i: int| 0 <= i < requests.len() ==> is_request(#[trigger] requests[i]),
        payload_count(requests) == responses.len(),
        request(rest).kind == RequestKind::NeedMore,
    ensures
        served(c, ready, responses) == (
            all_answered(c, requests, ready, responses, rest),
            Turn::Flush,
        ),
{
    lemma_served_in_order(c, requests, ready, responses, rest);
}

/// An unknown path is answered with "not found", and the connection is closed
/// as soon as the answer is sent.
pub proof fn lemma_not_found_closes(c: ConnView, ready: Seq<u8>)
    requires
        request(c.input).kind == RequestKind::NotFound,
    ensures
        ({
            let (next, turn) = advanced(c, ready);
            &&& turn == Turn::Flush
            &&& next.output == c.output + NOT_FOUND@
            &&& flush_of(next) == Flush::Send
            &&& flush_of((ConnView { output: seq![], ..next })) == Flush::Close
        }),
{
    assert(NOT_FOUND@.len() == 64);
}

} // verus!
