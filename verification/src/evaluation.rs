//! Checking an index against requests whose outcome is known.
//!
//! The test data is one large object with an array of entries. It is walked
//! by its braces alone.

pub mod walk;

use crate::bytes::{find_from, find_part, lemma_find_from, same_bytes};
use crate::specialist::format::MAGIC;
use vstd::prelude::*;

verus! {

/// `"entries":[`
pub const ENTRIES: [u8; 11] = [0x22, 0x65, 0x6e, 0x74, 0x72, 0x69, 0x65, 0x73, 0x22, 0x3a, 0x5b];

/// `"request":{`
pub const REQUEST: [u8; 11] = [0x22, 0x72, 0x65, 0x71, 0x75, 0x65, 0x73, 0x74, 0x22, 0x3a, 0x7b];

/// `"expected_approved":true`
pub const EXPECTED: [u8; 24] = [
    0x22, 0x65, 0x78, 0x70, 0x65, 0x63, 0x74, 0x65, 0x64, 0x5f, 0x61, 0x70, 0x70, 0x72, 0x6f, 0x76,
    0x65, 0x64, 0x22, 0x3a, 0x74, 0x72, 0x75, 0x65,
];

/// Length of the key in [`REQUEST`], up to the brace.
pub const REQUEST_KEY: usize = 10;

/// Tests whether a file is an index of the specialist format, by its first
/// bytes.
pub fn is_specialist(first: &[u8]) -> (r: bool)
    ensures
        r == (first@ == MAGIC@),
{
    same_bytes(first, &MAGIC)
}

// ---------------------------------------------------------------------------
// Walking the entries
// ---------------------------------------------------------------------------

/// Where the object from `i` on ends, with `depth` braces open, inside of a
/// string or not: behind the brace that closes the first one, or at the end
/// of the text. Inside of a string a backslash hides the byte behind it.
pub open spec fn object_end(s: Seq<u8>, i: int, depth: int, in_string: bool) -> int
    decreases s.len() + 1 - i,
{
    if i >= s.len() {
        i
    } else if in_string {
        if s[i] == 0x5c {
            object_end(s, i + 2, depth, true)
        } else {
            object_end(s, i + 1, depth, s[i] != 0x22)
        }
    } else if s[i] == 0x22 {
        object_end(s, i + 1, depth, true)
    } else if s[i] == 0x7b {
        object_end(s, i + 1, depth + 1, false)
    } else if s[i] == 0x7d {
        if depth == 1 {
            i + 1
        } else {
            object_end(s, i + 1, depth - 1, false)
        }
    } else {
        object_end(s, i + 1, depth, false)
    }
}

/// Finds where the object from `start` on ends; `None` where the text ends
/// behind a backslash.
pub fn find_object_end(s: &[u8], start: usize) -> (r: Option<usize>)
    requires
        start <= s@.len(),
    ensures
        match r {
            Some(e) => e == object_end(s@, start as int, 0, false) && start <= e <= s@.len(),
            None => object_end(s@, start as int, 0, false) > s@.len(),
        },
{
    let mut i: usize = start;
    let mut opens: usize = 0;
    let mut closes: usize = 0;
    let mut in_string: bool = false;
    assert(s@.len() == s.len());
    while i < s.len()
        invariant
            start <= i <= s@.len(),
            s@.len() == s.len(),
            opens + closes <= i - start,
            object_end(s@, i as int, opens - closes, in_string) == object_end(
                s@,
                start as int,
                0,
                false,
            ),
        decreases s@.len() - i,
    {
        let c: u8 = s[i];
        if in_string {
            if c == 0x5c {
                if s.len() - i < 2 {
                    assert(object_end(s@, i + 2, opens - closes, true) == i + 2);
                    return None;
                }
                i = i + 1;
            } else if c == 0x22 {
                in_string = false;
            }
        } else if c == 0x22 {
            in_string = true;
        } else if c == 0x7b {
            opens = opens + 1;
        } else if c == 0x7d {
            closes = closes + 1;
            if opens == closes {
                return Some(i + 1);
            }
        }
        i = i + 1;
    }
    Some(i)
}

/// Whether a byte stands between two entries.
pub open spec fn is_separator(b: u8) -> bool {
    b == 0x2c || b == 0x20 || b == 0x0a || b == 0x0d || b == 0x09
}

/// Where the next entry starts, at `i` or behind.
pub open spec fn entry_start(s: Seq<u8>, i: int) -> int
    decreases s.len() - i,
{
    if i < s.len() && is_separator(s[i]) {
        entry_start(s, i + 1)
    } else {
        i
    }
}

/// An entry of the test data.
pub struct Entry<'a> {
    pub request: &'a [u8],
    /// Whether the request is to be approved.
    pub expected: bool,
    /// Where the entry ends.
    pub next: usize,
}

/// What comes next in the test data.
pub enum Step<'a> {
    Done,
    Entry(Entry<'a>),
    /// No request stands where one should.
    Broken,
}

/// The request in an entry: the object behind its key.
pub open spec fn request_of(entry: Seq<u8>) -> Option<Seq<u8>> {
    match find_from(entry, REQUEST@, 0) {
        Some(k) => {
            let text = entry.skip(k + REQUEST_KEY);
            let end = object_end(text, 0, 0, false);
            if end <= text.len() {
                Some(text.take(end))
            } else {
                None
            }
        },
        None => None,
    }
}

/// Whether an entry is to be approved.
pub open spec fn expected_of(entry: Seq<u8>) -> bool {
    find_from(entry, EXPECTED@, 0) is Some
}

/// Whether `step` is what comes next in the entries `s`, at `i` or behind.
pub open spec fn is_next(s: Seq<u8>, i: int, step: Step) -> bool {
    let a = entry_start(s, i);
    if a >= s.len() || s[a] == 0x5d {
        step is Done
    } else {
        let end = object_end(s, a, 0, false);
        if end > s.len() || request_of(s.subrange(a, end)) is None {
            step is Broken
        } else {
            let entry = s.subrange(a, end);
            step matches Step::Entry(e) && Some(e.request@) == request_of(entry) && e.expected
                == expected_of(entry) && e.next == end
        }
    }
}

/// Where the entries start in a file.
pub fn find_entries(s: &[u8]) -> (r: Option<usize>)
    ensures
        match r {
            Some(i) => find_from(s@, ENTRIES@, 0) == Some(i - ENTRIES.len()) && i <= s@.len(),
            None => find_from(s@, ENTRIES@, 0) is None,
        },
{
    proof {
        lemma_find_from(s@, ENTRIES@, 0);
    }
    match find_part(s, &ENTRIES, 0) {
        Some(i) => {
            assert(i + ENTRIES@.len() <= s.len());
            Some(i + ENTRIES.len())
        },
        None => None,
    }
}

fn find_request<'a>(entry: &'a [u8]) -> (r: Option<&'a [u8]>)
    ensures
        match r {
            Some(t) => request_of(entry@) == Some(t@),
            None => request_of(entry@) is None,
        },
{
    proof {
        lemma_find_from(entry@, REQUEST@, 0);
    }
    match find_part(entry, &REQUEST, 0) {
        Some(k) => {
            assert(k + REQUEST@.len() <= entry.len());
            let text: &'a [u8] = &entry[k + REQUEST_KEY..entry.len()];
            assert(text@ =~= entry@.skip(k + REQUEST_KEY));
            match find_object_end(text, 0) {
                Some(end) => {
                    let request: &'a [u8] = &text[0..end];
                    assert(request@ =~= text@.take(end as int));
                    Some(request)
                },
                None => None,
            }
        },
        None => None,
    }
}

/// Reads the next entry, at `i` or behind.
pub fn next_entry<'a>(s: &'a [u8], i: usize) -> (r: Step<'a>)
    requires
        i <= s@.len(),
    ensures
        is_next(s@, i as int, r),
        r matches Step::Entry(e) ==> i < e.next <= s@.len(),
{
    let mut a: usize = i;
    while a < s.len() && (s[a] == 0x2c || s[a] == 0x20 || s[a] == 0x0a || s[a] == 0x0d || s[a]
        == 0x09)
        invariant
            i <= a <= s@.len(),
            entry_start(s@, a as int) == entry_start(s@, i as int),
        decreases s@.len() - a,
    {
        a = a + 1;
    }
    if a >= s.len() || s[a] == 0x5d {
        return Step::Done;
    }
    let end: usize = match find_object_end(s, a) {
        Some(e) => e,
        None => {
            return Step::Broken;
        },
    };
    proof {
        lemma_object_end_moves(s@, a as int, 0, false);
    }
    let entry: &'a [u8] = &s[a..end];
    match find_request(entry) {
        Some(request) => {
            let expected: bool = match find_part(entry, &EXPECTED, 0) {
                Some(_) => true,
                None => false,
            };
            Step::Entry(Entry { request, expected, next: end })
        },
        None => Step::Broken,
    }
}

proof fn lemma_object_end_moves(s: Seq<u8>, i: int, depth: int, in_string: bool)
    requires
        0 <= i,
    ensures
        i <= object_end(s, i, depth, in_string),
        i < s.len() ==> i < object_end(s, i, depth, in_string),
    decreases s.len() + 1 - i,
{
    if i < s.len() {
        if in_string && s[i] == 0x5c {
            lemma_object_end_moves(s, i + 2, depth, true);
        } else if in_string {
            lemma_object_end_moves(s, i + 1, depth, s[i] != 0x22);
        } else if s[i] == 0x22 {
            lemma_object_end_moves(s, i + 1, depth, true);
        } else if s[i] == 0x7b {
            lemma_object_end_moves(s, i + 1, depth + 1, false);
        } else if s[i] == 0x7d {
            if depth != 1 {
                lemma_object_end_moves(s, i + 1, depth - 1, false);
            }
        } else {
            lemma_object_end_moves(s, i + 1, depth, false);
        }
    }
}

// ---------------------------------------------------------------------------
// Counting
// ---------------------------------------------------------------------------

/// Number of fraud labels from which on a request is denied.
pub const DENIED_FROM: u8 = 3;

/// Decides a request by the number of frauds among its neighbours.
pub fn is_approved(frauds: u8) -> (r: bool)
    ensures
        r == (frauds < 3),
{
    frauds < DENIED_FROM
}

/// How many requests were decided right and wrong.
#[derive(Copy, Clone, Debug, PartialEq, Eq, Structural)]
pub struct Tally {
    pub count: usize,
    pub correct: usize,
    /// Denied, though they were to be approved.
    pub false_positives: usize,
    /// Approved, though they were to be denied.
    pub false_negatives: usize,
}

/// A tally after one more request.
pub open spec fn tallied(t: Tally, frauds: u8, expected: bool) -> Tally {
    let approved = frauds < 3;
    Tally {
        count: (t.count + 1) as usize,
        correct: if approved == expected {
            (t.correct + 1) as usize
        } else {
            t.correct
        },
        false_positives: if !approved && expected {
            (t.false_positives + 1) as usize
        } else {
            t.false_positives
        },
        false_negatives: if approved && !expected {
            (t.false_negatives + 1) as usize
        } else {
            t.false_negatives
        },
    }
}

impl Tally {
    /// Whether every request is counted once.
    pub open spec fn wf(self) -> bool {
        self.correct + self.false_positives + self.false_negatives == self.count
    }

    /// A tally of no requests.
    pub fn new() -> (t: Tally)
        ensures
            t.wf(),
            t == (Tally { count: 0, correct: 0, false_positives: 0, false_negatives: 0 }),
    {
        Tally { count: 0, correct: 0, false_positives: 0, false_negatives: 0 }
    }

    /// Counts one more request.
    pub fn record(&mut self, frauds: u8, expected: bool)
        requires
            old(self).wf(),
            old(self).count < usize::MAX,
        ensures
            final(self).wf(),
            *final(self) == tallied(*old(self), frauds, expected),
            final(self).count == old(self).count + 1,
            (frauds < 3) == expected ==> final(self).correct == old(self).correct + 1,
            (frauds < 3) != expected ==> final(self).correct == old(self).correct,
            frauds >= 3 && expected ==> final(self).false_positives == old(self).false_positives
                + 1,
            !(frauds >= 3 && expected) ==> final(self).false_positives
                == old(self).false_positives,
            frauds < 3 && !expected ==> final(self).false_negatives == old(self).false_negatives
                + 1,
            !(frauds < 3 && !expected) ==> final(self).false_negatives
                == old(self).false_negatives,
    {
        let approved: bool = is_approved(frauds);
        if approved == expected {
            self.correct = self.correct + 1;
        } else if approved {
            self.false_negatives = self.false_negatives + 1;
        } else {
            self.false_positives = self.false_positives + 1;
        }
        self.count = self.count + 1;
    }

    /// Number of wrong decisions.
    pub fn errors(&self) -> (n: usize)
        requires
            self.wf(),
        ensures
            n == self.false_positives + self.false_negatives,
            n == self.count - self.correct,
    {
        self.false_positives + self.false_negatives
    }

    /// Number of wrong decisions, with a fraud that was let through counted
    /// three times.
    pub fn weighted_errors(&self) -> (n: u128)
        ensures
            n == self.false_positives + 3 * self.false_negatives,
    {
        self.false_positives as u128 + 3 * self.false_negatives as u128
    }
}

} // verus!
