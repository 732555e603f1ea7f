//! Byte strings and little-endian numbers.

use vstd::prelude::*;

verus! {

/// Compares two byte strings.
pub fn same_bytes(a: &[u8], b: &[u8]) -> (r: bool)
    ensures
        r == (a@ == b@),
{
    if a.len() != b.len() {
        return false;
    }
    let mut i: usize = 0;
    while i < a.len()
        invariant
            i <= a@.len(),
            a@.len() == b@.len(),
            forall|k: int| 0 <= k < i ==> a@[k] == b@[k],
        decreases a@.len() - i,
    {
        if a[i] != b[i] {
            assert(a@[i as int] != b@[i as int]);
            return false;
        }
        i = i + 1;
    }
    assert(a@ =~= b@);
    true
}

/// Whether `s` holds `part` at `at`.
pub open spec fn holds_at(s: Seq<u8>, part: Seq<u8>, at: int) -> bool {
    0 <= at <= at + part.len() <= s.len() && s.subrange(at, at + part.len()) == part
}

/// Tests whether `s` holds `part` at `at`.
pub fn part_at(s: &[u8], part: &[u8], at: usize) -> (r: bool)
    ensures
        r == holds_at(s@, part@, at as int),
{
    if at > s.len() || s.len() - at < part.len() {
        return false;
    }
    same_bytes(&s[at..at + part.len()], part)
}

/// Where `part` first stands in `s`, at `from` or behind.
pub open spec fn find_from(s: Seq<u8>, part: Seq<u8>, from: int) -> Option<int>
    decreases s.len() + 1 - from,
{
    if from + part.len() > s.len() {
        None
    } else if holds_at(s, part, from) {
        Some(from)
    } else {
        find_from(s, part, from + 1)
    }
}

/// Finds where `part` first stands in `s`, at `from` or behind.
pub fn find_part(s: &[u8], part: &[u8], from: usize) -> (r: Option<usize>)
    ensures
        r is Some <==> find_from(s@, part@, from as int) is Some,
        r matches Some(i) ==> find_from(s@, part@, from as int) == Some(i as int),
{
    if s.len() < part.len() {
        return None;
    }
    let last: usize = s.len() - part.len();
    let mut i: usize = from;
    while i <= last
        invariant
            from <= i,
            last + part@.len() == s@.len(),
            s@.len() == s.len(),
            find_from(s@, part@, from as int) == find_from(s@, part@, i as int),
        decreases s@.len() + 1 - i,
    {
        if part_at(s, part, i) {
            return Some(i);
        }
        if i == last {
            assert(find_from(s@, part@, i + 1) is None);
            return None;
        }
        i = i + 1;
    }
    None
}

/// What it means that `part` was found.
pub proof fn lemma_find_from(s: Seq<u8>, part: Seq<u8>, from: int)
    requires
        0 <= from,
    ensures
        match find_from(s, part, from) {
            Some(i) => {
                &&& from <= i
                &&& holds_at(s, part, i)
                &&& forall|k: int| from <= k < i ==> !#[trigger] holds_at(s, part, k)
            },
            None => forall|k: int| from <= k ==> !#[trigger] holds_at(s, part, k),
        },
    decreases s.len() + 1 - from,
{
    if from + part.len() <= s.len() && !holds_at(s, part, from) {
        lemma_find_from(s, part, from + 1);
    }
}

/// The first place is the one found.
pub proof fn lemma_found_first(s: Seq<u8>, part: Seq<u8>, from: int, i: int)
    requires
        0 <= from <= i,
        holds_at(s, part, i),
        forall|k: int| from <= k < i ==> !#[trigger] holds_at(s, part, k),
    ensures
        find_from(s, part, from) == Some(i),
    decreases i - from,
{
    if from < i {
        lemma_found_first(s, part, from + 1, i);
    }
}

/// The lower-case form of an ASCII letter; any other byte as it is.
pub open spec fn ascii_lower(b: u8) -> u8 {
    if 0x41 <= b <= 0x5a {
        (b + 0x20) as u8
    } else {
        b
    }
}

/// Whether two byte strings are equal but for the case of their letters.
pub open spec fn same_letters(a: Seq<u8>, b: Seq<u8>) -> bool {
    a.len() == b.len() && forall|i: int|
        0 <= i < a.len() ==> ascii_lower(#[trigger] a[i]) == ascii_lower(b[i])
}

/// Two byte strings are equal but for case if each two bytes are equal, or are
/// the two forms of one letter.
pub proof fn lemma_same_letters(a: Seq<u8>, b: Seq<u8>)
    ensures
        same_letters(a, b) <==> a.len() == b.len() && forall|i: int|
            0 <= i < a.len() ==> {
                ||| #[trigger] a[i] == b[i]
                ||| 0x41 <= a[i] <= 0x5a && b[i] == a[i] + 0x20
                ||| 0x41 <= b[i] <= 0x5a && a[i] == b[i] + 0x20
            },
{
    if same_letters(a, b) {
        assert forall|i: int| 0 <= i < a.len() implies {
            ||| #[trigger] a[i] == b[i]
            ||| 0x41 <= a[i] <= 0x5a && b[i] == a[i] + 0x20
            ||| 0x41 <= b[i] <= 0x5a && a[i] == b[i] + 0x20
        } by {
            assert(ascii_lower(a[i]) == ascii_lower(b[i]));
        }
    }
}

fn lower(b: u8) -> (r: u8)
    ensures
        r == ascii_lower(b),
{
    if b >= 0x41 && b <= 0x5a {
        b + 0x20
    } else {
        b
    }
}

/// Compares two byte strings without regard to the case of their letters.
pub fn eq_ascii_case(a: &[u8], b: &[u8]) -> (r: bool)
    ensures
        r == same_letters(a@, b@),
        r <==> a@.len() == b@.len() && forall|i: int|
            0 <= i < a@.len() ==> {
                ||| #[trigger] a@[i] == b@[i]
                ||| 0x41 <= a@[i] <= 0x5a && b@[i] == a@[i] + 0x20
                ||| 0x41 <= b@[i] <= 0x5a && a@[i] == b@[i] + 0x20
            },
{
    proof {
        lemma_same_letters(a@, b@);
    }
    if a.len() != b.len() {
        return false;
    }
    let mut i: usize = 0;
    while i < a.len()
        invariant
            i <= a@.len(),
            a@.len() == b@.len(),
            forall|k: int| 0 <= k < i ==> ascii_lower(#[trigger] a@[k]) == ascii_lower(b@[k]),
        decreases a@.len() - i,
    {
        if lower(a[i]) != lower(b[i]) {
            assert(ascii_lower(a@[i as int]) != ascii_lower(b@[i as int]));
            return false;
        }
        i = i + 1;
    }
    true
}

// ---------------------------------------------------------------------------
// Numbers
// ---------------------------------------------------------------------------

/// The 16-bit number at `at`, least significant byte first.
pub open spec fn le_u16(s: Seq<u8>, at: int) -> int {
    s[at] + 0x100 * s[at + 1]
}

/// The signed 16-bit number at `at`, in two's complement.
pub open spec fn le_i16(s: Seq<u8>, at: int) -> int {
    if le_u16(s, at) >= 0x8000 {
        le_u16(s, at) - 0x1_0000
    } else {
        le_u16(s, at)
    }
}

/// The 32-bit number at `at`, least significant byte first.
pub open spec fn le_u32(s: Seq<u8>, at: int) -> int {
    le_u16(s, at) + 0x1_0000 * le_u16(s, at + 2)
}

/// The signed 32-bit number at `at`, in two's complement.
pub open spec fn le_i32(s: Seq<u8>, at: int) -> int {
    if le_u32(s, at) >= 0x8000_0000 {
        le_u32(s, at) - 0x1_0000_0000
    } else {
        le_u32(s, at)
    }
}

/// Reads a 16-bit number.
pub fn read_u16(s: &[u8], at: usize) -> (r: u16)
    requires
        at + 2 <= s@.len(),
    ensures
        r == le_u16(s@, at as int),
        r == s@[at as int] + 256 * s@[at + 1],
{
    s[at] as u16 + 0x100 * s[at + 1] as u16
}

/// Reads a signed 16-bit number.
pub fn read_i16(s: &[u8], at: usize) -> (r: i16)
    requires
        at + 2 <= s@.len(),
    ensures
        r == le_i16(s@, at as int),
        s@[at + 1] < 128 ==> r == s@[at as int] + 256 * s@[at + 1],
        s@[at + 1] >= 128 ==> r == s@[at as int] + 256 * s@[at + 1] - 65536,
{
    let u: u16 = read_u16(s, at);
    if u >= 0x8000 {
        (u as i32 - 0x1_0000) as i16
    } else {
        u as i16
    }
}

/// Reads a 32-bit number.
pub fn read_u32(s: &[u8], at: usize) -> (r: u32)
    requires
        at + 4 <= s@.len(),
    ensures
        r == le_u32(s@, at as int),
        r == s@[at as int] + 256 * s@[at + 1] + 65536 * s@[at + 2] + 16777216 * s@[at + 3],
{
    assert(at + 4 <= s.len());
    read_u16(s, at) as u32 + 0x1_0000 * read_u16(s, at + 2) as u32
}

/// Reads a signed 32-bit number.
pub fn read_i32(s: &[u8], at: usize) -> (r: i32)
    requires
        at + 4 <= s@.len(),
    ensures
        r == le_i32(s@, at as int),
        s@[at + 3] < 128 ==> r == s@[at as int] + 256 * s@[at + 1] + 65536 * s@[at + 2] + 16777216
            * s@[at + 3],
        s@[at + 3] >= 128 ==> r == s@[at as int] + 256 * s@[at + 1] + 65536 * s@[at + 2] + 16777216
            * s@[at + 3] - 4294967296,
{
    let u: u32 = read_u32(s, at);
    if u >= 0x8000_0000 {
        (u as i64 - 0x1_0000_0000) as i32
    } else {
        u as i32
    }
}

/// The two bytes of a 16-bit number.
pub open spec fn u16_bytes(x: int) -> Seq<u8> {
    seq![(x % 0x100) as u8, (x / 0x100) as u8]
}

/// The two bytes of a signed 16-bit number.
pub open spec fn i16_bytes(x: int) -> Seq<u8> {
    u16_bytes(
        if x < 0 {
            x + 0x1_0000
        } else {
            x
        },
    )
}

/// The four bytes of a 32-bit number.
pub open spec fn u32_bytes(x: int) -> Seq<u8> {
    u16_bytes(x % 0x1_0000) + u16_bytes(x / 0x1_0000)
}

/// The four bytes of a signed 32-bit number.
pub open spec fn i32_bytes(x: int) -> Seq<u8> {
    u32_bytes(
        if x < 0 {
            x + 0x1_0000_0000
        } else {
            x
        },
    )
}

/// Appends a 16-bit number.
pub fn write_u16(out: &mut Vec<u8>, x: u16)
    ensures
        final(out)@ == old(out)@ + u16_bytes(x as int),
{
    out.push((x % 0x100) as u8);
    out.push((x / 0x100) as u8);
    assert(out@ =~= old(out)@ + u16_bytes(x as int));
}

/// Appends a signed 16-bit number.
pub fn write_i16(out: &mut Vec<u8>, x: i16)
    ensures
        final(out)@ == old(out)@ + i16_bytes(x as int),
{
    if x < 0 {
        write_u16(out, (x as i32 + 0x1_0000) as u16);
    } else {
        write_u16(out, x as u16);
    }
}

/// Appends a 32-bit number.
pub fn write_u32(out: &mut Vec<u8>, x: u32)
    ensures
        final(out)@ == old(out)@ + u32_bytes(x as int),
{
    write_u16(out, (x % 0x1_0000) as u16);
    write_u16(out, (x / 0x1_0000) as u16);
    assert(out@ =~= old(out)@ + u32_bytes(x as int));
}

/// Appends a signed 32-bit number.
pub fn write_i32(out: &mut Vec<u8>, x: i32)
    ensures
        final(out)@ == old(out)@ + i32_bytes(x as int),
{
    if x < 0 {
        write_u32(out, (x as i64 + 0x1_0000_0000) as u32);
    } else {
        write_u32(out, x as u32);
    }
}

/// Appends a byte string.
pub fn write_bytes(out: &mut Vec<u8>, s: &[u8])
    ensures
        final(out)@ == old(out)@ + s@,
{
    let mut i: usize = 0;
    while i < s.len()
        invariant
            i <= s@.len(),
            out@ == old(out)@ + s@.take(i as int),
        decreases s@.len() - i,
    {
        out.push(s[i]);
        i = i + 1;
        assert(out@ =~= old(out)@ + s@.take(i as int));
    }
    assert(s@.take(i as int) =~= s@);
}

/// Copies a byte string.
pub fn copy_bytes(s: &[u8]) -> (r: Vec<u8>)
    ensures
        r@ == s@,
{
    let mut out: Vec<u8> = Vec::new();
    write_bytes(&mut out, s);
    assert(out@ =~= s@);
    out
}

/// Reading an encoded 16-bit number gives it back, wherever it stands.
pub proof fn lemma_read_u16(s: Seq<u8>, at: int, x: int)
    requires
        0 <= x < 0x1_0000,
        holds_at(s, u16_bytes(x), at),
    ensures
        le_u16(s, at) == x,
{
    assert(s[at] == s.subrange(at, at + 2)[0]);
    assert(s[at + 1] == s.subrange(at, at + 2)[1]);
}

/// Reading an encoded signed 16-bit number gives it back, wherever it stands.
pub proof fn lemma_read_i16(s: Seq<u8>, at: int, x: int)
    requires
        -0x8000 <= x < 0x8000,
        holds_at(s, i16_bytes(x), at),
    ensures
        le_i16(s, at) == x,
{
    lemma_read_u16(
        s,
        at,
        if x < 0 {
            x + 0x1_0000
        } else {
            x
        },
    );
}

/// Reading an encoded 32-bit number gives it back, wherever it stands.
pub proof fn lemma_read_u32(s: Seq<u8>, at: int, x: int)
    requires
        0 <= x < 0x1_0000_0000,
        holds_at(s, u32_bytes(x), at),
    ensures
        le_u32(s, at) == x,
{
    let b = u32_bytes(x);
    assert(s.subrange(at, at + 2) =~= s.subrange(at, at + 4).subrange(0, 2));
    assert(s.subrange(at + 2, at + 4) =~= s.subrange(at, at + 4).subrange(2, 4));
    assert(b.subrange(0, 2) =~= u16_bytes(x % 0x1_0000));
    assert(b.subrange(2, 4) =~= u16_bytes(x / 0x1_0000));
    lemma_read_u16(s, at, x % 0x1_0000);
    lemma_read_u16(s, at + 2, x / 0x1_0000);
}

/// Reading an encoded signed 32-bit number gives it back, wherever it stands.
pub proof fn lemma_read_i32(s: Seq<u8>, at: int, x: int)
    requires
        -0x8000_0000 <= x < 0x8000_0000,
        holds_at(s, i32_bytes(x), at),
    ensures
        le_i32(s, at) == x,
{
    lemma_read_u32(
        s,
        at,
        if x < 0 {
            x + 0x1_0000_0000
        } else {
            x
        },
    );
}

} // verus!
