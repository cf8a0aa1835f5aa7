//! Reading numbers and delimited fields out of raw bytes.

use vstd::prelude::*;
use vstd::slice::{slice_subrange, slice_to_vec};

verus! {

/// The number that the two bytes at `at` write, most significant first.
pub open spec fn be16(s: Seq<u8>, at: int) -> int {
    s[at] * 256 + s[at + 1]
}

/// The number that the four bytes at `at` write, most significant first.
pub open spec fn be32(s: Seq<u8>, at: int) -> int {
    s[at] * 16777216 + s[at + 1] * 65536 + s[at + 2] * 256 + s[at + 3]
}

/// The number that the two bytes at `at` write, most significant first.
pub fn read_be16(bytes: &[u8], at: usize) -> (r: u16)
    requires
        at + 2 <= bytes.len(),
    ensures
        r == be16(bytes@, at as int),
{
    let hi: u16 = bytes[at] as u16;
    let lo: u16 = bytes[at + 1] as u16;
    hi * 256 + lo
}

/// The number that the four bytes at `at` write, most significant first.
pub fn read_be32(bytes: &[u8], at: usize) -> (r: u32)
    requires
        at + 4 <= bytes.len(),
    ensures
        r == be32(bytes@, at as int),
{
    let b0: u32 = bytes[at] as u32;
    let b1: u32 = bytes[at + 1] as u32;
    let b2: u32 = bytes[at + 2] as u32;
    let b3: u32 = bytes[at + 3] as u32;
    b0 * 16777216 + b1 * 65536 + b2 * 256 + b3
}

/// The position of the first byte `b` in `s` at or after `from`, or the
/// length of `s` where there is none.
pub open spec fn first_byte(s: Seq<u8>, b: u8, from: int) -> int
    decreases s.len() - from,
{
    if from >= s.len() || s[from] == b {
        from
    } else {
        first_byte(s, b, from + 1)
    }
}

/// The first `b` is found at or after where the search starts, and not
/// before it.
pub proof fn lemma_first_byte(s: Seq<u8>, b: u8, from: int)
    requires
        0 <= from <= s.len(),
    ensures
        from <= first_byte(s, b, from) <= s.len(),
        first_byte(s, b, from) < s.len() ==> s[first_byte(s, b, from)] == b,
        forall|i: int| from <= i < first_byte(s, b, from) ==> s[i] != b,
    decreases s.len() - from,
{
    if from >= s.len() || s[from] == b {
    } else {
        lemma_first_byte(s, b, from + 1);
    }
}

/// The position of the first byte `b` in `bytes` at or after `from`, or the
/// length of `bytes` where there is none.
pub fn find_byte(bytes: &[u8], b: u8, from: usize) -> (r: usize)
    requires
        from <= bytes.len(),
    ensures
        r == first_byte(bytes@, b, from as int),
        from <= r <= bytes.len(),
{
    let mut at: usize = from;
    while at < bytes.len() && bytes[at] != b
        invariant
            from <= at <= bytes.len(),
            first_byte(bytes@, b, at as int) == first_byte(bytes@, b, from as int),
        decreases bytes.len() - at,
    {
        at += 1;
    }
    at
}

/// A copy of `bytes[from..to]`.
pub fn copy_range(bytes: &[u8], from: usize, to: usize) -> (v: Vec<u8>)
    requires
        from <= to <= bytes.len(),
    ensures
        v@ == bytes@.subrange(from as int, to as int),
{
    slice_to_vec(slice_subrange(bytes, from, to))
}

/// The bytes of `s` read as characters, one each.
pub open spec fn latin(s: Seq<u8>) -> Seq<char> {
    Seq::new(s.len(), |i: int| s[i] as char)
}

/// The bytes `bytes[from..to]` as characters, one each.
pub fn latin_chars(bytes: &[u8], from: usize, to: usize) -> (v: Vec<char>)
    requires
        from <= to <= bytes.len(),
    ensures
        v@ == latin(bytes@.subrange(from as int, to as int)),
{
    let mut v: Vec<char> = Vec::new();
    let mut i: usize = from;
    while i < to
        invariant
            from <= i <= to <= bytes.len(),
            v@ == latin(bytes@.subrange(from as int, i as int)),
        decreases to - i,
    {
        v.push(bytes[i] as char);
        proof {
            assert(v@ =~= latin(bytes@.subrange(from as int, i + 1)));
        }
        i += 1;
    }
    v
}

/// Whether the bytes of `s` from `at` on begin with `pattern`.
pub open spec fn holds_at(s: Seq<u8>, at: int, pattern: Seq<u8>) -> bool {
    0 <= at && at + pattern.len() <= s.len() && s.subrange(at, at + pattern.len()) == pattern
}

/// Whether `bytes` holds `pattern` at position `at`.
pub fn matches_at(bytes: &[u8], at: usize, pattern: &[u8]) -> (r: bool)
    requires
        at <= bytes.len(),
    ensures
        r == holds_at(bytes@, at as int, pattern@),
{
    if pattern.len() > bytes.len() - at {
        return false;
    }
    let ghost part = bytes@.subrange(at as int, at + pattern.len());
    let mut i: usize = 0;
    while i < pattern.len()
        invariant
            at + pattern.len() <= bytes.len(),
            0 <= i <= pattern.len(),
            part == bytes@.subrange(at as int, at + pattern.len()),
            part.subrange(0, i as int) == pattern@.subrange(0, i as int),
        decreases pattern.len() - i,
    {
        if bytes[at + i] != pattern[i] {
            proof {
                assert(part[i as int] == bytes@[at + i]);
            }
            return false;
        }
        proof {
            assert(part.subrange(0, i + 1) =~= part.subrange(0, i as int).push(part[i as int]));
            assert(pattern@.subrange(0, i + 1) =~= pattern@.subrange(0, i as int).push(
                pattern@[i as int],
            ));
        }
        i += 1;
    }
    proof {
        assert(part.subrange(0, i as int) =~= part);
        assert(pattern@.subrange(0, i as int) =~= pattern@);
    }
    true
}

} // verus!
