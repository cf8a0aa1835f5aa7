//! Content hashes in their printed form.

use vstd::prelude::*;

verus! {

/// The lower-case hexadecimal digit of a number below sixteen.
pub open spec fn hex_digit(v: int) -> char {
    if v < 10 {
        (v + 48) as char
    } else {
        (v + 87) as char
    }
}

/// The printed form of `bytes`: two lower-case hexadecimal digits for each
/// byte, the high one first.
pub open spec fn hex_of(bytes: Seq<u8>) -> Seq<char> {
    Seq::new(
        2 * bytes.len(),
        |i: int|
            if i % 2 == 0 {
                hex_digit(bytes[i / 2] as int / 16)
            } else {
                hex_digit(bytes[i / 2] as int % 16)
            },
    )
}

/// Whether `c` is a lower-case hexadecimal digit.
pub open spec fn is_hex(c: char) -> bool {
    ('0' <= c <= '9') || ('a' <= c <= 'f')
}

/// Whether `s` is the printed form of a content hash: forty lower-case
/// hexadecimal digits.
pub open spec fn is_hash(s: Seq<char>) -> bool {
    s.len() == 40 && forall|i: int| 0 <= i < 40 ==> is_hex(#[trigger] s[i])
}

/// The lower-case hexadecimal digit of a number below sixteen.
fn digit(v: u8) -> (c: char)
    requires
        v < 16,
    ensures
        c == hex_digit(v as int),
        is_hex(c),
{
    if v < 10 {
        (v + 48) as char
    } else {
        (v + 87) as char
    }
}

/// The printed form of raw hash bytes.
pub fn from_bytes(bytes: &[u8]) -> (hash: String)
    ensures
        hash@ == hex_of(bytes@),
{
    let mut hash = String::new();
    let mut i: usize = 0;
    while i < bytes.len()
        invariant
            0 <= i <= bytes.len(),
            hash@ == hex_of(bytes@.subrange(0, i as int)),
        decreases bytes.len() - i,
    {
        let b = bytes[i];
        let ghost before = hash@;
        hash.push(digit(b / 16));
        hash.push(digit(b % 16));
        proof {
            let longer = bytes@.subrange(0, i + 1);
            assert(hash@ =~= hex_of(longer)) by {
                assert(hash@.len() == 2 * longer.len());
                assert forall|j: int| 0 <= j < hash@.len() implies hash@[j] == hex_of(longer)[j] by {
                    if j < 2 * i {
                        assert(before[j] == hex_of(bytes@.subrange(0, i as int))[j]);
                    }
                }
            }
        }
        i += 1;
    }
    proof {
        assert(bytes@.subrange(0, i as int) =~= bytes@);
    }
    hash
}

/// The printed form of twenty raw bytes is that of a content hash.
pub proof fn lemma_hex_of_is_hash(bytes: Seq<u8>)
    requires
        bytes.len() == 20,
    ensures
        is_hash(hex_of(bytes)),
{
    assert forall|i: int| 0 <= i < 40 implies is_hex(#[trigger] hex_of(bytes)[i]) by {
        let b = bytes[i / 2] as int;
        assert(0 <= b / 16 < 16);
        assert(0 <= b % 16 < 16);
    }
}

} // verus!
