//! Text as characters: searching, splitting and numbers in decimal.

use vstd::prelude::*;
use vstd::utf8::{decode_utf8, valid_utf8};

verus! {

/// `String::push` of the standard library: the string grows by exactly the
/// character given, at its end.
pub assume_specification[ String::push ](s: &mut String, c: char)
    ensures
        final(s)@ == old(s)@.push(c),
;

/// `String::from_utf8` of the standard library: the bytes become a string
/// exactly when they are valid UTF-8, and the string then holds the
/// characters that they encode.
#[verifier::external_body]
pub(crate) fn string_from_utf8(bytes: Vec<u8>) -> (r: Option<String>)
    ensures
        r is Some <==> valid_utf8(bytes@),
        r matches Some(s) ==> s@ == decode_utf8(bytes@),
{
    String::from_utf8(bytes).ok()
}

/// The characters of `s`, in order.
pub fn chars_of(s: &str) -> (v: Vec<char>)
    ensures
        v@ == s@,
{
    let mut v: Vec<char> = Vec::new();
    for c in it: s.chars()
        invariant
            v@ == it.seq().take(it.index() as int),
            it.seq() == s@,
    {
        v.push(c);
    }
    v
}

/// The string that holds exactly the characters `chars[from..to]`.
pub fn string_of(chars: &Vec<char>, from: usize, to: usize) -> (s: String)
    requires
        from <= to <= chars.len(),
    ensures
        s@ == chars@.subrange(from as int, to as int),
{
    let mut s = String::new();
    let mut i: usize = from;
    while i < to
        invariant
            from <= i <= to <= chars.len(),
            s@ == chars@.subrange(from as int, i as int),
        decreases to - i,
    {
        s.push(chars[i]);
        i += 1;
    }
    s
}

/// The position of the first `c` in `s` at or after `from`, or the length
/// of `s` where there is none.
pub open spec fn first_at(s: Seq<char>, c: char, from: int) -> int
    decreases s.len() - from,
{
    if from >= s.len() || s[from] == c {
        from
    } else {
        first_at(s, c, from + 1)
    }
}

/// The first `c` is found at or after where the search starts, and not
/// before it.
pub proof fn lemma_first_at(s: Seq<char>, c: char, from: int)
    requires
        0 <= from <= s.len(),
    ensures
        from <= first_at(s, c, from) <= s.len(),
        first_at(s, c, from) < s.len() ==> s[first_at(s, c, from)] == c,
        forall|i: int| from <= i < first_at(s, c, from) ==> s[i] != c,
    decreases s.len() - from,
{
    if from >= s.len() || s[from] == c {
    } else {
        lemma_first_at(s, c, from + 1);
    }
}

/// The position of the first `c` in `chars` at or after `from`, or the
/// length of `chars` where there is none.
pub fn find_char(chars: &Vec<char>, c: char, from: usize) -> (r: usize)
    requires
        from <= chars.len(),
    ensures
        r == first_at(chars@, c, from as int),
        from <= r <= chars.len(),
{
    let mut at: usize = from;
    while at < chars.len() && chars[at] != c
        invariant
            from <= at <= chars.len(),
            first_at(chars@, c, at as int) == first_at(chars@, c, from as int),
        decreases chars.len() - at,
    {
        at += 1;
    }
    at
}

/// Whether `s` begins with `prefix`.
pub open spec fn starts_with(s: Seq<char>, prefix: Seq<char>) -> bool {
    prefix.len() <= s.len() && s.subrange(0, prefix.len() as int) == prefix
}

/// Whether `chars[from..to]` begins with the characters of `prefix`.
pub fn has_prefix(chars: &Vec<char>, from: usize, to: usize, prefix: &str) -> (r: bool)
    requires
        from <= to <= chars.len(),
    ensures
        r == starts_with(chars@.subrange(from as int, to as int), prefix@),
{
    let p = chars_of(prefix);
    if p.len() > to - from {
        return false;
    }
    let ghost part = chars@.subrange(from as int, to as int);
    let mut i: usize = 0;
    while i < p.len()
        invariant
            from <= to <= chars.len(),
            p.len() <= to - from,
            0 <= i <= p.len(),
            part == chars@.subrange(from as int, to as int),
            p@ == prefix@,
            part.subrange(0, i as int) == p@.subrange(0, i as int),
        decreases p.len() - i,
    {
        if chars[from + i] != p[i] {
            proof {
                assert(part.subrange(0, p.len() as int)[i as int] == chars@[from + i]);
                assert(part.subrange(0, p.len() as int)[i as int] != p@[i as int]);
            }
            return false;
        }
        proof {
            assert(part.subrange(0, i + 1) =~= part.subrange(0, i as int).push(part[i as int]));
            assert(p@.subrange(0, i + 1) =~= p@.subrange(0, i as int).push(p@[i as int]));
        }
        i += 1;
    }
    proof {
        assert(p@.subrange(0, i as int) =~= p@);
    }
    true
}

/// Whether `c` is one of the ten decimal digits.
pub open spec fn is_digit(c: char) -> bool {
    '0' <= c <= '9'
}

/// Whether `s` holds decimal digits only.
pub open spec fn all_digits(s: Seq<char>) -> bool {
    forall|i: int| 0 <= i < s.len() ==> is_digit(#[trigger] s[i])
}

/// The number that the decimal digits `s` write.
pub open spec fn digits_value(s: Seq<char>) -> nat
    decreases s.len(),
{
    if s.len() == 0 {
        0
    } else {
        (digits_value(s.drop_last()) * 10 + (s.last() as nat - 48)) as nat
    }
}

/// A number written with more digits is no smaller.
pub proof fn lemma_digits_value_grows(s: Seq<char>, i: int)
    requires
        all_digits(s),
        0 <= i <= s.len(),
    ensures
        digits_value(s.subrange(0, i)) <= digits_value(s),
    decreases s.len() - i,
{
    if i == s.len() {
        assert(s.subrange(0, i) =~= s);
    } else {
        lemma_digits_value_grows(s, i + 1);
        let longer = s.subrange(0, i + 1);
        assert(longer.drop_last() =~= s.subrange(0, i));
        assert(is_digit(longer.last()));
    }
}

/// The number that `chars[from..to]` writes in decimal digits: `None` where
/// the range is empty, holds anything but digits, or writes a number above
/// `limit`.
pub fn parse_digits(chars: &Vec<char>, from: usize, to: usize, limit: u64) -> (r: Option<u64>)
    requires
        from <= to <= chars.len(),
    ensures
        r is Some <==> from < to && all_digits(chars@.subrange(from as int, to as int))
            && digits_value(chars@.subrange(from as int, to as int)) <= limit,
        r matches Some(v) ==> v == digits_value(chars@.subrange(from as int, to as int)),
{
    if from == to {
        return None;
    }
    let ghost part = chars@.subrange(from as int, to as int);
    let mut value: u64 = 0;
    let mut i: usize = from;
    while i < to
        invariant
            from <= i <= to <= chars.len(),
            part == chars@.subrange(from as int, to as int),
            all_digits(part.subrange(0, i - from)),
            value == digits_value(part.subrange(0, i - from)),
            value <= limit,
        decreases to - i,
    {
        let c = chars[i];
        if !(c >= '0' && c <= '9') {
            proof {
                assert(part[i - from] == c);
            }
            return None;
        }
        let digit: u64 = (c as u32 - 48) as u64;
        proof {
            let longer = part.subrange(0, i - from + 1);
            assert(longer.drop_last() =~= part.subrange(0, i - from));
            assert(longer.last() == c);
            assert(all_digits(longer));
            if value > (limit - digit) / 10 {
                if all_digits(part) {
                    lemma_digits_value_grows(part, i - from + 1);
                }
            }
        }
        if digit > limit || value > (limit - digit) / 10 {
            return None;
        }
        value = value * 10 + digit;
        i += 1;
    }
    proof {
        assert(part.subrange(0, i - from) =~= part);
    }
    Some(value)
}

/// A copy of `chars[from..to]`.
pub fn sub_chars(chars: &Vec<char>, from: usize, to: usize) -> (v: Vec<char>)
    requires
        from <= to <= chars.len(),
    ensures
        v@ == chars@.subrange(from as int, to as int),
{
    let mut v: Vec<char> = Vec::new();
    let mut i: usize = from;
    while i < to
        invariant
            from <= i <= to <= chars.len(),
            v@ == chars@.subrange(from as int, i as int),
        decreases to - i,
    {
        v.push(chars[i]);
        proof {
            assert(v@ =~= chars@.subrange(from as int, i + 1));
        }
        i += 1;
    }
    v
}

/// Where field number `n` of `s` begins, counting from `from` and from
/// zero, the fields being what `sep` separates; `None` where `s` has fewer
/// fields.
pub open spec fn field_start(s: Seq<char>, sep: char, n: nat, from: int) -> Option<int>
    decreases n,
{
    if n == 0 {
        Some(from)
    } else if first_at(s, sep, from) >= s.len() {
        None
    } else {
        field_start(s, sep, (n - 1) as nat, first_at(s, sep, from) + 1)
    }
}

/// Field number `n` of `s`, the fields being what `sep` separates.
pub open spec fn field_of(s: Seq<char>, sep: char, n: nat) -> Option<Seq<char>> {
    match field_start(s, sep, n, 0) {
        Some(begin) => Some(s.subrange(begin, first_at(s, sep, begin))),
        None => None,
    }
}

/// Field number `n` of `chars`, the fields being what `sep` separates.
pub fn get_field(chars: &Vec<char>, sep: char, n: usize) -> (r: Option<Vec<char>>)
    ensures
        match field_of(chars@, sep, n as nat) {
            Some(f) => r matches Some(v) && v@ == f,
            None => r is None,
        },
{
    let mut begin: usize = 0;
    let mut left: usize = n;
    while left > 0
        invariant
            0 <= begin <= chars.len(),
            field_start(chars@, sep, n as nat, 0) == field_start(
                chars@,
                sep,
                left as nat,
                begin as int,
            ),
        decreases left,
    {
        let end = find_char(chars, sep, begin);
        if end >= chars.len() {
            return None;
        }
        begin = end + 1;
        left -= 1;
    }
    let end = find_char(chars, sep, begin);
    Some(sub_chars(chars, begin, end))
}

/// The number that `s` writes in decimal digits behind an optional sign.
pub open spec fn signed_value(s: Seq<char>) -> Option<int> {
    if s.len() > 0 && (s[0] == '-' || s[0] == '+') {
        if s.len() > 1 && all_digits(s.subrange(1, s.len() as int)) {
            Some(
                if s[0] == '-' {
                    -(digits_value(s.subrange(1, s.len() as int)) as int)
                } else {
                    digits_value(s.subrange(1, s.len() as int)) as int
                },
            )
        } else {
            None
        }
    } else if s.len() > 0 && all_digits(s) {
        Some(digits_value(s) as int)
    } else {
        None
    }
}

/// The number that `s` writes, where it fits 64 bits with a sign.
pub open spec fn i64_of(s: Seq<char>) -> Option<i64> {
    match signed_value(s) {
        Some(v) => if i64::MIN <= v <= i64::MAX {
            Some(v as i64)
        } else {
            None
        },
        None => None,
    }
}

/// The number that `chars` writes in decimal digits behind an optional
/// sign, where it fits 64 bits with a sign.
pub fn parse_i64(chars: &Vec<char>) -> (r: Option<i64>)
    ensures
        r == i64_of(chars@),
{
    if chars.len() == 0 {
        return None;
    }
    if chars[0] == '-' {
        match parse_digits(chars, 1, chars.len(), 9223372036854775808) {
            Some(v) => if v == 9223372036854775808 {
                Some(i64::MIN)
            } else {
                Some(-(v as i64))
            },
            None => None,
        }
    } else if chars[0] == '+' {
        match parse_digits(chars, 1, chars.len(), 9223372036854775807) {
            Some(v) => Some(v as i64),
            None => None,
        }
    } else {
        proof {
            assert(chars@.subrange(0, chars.len() as int) =~= chars@);
        }
        match parse_digits(chars, 0, chars.len(), 9223372036854775807) {
            Some(v) => Some(v as i64),
            None => None,
        }
    }
}

/// The lines `lines[from..]` with a line feed between each two.
pub open spec fn join_lines(lines: Seq<Seq<char>>, from: int) -> Seq<char>
    decreases lines.len() - from,
{
    if from < 0 || from >= lines.len() {
        Seq::empty()
    } else if from == lines.len() - 1 {
        lines[from]
    } else {
        lines[from] + seq!['\n'] + join_lines(lines, from + 1)
    }
}

/// Appends the characters of `chars` to `s`.
pub fn push_chars(s: &mut String, chars: &Vec<char>)
    ensures
        final(s)@ == old(s)@ + chars@,
{
    let ghost head = s@;
    let mut i: usize = 0;
    while i < chars.len()
        invariant
            0 <= i <= chars.len(),
            s@ == head + chars@.subrange(0, i as int),
        decreases chars.len() - i,
    {
        s.push(chars[i]);
        proof {
            assert(s@ =~= head + chars@.subrange(0, i + 1));
        }
        i += 1;
    }
    proof {
        assert(chars@.subrange(0, i as int) =~= chars@);
    }
}

/// The lower-case form of the text `s`, as the standard library's Unicode
/// tables give it.
pub uninterp spec fn lowercase_of(s: Seq<char>) -> Seq<char>;

/// `str::to_lowercase` of the standard library. The contract only names
/// what it returns.
#[verifier::external_body]
pub(crate) fn to_lowercase(s: &str) -> (r: String)
    ensures
        r@ == lowercase_of(s@),
{
    s.to_lowercase()
}

/// Whether `needle` occurs in `hay` at position `at`.
pub open spec fn occurs_at(hay: Seq<char>, needle: Seq<char>, at: int) -> bool {
    0 <= at && at + needle.len() <= hay.len() && hay.subrange(at, at + needle.len()) == needle
}

/// Whether `needle` occurs somewhere in `hay`.
pub open spec fn occurs_in(hay: Seq<char>, needle: Seq<char>) -> bool {
    exists|at: int| occurs_at(hay, needle, at)
}

/// Whether `needle` occurs in `hay` at position `at`.
fn found_at(hay: &Vec<char>, needle: &Vec<char>, at: usize) -> (r: bool)
    requires
        at <= hay.len(),
        needle.len() <= hay.len() - at,
    ensures
        r == occurs_at(hay@, needle@, at as int),
{
    let ghost part = hay@.subrange(at as int, at + needle.len());
    let mut i: usize = 0;
    while i < needle.len()
        invariant
            at + needle.len() <= hay.len(),
            0 <= i <= needle.len(),
            part == hay@.subrange(at as int, at + needle.len()),
            part.subrange(0, i as int) == needle@.subrange(0, i as int),
        decreases needle.len() - i,
    {
        if hay[at + i] != needle[i] {
            proof {
                assert(part[i as int] == hay@[at + i]);
            }
            return false;
        }
        proof {
            assert(part.subrange(0, i + 1) =~= part.subrange(0, i as int).push(part[i as int]));
            assert(needle@.subrange(0, i + 1) =~= needle@.subrange(0, i as int).push(
                needle@[i as int],
            ));
        }
        i += 1;
    }
    proof {
        assert(part.subrange(0, i as int) =~= part);
        assert(needle@.subrange(0, i as int) =~= needle@);
    }
    true
}

/// Whether `needle` occurs somewhere in `hay`.
pub fn contains_chars(hay: &Vec<char>, needle: &Vec<char>) -> (r: bool)
    ensures
        r == occurs_in(hay@, needle@),
{
    if needle.len() > hay.len() {
        return false;
    }
    let last: usize = hay.len() - needle.len();
    let mut at: usize = 0;
    while at < last
        invariant
            needle.len() <= hay.len(),
            last == hay.len() - needle.len(),
            0 <= at <= last,
            forall|j: int| 0 <= j < at ==> !occurs_at(hay@, needle@, j),
        decreases last - at,
    {
        if found_at(hay, needle, at) {
            return true;
        }
        at += 1;
    }
    found_at(hay, needle, last)
}

/// The decimal digit of a number below ten.
pub open spec fn digit_char(v: nat) -> char {
    (v + 48) as char
}

/// The number `n` written in decimal digits, without leading zeros.
pub open spec fn decimal_of(n: nat) -> Seq<char>
    decreases n,
{
    if n < 10 {
        seq![digit_char(n)]
    } else {
        decimal_of(n / 10).push(digit_char(n % 10))
    }
}

/// Reading what was written gives the number back.
pub proof fn lemma_decimal_round_trip(n: nat)
    ensures
        decimal_of(n).len() > 0,
        all_digits(decimal_of(n)),
        digits_value(decimal_of(n)) == n,
    decreases n,
{
    if n < 10 {
        let s = decimal_of(n);
        assert(s.drop_last() =~= Seq::<char>::empty());
        assert(digits_value(s.drop_last()) == 0);
    } else {
        lemma_decimal_round_trip(n / 10);
        let s = decimal_of(n);
        assert(s.drop_last() =~= decimal_of(n / 10));
        assert forall|i: int| 0 <= i < s.len() implies is_digit(#[trigger] s[i]) by {
            if i < s.len() - 1 {
                assert(s[i] == decimal_of(n / 10)[i]);
            }
        }
    }
}

/// The number `n` written in decimal digits.
pub fn decimal(n: u64) -> (v: Vec<char>)
    ensures
        v@ == decimal_of(n as nat),
    decreases n,
{
    let last = ((n % 10) as u8 + 48) as char;
    if n < 10 {
        let mut v: Vec<char> = Vec::new();
        v.push(last);
        proof {
            assert(v@ =~= decimal_of(n as nat));
        }
        v
    } else {
        let mut v = decimal(n / 10);
        v.push(last);
        v
    }
}

/// `s` with spaces in front until it is `width` characters long; `s` itself
/// where it is as long already.
pub open spec fn padded(s: Seq<char>, width: int) -> Seq<char> {
    if s.len() >= width {
        s
    } else {
        Seq::new((width - s.len()) as nat, |i: int| ' ') + s
    }
}

/// Appends `chars` to `s`, behind the spaces that bring it to `width`
/// characters.
pub fn push_padded(s: &mut String, chars: &Vec<char>, width: usize)
    ensures
        final(s)@ == old(s)@ + padded(chars@, width as int),
{
    let ghost head = s@;
    let mut have: usize = chars.len();
    while have < width
        invariant
            chars.len() <= have,
            have <= width || have == chars.len(),
            s@ == head + Seq::new((have - chars.len()) as nat, |i: int| ' '),
        decreases width - have,
    {
        s.push(' ');
        proof {
            assert(s@ =~= head + Seq::new((have + 1 - chars.len()) as nat, |i: int| ' '));
        }
        have += 1;
    }
    let ghost spaces = s@;
    push_chars(s, chars);
    proof {
        if chars.len() >= width {
            assert(spaces =~= head);
        }
        assert(s@ =~= head + padded(chars@, width as int));
    }
}

} // verus!
