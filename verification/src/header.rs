//! The header line of a hunk in a unified diff.

use vstd::prelude::*;
use crate::error::GitError;
use crate::text::{all_digits, chars_of, digits_value, field_of, get_field, parse_digits};

verus! {

/// The header of a hunk: its text, and the number of the first new line
/// that the hunk covers.
#[derive(Debug, PartialEq, Eq)]
pub struct Header {
    pub content: String,
    pub line: u32,
}

impl Clone for Header {
    fn clone(&self) -> (r: Self)
        ensures
            r == *self,
    {
        Header { content: self.content.clone(), line: self.line }
    }
}

/// The digits of a number written with an optional `+` in front.
pub open spec fn unsigned_digits(s: Seq<char>) -> Seq<char> {
    if s.len() > 0 && s[0] == '+' {
        s.subrange(1, s.len() as int)
    } else {
        s
    }
}

/// The number that `s` writes, where it fits 32 bits: decimal digits behind
/// an optional `+`.
pub open spec fn u32_of(s: Seq<char>) -> Option<u32> {
    if unsigned_digits(s).len() > 0 && all_digits(unsigned_digits(s)) && digits_value(
        unsigned_digits(s),
    ) <= u32::MAX {
        Some(digits_value(unsigned_digits(s)) as u32)
    } else {
        None
    }
}

/// The range of new lines that the header `raw` names: its third field,
/// the fields being what spaces separate.
pub open spec fn new_range(raw: Seq<char>) -> Option<Seq<char>> {
    field_of(raw, ' ', 2)
}

/// The number of the first new line that the header `raw` names: what
/// stands in its range of new lines before the first comma, without the
/// sign in front, which has to be a character of one byte.
pub open spec fn start_line(raw: Seq<char>) -> Option<u32> {
    match new_range(raw) {
        Some(range) => {
            let start = field_of(range, ',', 0).unwrap();
            if start.len() > 0 && (start[0] as u32) < 128 {
                u32_of(start.subrange(1, start.len() as int))
            } else {
                None
            }
        },
        None => None,
    }
}

impl Header {
    /// Reads the header of a hunk, such as `@@ -209,6 +222,33 @@ fn main`.
    ///
    /// Fails with `MalformedHeader` where the header names no first line.
    pub fn new(raw: String) -> (r: Result<Header, GitError>)
        ensures
            match start_line(raw@) {
                Some(line) => r matches Ok(header) && header.line == line && header.content == raw,
                None => r == Err::<Header, GitError>(GitError::MalformedHeader),
            },
    {
        let chars = chars_of(raw.as_str());
        let range = match get_field(&chars, ' ', 2) {
            Some(range) => range,
            None => {
                return Err(GitError::MalformedHeader);
            },
        };
        let start = match get_field(&range, ',', 0) {
            Some(start) => start,
            None => {
                return Err(GitError::MalformedHeader);
            },
        };
        if start.len() == 0 || start[0] as u32 >= 128 {
            return Err(GitError::MalformedHeader);
        }
        let ghost number = start@.subrange(1, start.len() as int);
        let from: usize = if start.len() > 1 && start[1] == '+' {
            2
        } else {
            1
        };
        proof {
            assert(start@.subrange(from as int, start.len() as int) =~= unsigned_digits(number));
        }
        match parse_digits(&start, from, start.len(), 4294967295) {
            Some(line) => Ok(Header { content: raw, line: line as u32 }),
            None => Err(GitError::MalformedHeader),
        }
    }
}

} // verus!
