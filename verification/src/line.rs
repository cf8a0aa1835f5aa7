//! One line of a hunk in a unified diff.

use vstd::prelude::*;
use vstd::string::StringExecFns;

verus! {

/// A line of a hunk: its numbers on the old and on the new side, as far as
/// it has them, its text, and the character that marks where it comes
/// from: `+`, `-` or a space.
#[derive(Debug, PartialEq, Eq)]
pub struct Line {
    pub old_lineno: Option<u32>,
    pub new_lineno: Option<u32>,
    pub content: String,
    pub origin: char,
}

impl Clone for Line {
    fn clone(&self) -> (r: Self)
        ensures
            r == *self,
    {
        Line {
            old_lineno: self.old_lineno,
            new_lineno: self.new_lineno,
            content: self.content.clone(),
            origin: self.origin,
        }
    }
}

impl Line {
    /// A line with the given numbers, text and mark.
    pub fn new(old_lineno: Option<u32>, new_lineno: Option<u32>, content: String, origin: char) -> (r:
        Line)
        ensures
            r.old_lineno == old_lineno,
            r.new_lineno == new_lineno,
            r.content == content,
            r.origin == origin,
    {
        Line { old_lineno, new_lineno, content, origin }
    }

    /// The line as it is printed: its mark, a space, and its text.
    pub open spec fn text(&self) -> Seq<char> {
        seq![self.origin, ' '] + self.content@
    }

    /// The line as it is printed.
    pub fn to_text(&self) -> (s: String)
        ensures
            s@ == self.text(),
    {
        let mut s = String::new();
        s.push(self.origin);
        s.push(' ');
        s.append(self.content.as_str());
        proof {
            assert(s@ =~= self.text());
        }
        s
    }

    /// The number that the line is shown with: that of the old side for a
    /// deleted line, else that of the new side; zero where it has none.
    pub open spec fn shown_number(&self) -> u32 {
        if self.origin == '-' {
            match self.old_lineno {
                Some(n) => n,
                None => 0,
            }
        } else {
            match self.new_lineno {
                Some(n) => n,
                None => 0,
            }
        }
    }

    /// The number that the line is shown with.
    pub fn number(&self) -> (n: u32)
        ensures
            n == self.shown_number(),
    {
        let lineno = if self.origin == '-' {
            self.old_lineno
        } else {
            self.new_lineno
        };
        match lineno {
            Some(n) => n,
            None => 0,
        }
    }
}

} // verus!
