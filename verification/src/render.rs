//! Diffs and statistics as text, for a viewer to lay out.

use vstd::prelude::*;
use vstd::string::StringExecFns;
use crate::diff::{number_text, shown_text, tag_of, Diff, DiffEdit, DiffLine, EditType};
use crate::text::{chars_of, decimal, decimal_of, padded, push_chars, push_padded, string_of};

verus! {

/// The texts that `row` gives for `edits[from..to]`, one behind the other.
pub open spec fn rows_text(
    edits: Seq<DiffEdit>,
    from: int,
    to: int,
    row: spec_fn(DiffEdit) -> Seq<char>,
) -> Seq<char>
    decreases to - from,
{
    if from >= to || from < 0 || to > edits.len() {
        Seq::empty()
    } else {
        rows_text(edits, from, to - 1, row) + row(edits[to - 1])
    }
}

/// The end of the window `start..end` on `len` rows.
pub open spec fn window_end(len: int, end: int) -> int {
    if end < len {
        end
    } else {
        len
    }
}

/// The number of a line that may be missing: zero where it is.
pub open spec fn number_or_zero(line: Option<DiffLine>) -> nat {
    match line {
        Some(l) => l.number as nat,
        None => 0,
    }
}

/// The largest number among the old lines of the first `n` edits, or among
/// their new lines; at least 1.
pub open spec fn largest_number(edits: Seq<DiffEdit>, new_side: bool, n: nat) -> nat
    decreases n,
{
    if n == 0 || n > edits.len() {
        1
    } else {
        let rest = largest_number(edits, new_side, (n - 1) as nat);
        let last = number_or_zero(
            if new_side {
                edits[n - 1].b_line
            } else {
                edits[n - 1].a_line
            },
        );
        if last > rest {
            last
        } else {
            rest
        }
    }
}

/// How wide the column of old line numbers is, or that of new ones: as
/// wide as the largest of the numbers.
pub open spec fn number_width(edits: Seq<DiffEdit>, new_side: bool) -> int {
    decimal_of(largest_number(edits, new_side, edits.len())).len() as int
}

/// The row of line numbers of one edit: the old number and the new one,
/// each aligned to the right in its column, with a space between.
pub open spec fn number_row(edits: Seq<DiffEdit>) -> spec_fn(DiffEdit) -> Seq<char> {
    |edit: DiffEdit|
        padded(number_text(edit.a_line), number_width(edits, false)) + seq![' '] + padded(
            number_text(edit.b_line),
            number_width(edits, true),
        ) + seq!['\n']
}

/// The row of marks of one edit.
pub open spec fn tag_row() -> spec_fn(DiffEdit) -> Seq<char> {
    |edit: DiffEdit| tag_of(edit.typ) + seq!['\n']
}

/// The row of code of one edit: its mark and its text.
pub open spec fn code_row() -> spec_fn(DiffEdit) -> Seq<char> {
    |edit: DiffEdit| tag_of(edit.typ) + shown_text(edit) + seq!['\n']
}

/// How wide the column of old line numbers is, or that of new ones.
fn width_of(edits: &Vec<DiffEdit>, new_side: bool) -> (w: usize)
    ensures
        w == number_width(edits@, new_side),
{
    let mut largest: usize = 1;
    let mut i: usize = 0;
    while i < edits.len()
        invariant
            0 <= i <= edits.len(),
            largest == largest_number(edits@, new_side, i as nat),
        decreases edits.len() - i,
    {
        let line = if new_side {
            &edits[i].b_line
        } else {
            &edits[i].a_line
        };
        let number = match line {
            Some(l) => l.number,
            None => 0,
        };
        if number > largest {
            largest = number;
        }
        i += 1;
    }
    decimal(largest as u64).len()
}

/// The number of a line that may be missing: a space where it is.
fn number_chars(line: &Option<DiffLine>) -> (v: Vec<char>)
    ensures
        v@ == number_text(*line),
{
    match line {
        Some(l) => decimal(l.number as u64),
        None => {
            let mut v: Vec<char> = Vec::new();
            v.push(' ');
            proof {
                assert(v@ =~= seq![' ']);
            }
            v
        },
    }
}

/// The window `start..end` cut to `len` rows: its first row and the row
/// behind its last.
fn clamp(len: usize, start: usize, end: usize) -> (r: (usize, usize))
    ensures
        r.1 == window_end(len as int, end as int),
        r.0 <= r.1 <= len,
        start <= r.1 ==> r.0 == start,
        start > r.1 ==> r.0 == r.1,
{
    let stop = if end < len {
        end
    } else {
        len
    };
    if start <= stop {
        (start, stop)
    } else {
        (stop, stop)
    }
}

/// The line numbers of the edits `start..end` of `diff`, a row for each
/// edit; the window ends with the edits at the latest.
pub fn line_numbers(diff: &Diff, start: usize, end: usize) -> (s: String)
    ensures
        s@ == rows_text(
            diff.edits@,
            start as int,
            window_end(diff.edits.len() as int, end as int),
            number_row(diff.edits@),
        ),
{
    let old_width = width_of(&diff.edits, false);
    let new_width = width_of(&diff.edits, true);
    let (first, stop) = clamp(diff.edits.len(), start, end);
    let ghost row = number_row(diff.edits@);
    let mut s = String::new();
    let mut i: usize = first;
    proof {
        assert(s@ =~= Seq::<char>::empty());
    }
    while i < stop
        invariant
            first <= i <= stop <= diff.edits.len(),
            row == number_row(diff.edits@),
            old_width == number_width(diff.edits@, false),
            new_width == number_width(diff.edits@, true),
            s@ == rows_text(diff.edits@, first as int, i as int, row),
        decreases stop - i,
    {
        let ghost before = s@;
        push_padded(&mut s, &number_chars(&diff.edits[i].a_line), old_width);
        s.push(' ');
        push_padded(&mut s, &number_chars(&diff.edits[i].b_line), new_width);
        s.push('\n');
        proof {
            assert(s@ =~= before + row(diff.edits@[i as int]));
        }
        i += 1;
    }
    s
}

/// The marks of the edits `start..end` of `diff`, a row for each edit.
pub fn tags(diff: &Diff, start: usize, end: usize) -> (s: String)
    ensures
        s@ == rows_text(
            diff.edits@,
            start as int,
            window_end(diff.edits.len() as int, end as int),
            tag_row(),
        ),
{
    let (first, stop) = clamp(diff.edits.len(), start, end);
    let ghost row = tag_row();
    let mut s = String::new();
    let mut i: usize = first;
    proof {
        assert(s@ =~= Seq::<char>::empty());
    }
    while i < stop
        invariant
            first <= i <= stop <= diff.edits.len(),
            row == tag_row(),
            s@ == rows_text(diff.edits@, first as int, i as int, row),
        decreases stop - i,
    {
        let ghost before = s@;
        s.append(diff.edits[i].typ.get_tag().as_str());
        s.push('\n');
        proof {
            assert(s@ =~= before + row(diff.edits@[i as int]));
        }
        i += 1;
    }
    s
}

/// The code of the edits `start..end` of `diff`, a row for each edit: its
/// mark and the text of its line.
pub fn code(diff: &Diff, start: usize, end: usize) -> (s: String)
    ensures
        s@ == rows_text(
            diff.edits@,
            start as int,
            window_end(diff.edits.len() as int, end as int),
            code_row(),
        ),
{
    let (first, stop) = clamp(diff.edits.len(), start, end);
    let ghost row = code_row();
    let mut s = String::new();
    let mut i: usize = first;
    proof {
        assert(s@ =~= Seq::<char>::empty());
    }
    while i < stop
        invariant
            first <= i <= stop <= diff.edits.len(),
            row == code_row(),
            s@ == rows_text(diff.edits@, first as int, i as int, row),
        decreases stop - i,
    {
        let ghost before = s@;
        let edit = &diff.edits[i];
        s.append(edit.typ.get_tag().as_str());
        match &edit.a_line {
            Some(l) => s.append(l.text.as_str()),
            None => match &edit.b_line {
                Some(l) => s.append(l.text.as_str()),
                None => {},
            },
        }
        s.push('\n');
        proof {
            assert(s@ =~= before + row(diff.edits@[i as int]));
        }
        i += 1;
    }
    s
}

/// The kind of edit that a row of code shows, by its mark: an insertion
/// for `+`, a deletion for `-`, an unchanged line otherwise.
pub open spec fn kind_of_row(row: Seq<char>) -> EditType {
    if row.len() > 0 && row[0] == '+' {
        EditType::Ins
    } else if row.len() > 0 && row[0] == '-' {
        EditType::Del
    } else {
        EditType::Eql
    }
}

/// The text of a row of code, without its mark.
pub open spec fn text_of_row(row: Seq<char>) -> Seq<char> {
    if row.len() > 0 {
        row.subrange(1, row.len() as int)
    } else {
        row
    }
}

/// Takes a row of code apart: the kind of edit that its mark stands for,
/// and its text.
pub fn split_row(row: &str) -> (r: (EditType, String))
    ensures
        r.0 == kind_of_row(row@),
        r.1@ == text_of_row(row@),
{
    let chars = chars_of(row);
    if chars.len() == 0 {
        return (EditType::Eql, String::new());
    }
    let kind = if chars[0] == '+' {
        EditType::Ins
    } else if chars[0] == '-' {
        EditType::Del
    } else {
        EditType::Eql
    };
    (kind, string_of(&chars, 1, chars.len()))
}

/// A count with what it counts: `1 file`, `2 files`.
pub open spec fn counted(n: nat, one: Seq<char>, many: Seq<char>) -> Seq<char> {
    decimal_of(n) + seq![' '] + if n == 1 {
        one
    } else {
        many
    }
}

/// A count with what it counts.
fn count_text(n: usize, one: &str, many: &str) -> (s: String)
    ensures
        s@ == counted(n as nat, one@, many@),
{
    let mut s = String::new();
    push_chars(&mut s, &decimal(n as u64));
    s.push(' ');
    if n == 1 {
        s.append(one);
    } else {
        s.append(many);
    }
    proof {
        assert(s@ =~= counted(n as nat, one@, many@));
    }
    s
}

/// How many files changed, in words.
pub fn files_changed_text(n: usize) -> (s: String)
    ensures
        s@ == counted(n as nat, "file changed,"@, "files changed,"@),
{
    count_text(n, "file changed,", "files changed,")
}

/// How many lines were inserted, in words.
pub fn insertions_text(n: usize) -> (s: String)
    ensures
        s@ == counted(n as nat, "insertion(+),"@, "insertions(+),"@),
{
    count_text(n, "insertion(+),", "insertions(+),")
}

/// How many lines were deleted, in words.
pub fn deletions_text(n: usize) -> (s: String)
    ensures
        s@ == counted(n as nat, "deletion(-)"@, "deletions(-)"@),
{
    count_text(n, "deletion(-)", "deletions(-)")
}

} // verus!
