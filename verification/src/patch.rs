//! The hunks of a unified diff of one file, laid out in rows for display.

use vstd::prelude::*;
use vstd::string::StringExecFns;
use vstd::utf8::{decode_utf8, valid_utf8};
use crate::header::{start_line, Header};
use crate::line::Line;
use crate::stats::Stats;
use crate::text::{chars_of, decimal, decimal_of, padded, push_padded, string_from_utf8, string_of};

verus! {

/// One row of the display: the header of a hunk, or a line of one.
pub enum Row {
    Heading(Header),
    Entry(Line),
}

/// The hunk with the header `header` starts at the line `line`: the line is
/// neither inserted nor deleted and has the number that the header names.
pub open spec fn starts_at(header: Header, line: Line) -> bool {
    header.line == (match line.new_lineno {
        Some(n) => n,
        None => 0,
    }) && line.origin != '+' && line.origin != '-'
}

/// The rows of those among the first `n` headers whose hunks start at the
/// line `line`.
pub open spec fn headings(headers: Seq<Header>, line: Line, n: nat) -> Seq<Row>
    decreases n,
{
    if n == 0 || n > headers.len() {
        Seq::empty()
    } else if starts_at(headers[n - 1], line) {
        headings(headers, line, (n - 1) as nat).push(Row::Heading(headers[n - 1]))
    } else {
        headings(headers, line, (n - 1) as nat)
    }
}

/// The rows that show the first `n` lines: each line behind the headers of
/// the hunks that start at it.
pub open spec fn rows_of(headers: Seq<Header>, lines: Seq<Line>, n: nat) -> Seq<Row>
    decreases n,
{
    if n == 0 || n > lines.len() {
        Seq::empty()
    } else {
        rows_of(headers, lines, (n - 1) as nat) + headings(
            headers,
            lines[n - 1],
            headers.len(),
        ) + seq![Row::Entry(lines[n - 1])]
    }
}

/// The texts that `text` gives for the rows, one behind the other.
pub open spec fn rows_text(rows: Seq<Row>, text: spec_fn(Row) -> Seq<char>) -> Seq<char>
    decreases rows.len(),
{
    if rows.len() == 0 {
        Seq::empty()
    } else {
        rows_text(rows.drop_last(), text) + text(rows.last())
    }
}

/// The places of the rows that `wanted` holds of, in rising order.
pub open spec fn rows_where(rows: Seq<Row>, wanted: spec_fn(Row) -> bool) -> Seq<usize>
    decreases rows.len(),
{
    if rows.len() == 0 {
        Seq::empty()
    } else if wanted(rows.last()) {
        rows_where(rows.drop_last(), wanted).push((rows.len() - 1) as usize)
    } else {
        rows_where(rows.drop_last(), wanted)
    }
}

/// What a row shows in the column of code: the text of a header or of a
/// line.
pub open spec fn code_of() -> spec_fn(Row) -> Seq<char> {
    |row: Row|
        match row {
            Row::Heading(h) => h.content@ + seq!['\n'],
            Row::Entry(l) => l.content@ + seq!['\n'],
        }
}

/// What a row shows in the column of marks: nothing for a header, the mark
/// of a line.
pub open spec fn origin_of() -> spec_fn(Row) -> Seq<char> {
    |row: Row|
        match row {
            Row::Heading(_) => seq![' ', '\n'],
            Row::Entry(l) => seq![l.origin, ' ', '\n'],
        }
}

/// What a row shows in the column of line numbers, which is `width`
/// characters wide: nothing for a header, the number of a line, aligned
/// to the right.
pub open spec fn number_of(width: int) -> spec_fn(Row) -> Seq<char> {
    |row: Row|
        match row {
            Row::Heading(_) => seq![' ', '\n'],
            Row::Entry(l) => padded(decimal_of(l.shown_number() as nat), width) + seq!['\n'],
        }
}

/// The row is a header.
pub open spec fn is_heading() -> spec_fn(Row) -> bool {
    |row: Row| row is Heading
}

/// The row is a line with the mark `origin`.
pub open spec fn has_origin(origin: char) -> spec_fn(Row) -> bool {
    |row: Row| row matches Row::Entry(l) && l.origin == origin
}

/// The row is a line that is neither inserted nor deleted.
pub open spec fn is_neutral() -> spec_fn(Row) -> bool {
    |row: Row| row matches Row::Entry(l) && l.origin != '+' && l.origin != '-'
}

/// The largest of the numbers that the first `n` lines are shown with.
pub open spec fn largest_shown(lines: Seq<Line>, n: nat) -> nat
    decreases n,
{
    if n == 0 || n > lines.len() {
        0
    } else {
        let rest = largest_shown(lines, (n - 1) as nat);
        let last = lines[n - 1].shown_number() as nat;
        if last > rest {
            last
        } else {
            rest
        }
    }
}

/// How wide the column of line numbers is: as wide as the largest number.
pub open spec fn longest_line(lines: Seq<Line>) -> int {
    decimal_of(largest_shown(lines, lines.len())).len() as int
}

/// How wide the column of line numbers has to be for `lines`.
pub fn get_longest_line(lines: &Vec<Line>) -> (w: usize)
    ensures
        w == longest_line(lines@),
{
    let mut largest: u32 = 0;
    let mut i: usize = 0;
    while i < lines.len()
        invariant
            0 <= i <= lines.len(),
            largest == largest_shown(lines@, i as nat),
        decreases lines.len() - i,
    {
        let number = lines[i].number();
        if number > largest {
            largest = number;
        }
        i += 1;
    }
    decimal(largest as u64).len()
}

/// There are at most as many header rows before a line as headers.
pub proof fn lemma_headings_count(headers: Seq<Header>, line: Line, n: nat)
    requires
        n <= headers.len(),
    ensures
        headings(headers, line, n).len() <= n,
        headings(headers, line, n).len() <= headings(headers, line, headers.len()).len(),
    decreases headers.len() - n,
{
    lemma_headings_bound(headers, line, n);
    if n < headers.len() {
        lemma_headings_count(headers, line, n + 1);
    }
}

/// The first `n` headers give at most `n` rows.
proof fn lemma_headings_bound(headers: Seq<Header>, line: Line, n: nat)
    requires
        n <= headers.len(),
    ensures
        headings(headers, line, n).len() <= n,
    decreases n,
{
    if n > 0 {
        lemma_headings_bound(headers, line, (n - 1) as nat);
    }
}

/// The rows of more lines are more.
pub proof fn lemma_rows_grow(headers: Seq<Header>, lines: Seq<Line>, n: nat, m: nat)
    requires
        n <= m <= lines.len(),
    ensures
        rows_of(headers, lines, n).len() <= rows_of(headers, lines, m).len(),
    decreases m - n,
{
    if n < m {
        lemma_rows_grow(headers, lines, n, (m - 1) as nat);
    }
}

/// There are at most as many rows as lines, each with every header before
/// it.
pub proof fn lemma_rows_count(headers: Seq<Header>, lines: Seq<Line>, n: nat)
    requires
        n <= lines.len(),
    ensures
        rows_of(headers, lines, n).len() <= n * (headers.len() + 1),
    decreases n,
{
    if n > 0 {
        lemma_rows_count(headers, lines, (n - 1) as nat);
        lemma_headings_count(headers, lines[n - 1], headers.len());
        assert(n * (headers.len() + 1) == (n - 1) * (headers.len() + 1) + (headers.len() + 1))
            by (nonlinear_arith);
    }
}

/// The text of the rows with one more is the text of the rows and then
/// that of the one.
proof fn lemma_push_row(rows: Seq<Row>, row: Row, text: spec_fn(Row) -> Seq<char>)
    ensures
        rows_text(rows.push(row), text) == rows_text(rows, text) + text(row),
{
    assert(rows.push(row).drop_last() =~= rows);
}

/// The places among the rows with one more are those among the rows, and
/// the last place where the one is wanted.
proof fn lemma_push_where(rows: Seq<Row>, row: Row, wanted: spec_fn(Row) -> bool)
    ensures
        rows_where(rows.push(row), wanted) == if wanted(row) {
            rows_where(rows, wanted).push(rows.len() as usize)
        } else {
            rows_where(rows, wanted)
        },
{
    assert(rows.push(row).drop_last() =~= rows);
}

/// The hunks of a unified diff of one file, with what each column of the
/// display shows and which rows are of which kind.
#[derive(Debug, PartialEq, Eq)]
pub struct Diff {
    pub old_file: String,
    pub new_file: String,
    pub headers: Vec<Header>,
    pub lines: Vec<Line>,
    pub content: String,
    pub origins_content: String,
    pub lines_content: String,
    pub header_indices: Vec<usize>,
    pub insertion_indices: Vec<usize>,
    pub deletion_indices: Vec<usize>,
    pub neutral_indices: Vec<usize>,
}

impl Diff {
    /// The path of the file before the change.
    pub open spec fn old_name(&self) -> Seq<char> {
        self.old_file@
    }

    /// The path of the file after the change.
    pub open spec fn new_name(&self) -> Seq<char> {
        self.new_file@
    }

    /// The rows of the display.
    pub open spec fn rows(&self) -> Seq<Row> {
        rows_of(self.headers@, self.lines@, self.lines.len() as nat)
    }

    /// The invariant of a laid-out diff: the columns show the rows, and the
    /// lists of places hold the places of the rows of each kind.
    pub open spec fn wf(&self) -> bool {
        &&& self.content@ == rows_text(self.rows(), code_of())
        &&& self.origins_content@ == rows_text(self.rows(), origin_of())
        &&& self.lines_content@ == rows_text(self.rows(), number_of(longest_line(self.lines@)))
        &&& self.header_indices@ == rows_where(self.rows(), is_heading())
        &&& self.insertion_indices@ == rows_where(self.rows(), has_origin('+'))
        &&& self.deletion_indices@ == rows_where(self.rows(), has_origin('-'))
        &&& self.neutral_indices@ == rows_where(self.rows(), is_neutral())
    }

    /// Lays the hunks with the headers `headers` and the lines `lines` out
    /// in rows.
    pub fn new(old_file: String, new_file: String, headers: Vec<Header>, lines: Vec<Line>) -> (r:
        Diff)
        requires
            rows_of(headers@, lines@, lines.len() as nat).len() <= usize::MAX,
        ensures
            r.wf(),
            r.old_name() == old_file@,
            r.new_name() == new_file@,
            r.headers == headers,
            r.lines == lines,
    {
        let width = get_longest_line(&lines);
        let mut content = String::new();
        let mut origins_content = String::new();
        let mut lines_content = String::new();
        let mut header_indices: Vec<usize> = Vec::new();
        let mut insertion_indices: Vec<usize> = Vec::new();
        let mut deletion_indices: Vec<usize> = Vec::new();
        let mut neutral_indices: Vec<usize> = Vec::new();
        let ghost mut rows: Seq<Row> = Seq::empty();
        let mut i: usize = 0;
        let mut k: usize = 0;
        while k < lines.len()
            invariant
                0 <= k <= lines.len(),
                width == longest_line(lines@),
                rows == rows_of(headers@, lines@, k as nat),
                rows_of(headers@, lines@, lines.len() as nat).len() <= usize::MAX,
                i == rows.len(),
                content@ == rows_text(rows, code_of()),
                origins_content@ == rows_text(rows, origin_of()),
                lines_content@ == rows_text(rows, number_of(width as int)),
                header_indices@ == rows_where(rows, is_heading()),
                insertion_indices@ == rows_where(rows, has_origin('+')),
                deletion_indices@ == rows_where(rows, has_origin('-')),
                neutral_indices@ == rows_where(rows, is_neutral()),
            decreases lines.len() - k,
        {
            let line = &lines[k];
            let ghost before = rows;
            let ghost all = rows_of(headers@, lines@, (k + 1) as nat);
            proof {
                lemma_rows_grow(headers@, lines@, (k + 1) as nat, lines.len() as nat);
            }
            let mut j: usize = 0;
            while j < headers.len()
                invariant
                    0 <= j <= headers.len(),
                    k < lines.len(),
                    *line == lines[k as int],
                    rows == before + headings(headers@, *line, j as nat),
                    all == before + headings(headers@, *line, headers.len() as nat) + seq![
                        Row::Entry(*line),
                    ],
                    all.len() <= usize::MAX,
                    i == rows.len(),
                    content@ == rows_text(rows, code_of()),
                    origins_content@ == rows_text(rows, origin_of()),
                    lines_content@ == rows_text(rows, number_of(width as int)),
                    header_indices@ == rows_where(rows, is_heading()),
                    insertion_indices@ == rows_where(rows, has_origin('+')),
                    deletion_indices@ == rows_where(rows, has_origin('-')),
                    neutral_indices@ == rows_where(rows, is_neutral()),
                decreases headers.len() - j,
            {
                let header = &headers[j];
                let number = match line.new_lineno {
                    Some(n) => n,
                    None => 0,
                };
                proof {
                    lemma_headings_count(headers@, *line, (j + 1) as nat);
                }
                if header.line == number && line.origin != '+' && line.origin != '-' {
                    let ghost row = Row::Heading(*header);
                    proof {
                        lemma_push_row(rows, row, code_of());
                        lemma_push_row(rows, row, origin_of());
                        lemma_push_row(rows, row, number_of(width as int));
                        lemma_push_where(rows, row, is_heading());
                        lemma_push_where(rows, row, has_origin('+'));
                        lemma_push_where(rows, row, has_origin('-'));
                        lemma_push_where(rows, row, is_neutral());
                        reveal_strlit(" \n");
                        assert(" \n"@ =~= seq![' ', '\n']);
                    }
                    let ghost code_before = content@;
                    content.append(header.content.as_str());
                    content.push('\n');
                    origins_content.append(" \n");
                    lines_content.append(" \n");
                    header_indices.push(i);
                    proof {
                        assert(content@ =~= code_before + (header.content@ + seq!['\n']));
                        rows = rows.push(row);
                        assert(rows =~= before + headings(headers@, *line, (j + 1) as nat));
                    }
                    i += 1;
                }
                j += 1;
            }
            let ghost row = Row::Entry(*line);
            proof {
                lemma_push_row(rows, row, code_of());
                lemma_push_row(rows, row, origin_of());
                lemma_push_row(rows, row, number_of(width as int));
                lemma_push_where(rows, row, is_heading());
                lemma_push_where(rows, row, has_origin('+'));
                lemma_push_where(rows, row, has_origin('-'));
                lemma_push_where(rows, row, is_neutral());
            }
            let ghost code_before = content@;
            let ghost origins_before = origins_content@;
            let ghost numbers_before = lines_content@;
            content.append(line.content.as_str());
            content.push('\n');
            origins_content.push(line.origin);
            origins_content.push(' ');
            origins_content.push('\n');
            push_padded(&mut lines_content, &decimal(line.number() as u64), width);
            lines_content.push('\n');
            if line.origin == '+' {
                insertion_indices.push(i);
            } else if line.origin == '-' {
                deletion_indices.push(i);
            } else {
                neutral_indices.push(i);
            }
            proof {
                assert(content@ =~= code_before + (line.content@ + seq!['\n']));
                assert(origins_content@ =~= origins_before + seq![line.origin, ' ', '\n']);
                assert(lines_content@ =~= numbers_before + (padded(
                    decimal_of(line.shown_number() as nat),
                    width as int,
                ) + seq!['\n']));
                rows = rows.push(row);
                assert(rows =~= all);
            }
            i += 1;
            k += 1;
        }
        Diff {
            old_file,
            new_file,
            headers,
            lines,
            content,
            origins_content,
            lines_content,
            header_indices,
            insertion_indices,
            deletion_indices,
            neutral_indices,
        }
    }

    /// The path of the file that the diff is of.
    pub fn file_name(&self) -> (name: String)
        ensures
            name@ == self.old_name(),
    {
        self.old_file.clone()
    }

    /// The diff as a patch prints it: a line that names the two files, and
    /// then every line of every hunk.
    pub open spec fn text(&self) -> Seq<char> {
        "diff --git a/"@ + self.old_name() + " b/"@ + self.new_name() + seq!['\n'] + lines_text(
            self.lines@,
            self.lines.len() as nat,
        )
    }

    /// The diff as a patch prints it.
    pub fn to_text(&self) -> (s: String)
        ensures
            s@ == self.text(),
    {
        let mut s = "diff --git a/".to_string();
        s.append(self.old_file.as_str());
        s.append(" b/");
        s.append(self.new_file.as_str());
        s.push('\n');
        let ghost head = s@;
        let mut i: usize = 0;
        proof {
            assert(s@ =~= head + lines_text(self.lines@, 0));
        }
        while i < self.lines.len()
            invariant
                0 <= i <= self.lines.len(),
                s@ == head + lines_text(self.lines@, i as nat),
            decreases self.lines.len() - i,
        {
            let ghost before = s@;
            s.append(self.lines[i].to_text().as_str());
            proof {
                assert(s@ =~= head + lines_text(self.lines@, (i + 1) as nat));
            }
            i += 1;
        }
        s
    }
}

/// The first `n` lines as they are printed, one behind the other.
pub open spec fn lines_text(lines: Seq<Line>, n: nat) -> Seq<char>
    decreases n,
{
    if n == 0 || n > lines.len() {
        Seq::empty()
    } else {
        lines_text(lines, (n - 1) as nat) + lines[n - 1].text()
    }
}

// ---------------------------------------------------------------------
// From what a repository hands out
// ---------------------------------------------------------------------

/// One line of a hunk as a repository hands it out: its numbers, its
/// content as bytes, with the line ending, and its mark.
#[derive(Debug, PartialEq, Eq)]
pub struct RawLine {
    pub old_lineno: Option<u32>,
    pub new_lineno: Option<u32>,
    pub content: Vec<u8>,
    pub origin: char,
}

/// The hunks of one changed file as a repository hands them out: the paths
/// of the file before and after, as far as it has them, and the headers
/// and the lines of the hunks, with their line endings.
#[derive(Debug, PartialEq, Eq)]
pub struct Delta {
    pub old_file: Option<String>,
    pub new_file: Option<String>,
    pub headers: Vec<Vec<u8>>,
    pub lines: Vec<RawLine>,
}

/// That what a repository handed out is no diff.
#[derive(Debug, Clone, Copy, PartialEq, Eq, Structural)]
pub struct DiffParsingError;

/// The text `s` without the line ending that ends it, if one does: a line
/// feed, and a carriage return before the line feed.
pub open spec fn trimmed(s: Seq<char>) -> Seq<char> {
    if s.len() > 0 && s.last() == '\n' {
        if s.len() > 1 && s[s.len() - 2] == '\r' {
            s.subrange(0, s.len() - 2)
        } else {
            s.subrange(0, s.len() - 1)
        }
    } else {
        s
    }
}

/// The line `line` is what the raw line `raw` says: its content is text,
/// and the line holds it without its line ending.
pub open spec fn line_reads(line: Line, raw: RawLine) -> bool {
    &&& valid_utf8(raw.content@)
    &&& line.content@ == trimmed(decode_utf8(raw.content@))
    &&& line.old_lineno == raw.old_lineno
    &&& line.new_lineno == raw.new_lineno
    &&& line.origin == raw.origin
}

/// The header `header` is what the raw header `raw` says: it is text, and
/// without its line ending it names a first line.
pub open spec fn header_reads(header: Header, raw: Seq<u8>) -> bool {
    &&& valid_utf8(raw)
    &&& header.content@ == trimmed(decode_utf8(raw))
    &&& start_line(trimmed(decode_utf8(raw))) == Some(header.line)
}

/// A diff can be made of the hunks `delta`: the file has both its paths,
/// every line and every header is text, every header names a first line,
/// and the rows can be numbered.
pub open spec fn delta_reads(delta: Delta) -> bool {
    &&& delta.old_file is Some
    &&& delta.new_file is Some
    &&& forall|i: int| 0 <= i < delta.lines.len() ==> valid_utf8((#[trigger] delta.lines[i]).content@)
    &&& forall|i: int|
        0 <= i < delta.headers.len() ==> valid_utf8((#[trigger] delta.headers[i])@) && start_line(
            trimmed(decode_utf8(delta.headers[i]@)),
        ) is Some
    &&& (delta.headers.len() + 1) * delta.lines.len() <= usize::MAX
}

/// The diff `diff` is the one of the hunks `delta`, laid out.
pub open spec fn diff_reads(diff: Diff, delta: Delta) -> bool {
    &&& diff.wf()
    &&& delta.old_file matches Some(name) && diff.old_name() == name@
    &&& delta.new_file matches Some(name) && diff.new_name() == name@
    &&& diff.lines.len() == delta.lines.len()
    &&& forall|i: int|
        0 <= i < diff.lines.len() ==> line_reads(#[trigger] diff.lines[i], delta.lines[i])
    &&& diff.headers.len() == delta.headers.len()
    &&& forall|i: int|
        0 <= i < diff.headers.len() ==> header_reads(#[trigger] diff.headers[i], delta.headers[i]@)
}

/// The text that `bytes` holds, without the line ending that ends it;
/// `None` where `bytes` holds no text.
fn trimmed_text(bytes: &Vec<u8>) -> (r: Option<String>)
    ensures
        match r {
            Some(text) => valid_utf8(bytes@) && text@ == trimmed(decode_utf8(bytes@)),
            None => !valid_utf8(bytes@),
        },
{
    let copy = bytes.clone();
    assert(copy@ =~= bytes@);
    let text = match string_from_utf8(copy) {
        Some(text) => text,
        None => {
            return None;
        },
    };
    let chars = chars_of(text.as_str());
    let n = chars.len();
    let end: usize = if n > 0 && chars[n - 1] == '\n' {
        if n > 1 && chars[n - 2] == '\r' {
            n - 2
        } else {
            n - 1
        }
    } else {
        n
    };
    proof {
        assert(chars@.subrange(0, n as int) =~= chars@);
    }
    Some(string_of(&chars, 0, end))
}

/// The diff of the hunks `delta`, laid out; `None` where none can be made
/// of them.
fn read_delta(delta: Delta) -> (r: Option<Diff>)
    ensures
        match r {
            Some(diff) => delta_reads(delta) && diff_reads(diff, delta),
            None => !delta_reads(delta),
        },
{
    let old_file = match &delta.old_file {
        Some(name) => name.clone(),
        None => {
            return None;
        },
    };
    let new_file = match &delta.new_file {
        Some(name) => name.clone(),
        None => {
            return None;
        },
    };
    let mut lines: Vec<Line> = Vec::new();
    let mut i: usize = 0;
    while i < delta.lines.len()
        invariant
            0 <= i <= delta.lines.len(),
            lines.len() == i,
            forall|j: int| 0 <= j < i ==> line_reads(#[trigger] lines[j], delta.lines[j]),
        decreases delta.lines.len() - i,
    {
        let raw = &delta.lines[i];
        match trimmed_text(&raw.content) {
            Some(content) => {
                lines.push(Line::new(raw.old_lineno, raw.new_lineno, content, raw.origin));
            },
            None => {
                return None;
            },
        }
        i += 1;
    }
    let mut headers: Vec<Header> = Vec::new();
    let mut k: usize = 0;
    while k < delta.headers.len()
        invariant
            0 <= k <= delta.headers.len(),
            headers.len() == k,
            forall|j: int| 0 <= j < k ==> header_reads(#[trigger] headers[j], delta.headers[j]@),
        decreases delta.headers.len() - k,
    {
        let header = match trimmed_text(&delta.headers[k]) {
            Some(content) => Header::new(content),
            None => {
                return None;
            },
        };
        match header {
            Ok(header) => {
                headers.push(header);
            },
            Err(_) => {
                return None;
            },
        }
        k += 1;
    }
    let fits = lines.len() == 0 || (headers.len() < usize::MAX && (headers.len() + 1).checked_mul(
        lines.len(),
    ).is_some());
    proof {
        let h = headers.len() as int;
        let l = lines.len() as int;
        assert(l * (h + 1) == (h + 1) * l) by (nonlinear_arith);
        if l == 0 {
            assert((h + 1) * l == 0) by (nonlinear_arith)
                requires
                    l == 0,
            ;
        }
        if h >= usize::MAX && l >= 1 {
            assert((h + 1) * l > usize::MAX) by (nonlinear_arith)
                requires
                    h >= usize::MAX,
                    l >= 1,
            ;
        }
        assert(fits == ((delta.headers.len() + 1) * delta.lines.len() <= usize::MAX));
    }
    if !fits {
        return None;
    }
    proof {
        lemma_rows_count(headers@, lines@, lines.len() as nat);
        assert forall|j: int| 0 <= j < delta.lines.len() implies valid_utf8(
            (#[trigger] delta.lines[j]).content@,
        ) by {
            assert(line_reads(lines[j], delta.lines[j]));
        }
        assert forall|j: int| 0 <= j < delta.headers.len() implies valid_utf8(
            (#[trigger] delta.headers[j])@,
        ) && start_line(trimmed(decode_utf8(delta.headers[j]@))) is Some by {
            assert(header_reads(headers[j], delta.headers[j]@));
        }
    }
    Some(Diff::new(old_file, new_file, headers, lines))
}

/// The diffs of the changed files `deltas`, laid out, with the statistics
/// `stats` that the repository reports of them.
///
/// Fails where a diff cannot be made of the hunks of one of the files.
pub fn parse_diffs(deltas: Vec<Delta>, stats: Stats) -> (r: Result<
    (Vec<Diff>, Stats),
    DiffParsingError,
>)
    ensures
        match r {
            Ok((diffs, reported)) => {
                &&& reported == stats
                &&& diffs.len() == deltas.len()
                &&& forall|i: int|
                    0 <= i < deltas.len() ==> delta_reads(#[trigger] deltas[i]) && diff_reads(
                        diffs[i],
                        deltas[i],
                    )
            },
            Err(_) => exists|i: int| 0 <= i < deltas.len() && !delta_reads(#[trigger] deltas[i]),
        },
{
    let ghost all = deltas@;
    let mut rest = deltas;
    let mut diffs: Vec<Diff> = Vec::new();
    // the deltas are taken from the end, the diffs put in order afterwards
    while rest.len() > 0
        invariant
            all == deltas@,
            rest.len() <= all.len(),
            rest@ == all.subrange(0, rest.len() as int),
            diffs.len() == all.len() - rest.len(),
            forall|j: int|
                0 <= j < diffs.len() ==> delta_reads(#[trigger] all[all.len() - 1 - j])
                    && diff_reads(diffs[j], all[all.len() - 1 - j]),
        decreases rest.len(),
    {
        let ghost at = rest.len() - 1;
        let ghost before = rest@;
        let delta = match rest.pop() {
            Some(delta) => delta,
            None => {
                proof {
                    assert(false);
                }
                return Err(DiffParsingError);
            },
        };
        proof {
            assert(delta == before[at]);
            assert(delta == all[at]);
            assert(rest@ =~= all.subrange(0, at));
        }
        match read_delta(delta) {
            Some(diff) => {
                diffs.push(diff);
            },
            None => {
                proof {
                    assert(!delta_reads(deltas[at]));
                }
                return Err(DiffParsingError);
            },
        }
    }
    let mut ordered: Vec<Diff> = Vec::new();
    let ghost reversed = diffs@;
    while diffs.len() > 0
        invariant
            all == deltas@,
            diffs.len() <= reversed.len(),
            reversed.len() == all.len(),
            diffs@ == reversed.subrange(0, diffs.len() as int),
            ordered.len() == reversed.len() - diffs.len(),
            forall|j: int|
                0 <= j < ordered.len() ==> #[trigger] ordered[j] == reversed[reversed.len() - 1 - j],
        decreases diffs.len(),
    {
        let ghost at = diffs.len() - 1;
        match diffs.pop() {
            Some(diff) => {
                proof {
                    assert(diff == reversed[at]);
                    assert(diffs@ =~= reversed.subrange(0, at));
                }
                ordered.push(diff);
            },
            None => {},
        }
    }
    proof {
        assert forall|i: int| 0 <= i < deltas.len() implies delta_reads(#[trigger] deltas[i])
            && diff_reads(ordered[i], deltas[i]) by {
            let j = all.len() - 1 - i;
            assert(ordered[i] == reversed[j]);
            assert(delta_reads(all[all.len() - 1 - j]) && diff_reads(
                reversed[j],
                all[all.len() - 1 - j],
            ));
        }
    }
    Ok((ordered, stats))
}

} // verus!
