//! Line-level diffs: the lines of a text, edit scripts and their statistics,
//! and the diffs of the files of a repository.

use vstd::prelude::*;
use vstd::string::StringExecFns;
use vstd::utf8::{decode_utf8, valid_utf8};
use crate::edit_graph::{consumed, cost, produced, transforms};
use crate::head::FileBlob;
use crate::index::IndexEntry;
use crate::path::{join_path, joined};
use crate::error::GitError;
use crate::myers::{
    edit_distance, is_shortest_script, kinds, new_side, old_side, shortest_script, texts, Myers,
    MAX_TOTAL_LINES,
};
use crate::text::{
    chars_of, decimal, decimal_of, find_char, first_at, join_lines, lemma_first_at, push_chars,
    string_from_utf8, string_of,
};

verus! {

/// One line of a text, with its 1-based position on its own side.
#[derive(Debug, PartialEq)]
pub struct DiffLine {
    pub number: usize,
    pub text: String,
}

impl Clone for DiffLine {
    fn clone(&self) -> (r: Self)
        ensures
            r == *self,
    {
        DiffLine { number: self.number, text: self.text.clone() }
    }
}

/// What an edit does to a line: insert it, delete it, or keep it.
#[derive(Debug, PartialEq, Eq, Clone, Copy, Structural)]
pub enum EditType {
    Ins,
    Del,
    Eql,
}

/// One step of an edit script.
#[derive(Debug, PartialEq)]
pub struct DiffEdit {
    pub typ: EditType,
    pub a_line: Option<DiffLine>,
    pub b_line: Option<DiffLine>,
}

/// Which of the two lines an edit of kind `typ` carries: an insertion only
/// the new one, a deletion only the old one, an unchanged line both.
pub open spec fn lines_fit(typ: EditType, a_line: Option<DiffLine>, b_line: Option<DiffLine>) -> bool {
    match typ {
        EditType::Ins => a_line is None && b_line is Some,
        EditType::Del => a_line is Some && b_line is None,
        EditType::Eql => a_line is Some && b_line is Some,
    }
}

impl DiffEdit {
    /// The invariant of an edit: it carries the lines that its kind asks for.
    pub open spec fn wf(&self) -> bool {
        lines_fit(self.typ, self.a_line, self.b_line)
    }

    /// An edit of kind `typ` with the lines that the kind asks for.
    pub fn new(typ: EditType, a_line: Option<DiffLine>, b_line: Option<DiffLine>) -> (r: DiffEdit)
        requires
            lines_fit(typ, a_line, b_line),
        ensures
            r.wf(),
            r.typ == typ,
            r.a_line == a_line,
            r.b_line == b_line,
    {
        DiffEdit { typ, a_line, b_line }
    }
}

impl Clone for DiffEdit {
    fn clone(&self) -> (r: Self)
        ensures
            r == *self,
    {
        let a_line = match &self.a_line {
            Some(l) => Some(l.clone()),
            None => None,
        };
        let b_line = match &self.b_line {
            Some(l) => Some(l.clone()),
            None => None,
        };
        DiffEdit { typ: self.typ, a_line, b_line }
    }
}

/// The terminal escape sequence that colours an edit of kind `typ`: green
/// for an insertion, red for a deletion, the default for an unchanged line.
pub open spec fn color_of(typ: EditType) -> Seq<char> {
    match typ {
        EditType::Ins => "\x1b[32m"@,
        EditType::Del => "\x1b[31m"@,
        EditType::Eql => "\x1b[39m"@,
    }
}

/// The mark of an edit of kind `typ`: `+`, `-` or a space.
pub open spec fn tag_of(typ: EditType) -> Seq<char> {
    match typ {
        EditType::Ins => seq!['+'],
        EditType::Del => seq!['-'],
        EditType::Eql => seq![' '],
    }
}

impl EditType {
    /// The terminal escape sequence that colours an edit of this kind.
    pub fn get_color(&self) -> (s: String)
        ensures
            s@ == color_of(*self),
    {
        match self {
            EditType::Ins => "\x1b[32m".to_string(),
            EditType::Del => "\x1b[31m".to_string(),
            EditType::Eql => "\x1b[39m".to_string(),
        }
    }

    /// The one-character mark of an edit of this kind: `+`, `-` or a space.
    pub fn get_tag(&self) -> (s: String)
        ensures
            s@ == tag_of(*self),
    {
        let mut s = String::new();
        match self {
            EditType::Ins => s.push('+'),
            EditType::Del => s.push('-'),
            EditType::Eql => s.push(' '),
        }
        s
    }
}

/// A line as it is printed: its number, a space, and its text.
pub open spec fn line_text(line: DiffLine) -> Seq<char> {
    decimal_of(line.number as nat) + seq![' '] + line.text@
}

/// The number of a line that may be missing: a space where it is.
pub open spec fn number_text(line: Option<DiffLine>) -> Seq<char> {
    match line {
        Some(l) => decimal_of(l.number as nat),
        None => seq![' '],
    }
}

/// The text that an edit shows: that of its old line, or of its new line
/// where it has no old one.
pub open spec fn shown_text(edit: DiffEdit) -> Seq<char> {
    match edit.a_line {
        Some(l) => l.text@,
        None => match edit.b_line {
            Some(l) => l.text@,
            None => Seq::empty(),
        },
    }
}

/// An edit as it is printed on a terminal: in its colour, its mark, the
/// numbers of its two lines, its text, and the default colour again.
pub open spec fn edit_text(edit: DiffEdit) -> Seq<char> {
    color_of(edit.typ) + tag_of(edit.typ) + seq![' '] + number_text(edit.a_line) + seq![' ']
        + number_text(edit.b_line) + seq![' ', ' ', ' '] + shown_text(edit) + "\x1b[39m"@
}

impl DiffLine {
    /// The line as it is printed.
    pub fn to_text(&self) -> (s: String)
        ensures
            s@ == line_text(*self),
    {
        let mut s = String::new();
        push_chars(&mut s, &decimal(self.number as u64));
        s.push(' ');
        s.append(self.text.as_str());
        proof {
            assert(s@ =~= line_text(*self));
        }
        s
    }
}

/// Appends the number of a line that may be missing to `s`.
fn push_number(s: &mut String, line: &Option<DiffLine>)
    ensures
        final(s)@ == old(s)@ + number_text(*line),
{
    match line {
        Some(l) => {
            push_chars(s, &decimal(l.number as u64));
        },
        None => {
            s.push(' ');
            proof {
                assert(s@ =~= old(s)@ + seq![' ']);
            }
        },
    }
}

impl DiffEdit {
    /// The edit as it is printed on a terminal.
    pub fn to_text(&self) -> (s: String)
        ensures
            s@ == edit_text(*self),
    {
        let mut s = self.typ.get_color();
        s.append(self.typ.get_tag().as_str());
        s.push(' ');
        push_number(&mut s, &self.a_line);
        s.push(' ');
        push_number(&mut s, &self.b_line);
        s.append("   ");
        proof {
            reveal_strlit("   ");
            assert("   "@ =~= seq![' ', ' ', ' ']);
        }
        match &self.a_line {
            Some(l) => s.append(l.text.as_str()),
            None => match &self.b_line {
                Some(l) => s.append(l.text.as_str()),
                None => {},
            },
        }
        s.append("\x1b[39m");
        proof {
            assert(s@ =~= edit_text(*self));
        }
        s
    }
}

// ---------------------------------------------------------------------
// Lines of a text
// ---------------------------------------------------------------------

/// Where the line that holds position `from` ends: at the next line feed,
/// or at the end of the text.
pub open spec fn line_end(s: Seq<char>, from: int) -> int {
    first_at(s, '\n', from)
}

/// A line without the carriage return that ends it, if one does.
pub open spec fn strip_cr(line: Seq<char>) -> Seq<char> {
    if line.len() > 0 && line.last() == '\r' {
        line.drop_last()
    } else {
        line
    }
}

/// The lines of the text from position `from` on. A line ends at a line
/// feed, which does not belong to it, nor does a carriage return just
/// before that line feed. What follows the last line feed is a line too,
/// unless it is empty.
pub open spec fn lines_from(s: Seq<char>, from: int) -> Seq<Seq<char>>
    decreases s.len() - from,
{
    if from < 0 || from >= s.len() {
        Seq::empty()
    } else {
        let end = line_end(s, from);
        if from <= end < s.len() {
            seq![strip_cr(s.subrange(from, end))] + lines_from(s, end + 1)
        } else {
            seq![s.subrange(from, s.len() as int)]
        }
    }
}

/// The lines of a text.
pub open spec fn lines_of(s: Seq<char>) -> Seq<Seq<char>> {
    lines_from(s, 0)
}

/// The text `s` without the line feed that ends it, if one does.
pub open spec fn without_final_feed(s: Seq<char>) -> Seq<char> {
    if s.len() > 0 && s.last() == '\n' {
        s.drop_last()
    } else {
        s
    }
}

/// The text `s` holds no carriage return.
pub open spec fn no_carriage_return(s: Seq<char>) -> bool {
    forall|i: int| 0 <= i < s.len() ==> s[i] != '\r'
}

/// The lines behind a first line are joined as they are without it.
proof fn lemma_join_shift(first: Seq<char>, rest: Seq<Seq<char>>, from: int)
    requires
        0 <= from,
    ensures
        join_lines(seq![first] + rest, from + 1) == join_lines(rest, from),
    decreases rest.len() - from,
{
    let all = seq![first] + rest;
    if from < rest.len() {
        assert(all[from + 1] == rest[from]);
        if from < rest.len() - 1 {
            lemma_join_shift(first, rest, from + 1);
        }
    }
}

/// From every position on there is a line, unless the text is over.
proof fn lemma_lines_from_some(s: Seq<char>, from: int)
    requires
        0 <= from < s.len(),
    ensures
        lines_from(s, from).len() > 0,
{
    lemma_first_at(s, '\n', from);
}

/// The lines of a text from a position on, joined with line feeds, are the
/// text from there on, but for the line feed that ends it.
proof fn lemma_lines_rejoin_from(s: Seq<char>, from: int)
    requires
        0 <= from <= s.len(),
        no_carriage_return(s),
    ensures
        join_lines(lines_from(s, from), 0) == without_final_feed(s.subrange(from, s.len() as int)),
    decreases s.len() - from,
{
    let tail = s.subrange(from, s.len() as int);
    if from >= s.len() {
        assert(tail =~= Seq::<char>::empty());
        assert(join_lines(lines_from(s, from), 0) =~= Seq::<char>::empty());
    } else {
        lemma_first_at(s, '\n', from);
        let end = line_end(s, from);
        let line = s.subrange(from, end);
        if end < s.len() {
            assert(strip_cr(line) == line) by {
                if line.len() > 0 {
                    assert(line.last() == s[end - 1]);
                }
            }
            let rest = lines_from(s, end + 1);
            let all = seq![line] + rest;
            assert(lines_from(s, from) == all);
            assert(all[0] == line);
            lemma_lines_rejoin_from(s, end + 1);
            lemma_join_shift(line, rest, 0);
            let after = s.subrange(end + 1, s.len() as int);
            if end + 1 >= s.len() {
                assert(rest =~= Seq::<Seq<char>>::empty());
                assert(join_lines(all, 0) == line);
                assert(tail.last() == s[end]);
                assert(tail.drop_last() =~= line);
            } else {
                lemma_lines_from_some(s, end + 1);
                assert(join_lines(all, 0) == line + seq!['\n'] + join_lines(all, 1));
                assert(tail =~= line + seq!['\n'] + after);
                assert(tail.last() == after.last());
                if after.last() == '\n' {
                    assert(tail.drop_last() =~= line + seq!['\n'] + after.drop_last());
                }
            }
        } else {
            assert(lines_from(s, from) == seq![tail]);
            assert(join_lines(seq![tail], 0) == tail);
            assert(tail.last() == s[s.len() - 1]);
        }
    }
}

/// The lines of a text without carriage returns, joined with line feeds,
/// are the text again, but for the line feed that ends it.
pub proof fn lemma_lines_rejoin(s: Seq<char>)
    requires
        no_carriage_return(s),
    ensures
        join_lines(lines_of(s), 0) == without_final_feed(s),
{
    lemma_lines_rejoin_from(s, 0);
    assert(s.subrange(0, s.len() as int) =~= s);
}

/// What a line is worth to a reader: its number and its characters.
pub open spec fn line_views(lines: Seq<DiffLine>) -> Seq<(int, Seq<char>)> {
    Seq::new(lines.len(), |i: int| (lines[i].number as int, lines[i].text@))
}

/// The given texts, numbered from 1.
pub open spec fn numbered(texts: Seq<Seq<char>>) -> Seq<(int, Seq<char>)> {
    Seq::new(texts.len(), |i: int| (i + 1, texts[i]))
}

/// The lines of the characters `chars`, numbered from 1.
pub(crate) fn lines_of_chars(chars: &Vec<char>) -> (lines: Vec<DiffLine>)
    ensures
        line_views(lines@) == numbered(lines_of(chars@)),
        texts(lines@) == lines_of(chars@),
{
    let n = chars.len();
    let mut lines: Vec<DiffLine> = Vec::new();
    let mut from: usize = 0;
    while from < n
        invariant
            n == chars.len(),
            0 <= from <= n,
            lines.len() <= from,
            lines_of(chars@) == texts(lines@) + lines_from(chars@, from as int),
            forall|i: int| 0 <= i < lines.len() ==> (#[trigger] lines[i]).number == i + 1,
        decreases n - from,
    {
        let end = find_char(chars, '\n', from);
        let terminated = end < n;
        let stop = if terminated && end > from && chars[end - 1] == '\r' {
            end - 1
        } else {
            end
        };
        let text = string_of(chars, from, stop);
        let ghost before_push = lines@;
        proof {
            assert(chars@.subrange(from as int, end as int).len() == end - from);
            if terminated {
                assert(text@ =~= strip_cr(chars@.subrange(from as int, end as int)));
            } else {
                assert(text@ =~= chars@.subrange(from as int, n as int));
                assert(lines_from(chars@, n as int) =~= Seq::empty());
            }
        }
        lines.push(DiffLine { number: lines.len() + 1, text });
        proof {
            assert(texts(lines@) =~= texts(before_push).push(text@));
            let rest = if terminated {
                lines_from(chars@, end + 1)
            } else {
                Seq::empty()
            };
            assert(lines_from(chars@, from as int) =~= seq![text@] + rest);
            assert(texts(before_push) + (seq![text@] + rest) =~= texts(before_push).push(text@)
                + rest);
        }
        from = if terminated {
            end + 1
        } else {
            end
        };
    }
    proof {
        assert(lines_from(chars@, from as int) =~= Seq::empty());
        assert(texts(lines@) + Seq::<Seq<char>>::empty() =~= texts(lines@));
        assert(line_views(lines@) =~= numbered(texts(lines@)));
    }
    lines
}

/// The lines of a text, numbered from 1.
pub fn get_lines(content: &str) -> (lines: Vec<DiffLine>)
    ensures
        line_views(lines@) == numbered(lines_of(content@)),
        texts(lines@) == lines_of(content@),
{
    let chars = chars_of(content);
    lines_of_chars(&chars)
}

// ---------------------------------------------------------------------
// Statistics of one script
// ---------------------------------------------------------------------

/// How many edits of kind `typ` a script holds.
pub open spec fn count_of(edits: Seq<DiffEdit>, typ: EditType) -> nat
    decreases edits.len(),
{
    if edits.len() == 0 {
        0
    } else {
        count_of(edits.drop_last(), typ) + if edits.last().typ == typ {
            1nat
        } else {
            0nat
        }
    }
}

/// A script holds at most as many edits of a kind as edits.
pub proof fn lemma_count_of_bound(edits: Seq<DiffEdit>, typ: EditType)
    ensures
        count_of(edits, typ) <= edits.len(),
    decreases edits.len(),
{
    if edits.len() > 0 {
        lemma_count_of_bound(edits.drop_last(), typ);
    }
}

/// How many lines a script inserts and how many it deletes.
#[derive(Debug, Clone, Copy, PartialEq, Eq, Structural)]
pub struct DiffStats {
    pub insertions: usize,
    pub deletions: usize,
}

impl DiffStats {
    /// These are the statistics of the script `edits`.
    pub open spec fn counts(&self, edits: Seq<DiffEdit>) -> bool {
        self.insertions == count_of(edits, EditType::Ins) && self.deletions == count_of(
            edits,
            EditType::Del,
        )
    }

    /// The statistics of the script `edits`.
    pub fn new(edits: &Vec<DiffEdit>) -> (r: DiffStats)
        ensures
            r.counts(edits@),
    {
        let mut insertions: usize = 0;
        let mut deletions: usize = 0;
        let mut i: usize = 0;
        while i < edits.len()
            invariant
                0 <= i <= edits.len(),
                insertions == count_of(edits@.subrange(0, i as int), EditType::Ins),
                deletions == count_of(edits@.subrange(0, i as int), EditType::Del),
            decreases edits.len() - i,
        {
            proof {
                assert(edits@.subrange(0, i + 1).drop_last() =~= edits@.subrange(0, i as int));
                lemma_count_of_bound(edits@.subrange(0, i as int), EditType::Ins);
                lemma_count_of_bound(edits@.subrange(0, i as int), EditType::Del);
            }
            match edits[i].typ {
                EditType::Ins => {
                    insertions += 1;
                },
                EditType::Del => {
                    deletions += 1;
                },
                EditType::Eql => {},
            }
            i += 1;
        }
        proof {
            assert(edits@.subrange(0, i as int) =~= edits@);
        }
        DiffStats { insertions, deletions }
    }
}

impl Default for DiffStats {
    fn default() -> (r: DiffStats)
        ensures
            r.insertions == 0,
            r.deletions == 0,
    {
        DiffStats { insertions: 0, deletions: 0 }
    }
}

// ---------------------------------------------------------------------
// The diff of one file
// ---------------------------------------------------------------------

/// What changed in one file: the edit script and its statistics.
#[derive(Debug, PartialEq)]
pub struct Diff {
    pub file_name: String,
    pub edits: Vec<DiffEdit>,
    pub stats: DiffStats,
}

impl Clone for Diff {
    fn clone(&self) -> (r: Self)
        ensures
            r.file_name == self.file_name,
            r.edits@ == self.edits@,
            r.stats == self.stats,
    {
        let mut edits: Vec<DiffEdit> = Vec::new();
        let mut i: usize = 0;
        while i < self.edits.len()
            invariant
                0 <= i <= self.edits.len(),
                edits@ == self.edits@.subrange(0, i as int),
            decreases self.edits.len() - i,
        {
            edits.push(self.edits[i].clone());
            proof {
                assert(edits@ =~= self.edits@.subrange(0, i + 1));
            }
            i += 1;
        }
        proof {
            assert(self.edits@.subrange(0, i as int) =~= self.edits@);
        }
        Diff { file_name: self.file_name.clone(), edits, stats: self.stats }
    }
}

impl Diff {
    /// The invariant of a diff: its statistics are those of its script, and
    /// each edit carries the lines that its kind asks for.
    pub open spec fn wf(&self) -> bool {
        &&& self.stats.counts(self.edits@)
        &&& forall|j: int| 0 <= j < self.edits.len() ==> (#[trigger] self.edits[j]).wf()
    }

    /// This is the diff that turns the text `old` into the text `new`.
    ///
    /// Where the two texts hold the same lines, it has no edits. Else its
    /// old lines are the numbered lines of `old`, its new lines those of
    /// `new`, its script turns the one sequence of lines into the other and
    /// is the one that the search finds, and no script does so with fewer
    /// insertions and deletions.
    pub open spec fn turns(&self, old: Seq<char>, new: Seq<char>) -> bool {
        &&& self.wf()
        &&& if lines_of(old) == lines_of(new) {
            self.edits.len() == 0
        } else {
            &&& line_views(old_side(self.edits@)) == numbered(lines_of(old))
            &&& line_views(new_side(self.edits@)) == numbered(lines_of(new))
            &&& transforms(lines_of(old), lines_of(new), kinds(self.edits@))
            &&& kinds(self.edits@) == shortest_script(lines_of(old), lines_of(new))
            &&& cost(kinds(self.edits@)) == edit_distance(lines_of(old), lines_of(new))
            &&& forall|ops: Seq<EditType>| #[trigger]
                transforms(lines_of(old), lines_of(new), ops) ==> cost(ops) >= cost(
                    kinds(self.edits@),
                )
        }
    }

    /// The diff of the file `file_name` with the script `edits`, whose
    /// statistics are `stats`.
    pub fn new(file_name: String, edits: Vec<DiffEdit>, stats: DiffStats) -> (r: Diff)
        requires
            stats.counts(edits@),
            forall|j: int| 0 <= j < edits.len() ==> (#[trigger] edits[j]).wf(),
        ensures
            r.wf(),
            r.file_name == file_name,
            r.edits == edits,
            r.stats == stats,
    {
        Diff { file_name, edits, stats }
    }

    /// The diff between the texts `a` and `b` of the file `file_name`.
    ///
    /// `None` exactly where the two texts are equal. `TooLarge`, and only
    /// then, where they differ and hold more than `MAX_TOTAL_LINES` lines
    /// together.
    pub fn calculate(file_name: String, a: &str, b: &str) -> (r: Result<Option<Diff>, GitError>)
        ensures
            match r {
                Ok(None) => a@ == b@,
                Ok(Some(diff)) => {
                    &&& a@ != b@
                    &&& lines_of(a@).len() + lines_of(b@).len() <= MAX_TOTAL_LINES
                    &&& diff.file_name == file_name
                    &&& diff.turns(a@, b@)
                },
                Err(e) => {
                    &&& a@ != b@
                    &&& lines_of(a@).len() + lines_of(b@).len() > MAX_TOTAL_LINES
                    &&& e == GitError::TooLarge
                },
            },
    {
        let a_chars = chars_of(a);
        let b_chars = chars_of(b);
        if same_chars(&a_chars, &b_chars) {
            return Ok(None);
        }
        let a_lines = lines_of_chars(&a_chars);
        let b_lines = lines_of_chars(&b_chars);
        let ghost la = a_lines@;
        let ghost lb = b_lines@;
        let myers = Myers::new(a_lines, b_lines);
        match myers.diff() {
            Ok(edits) => {
                let stats = DiffStats::new(&edits);
                proof {
                    assert(is_shortest_script(edits@, la, lb));
                    if texts(la) != texts(lb) {
                        assert(line_views(la) == numbered(lines_of(a@)));
                    }
                }
                Ok(Some(Diff::new(file_name, edits, stats)))
            },
            Err(e) => Err(e),
        }
    }
}

/// Replaying a diff gives the two texts back: the old lines of its script,
/// joined with line feeds, are the old text, and its new lines the new
/// text, each but for the line feed that ends it.
///
/// This holds of texts without carriage returns, which the lines of a text
/// do not keep, and of texts that differ in more than how they end, for
/// which a diff has a script.
pub proof fn lemma_diff_reconstructs(diff: Diff, old: Seq<char>, new: Seq<char>)
    requires
        diff.turns(old, new),
        lines_of(old) != lines_of(new),
        no_carriage_return(old),
        no_carriage_return(new),
    ensures
        join_lines(texts(old_side(diff.edits@)), 0) == without_final_feed(old),
        join_lines(texts(new_side(diff.edits@)), 0) == without_final_feed(new),
{
    let a = old_side(diff.edits@);
    let b = new_side(diff.edits@);
    assert(texts(a) =~= lines_of(old)) by {
        assert(line_views(a).len() == numbered(lines_of(old)).len());
        assert forall|i: int| 0 <= i < a.len() implies texts(a)[i] == lines_of(old)[i] by {
            assert(line_views(a)[i] == numbered(lines_of(old))[i]);
        }
    }
    assert(texts(b) =~= lines_of(new)) by {
        assert(line_views(b).len() == numbered(lines_of(new)).len());
        assert forall|i: int| 0 <= i < b.len() implies texts(b)[i] == lines_of(new)[i] by {
            assert(line_views(b)[i] == numbered(lines_of(new))[i]);
        }
    }
    lemma_lines_rejoin(old);
    lemma_lines_rejoin(new);
}

/// Whether two sequences of characters are the same.
fn same_chars(a: &Vec<char>, b: &Vec<char>) -> (r: bool)
    ensures
        r == (a@ == b@),
{
    if a.len() != b.len() {
        return false;
    }
    let mut i: usize = 0;
    while i < a.len()
        invariant
            a.len() == b.len(),
            0 <= i <= a.len(),
            a@.subrange(0, i as int) == b@.subrange(0, i as int),
        decreases a.len() - i,
    {
        if a[i] != b[i] {
            return false;
        }
        proof {
            assert(a@.subrange(0, i + 1) =~= a@.subrange(0, i as int).push(a@[i as int]));
            assert(b@.subrange(0, i + 1) =~= b@.subrange(0, i as int).push(b@[i as int]));
        }
        i += 1;
    }
    proof {
        assert(a@.subrange(0, i as int) =~= a@);
        assert(b@.subrange(0, i as int) =~= b@);
    }
    true
}

// ---------------------------------------------------------------------
// Statistics of many diffs
// ---------------------------------------------------------------------

/// What changed in a set of files, in numbers.
#[derive(Debug, Clone, Copy, PartialEq, Eq, Structural)]
pub struct Stats {
    pub files_changed: usize,
    pub total_insertions: usize,
    pub total_deletions: usize,
}

impl Stats {
    /// The statistics with the given numbers.
    pub fn new(files_changed: usize, total_insertions: usize, total_deletions: usize) -> (r: Stats)
        ensures
            r.files_changed == files_changed,
            r.total_insertions == total_insertions,
            r.total_deletions == total_deletions,
    {
        Stats { files_changed, total_insertions, total_deletions }
    }
}

/// The insertions of all the diffs together.
pub open spec fn sum_insertions(diffs: Seq<Diff>) -> nat
    decreases diffs.len(),
{
    if diffs.len() == 0 {
        0
    } else {
        sum_insertions(diffs.drop_last()) + diffs.last().stats.insertions as nat
    }
}

/// The deletions of all the diffs together.
pub open spec fn sum_deletions(diffs: Seq<Diff>) -> nat
    decreases diffs.len(),
{
    if diffs.len() == 0 {
        0
    } else {
        sum_deletions(diffs.drop_last()) + diffs.last().stats.deletions as nat
    }
}

/// The statistics of a list of diffs: how many there are, and their
/// insertions and deletions added up.
///
/// Fails with `TooLarge`, and only then, where a sum does not fit the
/// machine's integers.
pub fn summarize(diffs: &Vec<Diff>) -> (r: Result<Stats, GitError>)
    ensures
        match r {
            Ok(stats) => {
                &&& stats.files_changed == diffs.len()
                &&& stats.total_insertions == sum_insertions(diffs@)
                &&& stats.total_deletions == sum_deletions(diffs@)
            },
            Err(e) => e == GitError::TooLarge && (sum_insertions(diffs@) > usize::MAX
                || sum_deletions(diffs@) > usize::MAX),
        },
{
    let mut total_insertions: usize = 0;
    let mut total_deletions: usize = 0;
    let mut i: usize = 0;
    while i < diffs.len()
        invariant
            0 <= i <= diffs.len(),
            total_insertions == sum_insertions(diffs@.subrange(0, i as int)),
            total_deletions == sum_deletions(diffs@.subrange(0, i as int)),
        decreases diffs.len() - i,
    {
        proof {
            assert(diffs@.subrange(0, i + 1).drop_last() =~= diffs@.subrange(0, i as int));
            lemma_sums_grow(diffs@, i + 1);
        }
        let insertions = diffs[i].stats.insertions;
        let deletions = diffs[i].stats.deletions;
        if insertions > usize::MAX - total_insertions || deletions > usize::MAX - total_deletions {
            return Err(GitError::TooLarge);
        }
        total_insertions += insertions;
        total_deletions += deletions;
        i += 1;
    }
    proof {
        assert(diffs@.subrange(0, i as int) =~= diffs@);
    }
    Ok(Stats::new(diffs.len(), total_insertions, total_deletions))
}

/// The sums over the first diffs are no larger than those over all.
proof fn lemma_sums_grow(diffs: Seq<Diff>, i: int)
    requires
        0 <= i <= diffs.len(),
    ensures
        sum_insertions(diffs.subrange(0, i)) <= sum_insertions(diffs),
        sum_deletions(diffs.subrange(0, i)) <= sum_deletions(diffs),
    decreases diffs.len() - i,
{
    if i == diffs.len() {
        assert(diffs.subrange(0, i) =~= diffs);
    } else {
        lemma_sums_grow(diffs, i + 1);
        assert(diffs.subrange(0, i + 1).drop_last() =~= diffs.subrange(0, i));
    }
}

// ---------------------------------------------------------------------
// What a script's statistics are, whatever script it is
// ---------------------------------------------------------------------

/// How many lines a shortest script inserts to turn `old` into `new`.
pub open spec fn insertions_between(old: Seq<char>, new: Seq<char>) -> int {
    (edit_distance(lines_of(old), lines_of(new)) + lines_of(new).len() - lines_of(old).len()) / 2
}

/// How many lines a shortest script deletes to turn `old` into `new`.
pub open spec fn deletions_between(old: Seq<char>, new: Seq<char>) -> int {
    (edit_distance(lines_of(old), lines_of(new)) + lines_of(old).len() - lines_of(new).len()) / 2
}

/// The insertions and the deletions of a script are its cost; an insertion
/// produces a line and consumes none, a deletion the other way round.
pub proof fn lemma_counts(edits: Seq<DiffEdit>)
    ensures
        cost(kinds(edits)) == count_of(edits, EditType::Ins) + count_of(edits, EditType::Del),
        produced(kinds(edits)) - consumed(kinds(edits)) == count_of(edits, EditType::Ins)
            - count_of(edits, EditType::Del),
    decreases edits.len(),
{
    if edits.len() > 0 {
        lemma_counts(edits.drop_last());
        assert(kinds(edits).drop_last() =~= kinds(edits.drop_last()));
        assert(kinds(edits).last() == edits.last().typ);
    } else {
        assert(kinds(edits) =~= Seq::<EditType>::empty());
    }
}

/// The statistics of a diff between two texts depend on the texts alone.
pub proof fn lemma_stats_of_diff(diff: Diff, old: Seq<char>, new: Seq<char>)
    requires
        diff.turns(old, new),
    ensures
        diff.stats.insertions == insertions_between(old, new),
        diff.stats.deletions == deletions_between(old, new),
{
    lemma_counts(diff.edits@);
    crate::myers::lemma_distance_zero(lines_of(old), lines_of(new));
    if lines_of(old) == lines_of(new) {
        assert(diff.edits@ =~= Seq::<DiffEdit>::empty());
    }
}

// ---------------------------------------------------------------------
// Diffs of many files
// ---------------------------------------------------------------------

/// One comparison that a view of the repository asks for: the file at
/// `path` had the text `old` and has the text `new`. A `blank` one stands
/// for a new file that is empty.
pub struct Job {
    pub path: Seq<char>,
    pub old: Seq<char>,
    pub new: Seq<char>,
    pub blank: bool,
}

impl Job {
    /// The comparison cannot be made: the two texts differ and hold too
    /// many lines together.
    pub open spec fn too_large(self) -> bool {
        !self.blank && self.old != self.new && lines_of(self.old).len() + lines_of(self.new).len()
            > MAX_TOTAL_LINES
    }

    /// The comparison leaves a diff behind: it is of a new empty file, or
    /// of two texts that differ.
    pub open spec fn counts(self) -> bool {
        self.blank || self.old != self.new
    }

    /// `diff` is the outcome of this comparison.
    pub open spec fn done_by(self, diff: Diff) -> bool {
        &&& diff.file_name@ == self.path
        &&& if self.blank {
            diff.wf() && diff.edits.len() == 0
        } else {
            diff.turns(self.old, self.new)
        }
    }

    /// The insertions of the diff that this comparison leaves behind.
    pub open spec fn insertions(self) -> int {
        if self.blank || !self.counts() {
            0
        } else {
            insertions_between(self.old, self.new)
        }
    }

    /// The deletions of the diff that this comparison leaves behind.
    pub open spec fn deletions(self) -> int {
        if self.blank || !self.counts() {
            0
        } else {
            deletions_between(self.old, self.new)
        }
    }
}

/// `diffs` are the outcomes of the comparisons `jobs`, in their order:
/// one diff for each comparison that leaves one behind.
pub open spec fn answers(diffs: Seq<Diff>, jobs: Seq<Option<Job>>) -> bool
    decreases jobs.len(),
{
    if jobs.len() == 0 {
        diffs.len() == 0
    } else {
        match jobs.last() {
            Some(job) => if job.counts() {
                diffs.len() > 0 && answers(diffs.drop_last(), jobs.drop_last()) && job.done_by(
                    diffs.last(),
                )
            } else {
                answers(diffs, jobs.drop_last())
            },
            None => answers(diffs, jobs.drop_last()),
        }
    }
}

/// One of the comparisons cannot be made.
pub open spec fn any_too_large(jobs: Seq<Option<Job>>) -> bool {
    exists|i: int| 0 <= i < jobs.len() && (#[trigger] jobs[i]) is Some && jobs[i].unwrap().too_large()
}

/// The insertions that the comparisons leave behind, added up.
pub open spec fn jobs_insertions(jobs: Seq<Option<Job>>) -> int
    decreases jobs.len(),
{
    if jobs.len() == 0 {
        0
    } else {
        jobs_insertions(jobs.drop_last()) + match jobs.last() {
            Some(job) => job.insertions(),
            None => 0,
        }
    }
}

/// The deletions that the comparisons leave behind, added up.
pub open spec fn jobs_deletions(jobs: Seq<Option<Job>>) -> int
    decreases jobs.len(),
{
    if jobs.len() == 0 {
        0
    } else {
        jobs_deletions(jobs.drop_last()) + match jobs.last() {
            Some(job) => job.deletions(),
            None => 0,
        }
    }
}

/// The sums over the diffs are the sums over the comparisons.
pub proof fn lemma_answers_sums(diffs: Seq<Diff>, jobs: Seq<Option<Job>>)
    requires
        answers(diffs, jobs),
    ensures
        sum_insertions(diffs) == jobs_insertions(jobs),
        sum_deletions(diffs) == jobs_deletions(jobs),
    decreases jobs.len(),
{
    if jobs.len() > 0 {
        match jobs.last() {
            Some(job) => {
                if job.counts() {
                    lemma_answers_sums(diffs.drop_last(), jobs.drop_last());
                    if job.blank {
                        assert(diffs.last().edits@ =~= Seq::<DiffEdit>::empty());
                    } else {
                        lemma_stats_of_diff(diffs.last(), job.old, job.new);
                    }
                } else {
                    lemma_answers_sums(diffs, jobs.drop_last());
                }
            },
            None => {
                lemma_answers_sums(diffs, jobs.drop_last());
            },
        }
    }
}

/// What a view of the repository owes for the comparisons `jobs`: the
/// diffs that they leave behind with their statistics; or `TooLarge`,
/// where a comparison cannot be made or a sum does not fit the machine's
/// integers.
pub open spec fn outcome_of(r: Result<(Vec<Diff>, Stats), GitError>, jobs: Seq<Option<Job>>) -> bool {
    match r {
        Ok((diffs, stats)) => {
            &&& !any_too_large(jobs)
            &&& answers(diffs@, jobs)
            &&& stats.files_changed == diffs.len()
            &&& stats.total_insertions == sum_insertions(diffs@) == jobs_insertions(jobs)
            &&& stats.total_deletions == sum_deletions(diffs@) == jobs_deletions(jobs)
        },
        Err(e) => {
            &&& e == GitError::TooLarge
            &&& any_too_large(jobs) || jobs_insertions(jobs) > usize::MAX || jobs_deletions(jobs)
                > usize::MAX
        },
    }
}

/// Makes the comparison `job` and adds what it leaves behind to `diffs`.
fn run_job(
    diffs: &mut Vec<Diff>,
    Ghost(jobs): Ghost<Seq<Option<Job>>>,
    path: String,
    a: &str,
    b: &str,
    blank: bool,
) -> (r: Result<(), GitError>)
    requires
        answers(old(diffs)@, jobs),
    ensures
        match r {
            Ok(()) => answers(
                final(diffs)@,
                jobs.push(Some(Job { path: path@, old: a@, new: b@, blank })),
            ) && !(Job { path: path@, old: a@, new: b@, blank }).too_large(),
            Err(e) => e == GitError::TooLarge && (Job {
                path: path@,
                old: a@,
                new: b@,
                blank,
            }).too_large(),
        },
{
    let ghost job = Job { path: path@, old: a@, new: b@, blank };
    let ghost before = diffs@;
    proof {
        assert(jobs.push(Some(job)).drop_last() =~= jobs);
    }
    if blank {
        let edits: Vec<DiffEdit> = Vec::new();
        proof {
            assert(count_of(edits@, EditType::Ins) == 0);
            assert(count_of(edits@, EditType::Del) == 0);
        }
        diffs.push(Diff::new(path, edits, DiffStats::default()));
        proof {
            assert(diffs@.drop_last() =~= before);
        }
        return Ok(());
    }
    match Diff::calculate(path, a, b) {
        Ok(Some(diff)) => {
            diffs.push(diff);
            proof {
                assert(diffs@.drop_last() =~= before);
            }
            Ok(())
        },
        Ok(None) => Ok(()),
        Err(e) => Err(e),
    }
}

/// Passes over something that asks for no comparison.
proof fn lemma_skip(diffs: Seq<Diff>, jobs: Seq<Option<Job>>)
    requires
        answers(diffs, jobs),
    ensures
        answers(diffs, jobs.push(None)),
{
    assert(jobs.push(None).drop_last() =~= jobs);
}

/// The last of `files` that lies at `path`, if any.
pub open spec fn lookup(files: Seq<FileBlob>, path: Seq<char>) -> Option<int>
    decreases files.len(),
{
    if files.len() == 0 {
        None
    } else if files.last().path@ == path {
        Some(files.len() - 1)
    } else {
        lookup(files.drop_last(), path)
    }
}

/// The place in `files` of the last file that lies at `path`.
fn find_blob(files: &Vec<FileBlob>, path: &String) -> (r: Option<usize>)
    ensures
        match lookup(files@, path@) {
            Some(i) => r == Some(i as usize) && 0 <= i < files.len(),
            None => r is None,
        },
{
    let mut n: usize = files.len();
    proof {
        assert(files@.subrange(0, n as int) =~= files@);
    }
    while n > 0
        invariant
            0 <= n <= files.len(),
            lookup(files@, path@) == lookup(files@.subrange(0, n as int), path@),
        decreases n,
    {
        proof {
            assert(files@.subrange(0, n as int).drop_last() =~= files@.subrange(0, n - 1));
        }
        if files[n - 1].path == *path {
            return Some(n - 1);
        }
        n -= 1;
    }
    proof {
        assert(files@.subrange(0, 0) =~= Seq::<FileBlob>::empty());
        assert(files@.subrange(0, files.len() as int) =~= files@);
    }
    None
}

/// The comparison that the staged entry `entry` asks for, in the project
/// at `project`, against the committed files `committed`.
///
/// None where the staged content is no text, or the committed content is
/// none. Else the committed text against the staged one; for a path that
/// is not committed, nothing against the staged text.
pub open spec fn staged_job(project: Seq<char>, committed: Seq<FileBlob>, entry: IndexEntry) -> Option<
    Job,
> {
    let path = joined(project, entry.name@);
    if !valid_utf8(entry.blob@) {
        None
    } else {
        match lookup(committed, path) {
            Some(i) => if valid_utf8(committed[i].content@) {
                Some(
                    Job {
                        path,
                        old: decode_utf8(committed[i].content@),
                        new: decode_utf8(entry.blob@),
                        blank: false,
                    },
                )
            } else {
                None
            },
            None => Some(
                Job {
                    path,
                    old: Seq::empty(),
                    new: decode_utf8(entry.blob@),
                    blank: decode_utf8(entry.blob@).len() == 0,
                },
            ),
        }
    }
}

/// The comparisons that the staged entries ask for.
pub open spec fn staged_jobs(project: Seq<char>, committed: Seq<FileBlob>, staged: Seq<IndexEntry>) -> Seq<
    Option<Job>,
> {
    Seq::new(staged.len(), |i: int| staged_job(project, committed, staged[i]))
}

/// What is staged for the next commit: each staged entry against the
/// committed file at its path, in the entries' order, and the statistics of
/// the diffs.
pub fn get_staged_diffs(project_path: &str, committed: &Vec<FileBlob>, staged: &Vec<IndexEntry>) -> (r:
    Result<(Vec<Diff>, Stats), GitError>)
    ensures
        outcome_of(r, staged_jobs(project_path@, committed@, staged@)),
{
    let ghost all = staged_jobs(project_path@, committed@, staged@);
    let mut diffs: Vec<Diff> = Vec::new();
    let mut i: usize = 0;
    while i < staged.len()
        invariant
            0 <= i <= staged.len(),
            all == staged_jobs(project_path@, committed@, staged@),
            answers(diffs@, all.subrange(0, i as int)),
            forall|j: int| 0 <= j < i ==> !((#[trigger] all[j]) is Some && all[j].unwrap().too_large()),
        decreases staged.len() - i,
    {
        let entry = &staged[i];
        let ghost done = all.subrange(0, i as int);
        let ghost job = all[i as int];
        proof {
            reveal_strlit("");
            assert(""@ =~= Seq::<char>::empty());
            assert(all.subrange(0, i + 1) =~= done.push(job));
            assert(job == staged_job(project_path@, committed@, staged[i as int]));
            lemma_skip(diffs@, done);
        }
        let path = join_path(project_path, entry.name.as_str());
        let staged_bytes = entry.blob.clone();
        assert(staged_bytes@ =~= entry.blob@);
        let outcome = match string_from_utf8(staged_bytes) {
            Some(new) => {
                match find_blob(committed, &path) {
                    Some(at) => {
                        let committed_bytes = committed[at].content.clone();
                        assert(committed_bytes@ =~= committed[at as int].content@);
                        match string_from_utf8(committed_bytes) {
                            Some(old) => {
                                assert(job == Some(
                                    Job { path: path@, old: old@, new: new@, blank: false },
                                ));
                                let ran = run_job(
                                    &mut diffs,
                                    Ghost(done),
                                    path,
                                    old.as_str(),
                                    new.as_str(),
                                    false,
                                );
                                ran
                            },
                            None => {
                                assert(job is None);
                                Ok(())
                            },
                        }
                    },
                    None => {
                        let blank = new.as_str().is_empty();
                        assert(job == Some(
                            Job { path: path@, old: Seq::empty(), new: new@, blank },
                        ));
                        let ran = run_job(&mut diffs, Ghost(done), path, "", new.as_str(), blank);
                        ran
                    },
                }
            },
            None => {
                assert(job is None);
                Ok(())
            },
        };
        match outcome {
            Ok(()) => {},
            Err(e) => {
                proof {
                    assert(all[i as int] is Some && all[i as int].unwrap().too_large());
                }
                return Err(e);
            },
        }
        i += 1;
    }
    proof {
        assert(all.subrange(0, i as int) =~= all);
        lemma_answers_sums(diffs@, all);
    }
    match summarize(&diffs) {
        Ok(stats) => Ok((diffs, stats)),
        Err(e) => Err(e),
    }
}

/// A file of the working directory: where it lies and, where it can be
/// read as text, what it holds.
#[derive(Debug, PartialEq, Eq)]
pub struct WorkFile {
    pub path: String,
    pub content: Option<String>,
}

/// Whether one of the staged diffs is of the file at `path`.
pub open spec fn is_staged(staged: Seq<Diff>, path: Seq<char>) -> bool {
    exists|i: int| 0 <= i < staged.len() && (#[trigger] staged[i]).file_name@ == path
}

/// Whether one of the staged diffs is of the file at `path`.
fn has_staged(staged: &Vec<Diff>, path: &String) -> (r: bool)
    ensures
        r == is_staged(staged@, path@),
{
    let mut i: usize = 0;
    while i < staged.len()
        invariant
            0 <= i <= staged.len(),
            forall|j: int| 0 <= j < i ==> (#[trigger] staged[j]).file_name@ != path@,
        decreases staged.len() - i,
    {
        if staged[i].file_name == *path {
            return true;
        }
        i += 1;
    }
    false
}

/// The last of `files` that lies at `path`, if any.
pub open spec fn lookup_work(files: Seq<WorkFile>, path: Seq<char>) -> Option<int>
    decreases files.len(),
{
    if files.len() == 0 {
        None
    } else if files.last().path@ == path {
        Some(files.len() - 1)
    } else {
        lookup_work(files.drop_last(), path)
    }
}

/// The place in `files` of the last file that lies at `path`.
fn find_work(files: &Vec<WorkFile>, path: &String) -> (r: Option<usize>)
    ensures
        match lookup_work(files@, path@) {
            Some(i) => r == Some(i as usize) && 0 <= i < files.len(),
            None => r is None,
        },
{
    let mut n: usize = files.len();
    proof {
        assert(files@.subrange(0, n as int) =~= files@);
    }
    while n > 0
        invariant
            0 <= n <= files.len(),
            lookup_work(files@, path@) == lookup_work(files@.subrange(0, n as int), path@),
        decreases n,
    {
        proof {
            assert(files@.subrange(0, n as int).drop_last() =~= files@.subrange(0, n - 1));
        }
        if files[n - 1].path == *path {
            return Some(n - 1);
        }
        n -= 1;
    }
    proof {
        assert(files@.subrange(0, 0) =~= Seq::<WorkFile>::empty());
    }
    None
}

/// The comparison that the working file `file` asks for: none where it is
/// committed, staged or unreadable; else nothing against its text.
pub open spec fn untracked_job(committed: Seq<FileBlob>, staged: Seq<Diff>, file: WorkFile) -> Option<
    Job,
> {
    if lookup(committed, file.path@) is Some || is_staged(staged, file.path@) {
        None
    } else {
        match file.content {
            Some(text) => Some(
                Job { path: file.path@, old: Seq::empty(), new: text@, blank: text@.len() == 0 },
            ),
            None => None,
        }
    }
}

/// The comparison that the committed file `file` asks for: none where its
/// content is no text, it is staged, or the working directory holds no
/// readable file at its path; else its text against the working one.
pub open spec fn tracked_job(working: Seq<WorkFile>, staged: Seq<Diff>, file: FileBlob) -> Option<
    Job,
> {
    if !valid_utf8(file.content@) || is_staged(staged, file.path@) {
        None
    } else {
        match lookup_work(working, file.path@) {
            Some(i) => match working[i].content {
                Some(text) => Some(
                    Job {
                        path: file.path@,
                        old: decode_utf8(file.content@),
                        new: text@,
                        blank: false,
                    },
                ),
                None => None,
            },
            None => None,
        }
    }
}

/// The comparisons that the working directory asks for: first those of its
/// files that are not committed, then those of the committed files.
pub open spec fn modified_jobs(committed: Seq<FileBlob>, working: Seq<WorkFile>, staged: Seq<Diff>) -> Seq<
    Option<Job>,
> {
    Seq::new(working.len(), |i: int| untracked_job(committed, staged, working[i])) + Seq::new(
        committed.len(),
        |i: int| tracked_job(working, staged, committed[i]),
    )
}

/// What is modified and not staged: each working file that is not
/// committed against nothing, then each committed file against the working
/// file at its path, without the files that `staged` holds a diff of; and
/// the statistics of the diffs.
pub fn get_diffs(committed: &Vec<FileBlob>, working: &Vec<WorkFile>, staged: &Vec<Diff>) -> (r: Result<
    (Vec<Diff>, Stats),
    GitError,
>)
    ensures
        outcome_of(r, modified_jobs(committed@, working@, staged@)),
{
    let ghost all = modified_jobs(committed@, working@, staged@);
    let ghost first = Seq::new(
        working.len() as nat,
        |i: int| untracked_job(committed@, staged@, working@[i]),
    );
    let ghost second = Seq::new(
        committed.len() as nat,
        |i: int| tracked_job(working@, staged@, committed@[i]),
    );
    let mut diffs: Vec<Diff> = Vec::new();
    let mut i: usize = 0;
    proof {
        reveal_strlit("");
        assert(""@ =~= Seq::<char>::empty());
    }
    while i < working.len()
        invariant
            0 <= i <= working.len(),
            all == modified_jobs(committed@, working@, staged@),
            all.len() == working.len() + committed.len(),
            all == first + second,
            first == Seq::new(
                working.len() as nat,
                |i: int| untracked_job(committed@, staged@, working@[i]),
            ),
            ""@ == Seq::<char>::empty(),
            answers(diffs@, all.subrange(0, i as int)),
            forall|j: int| 0 <= j < i ==> !((#[trigger] all[j]) is Some && all[j].unwrap().too_large()),
        decreases working.len() - i,
    {
        let file = &working[i];
        let ghost done = all.subrange(0, i as int);
        let ghost job = all[i as int];
        proof {
            assert(all.subrange(0, i + 1) =~= done.push(job));
            assert(job == untracked_job(committed@, staged@, working@[i as int]));
            lemma_skip(diffs@, done);
        }
        let outcome = if find_blob(committed, &file.path).is_some() || has_staged(
            staged,
            &file.path,
        ) {
            Ok(())
        } else {
            match &file.content {
                Some(text) => {
                    let blank = text.as_str().is_empty();
                    assert(job == Some(
                        Job { path: file.path@, old: Seq::empty(), new: text@, blank },
                    ));
                    run_job(&mut diffs, Ghost(done), file.path.clone(), "", text.as_str(), blank)
                },
                None => Ok(()),
            }
        };
        match outcome {
            Ok(()) => {},
            Err(e) => {
                proof {
                    assert(all[i as int] is Some && all[i as int].unwrap().too_large());
                }
                return Err(e);
            },
        }
        i += 1;
    }
    let mut k: usize = 0;
    while k < committed.len()
        invariant
            0 <= k <= committed.len(),
            all == modified_jobs(committed@, working@, staged@),
            all.len() == working.len() + committed.len(),
            all == first + second,
            first.len() == working.len(),
            second == Seq::new(
                committed.len() as nat,
                |i: int| tracked_job(working@, staged@, committed@[i]),
            ),
            answers(diffs@, all.subrange(0, working.len() + k)),
            forall|j: int|
                0 <= j < working.len() + k ==> !((#[trigger] all[j]) is Some
                    && all[j].unwrap().too_large()),
        decreases committed.len() - k,
    {
        let file = &committed[k];
        let ghost done = all.subrange(0, working.len() + k);
        let ghost job = all[working.len() + k];
        proof {
            assert(all.subrange(0, working.len() + k + 1) =~= done.push(job));
            assert(job == second[k as int]);
            assert(job == tracked_job(working@, staged@, committed@[k as int]));
            lemma_skip(diffs@, done);
        }
        let bytes = file.content.clone();
        assert(bytes@ =~= file.content@);
        let outcome = match string_from_utf8(bytes) {
            Some(old) => {
                if has_staged(staged, &file.path) {
                    Ok(())
                } else {
                    match find_work(working, &file.path) {
                        Some(at) => match &working[at].content {
                            Some(text) => {
                                assert(job == Some(
                                    Job {
                                        path: file.path@,
                                        old: old@,
                                        new: text@,
                                        blank: false,
                                    },
                                ));
                                run_job(
                                    &mut diffs,
                                    Ghost(done),
                                    file.path.clone(),
                                    old.as_str(),
                                    text.as_str(),
                                    false,
                                )
                            },
                            None => Ok(()),
                        },
                        None => Ok(()),
                    }
                }
            },
            None => Ok(()),
        };
        match outcome {
            Ok(()) => {},
            Err(e) => {
                proof {
                    assert(all[working.len() + k] is Some && all[working.len() + k].unwrap().too_large());
                }
                return Err(e);
            },
        }
        k += 1;
    }
    proof {
        assert(all.subrange(0, working.len() + k) =~= all);
        lemma_answers_sums(diffs@, all);
    }
    match summarize(&diffs) {
        Ok(stats) => Ok((diffs, stats)),
        Err(e) => Err(e),
    }
}

} // verus!
