//! Commits: who made them, when, on top of what, and why.

use vstd::prelude::*;
use crate::diff::{lines_of, lines_of_chars};
use crate::error::GitError;
use crate::myers::texts;
use vstd::utf8::{decode_utf8, valid_utf8};
use crate::object::{get_bytes, stored_object, stored_view, ObjectKind};
use crate::text::{
    all_digits, chars_of, digits_value, field_of, find_char, first_at, get_field, has_prefix,
    contains_chars, i64_of, join_lines, lowercase_of, occurs_in, parse_digits, parse_i64,
    push_chars, starts_with, string_from_utf8, string_of, sub_chars, to_lowercase,
};
use crate::time::{is_offset, is_timestamp, offset_in_range, timestamp_representable};

verus! {

/// An instant with the offset of the clock that recorded it: seconds since
/// the start of 1970 in UTC, and the clock's seconds east of UTC.
#[derive(Debug, Clone, Copy, PartialEq, Eq, Structural)]
pub struct Timestamp {
    pub seconds: i64,
    pub offset: i32,
}

/// Someone who wrote or recorded a commit, and when.
#[derive(Debug, PartialEq, Eq)]
pub struct Author {
    pub name: String,
    pub timestamp: Timestamp,
}

/// An author as contracts see one.
pub struct AuthorView {
    pub name: Seq<char>,
    pub timestamp: Timestamp,
}

impl View for Author {
    type V = AuthorView;

    open spec fn view(&self) -> AuthorView {
        AuthorView { name: self.name@, timestamp: self.timestamp }
    }
}

/// One commit.
#[derive(Debug, PartialEq, Eq)]
pub struct Commit {
    pub hash: String,
    pub tree: String,
    pub parents: Vec<String>,
    pub author: Author,
    pub commiter: Author,
    pub message: String,
}

/// A commit as contracts see one, but for its own hash.
pub struct CommitView {
    pub tree: Seq<char>,
    pub parents: Seq<Seq<char>>,
    pub author: AuthorView,
    pub commiter: AuthorView,
    pub message: Seq<char>,
}

/// The texts of a list of strings.
pub open spec fn strings_view(v: Seq<String>) -> Seq<Seq<char>> {
    Seq::new(v.len(), |i: int| v[i]@)
}

impl View for Commit {
    type V = CommitView;

    open spec fn view(&self) -> CommitView {
        CommitView {
            tree: self.tree@,
            parents: strings_view(self.parents@),
            author: self.author@,
            commiter: self.commiter@,
            message: self.message@,
        }
    }
}

// ---------------------------------------------------------------------
// The person lines
// ---------------------------------------------------------------------

/// The seconds east of UTC that the zone `z` names: a sign, two digits of
/// hours and two of minutes.
pub open spec fn zone_of(z: Seq<char>) -> Option<int> {
    if z.len() == 5 && (z[0] == '+' || z[0] == '-') && all_digits(z.subrange(1, 5)) {
        let size = digits_value(z.subrange(1, 3)) * 3600 + digits_value(z.subrange(3, 5)) * 60;
        Some(
            if z[0] == '-' {
                -size
            } else {
                size as int
            },
        )
    } else {
        None
    }
}

/// What stands behind the name and address of a person line: from two
/// characters behind the `>` on.
pub open spec fn after_address(s: Seq<char>) -> Seq<char> {
    let gt = first_at(s, '>', 0);
    if gt + 2 <= s.len() {
        s.subrange(gt + 2, s.len() as int)
    } else {
        Seq::empty()
    }
}

/// The person that the text `s` names: a name and an address that ends in
/// `>`, the seconds since 1970, and a zone. `None` where `s` lacks one of
/// them, or the calendar cannot hold the instant or the zone.
pub open spec fn person_of(s: Seq<char>) -> Option<AuthorView> {
    let gt = first_at(s, '>', 0);
    let rest = after_address(s);
    if gt >= s.len() {
        None
    } else if i64_of(field_of(rest, ' ', 0).unwrap()) is None {
        None
    } else if !timestamp_representable(i64_of(field_of(rest, ' ', 0).unwrap()).unwrap(), 0) {
        None
    } else if field_of(rest, ' ', 1) is None {
        None
    } else if zone_of(field_of(rest, ' ', 1).unwrap()) is None {
        None
    } else if !offset_in_range(zone_of(field_of(rest, ' ', 1).unwrap()).unwrap()) {
        None
    } else {
        Some(
            AuthorView {
                name: s.subrange(0, gt + 1),
                timestamp: Timestamp {
                    seconds: i64_of(field_of(rest, ' ', 0).unwrap()).unwrap(),
                    offset: zone_of(field_of(rest, ' ', 1).unwrap()).unwrap() as i32,
                },
            },
        )
    }
}

/// The seconds east of UTC that the zone `z` names.
fn parse_zone(z: &Vec<char>) -> (r: Option<i32>)
    ensures
        match zone_of(z@) {
            Some(secs) => r == Some(secs as i32) && -400_000 < secs < 400_000,
            None => r is None,
        },
{
    if z.len() != 5 {
        return None;
    }
    let sign = z[0];
    if sign != '+' && sign != '-' {
        return None;
    }
    let hours = parse_digits(z, 1, 3, 99);
    let minutes = parse_digits(z, 3, 5, 99);
    proof {
        let digits = z@.subrange(1, 5);
        assert(z@.subrange(1, 3) =~= digits.subrange(0, 2));
        assert(z@.subrange(3, 5) =~= digits.subrange(2, 4));
        if all_digits(digits) {
            assert forall|i: int| 0 <= i < 2 implies crate::text::is_digit(
                #[trigger] z@.subrange(1, 3)[i],
            ) by {
                assert(digits[i] == z@.subrange(1, 3)[i]);
            }
            assert forall|i: int| 0 <= i < 2 implies crate::text::is_digit(
                #[trigger] z@.subrange(3, 5)[i],
            ) by {
                assert(digits[i + 2] == z@.subrange(3, 5)[i]);
            }
            lemma_two_digits(z@.subrange(1, 3));
            lemma_two_digits(z@.subrange(3, 5));
        }
        if all_digits(z@.subrange(1, 3)) && all_digits(z@.subrange(3, 5)) {
            assert forall|i: int| 0 <= i < 4 implies crate::text::is_digit(#[trigger] digits[i]) by {
                if i < 2 {
                    assert(digits[i] == z@.subrange(1, 3)[i]);
                } else {
                    assert(digits[i] == z@.subrange(3, 5)[i - 2]);
                }
            }
        }
    }
    match (hours, minutes) {
        (Some(h), Some(m)) => {
            let size: i32 = (h as i32) * 3600 + (m as i32) * 60;
            if sign == '-' {
                Some(-size)
            } else {
                Some(size)
            }
        },
        _ => None,
    }
}

/// Two digits write a number below a hundred.
proof fn lemma_two_digits(s: Seq<char>)
    requires
        s.len() == 2,
        all_digits(s),
    ensures
        digits_value(s) <= 99,
{
    let one = s.drop_last();
    assert(one.drop_last() =~= Seq::<char>::empty());
    assert(digits_value(one.drop_last()) == 0);
    assert(crate::text::is_digit(s[0]));
    assert(crate::text::is_digit(s[1]));
    assert(one.last() == s[0]);
    assert(digits_value(one) <= 9);
}

impl Author {
    /// The person that a person line names, given the line without its
    /// keyword.
    ///
    /// Fails with `MalformedCommit` where the line names none.
    pub fn new(line: &str) -> (r: Result<Author, GitError>)
        ensures
            match person_of(line@) {
                Some(person) => r matches Ok(author) && author@ == person,
                None => r == Err::<Author, GitError>(GitError::MalformedCommit),
            },
    {
        let chars = chars_of(line);
        Author::from_chars(&chars)
    }

    /// The person that the characters of a person line name.
    fn from_chars(chars: &Vec<char>) -> (r: Result<Author, GitError>)
        ensures
            match person_of(chars@) {
                Some(person) => r matches Ok(author) && author@ == person,
                None => r == Err::<Author, GitError>(GitError::MalformedCommit),
            },
    {
        let gt = find_char(chars, '>', 0);
        if gt >= chars.len() {
            return Err(GitError::MalformedCommit);
        }
        let rest = if chars.len() - gt >= 2 {
            sub_chars(chars, gt + 2, chars.len())
        } else {
            Vec::new()
        };
        assert(rest@ == after_address(chars@));
        let stamp = match get_field(&rest, ' ', 0) {
            Some(stamp) => stamp,
            None => {
                return Err(GitError::MalformedCommit);
            },
        };
        let seconds = match parse_i64(&stamp) {
            Some(seconds) => seconds,
            None => {
                return Err(GitError::MalformedCommit);
            },
        };
        if !is_timestamp(seconds, 0) {
            return Err(GitError::MalformedCommit);
        }
        let zone = match get_field(&rest, ' ', 1) {
            Some(zone) => zone,
            None => {
                return Err(GitError::MalformedCommit);
            },
        };
        let offset = match parse_zone(&zone) {
            Some(offset) => offset,
            None => {
                return Err(GitError::MalformedCommit);
            },
        };
        if !is_offset(offset) {
            return Err(GitError::MalformedCommit);
        }
        Ok(Author { name: string_of(chars, 0, gt + 1), timestamp: Timestamp { seconds, offset } })
    }
}

// ---------------------------------------------------------------------
// The commit
// ---------------------------------------------------------------------

/// Where the run of lines that begin with `prefix` ends, the run starting
/// at line `from`.
pub open spec fn run_of(lines: Seq<Seq<char>>, prefix: Seq<char>, from: int) -> int
    decreases lines.len() - from,
{
    if 0 <= from < lines.len() && starts_with(lines[from], prefix) {
        run_of(lines, prefix, from + 1)
    } else {
        from
    }
}

/// The first line from `from` on and before `to` that begins with `prefix`,
/// or `to` where there is none.
pub open spec fn first_with(lines: Seq<Seq<char>>, prefix: Seq<char>, from: int, to: int) -> int
    decreases to - from,
{
    if from >= to || (0 <= from < lines.len() && starts_with(lines[from], prefix)) {
        from
    } else {
        first_with(lines, prefix, from + 1, to)
    }
}

/// The first empty line from `from` on, or the number of lines where there
/// is none.
pub open spec fn first_blank(lines: Seq<Seq<char>>, from: int) -> int
    decreases lines.len() - from,
{
    if from >= lines.len() || (0 <= from && lines[from].len() == 0) {
        from
    } else {
        first_blank(lines, from + 1)
    }
}

/// Where the lines about parents end: they follow the first line.
pub open spec fn parents_end(lines: Seq<Seq<char>>) -> int {
    run_of(lines, "parent "@, 1)
}

/// Where the header ends: at the first empty line behind the parents.
pub open spec fn header_end(lines: Seq<Seq<char>>) -> int {
    first_blank(lines, parents_end(lines))
}

/// The line that names the author: the first of the header, behind the
/// parents, that begins with `author `.
pub open spec fn author_line(lines: Seq<Seq<char>>) -> int {
    first_with(lines, "author "@, parents_end(lines), header_end(lines))
}

/// The line that names the committer: the first of the header, behind the
/// author, that begins with `committer `.
pub open spec fn commiter_line(lines: Seq<Seq<char>>) -> int {
    first_with(lines, "committer "@, author_line(lines) + 1, header_end(lines))
}

/// The hashes that the lines `lines[1..end]` name, or `None` where one of
/// them names none.
pub open spec fn parents_of(lines: Seq<Seq<char>>, end: int) -> Option<Seq<Seq<char>>>
    decreases end,
{
    if end <= 1 {
        Some(Seq::empty())
    } else if parents_of(lines, end - 1) is None || field_of(lines[end - 1], ' ', 1) is None {
        None
    } else {
        Some(parents_of(lines, end - 1).unwrap().push(field_of(lines[end - 1], ' ', 1).unwrap()))
    }
}

/// The commit that the text `content` describes, or `None` where it
/// describes none.
///
/// The first line names the tree. Lines that name parents follow, then the
/// rest of the header, in which one line names the author and a later one
/// the committer; other lines of the header are passed over. Behind the
/// first empty line stands the message.
pub open spec fn commit_of(content: Seq<char>) -> Option<CommitView> {
    let lines = lines_of(content);
    if lines.len() == 0 || !starts_with(lines[0], "tree "@) || field_of(lines[0], ' ', 1) is None {
        None
    } else if parents_of(lines, parents_end(lines)) is None {
        None
    } else if author_line(lines) >= header_end(lines) || commiter_line(lines) >= header_end(lines) {
        None
    } else if person_of(
        lines[author_line(lines)].subrange(7, lines[author_line(lines)].len() as int),
    ) is None || person_of(
        lines[commiter_line(lines)].subrange(10, lines[commiter_line(lines)].len() as int),
    ) is None {
        None
    } else {
        Some(
            CommitView {
                tree: field_of(lines[0], ' ', 1).unwrap(),
                parents: parents_of(lines, parents_end(lines)).unwrap(),
                author: person_of(
                    lines[author_line(lines)].subrange(7, lines[author_line(lines)].len() as int),
                ).unwrap(),
                commiter: person_of(
                    lines[commiter_line(lines)].subrange(
                        10,
                        lines[commiter_line(lines)].len() as int,
                    ),
                ).unwrap(),
                message: join_lines(lines, header_end(lines) + 1),
            },
        )
    }
}

/// The commit that is stored as `stored`, or why there is none.
pub open spec fn stored_commit(stored: Option<Seq<u8>>) -> Result<CommitView, GitError> {
    match stored_object(stored, Some(ObjectKind::Commit)) {
        Err(e) => Err(e),
        Ok((_, content)) => if !valid_utf8(content) {
            Err(GitError::NonUtf8Content)
        } else {
            match commit_of(decode_utf8(content)) {
                Some(view) => Ok(view),
                None => Err(GitError::MalformedCommit),
            }
        },
    }
}

/// The characters of each row.
pub open spec fn rows_view(rows: Seq<Vec<char>>) -> Seq<Seq<char>> {
    Seq::new(rows.len(), |i: int| rows[i]@)
}

/// The lines of `chars`, each as its characters.
fn split_lines(chars: &Vec<char>) -> (rows: Vec<Vec<char>>)
    ensures
        rows_view(rows@) == lines_of(chars@),
{
    let lines = lines_of_chars(chars);
    let mut rows: Vec<Vec<char>> = Vec::new();
    let mut i: usize = 0;
    while i < lines.len()
        invariant
            0 <= i <= lines.len(),
            rows.len() == i,
            texts(lines@) == lines_of(chars@),
            forall|j: int| 0 <= j < i ==> (#[trigger] rows[j])@ == lines[j].text@,
        decreases lines.len() - i,
    {
        rows.push(chars_of(lines[i].text.as_str()));
        i += 1;
    }
    proof {
        assert(rows_view(rows@) =~= texts(lines@));
    }
    rows
}

/// Whether `chars` begins with the characters of `prefix`.
fn begins_with(chars: &Vec<char>, prefix: &str) -> (r: bool)
    ensures
        r == starts_with(chars@, prefix@),
{
    proof {
        assert(chars@.subrange(0, chars.len() as int) =~= chars@);
    }
    has_prefix(chars, 0, chars.len(), prefix)
}

/// The string of the characters `chars`.
fn string_from(chars: &Vec<char>) -> (s: String)
    ensures
        s@ == chars@,
{
    proof {
        assert(chars@.subrange(0, chars.len() as int) =~= chars@);
    }
    string_of(chars, 0, chars.len())
}

/// The first row from `from` on and before `to` that begins with `prefix`,
/// or `to` where there is none.
fn find_line(rows: &Vec<Vec<char>>, prefix: &str, from: usize, to: usize) -> (r: usize)
    requires
        from <= to <= rows.len() || to <= from,
        to <= rows.len(),
    ensures
        r == first_with(rows_view(rows@), prefix@, from as int, to as int),
        from <= r,
        from <= to ==> r <= to,
{
    let mut at: usize = from;
    while at < to && !begins_with(&rows[at], prefix)
        invariant
            from <= at,
            to <= rows.len(),
            from <= to ==> at <= to,
            first_with(rows_view(rows@), prefix@, at as int, to as int) == first_with(
                rows_view(rows@),
                prefix@,
                from as int,
                to as int,
            ),
        decreases to - at,
    {
        at += 1;
    }
    at
}

/// The rows from `from` on with a line feed between each two.
fn join_rows(rows: &Vec<Vec<char>>, from: usize) -> (s: String)
    ensures
        s@ == join_lines(rows_view(rows@), from as int),
{
    let ghost lines = rows_view(rows@);
    let mut s = String::new();
    if from >= rows.len() {
        return s;
    }
    let mut i: usize = from;
    while i < rows.len()
        invariant
            from <= i <= rows.len(),
            from < rows.len(),
            lines == rows_view(rows@),
            join_lines(lines, from as int) == s@ + if i >= rows.len() {
                Seq::<char>::empty()
            } else if i == from {
                join_lines(lines, i as int)
            } else {
                seq!['\n'] + join_lines(lines, i as int)
            },
        decreases rows.len() - i,
    {
        let ghost before = s@;
        if i > from {
            s.push('\n');
        }
        push_chars(&mut s, &rows[i]);
        proof {
            assert(lines[i as int] == rows[i as int]@);
            if i + 1 < rows.len() {
                assert(join_lines(lines, i as int) == lines[i as int] + seq!['\n'] + join_lines(
                    lines,
                    i + 1,
                ));
                assert(join_lines(lines, from as int) =~= s@ + (seq!['\n'] + join_lines(
                    lines,
                    i + 1,
                )));
            } else {
                assert(join_lines(lines, i as int) == lines[i as int]);
                assert(join_lines(lines, from as int) =~= s@ + Seq::<char>::empty());
            }
        }
        i += 1;
    }
    proof {
        assert(s@ + Seq::<char>::empty() =~= s@);
    }
    s
}

impl Commit {
    /// The commit with hash `hash` that the text `content` describes.
    ///
    /// Fails with `MalformedCommit` where `content` describes none.
    pub fn new(hash: &str, content: &str) -> (r: Result<Commit, GitError>)
        ensures
            match commit_of(content@) {
                Some(view) => r matches Ok(commit) && commit@ == view && commit.hash@ == hash@,
                None => r == Err::<Commit, GitError>(GitError::MalformedCommit),
            },
    {
        let chars = chars_of(content);
        let rows = split_lines(&chars);
        let ghost lines = lines_of(content@);
        if rows.len() == 0 || !begins_with(&rows[0], "tree ") {
            return Err(GitError::MalformedCommit);
        }
        let tree = match get_field(&rows[0], ' ', 1) {
            Some(tree) => string_from(&tree),
            None => {
                return Err(GitError::MalformedCommit);
            },
        };
        let mut parents: Vec<String> = Vec::new();
        let mut at: usize = 1;
        let mut broken = false;
        while at < rows.len() && begins_with(&rows[at], "parent ")
            invariant
                1 <= at <= rows.len(),
                lines == rows_view(rows@),
                run_of(lines, "parent "@, at as int) == parents_end(lines),
                broken == (parents_of(lines, at as int) is None),
                !broken ==> strings_view(parents@) == parents_of(lines, at as int).unwrap(),
            decreases rows.len() - at,
        {
            let ghost before = parents@;
            match get_field(&rows[at], ' ', 1) {
                Some(parent) => {
                    if !broken {
                        parents.push(string_from(&parent));
                        proof {
                            assert(strings_view(parents@) =~= strings_view(before).push(parent@));
                        }
                    }
                },
                None => {
                    broken = true;
                },
            }
            at += 1;
        }
        if broken {
            return Err(GitError::MalformedCommit);
        }
        let parents_end = at;
        let mut blank: usize = at;
        while blank < rows.len() && rows[blank].len() != 0
            invariant
                parents_end <= blank <= rows.len(),
                lines == rows_view(rows@),
                first_blank(lines, blank as int) == first_blank(lines, parents_end as int),
            decreases rows.len() - blank,
        {
            blank += 1;
        }
        let author_at = find_line(&rows, "author ", parents_end, blank);
        if author_at >= blank {
            proof {
                if commiter_line(lines) < header_end(lines) {
                    lemma_first_with_bounds(
                        lines,
                        "committer "@,
                        author_line(lines) + 1,
                        header_end(lines),
                    );
                }
            }
            return Err(GitError::MalformedCommit);
        }
        let commiter_at = find_line(&rows, "committer ", author_at + 1, blank);
        if commiter_at >= blank {
            return Err(GitError::MalformedCommit);
        }
        proof {
            reveal_strlit("author ");
            reveal_strlit("committer ");
            lemma_first_with_found(lines, "author "@, parents_end as int, blank as int);
            lemma_first_with_found(lines, "committer "@, author_at + 1, blank as int);
        }
        let author = match Author::from_chars(
            &sub_chars(&rows[author_at], 7, rows[author_at].len()),
        ) {
            Ok(author) => author,
            Err(e) => {
                return Err(e);
            },
        };
        let commiter = match Author::from_chars(
            &sub_chars(&rows[commiter_at], 10, rows[commiter_at].len()),
        ) {
            Ok(commiter) => commiter,
            Err(e) => {
                return Err(e);
            },
        };
        let message = if blank < rows.len() {
            join_rows(&rows, blank + 1)
        } else {
            String::new()
        };
        Ok(Commit { hash: hash.to_string(), tree, parents, author, commiter, message })
    }

    /// The commit with hash `hash` that is stored as `stored`; `stored` is
    /// `None` where nothing is stored under the hash.
    ///
    /// Fails with `ObjectMissing` where nothing is stored, `CorruptObject`
    /// where `stored` holds no object, `WrongType` where it holds one that
    /// is no commit, `NonUtf8Content` where the commit is no text, and
    /// `MalformedCommit` where the text describes no commit.
    pub fn decode(hash: &str, stored: Option<&[u8]>) -> (r: Result<Commit, GitError>)
        ensures
            match stored_commit(stored_view(stored)) {
                Ok(view) => r matches Ok(commit) && commit@ == view && commit.hash@ == hash@,
                Err(e) => r == Err::<Commit, GitError>(e),
            },
    {
        let object = match get_bytes(stored, Some(ObjectKind::Commit)) {
            Ok(object) => object,
            Err(e) => {
                return Err(e);
            },
        };
        let text = match string_from_utf8(object.content) {
            Some(text) => text,
            None => {
                return Err(GitError::NonUtf8Content);
            },
        };
        Commit::new(hash, text.as_str())
    }

    /// Whether `search_string` occurs in the author's name or in the
    /// message, upper and lower case counting as the same.
    pub fn contains(&self, search_string: &str) -> (r: bool)
        ensures
            r == (occurs_in(lowercase_of(self.author.name@), lowercase_of(search_string@))
                || occurs_in(lowercase_of(self.message@), lowercase_of(search_string@))),
    {
        let needle = chars_of(to_lowercase(search_string).as_str());
        let name = chars_of(to_lowercase(self.author.name.as_str()).as_str());
        if contains_chars(&name, &needle) {
            return true;
        }
        let message = chars_of(to_lowercase(self.message.as_str()).as_str());
        contains_chars(&message, &needle)
    }

    /// The hash of the commit that this one was made on top of: its first
    /// parent, if it has any.
    pub fn first_parent(&self) -> (r: Option<&String>)
        ensures
            self.parents.len() == 0 ==> r is None,
            self.parents.len() > 0 ==> r == Some(&self.parents[0]),
    {
        if self.parents.len() == 0 {
            None
        } else {
            Some(&self.parents[0])
        }
    }
}

/// Whether `search` occurs in the author's name or in the message of
/// `commit`, upper and lower case counting as the same.
pub open spec fn is_match(commit: Commit, search: Seq<char>) -> bool {
    occurs_in(lowercase_of(commit.author.name@), lowercase_of(search)) || occurs_in(
        lowercase_of(commit.message@),
        lowercase_of(search),
    )
}

/// The places of those among the first `n` commits that `search` occurs
/// in, in rising order.
pub open spec fn matches_of(commits: Seq<Commit>, search: Seq<char>, n: nat) -> Seq<usize>
    decreases n,
{
    if n == 0 || n > commits.len() {
        Seq::empty()
    } else if is_match(commits[n - 1], search) {
        matches_of(commits, search, (n - 1) as nat).push((n - 1) as usize)
    } else {
        matches_of(commits, search, (n - 1) as nat)
    }
}

/// The places of the commits that `search_string` occurs in, in the log's
/// order.
pub fn matching(commits: &Vec<Commit>, search_string: &str) -> (found: Vec<usize>)
    ensures
        found@ == matches_of(commits@, search_string@, commits.len() as nat),
{
    let mut found: Vec<usize> = Vec::new();
    let mut i: usize = 0;
    while i < commits.len()
        invariant
            0 <= i <= commits.len(),
            found@ == matches_of(commits@, search_string@, i as nat),
        decreases commits.len() - i,
    {
        if commits[i].contains(search_string) {
            found.push(i);
        }
        i += 1;
    }
    found
}

/// The first line with a prefix is not looked for behind where the search
/// starts.
proof fn lemma_first_with_bounds(lines: Seq<Seq<char>>, prefix: Seq<char>, from: int, to: int)
    ensures
        from <= first_with(lines, prefix, from, to),
    decreases to - from,
{
    if from >= to || (0 <= from < lines.len() && starts_with(lines[from], prefix)) {
    } else {
        lemma_first_with_bounds(lines, prefix, from + 1, to);
    }
}

/// The line that a search finds begins with the prefix.
proof fn lemma_first_with_found(lines: Seq<Seq<char>>, prefix: Seq<char>, from: int, to: int)
    requires
        0 <= from,
        to <= lines.len(),
        first_with(lines, prefix, from, to) < to,
    ensures
        starts_with(lines[first_with(lines, prefix, from, to)], prefix),
    decreases to - from,
{
    if from >= to || (0 <= from < lines.len() && starts_with(lines[from], prefix)) {
    } else {
        lemma_first_with_found(lines, prefix, from + 1, to);
    }
}

} // verus!
