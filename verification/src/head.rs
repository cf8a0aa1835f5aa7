//! The tip of the current branch and the directory snapshot it points at.

use vstd::prelude::*;
use vstd::string::StringExecFns;
use vstd::utf8::{decode_utf8, valid_utf8};
use vstd::slice::slice_subrange;
use crate::bytes::{copy_range, find_byte, first_byte, latin, latin_chars, lemma_first_byte};
use crate::error::GitError;
use crate::hash::{from_bytes, hex_of};
use crate::object::{GitObject, ObjectKind};
use crate::path::{join_path, joined};
use crate::text::{
    all_digits, chars_of, has_prefix, push_chars, starts_with, string_from_utf8, string_of,
};

verus! {

// ---------------------------------------------------------------------
// The symbolic reference
// ---------------------------------------------------------------------

/// The text of a file that may be missing, as contracts see it.
pub open spec fn file_view(content: Option<&str>) -> Option<Seq<char>> {
    match content {
        Some(text) => Some(text@),
        None => None,
    }
}

/// The branch that the content of `HEAD` names: what stands between
/// `ref: refs/heads/` and the line feed that ends the content. `None` where
/// the file is missing or of another shape.
pub open spec fn branch_of(head: Option<Seq<char>>) -> Option<Seq<char>> {
    match head {
        Some(text) => if starts_with(text, "ref: refs/heads/"@) && "ref: refs/heads/"@.len()
            < text.len() && text.last() == '\n' {
            Some(text.subrange("ref: refs/heads/"@.len() as int, text.len() - 1))
        } else {
            None
        },
        None => None,
    }
}

/// The branch that `HEAD` points at, given the content of `HEAD`, which is
/// `None` where the file is missing.
///
/// Fails with `UnresolvedHead` where the file is missing or its content is
/// not a reference to a branch followed by a line feed.
pub fn get_branch(head: Option<&str>) -> (r: Result<String, GitError>)
    ensures
        match branch_of(file_view(head)) {
            Some(name) => r matches Ok(branch) && branch@ == name,
            None => r == Err::<String, GitError>(GitError::UnresolvedHead),
        },
{
    let chars = match head {
        Some(text) => chars_of(text),
        None => {
            return Err(GitError::UnresolvedHead);
        },
    };
    let prefix = chars_of("ref: refs/heads/");
    proof {
        assert(chars@.subrange(0, chars.len() as int) =~= chars@);
    }
    if !has_prefix(&chars, 0, chars.len(), "ref: refs/heads/") {
        return Err(GitError::UnresolvedHead);
    }
    if !(prefix.len() < chars.len() && chars[chars.len() - 1] == '\n') {
        return Err(GitError::UnresolvedHead);
    }
    Ok(string_of(&chars, prefix.len(), chars.len() - 1))
}

/// Where the hash of the branch `branch` is kept, relative to the
/// repository's data directory.
pub fn ref_path(branch: &str) -> (r: String)
    ensures
        r@ == joined("refs/heads"@, branch@),
{
    join_path("refs/heads", branch)
}

/// The hash that the content of a branch file holds: all of it but the
/// line feed that ends it. `None` where the file is missing or does not
/// end in a line feed.
pub open spec fn tip_of(content: Option<Seq<char>>) -> Option<Seq<char>> {
    match content {
        Some(text) => if text.len() > 0 && text.last() == '\n' {
            Some(text.drop_last())
        } else {
            None
        },
        None => None,
    }
}

/// The hash of a branch's tip commit, given the content of the branch
/// file, which is `None` where the file is missing.
///
/// Fails with `UnresolvedHead` where the file is missing or its content
/// does not end in a line feed.
pub fn get_hash(content: Option<&str>) -> (r: Result<String, GitError>)
    ensures
        match tip_of(file_view(content)) {
            Some(hash) => r matches Ok(h) && h@ == hash,
            None => r == Err::<String, GitError>(GitError::UnresolvedHead),
        },
{
    let chars = match content {
        Some(text) => chars_of(text),
        None => {
            return Err(GitError::UnresolvedHead);
        },
    };
    if !(chars.len() > 0 && chars[chars.len() - 1] == '\n') {
        return Err(GitError::UnresolvedHead);
    }
    let hash = string_of(&chars, 0, chars.len() - 1);
    proof {
        assert(chars@.subrange(0, chars.len() - 1) =~= chars@.drop_last());
    }
    Ok(hash)
}

// ---------------------------------------------------------------------
// Tree records
// ---------------------------------------------------------------------

/// One record of a tree object: the mode, the name and the hash of what
/// the name stands for.
#[derive(Debug, PartialEq, Eq)]
pub struct TreeRecord {
    pub mode: String,
    pub name: String,
    pub hash: String,
}

/// Where the mode of the record at `at` ends: at its space.
pub open spec fn mode_end(s: Seq<u8>, at: int) -> int {
    first_byte(s, 32, at)
}

/// Where the name of the record at `at` ends: at its zero byte.
pub open spec fn record_name_end(s: Seq<u8>, at: int) -> int {
    first_byte(s, 0, mode_end(s, at) + 1)
}

/// Where the record after the one at `at` begins: twenty bytes of hash
/// behind the name's zero byte.
pub open spec fn record_end(s: Seq<u8>, at: int) -> int {
    record_name_end(s, at) + 21
}

/// Why the bytes at `at` are no tree record, or `None` where they are one:
/// a mode of five or six digits, a space, a name in UTF-8, a zero byte, and
/// twenty bytes of hash.
#[verifier::opaque]
pub open spec fn record_error(s: Seq<u8>, at: int) -> Option<GitError> {
    if mode_end(s, at) >= s.len() {
        Some(GitError::MalformedTree)
    } else if !(5 <= mode_end(s, at) - at <= 6 && all_digits(latin(s.subrange(at, mode_end(s, at))))) {
        Some(GitError::MalformedTree)
    } else if record_name_end(s, at) >= s.len() {
        Some(GitError::MalformedTree)
    } else if !valid_utf8(s.subrange(mode_end(s, at) + 1, record_name_end(s, at))) {
        Some(GitError::NonUtf8Content)
    } else if record_end(s, at) > s.len() {
        Some(GitError::MalformedTree)
    } else {
        None
    }
}

/// A mode written with six digits: a mode of five gets a zero in front.
pub open spec fn six_digits(mode: Seq<char>) -> Seq<char> {
    if mode.len() == 5 {
        seq!['0'] + mode
    } else {
        mode
    }
}

/// A tree record as contracts see one.
pub struct RecordView {
    pub mode: Seq<char>,
    pub name: Seq<char>,
    pub hash: Seq<char>,
}

impl View for TreeRecord {
    type V = RecordView;

    open spec fn view(&self) -> RecordView {
        RecordView { mode: self.mode@, name: self.name@, hash: self.hash@ }
    }
}

/// The records of a list, as contracts see them.
pub open spec fn records_view(records: Seq<TreeRecord>) -> Seq<RecordView> {
    Seq::new(records.len(), |i: int| records[i]@)
}

/// What the tree record at `at` says: its mode, written with six digits,
/// its name, and its hash in print.
#[verifier::opaque]
pub open spec fn record_at(s: Seq<u8>, at: int) -> RecordView {
    RecordView {
        mode: six_digits(latin(s.subrange(at, mode_end(s, at)))),
        name: decode_utf8(s.subrange(mode_end(s, at) + 1, record_name_end(s, at))),
        hash: hex_of(s.subrange(record_name_end(s, at) + 1, record_end(s, at))),
    }
}

/// The mode `mode` with six digits.
fn normalize_mode(mode: &Vec<char>) -> (r: String)
    ensures
        r@ == six_digits(mode@),
{
    let mut r = String::new();
    if mode.len() == 5 {
        r.push('0');
    }
    let ghost head = r@;
    let mut i: usize = 0;
    while i < mode.len()
        invariant
            0 <= i <= mode.len(),
            r@ == head + mode@.subrange(0, i as int),
        decreases mode.len() - i,
    {
        r.push(mode[i]);
        proof {
            assert(r@ =~= head + mode@.subrange(0, i + 1));
        }
        i += 1;
    }
    proof {
        assert(mode@.subrange(0, i as int) =~= mode@);
        assert(r@ =~= six_digits(mode@));
    }
    r
}

/// Whether `chars` holds decimal digits only.
fn digits_only(chars: &Vec<char>) -> (r: bool)
    ensures
        r == all_digits(chars@),
{
    let mut i: usize = 0;
    while i < chars.len()
        invariant
            0 <= i <= chars.len(),
            all_digits(chars@.subrange(0, i as int)),
        decreases chars.len() - i,
    {
        let c = chars[i];
        if !(c >= '0' && c <= '9') {
            return false;
        }
        proof {
            assert forall|j: int| 0 <= j < i + 1 implies crate::text::is_digit(
                #[trigger] chars@.subrange(0, i + 1)[j],
            ) by {
                if j < i {
                    assert(chars@.subrange(0, i as int)[j] == chars@[j]);
                }
            }
        }
        i += 1;
    }
    proof {
        assert(chars@.subrange(0, i as int) =~= chars@);
    }
    true
}

/// Decodes the tree record that starts at `at`, and says where the next
/// begins.
pub fn parse_tree_record(bytes: &[u8], at: usize) -> (r: Result<(TreeRecord, usize), GitError>)
    requires
        at <= bytes.len(),
    ensures
        match r {
            Ok((record, next)) => {
                &&& record_error(bytes@, at as int) is None
                &&& record@ == record_at(bytes@, at as int)
                &&& next == record_end(bytes@, at as int)
                &&& at < next <= bytes.len()
            },
            Err(e) => record_error(bytes@, at as int) == Some(e),
        },
{
    reveal(record_error);
    reveal(record_at);
    let space = find_byte(bytes, 32, at);
    if space >= bytes.len() {
        return Err(GitError::MalformedTree);
    }
    let mode = latin_chars(bytes, at, space);
    if !(5 <= mode.len() && mode.len() <= 6 && digits_only(&mode)) {
        return Err(GitError::MalformedTree);
    }
    let nul = find_byte(bytes, 0, space + 1);
    if nul >= bytes.len() {
        return Err(GitError::MalformedTree);
    }
    let name = match string_from_utf8(copy_range(bytes, space + 1, nul)) {
        Some(name) => name,
        None => {
            return Err(GitError::NonUtf8Content);
        },
    };
    if bytes.len() - nul < 21 {
        return Err(GitError::MalformedTree);
    }
    let hash = from_bytes(slice_subrange(bytes, nul + 1, nul + 21));
    Ok((TreeRecord { mode: normalize_mode(&mode), name, hash }, nul + 21))
}

/// The records that the tree content `s` holds from position `at` on, or
/// the first fault among them. The records have to fill the content
/// exactly.
pub open spec fn tree_records(s: Seq<u8>, at: int) -> Result<Seq<RecordView>, GitError>
    decreases s.len() - at,
{
    if at < 0 || at >= s.len() {
        Ok(Seq::empty())
    } else if record_error(s, at) is Some {
        Err(record_error(s, at).unwrap())
    } else {
        proof {
            lemma_first_byte(s, 32, at);
            if mode_end(s, at) < s.len() {
                lemma_first_byte(s, 0, mode_end(s, at) + 1);
            }
            reveal(record_error);
        }
        match tree_records(s, record_end(s, at)) {
            Ok(rest) => Ok(seq![record_at(s, at)] + rest),
            Err(e) => Err(e),
        }
    }
}

/// Decodes the content of a tree object: its records, one behind the other
/// until the content is used up.
pub fn parse_tree(bytes: &[u8]) -> (r: Result<Vec<TreeRecord>, GitError>)
    ensures
        match tree_records(bytes@, 0) {
            Ok(views) => r matches Ok(records) && records_view(records@) == views,
            Err(e) => r == Err::<Vec<TreeRecord>, GitError>(e),
        },
{
    let mut records: Vec<TreeRecord> = Vec::new();
    let mut at: usize = 0;
    proof {
        assert(records_view(records@) =~= Seq::<RecordView>::empty());
        match tree_records(bytes@, 0) {
            Ok(rest) => {
                assert(records_view(records@) + rest =~= rest);
            },
            Err(e) => {},
        }
    }
    while at < bytes.len()
        invariant
            at <= bytes.len(),
            match tree_records(bytes@, at as int) {
                Ok(rest) => tree_records(bytes@, 0) == Ok::<Seq<RecordView>, GitError>(
                    records_view(records@) + rest,
                ),
                Err(e) => tree_records(bytes@, 0) == Err::<Seq<RecordView>, GitError>(e),
            },
        decreases bytes.len() - at,
    {
        let ghost before = records_view(records@);
        match parse_tree_record(bytes, at) {
            Ok((record, next)) => {
                records.push(record);
                proof {
                    assert(records_view(records@) =~= before.push(record@));
                    match tree_records(bytes@, next as int) {
                        Ok(rest) => {
                            assert(before + (seq![record@] + rest) =~= before.push(record@) + rest);
                        },
                        Err(e) => {},
                    }
                }
                at = next;
            },
            Err(e) => {
                return Err(e);
            },
        }
    }
    proof {
        assert(records_view(records@) + Seq::<RecordView>::empty() =~= records_view(records@));
    }
    Ok(records)
}

// ---------------------------------------------------------------------
// The snapshot
// ---------------------------------------------------------------------

/// The content of one file of a snapshot, under its path.
#[derive(Debug, PartialEq, Eq)]
pub struct FileBlob {
    pub path: String,
    pub content: Vec<u8>,
}

/// One node of a directory snapshot: a file with its content, or a
/// directory with its entries.
#[derive(Debug, PartialEq, Eq)]
pub struct TreeEntry {
    pub mode: String,
    pub name: String,
    pub hash: String,
    pub children: Vec<TreeEntry>,
    pub blob: Option<Vec<u8>>,
}

/// A node of a snapshot as contracts see one.
pub struct EntryView {
    pub mode: Seq<char>,
    pub name: Seq<char>,
    pub hash: Seq<char>,
    pub children: Seq<EntryView>,
    pub blob: Option<Seq<u8>>,
}

impl TreeEntry {
    /// The first `n` entries below this one, as contracts see them.
    pub open spec fn children_view(self, n: nat) -> Seq<EntryView>
        decreases self, n,
    {
        if n == 0 || n > self.children.len() {
            Seq::empty()
        } else {
            self.children_view((n - 1) as nat).push(self.children[n - 1].view())
        }
    }

    /// This node as contracts see it.
    pub open spec fn view(self) -> EntryView
        decreases self, self.children.len() + 1,
    {
        EntryView {
            mode: self.mode@,
            name: self.name@,
            hash: self.hash@,
            children: self.children_view(self.children.len() as nat),
            blob: match self.blob {
                Some(content) => Some(content@),
                None => None,
            },
        }
    }
}

/// The nodes of a list, as contracts see them.
pub open spec fn entries_view(entries: Seq<TreeEntry>) -> Seq<EntryView> {
    Seq::new(entries.len(), |i: int| entries[i].view())
}

/// A node shows the nodes below it one by one.
pub proof fn lemma_entry_view(e: TreeEntry)
    ensures
        e@.children == entries_view(e.children@),
{
    lemma_children_view(e, e.children.len() as nat);
    assert(e@.children =~= entries_view(e.children@));
}

/// The views of the entries below a node, one by one.
proof fn lemma_children_view(e: TreeEntry, n: nat)
    requires
        n <= e.children.len(),
    ensures
        e.children_view(n).len() == n,
        forall|i: int| 0 <= i < n ==> #[trigger] e.children_view(n)[i] == e.children[i].view(),
    decreases n,
{
    if n > 0 {
        lemma_children_view(e, (n - 1) as nat);
    }
}

/// What a snapshot holds, as contracts see it: paths with their content.
pub type Blobs = Seq<(Seq<char>, Seq<u8>)>;

/// The files of the first `n` entries of the directory `e`, which lies in
/// the directory `prefix`; for `n == 0`, the files of `e` itself.
pub open spec fn blobs_in(e: TreeEntry, prefix: Seq<char>, n: nat) -> Blobs
    decreases e, n,
{
    if n == 0 {
        Seq::empty()
    } else if n > e.children.len() {
        Seq::empty()
    } else {
        blobs_in(e, prefix, (n - 1) as nat) + blobs_of(e.children[n - 1], joined(prefix, e.name@))
    }
}

/// The files under the entry `e`, which lies in the directory `prefix`, in
/// depth-first order: `e` itself where it is a file, else the files under
/// its entries.
pub open spec fn blobs_of(e: TreeEntry, prefix: Seq<char>) -> Blobs
    decreases e, e.children.len() + 1,
{
    match e.blob {
        Some(content) => seq![(joined(prefix, e.name@), content@)],
        None => blobs_in(e, prefix, e.children.len() as nat),
    }
}

/// The files under the first `n` entries of `forest`, which lie in the
/// directory `prefix`.
pub open spec fn forest_blobs(forest: Seq<TreeEntry>, prefix: Seq<char>, n: nat) -> Blobs
    decreases n,
{
    if n == 0 || n > forest.len() {
        Seq::empty()
    } else {
        forest_blobs(forest, prefix, (n - 1) as nat) + blobs_of(forest[n - 1], prefix)
    }
}

/// How many files lie under the first `n` entries of the directory `e`.
pub open spec fn leaves_in(e: TreeEntry, n: nat) -> nat
    decreases e, n,
{
    if n == 0 {
        0
    } else if n > e.children.len() {
        0
    } else {
        leaves_in(e, (n - 1) as nat) + leaves_of(e.children[n - 1])
    }
}

/// How many files lie under the entry `e`.
pub open spec fn leaves_of(e: TreeEntry) -> nat
    decreases e, e.children.len() + 1,
{
    match e.blob {
        Some(_) => 1,
        None => leaves_in(e, e.children.len() as nat),
    }
}

/// How many files lie under the first `n` entries of `forest`.
pub open spec fn forest_leaves(forest: Seq<TreeEntry>, n: nat) -> nat
    decreases n,
{
    if n == 0 || n > forest.len() {
        0
    } else {
        forest_leaves(forest, (n - 1) as nat) + leaves_of(forest[n - 1])
    }
}

/// A snapshot lists each of its files once: as many paths as leaves.
pub proof fn lemma_blobs_count(e: TreeEntry, prefix: Seq<char>)
    ensures
        blobs_of(e, prefix).len() == leaves_of(e),
    decreases e, e.children.len() + 1,
{
    if e.blob is None {
        lemma_blobs_in_count(e, prefix, e.children.len() as nat);
    }
}

/// The same for the first entries of a directory.
proof fn lemma_blobs_in_count(e: TreeEntry, prefix: Seq<char>, n: nat)
    ensures
        blobs_in(e, prefix, n).len() == leaves_in(e, n),
    decreases e, n,
{
    if n == 0 || n > e.children.len() {
    } else {
        lemma_blobs_in_count(e, prefix, (n - 1) as nat);
        lemma_blobs_count(e.children[n - 1], joined(prefix, e.name@));
    }
}

/// The same for a whole forest.
pub proof fn lemma_forest_blobs_count(forest: Seq<TreeEntry>, prefix: Seq<char>, n: nat)
    ensures
        forest_blobs(forest, prefix, n).len() == forest_leaves(forest, n),
    decreases n,
{
    if n == 0 || n > forest.len() {
    } else {
        lemma_forest_blobs_count(forest, prefix, (n - 1) as nat);
        lemma_blobs_count(forest[n - 1], prefix);
    }
}

/// Two spaces for each level of depth.
pub open spec fn indent(depth: nat) -> Seq<char> {
    Seq::new(2 * depth, |i: int| ' ')
}

/// The line that lists one node: indented by its depth, its mode, its name,
/// its hash in brackets, and a note where it carries content.
pub open spec fn entry_line(e: TreeEntry, depth: nat) -> Seq<char> {
    indent(depth) + e.mode@ + seq![' '] + e.name@ + seq![' ', '('] + e.hash@ + seq![')'] + if e.blob
        is Some {
        " (blob data)"@
    } else {
        Seq::empty()
    } + seq!['\n']
}

/// The listing of the first `n` entries of the directory `e`.
pub open spec fn listing_in(e: TreeEntry, depth: nat, n: nat) -> Seq<char>
    decreases e, n,
{
    if n == 0 || n > e.children.len() {
        Seq::empty()
    } else {
        listing_in(e, depth, (n - 1) as nat) + listing_of(e.children[n - 1], depth + 1)
    }
}

/// The listing of the node `e` and all below it: one line each, a node
/// before what lies below it, each level indented by two more spaces.
pub open spec fn listing_of(e: TreeEntry, depth: nat) -> Seq<char>
    decreases e, e.children.len() + 1,
{
    entry_line(e, depth) + listing_in(e, depth, e.children.len() as nat)
}

/// What a list of files holds, as contracts see it.
pub open spec fn blobs_view(files: Seq<FileBlob>) -> Blobs {
    Seq::new(files.len(), |i: int| (files[i].path@, files[i].content@))
}

impl TreeEntry {
    /// The invariant of a node: one that carries content has no entries,
    /// and the same holds of every node below it.
    pub open spec fn wf(self) -> bool
        decreases self,
    {
        &&& self.blob is Some ==> self.children.len() == 0
        &&& forall|i: int| 0 <= i < self.children.len() ==> (#[trigger] self.children[i]).wf()
    }

    /// A node with the mode written in six digits.
    pub fn new(
        mode: String,
        name: String,
        hash: String,
        children: Vec<TreeEntry>,
        blob: Option<Vec<u8>>,
    ) -> (r: TreeEntry)
        requires
            blob is Some ==> children.len() == 0,
            forall|i: int| 0 <= i < children.len() ==> (#[trigger] children[i]).wf(),
        ensures
            r.wf(),
            r.mode@ == six_digits(mode@),
            r.name == name,
            r.hash == hash,
            r.children == children,
            r.blob == blob,
    {
        let digits = chars_of(mode.as_str());
        TreeEntry { mode: normalize_mode(&digits), name, hash, children, blob }
    }

    /// The node that `record` stands for, given the object that is stored
    /// under the record's hash: a file with the object's content where the
    /// object is a blob, a directory with the entries `children` where it
    /// is a tree.
    ///
    /// Fails with `MalformedTree` where the object is a commit.
    pub fn resolve(record: TreeRecord, object: GitObject, children: Vec<TreeEntry>) -> (r: Result<
        TreeEntry,
        GitError,
    >)
        requires
            forall|i: int| 0 <= i < children.len() ==> (#[trigger] children[i]).wf(),
        ensures
            match object.kind {
                ObjectKind::Blob => r matches Ok(entry) && entry.wf() && entry.blob == Some(
                    object.content,
                ) && entry.children.len() == 0 && entry.mode@ == six_digits(record.mode@)
                    && entry.name == record.name && entry.hash == record.hash,
                ObjectKind::Tree => r matches Ok(entry) && entry.wf() && entry.blob is None
                    && entry.children == children && entry.mode@ == six_digits(record.mode@)
                    && entry.name == record.name && entry.hash == record.hash,
                ObjectKind::Commit => r == Err::<TreeEntry, GitError>(GitError::MalformedTree),
            },
    {
        match object.kind {
            ObjectKind::Blob => Ok(
                TreeEntry::new(
                    record.mode,
                    record.name,
                    record.hash,
                    Vec::new(),
                    Some(object.content),
                ),
            ),
            ObjectKind::Tree => Ok(
                TreeEntry::new(record.mode, record.name, record.hash, children, None),
            ),
            ObjectKind::Commit => Err(GitError::MalformedTree),
        }
    }

    /// The listing of this node and all below it.
    pub fn to_text(&self) -> (s: String)
        ensures
            s@ == listing_of(*self, 0),
    {
        let mut s = String::new();
        let margin: Vec<char> = Vec::new();
        proof {
            assert(margin@ =~= indent(0));
        }
        self.list_into(&mut s, &margin, Ghost(0));
        s
    }

    /// Appends the listing of this node and all below it to `s`, this node
    /// behind the margin `margin`.
    fn list_into(&self, s: &mut String, margin: &Vec<char>, Ghost(depth): Ghost<nat>)
        requires
            margin@ == indent(depth),
        ensures
            final(s)@ == old(s)@ + listing_of(*self, depth),
        decreases *self,
    {
        let ghost head = s@;
        push_chars(s, margin);
        s.append(self.mode.as_str());
        s.push(' ');
        s.append(self.name.as_str());
        s.append(" (");
        s.append(self.hash.as_str());
        s.push(')');
        if self.blob.is_some() {
            s.append(" (blob data)");
        }
        s.push('\n');
        proof {
            reveal_strlit(" (");
            assert(" ("@ =~= seq![' ', '(']);
            assert(s@ =~= head + entry_line(*self, depth));
        }
        let mut deeper: Vec<char> = Vec::new();
        let mut k: usize = 0;
        while k < margin.len()
            invariant
                0 <= k <= margin.len(),
                deeper@ == margin@.subrange(0, k as int),
            decreases margin.len() - k,
        {
            deeper.push(margin[k]);
            proof {
                assert(deeper@ =~= margin@.subrange(0, k + 1));
            }
            k += 1;
        }
        deeper.push(' ');
        deeper.push(' ');
        proof {
            assert(deeper@ =~= indent(depth + 1));
        }
        let mut i: usize = 0;
        while i < self.children.len()
            invariant
                0 <= i <= self.children.len(),
                deeper@ == indent(depth + 1),
                s@ == head + entry_line(*self, depth) + listing_in(*self, depth, i as nat),
            decreases self.children.len() - i,
        {
            self.children[i].list_into(s, &deeper, Ghost(depth + 1));
            proof {
                assert(s@ =~= head + entry_line(*self, depth) + listing_in(
                    *self,
                    depth,
                    (i + 1) as nat,
                ));
            }
            i += 1;
        }
        proof {
            assert(s@ =~= head + listing_of(*self, depth));
        }
    }

    /// The files under this entry, which lies in the directory `path`, each
    /// with its content, in depth-first order. A directory without files
    /// below it gives none.
    pub fn get_blobs(&self, path: &str) -> (files: Vec<FileBlob>)
        ensures
            blobs_view(files@) == blobs_of(*self, path@),
        decreases *self,
    {
        let here = join_path(path, self.name.as_str());
        let mut files: Vec<FileBlob> = Vec::new();
        match &self.blob {
            Some(content) => {
                files.push(FileBlob { path: here, content: content.clone() });
                proof {
                    assert(blobs_view(files@) =~= blobs_of(*self, path@));
                }
            },
            None => {
                let mut i: usize = 0;
                while i < self.children.len()
                    invariant
                        0 <= i <= self.children.len(),
                        here@ == joined(path@, self.name@),
                        blobs_view(files@) == blobs_in(*self, path@, i as nat),
                    decreases self.children.len() - i,
                {
                    let mut below = self.children[i].get_blobs(here.as_str());
                    let ghost before = files@;
                    let ghost added = below@;
                    files.append(&mut below);
                    proof {
                        assert(blobs_view(files@) =~= blobs_view(before) + blobs_view(added));
                    }
                    i += 1;
                }
            },
        }
        files
    }
}

/// The directory snapshot of the tip commit.
#[derive(Debug, PartialEq, Eq)]
pub struct Head {
    pub tree: Vec<TreeEntry>,
}

impl Head {
    /// The snapshot with the entries `tree` at its top.
    pub fn new(tree: Vec<TreeEntry>) -> (r: Head)
        ensures
            r.tree == tree,
    {
        Head { tree }
    }

    /// Every file of the snapshot with its content, the paths starting
    /// with `path`, in depth-first order.
    pub fn get_blobs(&self, path: &str) -> (files: Vec<FileBlob>)
        ensures
            blobs_view(files@) == forest_blobs(self.tree@, path@, self.tree.len() as nat),
            files.len() == forest_leaves(self.tree@, self.tree.len() as nat),
    {
        let mut files: Vec<FileBlob> = Vec::new();
        let mut i: usize = 0;
        while i < self.tree.len()
            invariant
                0 <= i <= self.tree.len(),
                blobs_view(files@) == forest_blobs(self.tree@, path@, i as nat),
            decreases self.tree.len() - i,
        {
            let mut below = self.tree[i].get_blobs(path);
            let ghost before = files@;
            let ghost added = below@;
            files.append(&mut below);
            proof {
                assert(blobs_view(files@) =~= blobs_view(before) + blobs_view(added));
            }
            i += 1;
        }
        proof {
            lemma_forest_blobs_count(self.tree@, path@, self.tree.len() as nat);
        }
        files
    }
}

} // verus!
