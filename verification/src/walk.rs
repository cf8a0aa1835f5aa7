//! Walks through the object store that go from answer to question: each
//! tells which object it wants next, and takes what is stored under that
//! object's hash.

use vstd::prelude::*;
use crate::commit::{stored_commit, Commit};
use crate::error::GitError;
use crate::head::{
    entries_view, lemma_entry_view, parse_tree, records_view, six_digits, tree_records, EntryView,
    RecordView, TreeEntry, TreeRecord,
};
use crate::object::{get_bytes, stored_object, stored_view, ObjectKind};

verus! {

// ---------------------------------------------------------------------
// The walk through a tree
// ---------------------------------------------------------------------

/// A directory that is being filled: what it is recorded as, the records
/// of its entries, and the entries that are resolved so far.
#[derive(Debug, PartialEq, Eq)]
pub struct Pending {
    pub mode: String,
    pub name: String,
    pub hash: String,
    pub records: Vec<TreeRecord>,
    pub built: Vec<TreeEntry>,
}

/// A directory that is being filled, as contracts see one.
pub struct PendingView {
    pub mode: Seq<char>,
    pub name: Seq<char>,
    pub hash: Seq<char>,
    pub records: Seq<RecordView>,
    pub built: Seq<EntryView>,
}

impl View for Pending {
    type V = PendingView;

    open spec fn view(&self) -> PendingView {
        PendingView {
            mode: self.mode@,
            name: self.name@,
            hash: self.hash@,
            records: records_view(self.records@),
            built: entries_view(self.built@),
        }
    }
}

/// The directories of a stack, as contracts see them.
pub open spec fn stack_view(stack: Seq<Pending>) -> Seq<PendingView> {
    Seq::new(stack.len(), |i: int| stack[i]@)
}

/// Every entry of the directory is resolved.
pub open spec fn is_full(p: PendingView) -> bool {
    p.built.len() >= p.records.len()
}

/// The node that a directory becomes when every entry of it is resolved.
pub open spec fn closed(p: PendingView) -> EntryView {
    EntryView { mode: six_digits(p.mode), name: p.name, hash: p.hash, children: p.built, blob: None }
}

/// The file that the record `record` stands for, with the content
/// `content`.
pub open spec fn leaf(record: RecordView, content: Seq<u8>) -> EntryView {
    EntryView {
        mode: six_digits(record.mode),
        name: record.name,
        hash: record.hash,
        children: Seq::empty(),
        blob: Some(content),
    }
}

/// The directory that the record `record` stands for, with the entries
/// recorded as `records` still to resolve.
pub open spec fn opened(record: RecordView, records: Seq<RecordView>) -> PendingView {
    PendingView {
        mode: record.mode,
        name: record.name,
        hash: record.hash,
        records,
        built: Seq::empty(),
    }
}

/// The stack with the node `entry` added to the directory on top.
pub open spec fn with_entry(stack: Seq<PendingView>, entry: EntryView) -> Seq<PendingView> {
    stack.drop_last().push(PendingView { built: stack.last().built.push(entry), ..stack.last() })
}

/// The stack with each directory on top that is full closed and added to
/// the directory below it, down to the first that is not full or to the
/// root.
pub open spec fn settle(stack: Seq<PendingView>) -> Seq<PendingView>
    decreases stack.len(),
{
    if stack.len() >= 2 && is_full(stack.last()) {
        settle(with_entry(stack.drop_last(), closed(stack.last())))
    } else {
        stack
    }
}

/// Settling takes directories off the stack, and puts none on it.
pub proof fn lemma_settle_len(stack: Seq<PendingView>)
    ensures
        settle(stack).len() <= stack.len(),
    decreases stack.len(),
{
    if stack.len() >= 2 && is_full(stack.last()) {
        lemma_settle_len(with_entry(stack.drop_last(), closed(stack.last())));
    }
}

/// The record that the walk resolves next: the first unresolved one of the
/// directory on top.
pub open spec fn next_record(stack: Seq<PendingView>) -> Option<RecordView> {
    if stack.len() > 0 && !is_full(stack.last()) {
        Some(stack.last().records[stack.last().built.len() as int])
    } else {
        None
    }
}

/// The stack after the walk has been given `object` for the record it
/// resolves next: a blob becomes a file of the directory on top, a tree a
/// new directory on top of it; then the stack is settled.
pub open spec fn step(stack: Seq<PendingView>, object: Result<(ObjectKind, Seq<u8>), GitError>) -> Result<
    Seq<PendingView>,
    GitError,
> {
    match next_record(stack) {
        None => Ok(stack),
        Some(record) => match object {
            Err(e) => Err(e),
            Ok((ObjectKind::Blob, content)) => Ok(settle(with_entry(stack, leaf(record, content)))),
            Ok((ObjectKind::Tree, content)) => match tree_records(content, 0) {
                Ok(records) => Ok(settle(stack.push(opened(record, records)))),
                Err(e) => Err(e),
            },
            Ok((ObjectKind::Commit, _)) => Err(GitError::MalformedTree),
        },
    }
}

/// The root of a walk through the tree with the records `records`.
pub open spec fn root_of(records: Seq<RecordView>) -> PendingView {
    PendingView {
        mode: Seq::empty(),
        name: Seq::empty(),
        hash: Seq::empty(),
        records,
        built: Seq::empty(),
    }
}

/// A walk through a tree and all trees below it, depth first.
#[derive(Debug, PartialEq, Eq)]
pub struct TreeWalk {
    stack: Vec<Pending>,
}

/// Every node that the directories of `stack` hold is well formed.
pub open spec fn nodes_wf(stack: Seq<Pending>) -> bool {
    forall|i: int, j: int|
        0 <= i < stack.len() && 0 <= j < stack[i].built.len() ==> (#[trigger] stack[i].built[j]).wf()
}

impl TreeWalk {
    /// The directories that the walk is in, the root first, as contracts
    /// see them.
    pub closed spec fn view(&self) -> Seq<PendingView> {
        stack_view(self.stack@)
    }

    /// The invariant of a walk: it has a root, it is settled, and the
    /// nodes it holds are well formed.
    #[verifier::type_invariant]
    spec fn wf(&self) -> bool {
        &&& self.stack.len() >= 1
        &&& settle(stack_view(self.stack@)) == stack_view(self.stack@)
        &&& nodes_wf(self.stack@)
    }

    /// Starts the walk through the tree with the content `content`.
    pub fn new(content: &[u8]) -> (r: Result<TreeWalk, GitError>)
        ensures
            match tree_records(content@, 0) {
                Ok(records) => r matches Ok(walk) && walk@ == seq![root_of(records)] && settle(
                    walk@,
                ) == walk@,
                Err(e) => r == Err::<TreeWalk, GitError>(e),
            },
    {
        let records = match parse_tree(content) {
            Ok(records) => records,
            Err(e) => {
                return Err(e);
            },
        };
        let root = Pending {
            mode: String::new(),
            name: String::new(),
            hash: String::new(),
            records,
            built: Vec::new(),
        };
        let mut stack: Vec<Pending> = Vec::new();
        proof {
            assert(root@.built =~= Seq::<EntryView>::empty());
            assert(root@.mode =~= Seq::<char>::empty());
        }
        stack.push(root);
        proof {
            assert(stack_view(stack@) =~= seq![root@]);
        }
        Ok(TreeWalk { stack })
    }

    /// The hash of the object that the walk wants next; `None` where the
    /// walk is over.
    pub fn wanted(&self) -> (r: Option<&String>)
        ensures
            match next_record(self@) {
                Some(record) => r matches Some(hash) && hash@ == record.hash,
                None => r is None,
            },
    {
        if self.stack.len() == 0 {
            return None;
        }
        let top = &self.stack[self.stack.len() - 1];
        if top.built.len() < top.records.len() {
            Some(&top.records[top.built.len()].hash)
        } else {
            None
        }
    }

    /// The walk after it has taken what is stored under the hash that it
    /// wants; `stored` is `None` where nothing is. A walk that is over
    /// stays as it is.
    ///
    /// Fails where nothing is stored, where what is stored is no object,
    /// where it is a commit, and where it is a tree whose content is
    /// faulty.
    pub fn supply(self, stored: Option<&[u8]>) -> (r: Result<TreeWalk, GitError>)
        ensures
            match step(self@, stored_object(stored_view(stored), None)) {
                Ok(stack) => r matches Ok(walk) && walk@ == stack && settle(walk@) == walk@,
                Err(e) => r == Err::<TreeWalk, GitError>(e),
            },
    {
        proof {
            use_type_invariant(&self);
        }
        let ghost before = self@;
        let mut stack = self.stack;
        let top = stack.len() - 1;
        let next = stack[top].built.len();
        if next >= stack[top].records.len() {
            return Ok(TreeWalk { stack });
        }
        let object = match get_bytes(stored, None) {
            Ok(object) => object,
            Err(e) => {
                return Err(e);
            },
        };
        let ghost record = before.last().records[next as int];
        let mode = stack[top].records[next].mode.clone();
        let name = stack[top].records[next].name.clone();
        let hash = stack[top].records[next].hash.clone();
        assert(record == (RecordView { mode: mode@, name: name@, hash: hash@ }));
        match object.kind {
            ObjectKind::Blob => {
                let entry = TreeEntry::new(mode, name, hash, Vec::new(), Some(object.content));
                proof {
                    lemma_entry_view(entry);
                    assert(entry@.children =~= Seq::<EntryView>::empty());
                    assert(entry@ == leaf(record, object.content@));
                }
                let ghost old_stack = stack@;
                stack[top].built.push(entry);
                proof {
                    assert(stack@[top as int]@.built =~= before.last().built.push(entry@));
                    assert(stack_view(stack@) =~= with_entry(before, entry@));
                    assert(nodes_wf(stack@)) by {
                        assert forall|i: int, j: int|
                            0 <= i < stack.len() && 0 <= j < stack[i].built.len() implies (
                        #[trigger] stack[i].built[j]).wf() by {
                            if i < top || j < old_stack[i].built.len() {
                                assert(old_stack[i].built[j].wf());
                            }
                        }
                    }
                }
            },
            ObjectKind::Tree => {
                let records = match parse_tree(object.content.as_slice()) {
                    Ok(records) => records,
                    Err(e) => {
                        return Err(e);
                    },
                };
                let pending = Pending { mode, name, hash, records, built: Vec::new() };
                proof {
                    assert(pending@.built =~= Seq::<EntryView>::empty());
                    assert(pending@ == opened(record, records_view(records@)));
                }
                let ghost old_stack = stack@;
                stack.push(pending);
                proof {
                    assert(stack_view(stack@) =~= before.push(pending@));
                    assert(nodes_wf(stack@)) by {
                        assert forall|i: int, j: int|
                            0 <= i < stack.len() && 0 <= j < stack[i].built.len() implies (
                        #[trigger] stack[i].built[j]).wf() by {
                            assert(old_stack[i].built[j].wf());
                        }
                    }
                }
            },
            ObjectKind::Commit => {
                return Err(GitError::MalformedTree);
            },
        }
        close_full(&mut stack);
        Ok(TreeWalk { stack })
    }

    /// The entries of the tree that the walk went through, each with all
    /// that lies below it; `None` where the walk is not over.
    pub fn finish(self) -> (r: Option<Vec<TreeEntry>>)
        ensures
            match next_record(self@) {
                Some(_) => r is None,
                None => r matches Some(forest) && self@.len() == 1 && entries_view(forest@)
                    == self@[0].built,
            },
    {
        proof {
            use_type_invariant(&self);
            if self@.len() >= 2 {
                lemma_settle_len(with_entry(self@.drop_last(), closed(self@.last())));
            }
        }
        let mut stack = self.stack;
        match stack.pop() {
            Some(root) => if root.built.len() >= root.records.len() {
                Some(root.built)
            } else {
                None
            },
            None => None,
        }
    }
}

/// Closes each directory on top that is full and adds it to the directory
/// below it.
fn close_full(stack: &mut Vec<Pending>)
    requires
        old(stack).len() >= 1,
        nodes_wf(old(stack)@),
    ensures
        final(stack).len() >= 1,
        stack_view(final(stack)@) == settle(stack_view(old(stack)@)),
        settle(stack_view(final(stack)@)) == stack_view(final(stack)@),
        nodes_wf(final(stack)@),
{
    while stack.len() >= 2 && stack[stack.len() - 1].built.len() >= stack[stack.len()
        - 1].records.len()
        invariant
            stack.len() >= 1,
            settle(stack_view(stack@)) == settle(stack_view(old(stack)@)),
            nodes_wf(stack@),
        decreases stack.len(),
    {
        let ghost before = stack_view(stack@);
        let ghost before_stack = stack@;
        let full = match stack.pop() {
            Some(full) => full,
            None => {
                return ;
            },
        };
        proof {
            assert(full == before_stack.last());
            assert forall|j: int| 0 <= j < full.built.len() implies (#[trigger] full.built[j]).wf() by {
                assert(before_stack[before_stack.len() - 1].built[j].wf());
            }
            assert(stack_view(stack@) =~= before.drop_last());
        }
        let ghost full_view = full@;
        let entry = TreeEntry::new(full.mode, full.name, full.hash, full.built, None);
        proof {
            lemma_entry_view(entry);
            assert(entry@ == closed(full_view));
        }
        let below = stack.len() - 1;
        let ghost below_built = stack[below as int].built@;
        stack[below].built.push(entry);
        proof {
            assert(stack@[below as int]@.built =~= before.drop_last().last().built.push(entry@));
            assert(stack_view(stack@) =~= with_entry(before.drop_last(), closed(before.last())));
            assert forall|i: int, j: int|
                0 <= i < stack.len() && 0 <= j < stack[i].built.len() implies (
            #[trigger] stack[i].built[j]).wf() by {
                if i < below {
                    assert(stack[i] == before_stack[i]);
                    assert(before_stack[i].built[j].wf());
                } else if j < below_built.len() {
                    assert(stack[i].built[j] == below_built[j]);
                    assert(before_stack[i].built[j].wf());
                }
            }
        }
    }
}

// ---------------------------------------------------------------------
// What the walk through a tree brings home
// ---------------------------------------------------------------------

/// The node `e` is what the record `record` stands for in the object store
/// `store`, which says for each hash what reading the object under it
/// gives: a file with the content of the blob stored under the record's
/// hash, or a directory whose entries are what the records of the tree
/// stored there stand for.
pub open spec fn faithful(
    e: EntryView,
    record: RecordView,
    store: spec_fn(Seq<char>) -> Result<(ObjectKind, Seq<u8>), GitError>,
) -> bool
    decreases e,
{
    &&& e.mode == six_digits(record.mode)
    &&& e.name == record.name
    &&& e.hash == record.hash
    &&& match store(record.hash) {
        Ok((ObjectKind::Blob, content)) => e.blob == Some(content) && e.children.len() == 0,
        Ok((ObjectKind::Tree, content)) => {
            &&& e.blob is None
            &&& tree_records(content, 0) is Ok
            &&& e.children.len() == tree_records(content, 0).unwrap().len()
            &&& forall|i: int|
                0 <= i < e.children.len() ==> faithful(
                    #[trigger] e.children[i],
                    tree_records(content, 0).unwrap()[i],
                    store,
                )
        },
        _ => false,
    }
}

/// The entries that the directory `p` holds are what its first records
/// stand for in `store`.
pub open spec fn filled_faithfully(
    p: PendingView,
    store: spec_fn(Seq<char>) -> Result<(ObjectKind, Seq<u8>), GitError>,
) -> bool {
    &&& p.built.len() <= p.records.len()
    &&& forall|j: int| 0 <= j < p.built.len() ==> faithful(#[trigger] p.built[j], p.records[j], store)
}

/// The directory `above` is the one that the directory `below` resolves
/// next: it is recorded there, and its records are those of the tree that
/// `store` holds under its hash.
pub open spec fn opened_from(
    below: PendingView,
    above: PendingView,
    store: spec_fn(Seq<char>) -> Result<(ObjectKind, Seq<u8>), GitError>,
) -> bool {
    &&& below.built.len() < below.records.len()
    &&& above.mode == below.records[below.built.len() as int].mode
    &&& above.name == below.records[below.built.len() as int].name
    &&& above.hash == below.records[below.built.len() as int].hash
    &&& store(above.hash) matches Ok((ObjectKind::Tree, content))
    &&& tree_records(content, 0) == Ok::<Seq<RecordView>, GitError>(above.records)
}

/// The walk is on its way through the object store `store`: what it holds
/// is what the store describes.
pub open spec fn on_track(
    stack: Seq<PendingView>,
    store: spec_fn(Seq<char>) -> Result<(ObjectKind, Seq<u8>), GitError>,
) -> bool {
    &&& stack.len() >= 1
    &&& forall|k: int| 0 <= k < stack.len() ==> filled_faithfully(#[trigger] stack[k], store)
    &&& forall|k: int, l: int|
        0 <= k && l == k + 1 && l < stack.len() ==> opened_from(
            #[trigger] stack[k],
            #[trigger] stack[l],
            store,
        )
}

/// A walk starts on track.
pub proof fn lemma_walk_starts(
    records: Seq<RecordView>,
    store: spec_fn(Seq<char>) -> Result<(ObjectKind, Seq<u8>), GitError>,
)
    ensures
        on_track(seq![root_of(records)], store),
{
}

/// Settling keeps a walk on track.
proof fn lemma_settle_on_track(
    stack: Seq<PendingView>,
    store: spec_fn(Seq<char>) -> Result<(ObjectKind, Seq<u8>), GitError>,
)
    requires
        on_track(stack, store),
    ensures
        on_track(settle(stack), store),
    decreases stack.len(),
{
    if stack.len() >= 2 && is_full(stack.last()) {
        let top = stack.last();
        let rest = stack.drop_last();
        let below = rest.last();
        let next = with_entry(rest, closed(top));
        assert(opened_from(stack[stack.len() - 2], stack[stack.len() - 1], store));
        assert(filled_faithfully(top, store));
        assert(filled_faithfully(stack[stack.len() - 2], store));
        let record = below.records[below.built.len() as int];
        assert(faithful(closed(top), record, store)) by {
            assert forall|i: int| 0 <= i < top.built.len() implies faithful(
                #[trigger] closed(top).children[i],
                top.records[i],
                store,
            ) by {
                assert(faithful(top.built[i], top.records[i], store));
            }
        }
        assert forall|k: int| 0 <= k < next.len() implies filled_faithfully(
            #[trigger] next[k],
            store,
        ) by {
            if k < next.len() - 1 {
                assert(next[k] == stack[k]);
                assert(filled_faithfully(stack[k], store));
            } else {
                assert forall|j: int| 0 <= j < next[k].built.len() implies faithful(
                    #[trigger] next[k].built[j],
                    next[k].records[j],
                    store,
                ) by {
                    if j < below.built.len() {
                        assert(faithful(below.built[j], below.records[j], store));
                    }
                }
            }
        }
        assert forall|k: int, l: int| 0 <= k && l == k + 1 && l < next.len() implies opened_from(
            #[trigger] next[k],
            #[trigger] next[l],
            store,
        ) by {
            assert(opened_from(stack[k], stack[l], store));
            assert(next[k] == stack[k]);
        }
        lemma_settle_on_track(next, store);
    }
}

/// A walk that is given what the store holds stays on track.
pub proof fn lemma_walk_stays_on_track(
    stack: Seq<PendingView>,
    store: spec_fn(Seq<char>) -> Result<(ObjectKind, Seq<u8>), GitError>,
)
    requires
        on_track(stack, store),
        next_record(stack) is Some,
        step(stack, store(next_record(stack).unwrap().hash)) is Ok,
    ensures
        on_track(step(stack, store(next_record(stack).unwrap().hash)).unwrap(), store),
{
    let record = next_record(stack).unwrap();
    let top = stack.last();
    assert(filled_faithfully(stack[stack.len() - 1], store));
    match store(record.hash) {
        Ok((ObjectKind::Blob, content)) => {
            let next = with_entry(stack, leaf(record, content));
            assert forall|k: int| 0 <= k < next.len() implies filled_faithfully(
                #[trigger] next[k],
                store,
            ) by {
                if k < next.len() - 1 {
                    assert(next[k] == stack[k]);
                    assert(filled_faithfully(stack[k], store));
                } else {
                    assert forall|j: int| 0 <= j < next[k].built.len() implies faithful(
                        #[trigger] next[k].built[j],
                        next[k].records[j],
                        store,
                    ) by {
                        if j < top.built.len() {
                            assert(faithful(top.built[j], top.records[j], store));
                        }
                    }
                }
            }
            assert forall|k: int, l: int|
                0 <= k && l == k + 1 && l < next.len() implies opened_from(
                #[trigger] next[k],
                #[trigger] next[l],
                store,
            ) by {
                assert(opened_from(stack[k], stack[l], store));
                assert(next[k] == stack[k]);
            }
            lemma_settle_on_track(next, store);
        },
        Ok((ObjectKind::Tree, content)) => {
            let records = tree_records(content, 0).unwrap();
            let next = stack.push(opened(record, records));
            assert forall|k: int| 0 <= k < next.len() implies filled_faithfully(
                #[trigger] next[k],
                store,
            ) by {
                if k < stack.len() {
                    assert(next[k] == stack[k]);
                    assert(filled_faithfully(stack[k], store));
                }
            }
            assert forall|k: int, l: int|
                0 <= k && l == k + 1 && l < next.len() implies opened_from(
                #[trigger] next[k],
                #[trigger] next[l],
                store,
            ) by {
                if l < stack.len() {
                    assert(opened_from(stack[k], stack[l], store));
                }
            }
            lemma_settle_on_track(next, store);
        },
        _ => {},
    }
}

/// When a walk on track is over, it holds the snapshot that the store
/// describes: one node for each record of the root, each what its record
/// stands for.
pub proof fn lemma_walk_ends(
    stack: Seq<PendingView>,
    store: spec_fn(Seq<char>) -> Result<(ObjectKind, Seq<u8>), GitError>,
)
    requires
        on_track(stack, store),
        settle(stack) == stack,
        next_record(stack) is None,
    ensures
        stack.len() == 1,
        stack[0].built.len() == stack[0].records.len(),
        forall|i: int|
            0 <= i < stack[0].built.len() ==> faithful(
                #[trigger] stack[0].built[i],
                stack[0].records[i],
                store,
            ),
{
    if stack.len() >= 2 {
        lemma_settle_len(with_entry(stack.drop_last(), closed(stack.last())));
    }
    assert(filled_faithfully(stack[0], store));
}

// ---------------------------------------------------------------------
// The walk along the first parents
// ---------------------------------------------------------------------

/// A walk from a commit along the first parents to the first commit.
#[derive(Debug, PartialEq, Eq)]
pub struct LogWalk {
    pub commits: Vec<Commit>,
    pub next: Option<String>,
}

impl LogWalk {
    /// Starts the walk at the commit with hash `tip`.
    pub fn new(tip: String) -> (r: LogWalk)
        ensures
            r.commits.len() == 0,
            r.next == Some(tip),
    {
        LogWalk { commits: Vec::new(), next: Some(tip) }
    }

    /// The hash of the commit that the walk wants next; `None` where the
    /// walk is over.
    pub fn wanted(&self) -> (r: Option<&String>)
        ensures
            match self.next {
                Some(hash) => r == Some(&hash),
                None => r is None,
            },
    {
        match &self.next {
            Some(hash) => Some(hash),
            None => None,
        }
    }

    /// Takes what is stored under the hash that the walk wants; `stored` is
    /// `None` where nothing is. The commit is added to the log, and the
    /// walk goes on to its first parent; it is over where there is none.
    ///
    /// Fails, and leaves the walk as it is, where what is stored is no
    /// commit. Does nothing where the walk is over.
    pub fn supply(&mut self, stored: Option<&[u8]>) -> (r: Result<(), GitError>)
        ensures
            match old(self).next {
                None => r is Ok && *final(self) == *old(self),
                Some(hash) => match stored_commit(stored_view(stored)) {
                    Ok(view) => {
                        &&& r is Ok
                        &&& final(self).commits@.len() == old(self).commits@.len() + 1
                        &&& final(self).commits@.drop_last() == old(self).commits@
                        &&& final(self).commits@.last()@ == view
                        &&& final(self).commits@.last().hash@ == hash@
                        &&& match final(self).next {
                            Some(parent) => view.parents.len() > 0 && parent@ == view.parents[0],
                            None => view.parents.len() == 0,
                        }
                    },
                    Err(e) => r == Err::<(), GitError>(e) && *final(self) == *old(self),
                },
            },
    {
        let commit = match &self.next {
            None => {
                return Ok(());
            },
            Some(hash) => match Commit::decode(hash.as_str(), stored) {
                Ok(commit) => commit,
                Err(e) => {
                    return Err(e);
                },
            },
        };
        self.next = match commit.first_parent() {
            Some(parent) => Some(parent.clone()),
            None => None,
        };
        let ghost before = self.commits@;
        self.commits.push(commit);
        proof {
            assert(self.commits@.drop_last() =~= before);
        }
        Ok(())
    }

    /// The commits that the walk went through, the newest first.
    pub fn finish(self) -> (r: Vec<Commit>)
        ensures
            r == self.commits,
    {
        self.commits
    }
}

} // verus!
