//! What a viewer of the diffs keeps between two looks at the repository.

use vstd::prelude::*;
use crate::diff::{Diff, Stats};
use crate::path::{components, lemma_parts_count, names_view, parts_of};

verus! {

/// Which of the two views of the repository is shown.
#[derive(Debug, Clone, Copy, PartialEq, Eq, Structural)]
pub enum DiffType {
    Modified,
    Staged,
}

impl Default for DiffType {
    fn default() -> (r: DiffType)
        ensures
            r == DiffType::Modified,
    {
        DiffType::Modified
    }
}

impl DiffType {
    /// The name of the view, as it is shown.
    pub fn label_text(&self) -> (s: String)
        ensures
            s@ == match *self {
                DiffType::Modified => "Modified"@,
                DiffType::Staged => "Staged"@,
            },
    {
        match self {
            DiffType::Modified => "Modified".to_string(),
            DiffType::Staged => "Staged".to_string(),
        }
    }
}

/// Why the data of a repository could not be put together.
#[derive(Debug, Clone, Copy, PartialEq, Eq, Structural)]
pub enum AppDataCreationError {
    Parsing,
    Commits,
}

/// A changed file.
#[derive(Debug, PartialEq, Eq)]
pub struct File {
    pub path: String,
}

/// The name of the file at the path with the parts `parts`: the last part,
/// unless there is none or it stands for a directory: the root, `.` or
/// `..`.
pub open spec fn name_of(parts: Seq<Seq<char>>) -> Option<Seq<char>> {
    if parts.len() == 0 || parts.last() == seq!['/'] || parts.last() == seq!['.'] || parts.last()
        == seq!['.', '.'] {
        None
    } else {
        Some(parts.last())
    }
}

/// Whether `part` stands for a directory: the root, `.` or `..`.
fn is_directory_part(part: &str) -> (r: bool)
    ensures
        r == (part@ == seq!['/'] || part@ == seq!['.'] || part@ == seq!['.', '.']),
{
    let chars = crate::text::chars_of(part);
    let r = (chars.len() == 1 && (chars[0] == '/' || chars[0] == '.')) || (chars.len() == 2
        && chars[0] == '.' && chars[1] == '.');
    proof {
        if r {
            if chars.len() == 1 && chars[0] == '/' {
                assert(chars@ =~= seq!['/']);
            } else if chars.len() == 1 {
                assert(chars@ =~= seq!['.']);
            } else {
                assert(chars@ =~= seq!['.', '.']);
            }
        } else {
            if chars@ == seq!['/'] {
                assert(chars@.len() == 1 && chars@[0] == '/');
            }
            if chars@ == seq!['.'] {
                assert(chars@.len() == 1 && chars@[0] == '.');
            }
            if chars@ == seq!['.', '.'] {
                assert(chars@.len() == 2 && chars@[0] == '.' && chars@[1] == '.');
            }
        }
    }
    r
}

impl File {
    /// The name of the file, without the directories that lead to it.
    pub fn get_name(&self) -> (r: Option<String>)
        ensures
            match name_of(parts_of(self.path@)) {
                Some(name) => r matches Some(s) && s@ == name,
                None => r is None,
            },
    {
        let mut parts = components(self.path.as_str());
        let ghost all = parts@;
        match parts.pop() {
            Some(last) => {
                proof {
                    assert(names_view(all).last() == last@);
                }
                if is_directory_part(last.as_str()) {
                    None
                } else {
                    Some(last)
                }
            },
            None => None,
        }
    }
}

/// A directory of changed files: the directories and the files below it.
#[derive(Debug, PartialEq, Eq)]
pub struct Tree {
    pub nodes: Vec<Tree>,
    pub files: Vec<File>,
    pub name: String,
    pub open: bool,
    pub id: u64,
}

/// A directory as contracts see one.
pub struct TreeView {
    pub nodes: Seq<TreeView>,
    pub files: Seq<Seq<char>>,
    pub name: Seq<char>,
    pub open: bool,
    pub id: int,
}

/// The paths of a list of files.
pub open spec fn paths_view(files: Seq<File>) -> Seq<Seq<char>> {
    Seq::new(files.len(), |i: int| files[i].path@)
}

impl Tree {
    /// The first `n` directories below this one, as contracts see them.
    pub open spec fn nodes_view(self, n: nat) -> Seq<TreeView>
        decreases self, n,
    {
        if n == 0 || n > self.nodes.len() {
            Seq::empty()
        } else {
            self.nodes_view((n - 1) as nat).push(self.nodes[n - 1].view())
        }
    }

    /// This directory as contracts see it.
    pub open spec fn view(self) -> TreeView
        decreases self, self.nodes.len() + 1,
    {
        TreeView {
            nodes: self.nodes_view(self.nodes.len() as nat),
            files: paths_view(self.files@),
            name: self.name@,
            open: self.open,
            id: self.id as int,
        }
    }
}

/// The views of the directories below a directory, one by one.
pub proof fn lemma_nodes_view(tree: Tree, n: nat)
    requires
        n <= tree.nodes.len(),
    ensures
        tree.nodes_view(n).len() == n,
        forall|i: int| 0 <= i < n ==> #[trigger] tree.nodes_view(n)[i] == tree.nodes[i].view(),
    decreases n,
{
    if n > 0 {
        lemma_nodes_view(tree, (n - 1) as nat);
    }
}

/// An open directory with nothing in it.
pub open spec fn empty_view(name: Seq<char>, id: int) -> TreeView {
    TreeView { nodes: Seq::empty(), files: Seq::empty(), name, open: true, id }
}

/// The first of `nodes` with the name `name`, if any.
pub open spec fn child_named(nodes: Seq<TreeView>, name: Seq<char>) -> Option<int>
    decreases nodes.len(),
{
    if nodes.len() == 0 {
        None
    } else {
        match child_named(nodes.drop_last(), name) {
            Some(i) => Some(i),
            None => if nodes.last().name == name {
                Some(nodes.len() - 1)
            } else {
                None
            },
        }
    }
}

/// The directory `tree` with the file at `path` added, `tree` being the
/// directory that the first `depth` of the path's parts `parts` lead to.
///
/// The file goes into the directory that all parts of its path but the
/// last lead to; a path of one part or none stays at the top. A directory
/// on the way that is missing is made, open and with the number `id` plus
/// its depth below `tree`.
pub open spec fn with_file(
    tree: TreeView,
    path: Seq<char>,
    parts: Seq<Seq<char>>,
    depth: int,
    id: int,
) -> TreeView
    decreases parts.len() - depth,
{
    if parts.len() <= 1 || parts.len() <= depth + 1 || depth < 0 {
        TreeView { files: tree.files.push(path), ..tree }
    } else {
        match child_named(tree.nodes, parts[depth]) {
            Some(i) => TreeView {
                nodes: tree.nodes.update(
                    i,
                    with_file(tree.nodes[i], path, parts, depth + 1, id + 1),
                ),
                ..tree
            },
            None => TreeView {
                nodes: tree.nodes.push(
                    with_file(empty_view(parts[depth], id), path, parts, depth + 1, id + 1),
                ),
                ..tree
            },
        }
    }
}

/// The tree of the first `n` of the files at `paths`: an open directory
/// without a name, numbered 0, with each path added in turn, the
/// directories numbered by their depth.
pub open spec fn tree_of(paths: Seq<Seq<char>>, n: nat) -> TreeView
    decreases n,
{
    if n == 0 || n > paths.len() {
        empty_view(Seq::empty(), 0)
    } else {
        with_file(tree_of(paths, (n - 1) as nat), paths[n - 1], parts_of(paths[n - 1]), 0, 1)
    }
}

/// The directories `nodes`, each with `toggled` applied to it.
pub open spec fn toggled_nodes(nodes: Seq<TreeView>, id: int, n: nat) -> Seq<TreeView>
    decreases nodes, n,
{
    if n == 0 || n > nodes.len() {
        Seq::empty()
    } else {
        toggled_nodes(nodes, id, (n - 1) as nat).push(toggled(nodes[n - 1], id))
    }
}

/// The directory `tree` with the directory of the number `id` switched
/// between open and closed: the first such directory on the way down each
/// branch.
pub open spec fn toggled(tree: TreeView, id: int) -> TreeView
    decreases tree, tree.nodes.len() + 1,
{
    if tree.id == id {
        TreeView { open: !tree.open, ..tree }
    } else {
        TreeView { nodes: toggled_nodes(tree.nodes, id, tree.nodes.len()), ..tree }
    }
}

impl Tree {
    /// The tree of the files at `paths`.
    pub fn new(paths: Vec<String>) -> (tree: Tree)
        ensures
            tree@ == tree_of(names_view(paths@), paths.len() as nat),
    {
        let mut tree = Tree {
            nodes: Vec::new(),
            files: Vec::new(),
            name: String::new(),
            open: true,
            id: 0,
        };
        proof {
            assert(tree@.files =~= Seq::<Seq<char>>::empty());
            assert(tree@.name =~= Seq::<char>::empty());
        }
        let mut i: usize = 0;
        while i < paths.len()
            invariant
                0 <= i <= paths.len(),
                tree@ == tree_of(names_view(paths@), i as nat),
            decreases paths.len() - i,
        {
            let path = paths[i].clone();
            let parts = components(path.as_str());
            proof {
                lemma_parts_count(path@);
            }
            tree.add(path, &parts, 0, 1);
            i += 1;
        }
        tree
    }

    /// Adds the file at `path`, whose parts are `parts`, below this
    /// directory, which the first `depth` parts lead to; a directory that
    /// has to be made on the way gets the number `id`, the next one the
    /// number after it.
    fn add(&mut self, path: String, parts: &Vec<String>, depth: usize, id: u64)
        requires
            depth < parts.len() || parts.len() <= 1,
            id + parts.len() <= u64::MAX + depth + 1,
        ensures
            final(self)@ == with_file(
                old(self)@,
                path@,
                names_view(parts@),
                depth as int,
                id as int,
            ),
        decreases parts.len() - depth,
    {
        let ghost before = self@;
        if parts.len() <= 1 || parts.len() == depth + 1 {
            self.files.push(File { path });
            proof {
                assert(self@.files =~= before.files.push(path@));
                lemma_same_nodes(*old(self), *self);
            }
            return ;
        }
        let name = &parts[depth];
        let mut i: usize = 0;
        proof {
            lemma_nodes_view(*self, self.nodes.len() as nat);
        }
        while i < self.nodes.len()
            invariant
                0 <= i <= self.nodes.len(),
                *self == *old(self),
                before == self@,
                depth + 1 < parts.len(),
                id + parts.len() <= u64::MAX + depth + 1,
                name@ == names_view(parts@)[depth as int],
                child_named(before.nodes.subrange(0, i as int), name@) is None,
                before.nodes.len() == self.nodes.len(),
                forall|j: int|
                    0 <= j < self.nodes.len() ==> #[trigger] before.nodes[j] == self.nodes[j].view(),
            decreases self.nodes.len() - i,
        {
            proof {
                assert(before.nodes.subrange(0, i + 1).drop_last() =~= before.nodes.subrange(
                    0,
                    i as int,
                ));
                lemma_child_found(before.nodes, name@, i as int);
            }
            if self.nodes[i].name == *name {
                self.nodes[i].add(path, parts, depth + 1, id + 1);
                proof {
                    lemma_nodes_view(*self, self.nodes.len() as nat);
                    assert(self@.nodes =~= before.nodes.update(
                        i as int,
                        with_file(
                            before.nodes[i as int],
                            path@,
                            names_view(parts@),
                            depth + 1,
                            id + 1,
                        ),
                    ));
                }
                return ;
            }
            i += 1;
        }
        proof {
            assert(before.nodes.subrange(0, i as int) =~= before.nodes);
        }
        let mut tree = Tree {
            nodes: Vec::new(),
            files: Vec::new(),
            name: name.clone(),
            open: true,
            id,
        };
        proof {
            assert(tree@.files =~= Seq::<Seq<char>>::empty());
            assert(tree@ == empty_view(name@, id as int));
        }
        tree.add(path, parts, depth + 1, id + 1);
        let ghost made = tree@;
        self.nodes.push(tree);
        proof {
            lemma_nodes_view(*self, self.nodes.len() as nat);
            assert(self@.nodes =~= before.nodes.push(made));
        }
    }

    /// Switches the directory of the number `id` between open and closed.
    pub fn toggle_open(&mut self, id: u64)
        ensures
            final(self)@ == toggled(old(self)@, id as int),
        decreases *old(self),
    {
        let ghost before = self@;
        if self.id == id {
            self.open = !self.open;
            proof {
                lemma_same_nodes(*old(self), *self);
            }
            return ;
        }
        proof {
            lemma_nodes_view(*self, self.nodes.len() as nat);
        }
        let mut i: usize = 0;
        while i < self.nodes.len()
            invariant
                0 <= i <= self.nodes.len(),
                self.nodes.len() == old(self).nodes.len(),
                self.name == old(self).name,
                self.id == old(self).id,
                self.id != id,
                self.open == old(self).open,
                self.files == old(self).files,
                before == old(self)@,
                before.nodes.len() == self.nodes.len(),
                forall|j: int|
                    0 <= j < i ==> (#[trigger] self.nodes[j]).view() == toggled(
                        before.nodes[j],
                        id as int,
                    ),
                forall|j: int|
                    i <= j < self.nodes.len() ==> #[trigger] self.nodes[j] == old(self).nodes[j],
                forall|j: int|
                    0 <= j < self.nodes.len() ==> #[trigger] before.nodes[j] == old(
                        self,
                    ).nodes[j].view(),
            decreases self.nodes.len() - i,
        {
            self.nodes[i].toggle_open(id);
            i += 1;
        }
        proof {
            lemma_nodes_view(*self, self.nodes.len() as nat);
            lemma_toggled_nodes(before.nodes, id as int, before.nodes.len());
            assert(self@.nodes =~= toggled_nodes(before.nodes, id as int, before.nodes.len()));
        }
    }
}

/// Directories with the same directories below them show the same ones.
proof fn lemma_same_nodes(a: Tree, b: Tree)
    requires
        a.nodes == b.nodes,
    ensures
        a@.nodes == b@.nodes,
{
    lemma_nodes_view(a, a.nodes.len() as nat);
    lemma_nodes_view(b, b.nodes.len() as nat);
    assert(a@.nodes =~= b@.nodes);
}

/// The switched directories, one by one.
proof fn lemma_toggled_nodes(nodes: Seq<TreeView>, id: int, n: nat)
    requires
        n <= nodes.len(),
    ensures
        toggled_nodes(nodes, id, n).len() == n,
        forall|i: int| 0 <= i < n ==> #[trigger] toggled_nodes(nodes, id, n)[i] == toggled(nodes[i], id),
    decreases n,
{
    if n > 0 {
        lemma_toggled_nodes(nodes, id, (n - 1) as nat);
    }
}

/// A name that the first `i` directories lack and directory `i` has is the
/// name of directory `i` first.
proof fn lemma_child_found(nodes: Seq<TreeView>, name: Seq<char>, i: int)
    requires
        0 <= i < nodes.len(),
        child_named(nodes.subrange(0, i), name) is None,
    ensures
        nodes[i].name == name ==> child_named(nodes, name) == Some(i),
    decreases nodes.len(),
{
    if nodes[i].name == name {
        if i == nodes.len() - 1 {
            assert(nodes.drop_last() =~= nodes.subrange(0, i));
        } else {
            assert(nodes.drop_last().subrange(0, i) =~= nodes.subrange(0, i));
            lemma_child_found(nodes.drop_last(), name, i);
        }
    }
}

/// The changes of one view of the repository.
#[derive(Debug)]
pub struct DiffData {
    pub diffs: Vec<Diff>,
    pub stats: Stats,
    pub file_tree: Tree,
}

/// The first of `diffs` that is of the file `name`, if any.
pub open spec fn diff_named(diffs: Seq<Diff>, name: Seq<char>) -> Option<int>
    decreases diffs.len(),
{
    if diffs.len() == 0 {
        None
    } else {
        match diff_named(diffs.drop_last(), name) {
            Some(i) => Some(i),
            None => if diffs.last().file_name@ == name {
                Some(diffs.len() - 1)
            } else {
                None
            },
        }
    }
}

/// The names of the files that the diffs are of.
pub open spec fn file_names(diffs: Seq<Diff>) -> Seq<Seq<char>> {
    Seq::new(diffs.len(), |i: int| diffs[i].file_name@)
}

impl DiffData {
    /// The changes `diffs` with their statistics `stats`, and the tree of
    /// the files that they are of.
    pub fn new(diffs: Vec<Diff>, stats: Stats) -> (r: DiffData)
        ensures
            r.diffs == diffs,
            r.stats == stats,
            r.file_tree@ == tree_of(file_names(diffs@), diffs.len() as nat),
    {
        let mut names: Vec<String> = Vec::new();
        let mut i: usize = 0;
        while i < diffs.len()
            invariant
                0 <= i <= diffs.len(),
                names.len() == i,
                forall|j: int| 0 <= j < i ==> (#[trigger] names[j])@ == diffs[j].file_name@,
            decreases diffs.len() - i,
        {
            names.push(diffs[i].file_name.clone());
            i += 1;
        }
        proof {
            assert(names_view(names@) =~= file_names(diffs@));
        }
        let file_tree = Tree::new(names);
        DiffData { diffs, stats, file_tree }
    }

    /// The diff of the file `name`: a copy of the first one of that file.
    pub fn get_diff(&self, name: &String) -> (r: Option<Diff>)
        ensures
            match diff_named(self.diffs@, name@) {
                Some(i) => r matches Some(diff) && 0 <= i < self.diffs.len() && diff.file_name
                    == self.diffs[i].file_name && diff.edits@ == self.diffs[i].edits@ && diff.stats
                    == self.diffs[i].stats,
                None => r is None,
            },
    {
        let mut i: usize = 0;
        while i < self.diffs.len()
            invariant
                0 <= i <= self.diffs.len(),
                diff_named(self.diffs@.subrange(0, i as int), name@) is None,
            decreases self.diffs.len() - i,
        {
            proof {
                lemma_diff_found(self.diffs@, name@, i as int);
            }
            if self.diffs[i].file_name == *name {
                return Some(self.diffs[i].clone());
            }
            proof {
                assert(self.diffs@.subrange(0, i + 1).drop_last() =~= self.diffs@.subrange(
                    0,
                    i as int,
                ));
            }
            i += 1;
        }
        proof {
            assert(self.diffs@.subrange(0, i as int) =~= self.diffs@);
        }
        None
    }
}

/// A file that the first `i` diffs are not of and diff `i` is of has diff
/// `i` as its first.
proof fn lemma_diff_found(diffs: Seq<Diff>, name: Seq<char>, i: int)
    requires
        0 <= i < diffs.len(),
        diff_named(diffs.subrange(0, i), name) is None,
    ensures
        diffs[i].file_name@ == name ==> diff_named(diffs, name) == Some(i),
    decreases diffs.len(),
{
    if diffs[i].file_name@ == name {
        if i == diffs.len() - 1 {
            assert(diffs.drop_last() =~= diffs.subrange(0, i));
        } else {
            assert(diffs.drop_last().subrange(0, i) =~= diffs.subrange(0, i));
            lemma_diff_found(diffs.drop_last(), name, i);
        }
    }
}

/// What the viewer shows and asks for at the moment.
#[derive(Debug, PartialEq, Eq)]
pub struct ControlData {
    pub show_err_dialog: bool,
    pub error_information: String,
    pub diff_type: DiffType,
    pub selected_diff: String,
    pub search_string: String,
    pub profiler: bool,
    pub log_open: bool,
}

impl Default for ControlData {
    fn default() -> (r: ControlData)
        ensures
            !r.show_err_dialog,
            r.error_information@.len() == 0,
            r.diff_type == DiffType::Modified,
            r.selected_diff@.len() == 0,
            r.search_string@.len() == 0,
            !r.profiler,
            !r.log_open,
    {
        ControlData {
            show_err_dialog: false,
            error_information: String::new(),
            diff_type: DiffType::Modified,
            selected_diff: String::new(),
            search_string: String::new(),
            profiler: false,
            log_open: false,
        }
    }
}

/// The view to show when the repository has been read anew: the other one
/// where the one shown has no changed files and the other one has some,
/// else the one shown.
pub open spec fn view_after(shown: DiffType, modified_files: usize, staged_files: usize) -> DiffType {
    match shown {
        DiffType::Modified => if modified_files == 0 && staged_files != 0 {
            DiffType::Staged
        } else {
            DiffType::Modified
        },
        DiffType::Staged => if staged_files == 0 && modified_files != 0 {
            DiffType::Modified
        } else {
            DiffType::Staged
        },
    }
}

impl ControlData {
    /// Turns to the view that has something to show, given how many files
    /// each view holds.
    pub fn update_diff_type(&mut self, modified_files: usize, staged_files: usize)
        ensures
            final(self).diff_type == view_after(old(self).diff_type, modified_files, staged_files),
            *final(self) == (ControlData { diff_type: final(self).diff_type, ..*old(self) }),
    {
        match self.diff_type {
            DiffType::Modified => {
                if modified_files == 0 && staged_files != 0 {
                    self.diff_type = DiffType::Staged;
                }
            },
            DiffType::Staged => {
                if staged_files == 0 && modified_files != 0 {
                    self.diff_type = DiffType::Modified;
                }
            },
        }
    }

    /// Puts the message `error` up.
    pub fn show_error(&mut self, error: String)
        ensures
            *final(self) == (ControlData {
                error_information: error,
                show_err_dialog: true,
                ..*old(self)
            }),
    {
        self.error_information = error;
        self.show_err_dialog = true;
    }

    /// Takes the message down again.
    pub fn close_error(&mut self)
        ensures
            final(self).error_information@.len() == 0,
            !final(self).show_err_dialog,
            *final(self) == (ControlData {
                error_information: final(self).error_information,
                show_err_dialog: false,
                ..*old(self)
            }),
    {
        self.error_information = String::new();
        self.show_err_dialog = false;
    }
}

} // verus!
