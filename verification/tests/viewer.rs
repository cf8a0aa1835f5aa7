use contrast::data::{AppDataCreationError, ControlData, DiffData, DiffType, File, Tree};
use contrast::diff::{Diff, DiffEdit, DiffLine, EditType, Stats};
use contrast::path::{components, join_path};

fn file(path: &str) -> File {
    File { path: path.to_string() }
}

fn paths(paths: &[&str]) -> Vec<String> {
    paths.iter().map(|p| p.to_string()).collect()
}

#[test]
fn test_tree() {
    let paths = vec![
        r"src/data.rs".to_string(),
        r"src/test.rs".to_string(),
        r"src/ui/file_area.rs".to_string(),
    ];

    let tree = Tree::new(paths);

    assert_eq!(tree.id, 0);
    assert_eq!(tree.name, "");
    assert_eq!(tree.open, true);

    assert_eq!(tree.nodes[0].id, 1);
    assert_eq!(tree.nodes[0].name, "src");
    assert_eq!(tree.nodes[0].open, true);
    assert_eq!(
        tree.nodes[0].files,
        vec![File { path: "src/data.rs".to_string() }, File { path: "src/test.rs".to_string() }]
    );
    assert_eq!(tree.nodes[0].nodes[0].id, 2);
    assert_eq!(tree.nodes[0].nodes[0].name, "ui");
    assert_eq!(tree.nodes[0].nodes[0].open, true);
    assert_eq!(
        tree.nodes[0].nodes[0].files,
        vec![File { path: "src/ui/file_area.rs".to_string() },]
    );
}

#[test]
fn files_of_one_part_stay_at_the_top() {
    let tree = Tree::new(paths(&["Cargo.toml", "a/b/c/deep.rs", "README.md", "", "a/b/other.rs"]));
    assert_eq!(tree.files, vec![file("Cargo.toml"), file("README.md"), file("")]);
    assert_eq!(tree.nodes.len(), 1);
    let a = &tree.nodes[0];
    assert_eq!((a.name.as_str(), a.id, a.files.len(), a.nodes.len()), ("a", 1, 0, 1));
    let b = &a.nodes[0];
    assert_eq!((b.name.as_str(), b.id), ("b", 2));
    assert_eq!(b.files, vec![file("a/b/other.rs")]);
    let c = &b.nodes[0];
    assert_eq!((c.name.as_str(), c.id), ("c", 3));
    assert_eq!(c.files, vec![file("a/b/c/deep.rs")]);
}

#[test]
fn directories_are_toggled_by_their_number() {
    let mut tree = Tree::new(paths(&["a/x/1", "a/y/2", "b/z/3", "top"]));
    tree.toggle_open(2);
    assert!(tree.open && tree.nodes[0].open && tree.nodes[1].open);
    assert!(!tree.nodes[0].nodes[0].open);
    assert!(!tree.nodes[0].nodes[1].open);
    assert!(!tree.nodes[1].nodes[0].open);
    tree.toggle_open(1);
    assert!(!tree.nodes[0].open && !tree.nodes[1].open);
    // what lies below a directory that was switched stays as it is
    assert!(!tree.nodes[0].nodes[0].open);
    // a closed directory still passes the switch on
    tree.toggle_open(2);
    assert!(tree.nodes[0].nodes[0].open);
    assert!(tree.nodes[1].nodes[0].open);
    tree.toggle_open(0);
    assert!(!tree.open);
    tree.toggle_open(0);
    assert!(tree.open);
    tree.toggle_open(7);
    assert_eq!(tree.files, vec![file("top")]);
}

#[test]
fn files_are_named_by_their_last_part() {
    assert_eq!(file("src/ui/mod.rs").get_name(), Some("mod.rs".to_string()));
    assert_eq!(file("mod.rs").get_name(), Some("mod.rs".to_string()));
    assert_eq!(file("/abs/dir/").get_name(), Some("dir".to_string()));
    assert_eq!(file("a/.").get_name(), Some("a".to_string()));
    assert_eq!(file("a/..").get_name(), None);
    assert_eq!(file("..").get_name(), None);
    assert_eq!(file(".").get_name(), None);
    assert_eq!(file("/").get_name(), None);
    assert_eq!(file("").get_name(), None);
    for path in ["src/ui/mod.rs", "a//b", "/abs/dir/", "a/.", "a/..", ".", "/", "", "./x", ".x/y."] {
        let expected = std::path::Path::new(path)
            .file_name()
            .and_then(|n| n.to_str())
            .map(|n| n.to_string());
        assert_eq!(file(path).get_name(), expected, "{:?}", path);
    }
}

#[test]
fn paths_are_split_at_their_slashes() {
    assert_eq!(components("a/b/c"), vec!["a", "b", "c"]);
    assert_eq!(components("/a//b/./c/"), vec!["/", "a", "b", "c"]);
    assert_eq!(components("./a/../b"), vec![".", "a", "..", "b"]);
    assert_eq!(components(""), Vec::<String>::new());
    for path in [
        "a/b/c", "/a//b/./c/", "./a/../b", "", ".", "..", "/", "//", "./", ".//.", "a/.", ".a/b",
        "a/./././b", "...", "./.", "/.", "/..", "é/ü",
    ] {
        let expected: Vec<String> = std::path::Path::new(path)
            .components()
            .map(|c| c.as_os_str().to_str().unwrap().to_string())
            .collect();
        assert_eq!(components(path), expected, "{:?}", path);
    }
}

#[test]
fn paths_are_joined_with_one_slash() {
    assert_eq!(join_path("repo", "src"), "repo/src");
    assert_eq!(join_path("repo/", "src"), "repo/src");
    assert_eq!(join_path("", "src"), "src");
    assert_eq!(join_path("repo", "/abs"), "/abs");
    assert_eq!(join_path("repo", ""), "repo/");
    for (a, b) in [("repo", "src"), ("repo/", "src"), ("", "src"), ("repo", "/abs"), ("/", "x"), ("a/b", "c/d")] {
        let expected = std::path::Path::new(a).join(b);
        assert_eq!(join_path(a, b), expected.to_str().unwrap(), "{:?} {:?}", a, b);
    }
}

#[test]
fn views_have_their_labels() {
    assert_eq!(DiffType::Modified.label_text(), "Modified");
    assert_eq!(DiffType::Staged.label_text(), "Staged");
    assert_eq!(DiffType::default(), DiffType::Modified);
    assert_ne!(AppDataCreationError::Parsing, AppDataCreationError::Commits);
}

#[test]
fn the_view_with_changes_is_shown() {
    let mut control = ControlData::default();
    assert_eq!(control.diff_type, DiffType::Modified);
    control.update_diff_type(3, 0);
    assert_eq!(control.diff_type, DiffType::Modified);
    control.update_diff_type(0, 0);
    assert_eq!(control.diff_type, DiffType::Modified);
    control.update_diff_type(0, 2);
    assert_eq!(control.diff_type, DiffType::Staged);
    control.update_diff_type(4, 2);
    assert_eq!(control.diff_type, DiffType::Staged);
    control.update_diff_type(0, 0);
    assert_eq!(control.diff_type, DiffType::Staged);
    control.update_diff_type(1, 0);
    assert_eq!(control.diff_type, DiffType::Modified);
}

#[test]
fn errors_are_put_up_and_taken_down() {
    let mut control = ControlData::default();
    control.search_string = "needle".to_string();
    control.show_error("Error loading diff!".to_string());
    assert!(control.show_err_dialog);
    assert_eq!(control.error_information, "Error loading diff!");
    control.close_error();
    assert!(!control.show_err_dialog);
    assert_eq!(control.error_information, "");
    assert_eq!(control.search_string, "needle");
    assert_eq!(control, ControlData { search_string: "needle".to_string(), ..ControlData::default() });
}

#[test]
fn diffs_are_found_by_their_file() {
    let first = Diff::calculate("src/a.rs".to_string(), "1\n", "2\n").unwrap().unwrap();
    let second = Diff::calculate("src/b.rs".to_string(), "", "x\ny\n").unwrap().unwrap();
    let again = Diff::calculate("src/a.rs".to_string(), "", "z\n").unwrap().unwrap();
    let data = DiffData::new(
        vec![first.clone(), second.clone(), again],
        Stats::new(3, 4, 1),
    );
    assert_eq!(data.get_diff(&"src/a.rs".to_string()), Some(first));
    assert_eq!(data.get_diff(&"src/b.rs".to_string()), Some(second));
    assert_eq!(data.get_diff(&"src/c.rs".to_string()), None);
    assert_eq!(data.stats, Stats::new(3, 4, 1));
    assert_eq!(data.file_tree.nodes[0].name, "src");
    assert_eq!(data.file_tree.nodes[0].files.len(), 3);
}

#[test]
fn edits_are_printed_for_a_terminal() {
    let line = |number: usize, text: &str| DiffLine { number, text: text.to_string() };
    assert_eq!(line(12, "let x = 1;").to_text(), "12 let x = 1;");
    assert_eq!(line(0, "").to_text(), "0 ");
    assert_eq!(line(usize::MAX, "x").to_text(), format!("{} x", usize::MAX));
    assert_eq!(
        DiffEdit::new(EditType::Ins, None, Some(line(7, "new"))).to_text(),
        "\x1b[32m+   7   new\x1b[39m"
    );
    assert_eq!(
        DiffEdit::new(EditType::Del, Some(line(100, "old")), None).to_text(),
        "\x1b[31m- 100     old\x1b[39m"
    );
    assert_eq!(
        DiffEdit::new(EditType::Eql, Some(line(3, "same")), Some(line(4, "same"))).to_text(),
        "\x1b[39m  3 4   same\x1b[39m"
    );
}
