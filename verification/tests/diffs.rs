use contrast::diff::{
    get_diffs, get_lines, get_staged_diffs, summarize, Diff, DiffEdit, DiffLine, DiffStats,
    EditType, Stats, WorkFile,
};
use contrast::error::GitError;
use contrast::head::FileBlob;
use contrast::index::{FileTime, IndexEntry, ModeType};
use contrast::myers::Myers;

fn line(number: usize, text: &str) -> DiffLine {
    DiffLine { number, text: text.to_string() }
}

fn lines(texts: &[&str]) -> Vec<DiffLine> {
    texts.iter().enumerate().map(|(i, t)| line(i + 1, t)).collect()
}

fn old_side(edits: &[DiffEdit]) -> Vec<DiffLine> {
    edits
        .iter()
        .filter(|e| e.typ != EditType::Ins)
        .map(|e| e.a_line.clone().unwrap())
        .collect()
}

fn new_side(edits: &[DiffEdit]) -> Vec<DiffLine> {
    edits
        .iter()
        .filter(|e| e.typ != EditType::Del)
        .map(|e| e.b_line.clone().unwrap())
        .collect()
}

fn cost(edits: &[DiffEdit]) -> usize {
    edits.iter().filter(|e| e.typ != EditType::Eql).count()
}

// The length of a longest common subsequence, by the textbook table.
fn lcs(a: &[&str], b: &[&str]) -> usize {
    let mut table = vec![vec![0usize; b.len() + 1]; a.len() + 1];
    for i in 0..a.len() {
        for j in 0..b.len() {
            table[i + 1][j + 1] = if a[i] == b[j] {
                table[i][j] + 1
            } else {
                table[i][j + 1].max(table[i + 1][j])
            };
        }
    }
    table[a.len()][b.len()]
}

fn staged(name: &str, blob: &[u8]) -> IndexEntry {
    IndexEntry {
        metadata_changed: FileTime { seconds: 0, nanoseconds: 0 },
        data_changed: FileTime { seconds: 0, nanoseconds: 0 },
        dev: 0,
        ino: 0,
        mode_type: ModeType::RegularFile,
        user_permissions: 6,
        group_permissions: 4,
        other_permissions: 4,
        uid: 0,
        gid: 0,
        file_size: blob.len() as u32,
        hash: String::new(),
        blob: blob.to_vec(),
        assume_valid: false,
        extended: false,
        stage: 0,
        name_length: name.len() as u16,
        name: name.to_string(),
    }
}

fn committed(path: &str, content: &[u8]) -> FileBlob {
    FileBlob { path: path.to_string(), content: content.to_vec() }
}

fn work(path: &str, content: Option<&str>) -> WorkFile {
    WorkFile { path: path.to_string(), content: content.map(|c| c.to_string()) }
}

#[test]
fn test_calculate_diff() {
    let expected = vec![
        DiffEdit::new(EditType::Del, Some(DiffLine { number: 1, text: "A".to_string() }), None),
        DiffEdit::new(EditType::Del, Some(DiffLine { number: 2, text: "B".to_string() }), None),
        DiffEdit::new(
            EditType::Eql,
            Some(DiffLine { number: 3, text: "C".to_string() }),
            Some(DiffLine { number: 1, text: "C".to_string() }),
        ),
        DiffEdit::new(EditType::Ins, None, Some(DiffLine { number: 2, text: "B".to_string() })),
        DiffEdit::new(
            EditType::Eql,
            Some(DiffLine { number: 4, text: "A".to_string() }),
            Some(DiffLine { number: 3, text: "A".to_string() }),
        ),
        DiffEdit::new(
            EditType::Eql,
            Some(DiffLine { number: 5, text: "B".to_string() }),
            Some(DiffLine { number: 4, text: "B".to_string() }),
        ),
        DiffEdit::new(EditType::Del, Some(DiffLine { number: 6, text: "B".to_string() }), None),
        DiffEdit::new(
            EditType::Eql,
            Some(DiffLine { number: 7, text: "A".to_string() }),
            Some(DiffLine { number: 5, text: "A".to_string() }),
        ),
        DiffEdit::new(EditType::Ins, None, Some(DiffLine { number: 6, text: "C".to_string() })),
    ];

    let old = "A\nB\nC\nA\nB\nB\nA\n";
    let new = "C\nB\nA\nB\nA\nC\n";

    let diff = Diff::calculate("tests/data/a".to_string(), old, new).unwrap().unwrap();

    assert_eq!(diff.edits.len(), expected.len());
    assert_eq!(diff.edits, expected);
    assert_eq!(diff.stats.insertions, 2);
    assert_eq!(diff.stats.deletions, 3);
}

#[test]
fn equal_texts_give_no_diff() {
    for text in ["", "a", "a\nb\n", "x\r\ny", "\n\n"] {
        assert_eq!(Diff::calculate("f".to_string(), text, text).unwrap().map(|d| d.edits), None);
    }
}

#[test]
fn engine_gives_nothing_for_equal_lines() {
    assert_eq!(Myers::new(Vec::new(), Vec::new()).diff(), Ok(Vec::new()));
    assert_eq!(Myers::new(lines(&["a", "b"]), lines(&["a", "b"])).diff(), Ok(Vec::new()));
}

#[test]
fn texts_that_differ_only_in_the_last_line_end_have_no_edits() {
    let diff = Diff::calculate("f".to_string(), "a\n", "a").unwrap().unwrap();
    assert_eq!(diff.edits, Vec::new());
    assert_eq!(diff.stats, DiffStats { insertions: 0, deletions: 0 });
    assert_eq!(diff.file_name, "f");
}

#[test]
fn scripts_reconstruct_both_sides() {
    let cases: [(&[&str], &[&str]); 7] = [
        (&[], &["a"]),
        (&["a"], &[]),
        (&["a", "b", "c"], &["a", "c"]),
        (&["a", "b", "c"], &["x", "y", "z"]),
        (&["a", "b", "c", "a", "b", "b", "a"], &["c", "b", "a", "b", "a", "c"]),
        (&["1", "2", "3", "4"], &["0", "1", "2", "3", "4", "5"]),
        (&["same", "same", "same"], &["same"]),
    ];
    for (a, b) in cases {
        let edits = Myers::new(lines(a), lines(b)).diff().unwrap();
        assert_eq!(old_side(&edits), lines(a));
        assert_eq!(new_side(&edits), lines(b));
        for edit in &edits {
            match edit.typ {
                EditType::Ins => assert!(edit.a_line.is_none() && edit.b_line.is_some()),
                EditType::Del => assert!(edit.a_line.is_some() && edit.b_line.is_none()),
                EditType::Eql => assert_eq!(
                    edit.a_line.as_ref().unwrap().text,
                    edit.b_line.as_ref().unwrap().text
                ),
            }
        }
    }
}

#[test]
fn diffs_give_both_texts_back() {
    let cases = [
        ("a\nb\nc\n", "a\nc\nd\n"),
        ("one\ntwo", "two\nthree\n"),
        ("", "x\n\ny"),
        ("only\n", ""),
        ("\n\n\n", "\n"),
    ];
    for (old, new) in cases {
        let diff = Diff::calculate("f".to_string(), old, new).unwrap().unwrap();
        let join = |lines: Vec<DiffLine>| {
            lines.into_iter().map(|l| l.text).collect::<Vec<_>>().join("\n")
        };
        assert_eq!(join(old_side(&diff.edits)), old.strip_suffix('\n').unwrap_or(old));
        assert_eq!(join(new_side(&diff.edits)), new.strip_suffix('\n').unwrap_or(new));
    }
}

#[test]
fn scripts_are_shortest() {
    let alphabet = ["a", "b", "c"];
    // every pair of sequences over three letters with up to four lines each
    let mut all: Vec<Vec<&str>> = vec![Vec::new()];
    let mut frontier: Vec<Vec<&str>> = vec![Vec::new()];
    for _ in 0..4 {
        let mut next = Vec::new();
        for s in &frontier {
            for l in alphabet {
                let mut t = s.clone();
                t.push(l);
                next.push(t);
            }
        }
        all.extend(next.iter().cloned());
        frontier = next;
    }
    for a in &all {
        for b in &all {
            let edits = Myers::new(lines(a), lines(b)).diff().unwrap();
            assert_eq!(cost(&edits), a.len() + b.len() - 2 * lcs(a, b));
            if a != b {
                assert_eq!(old_side(&edits), lines(a));
                assert_eq!(new_side(&edits), lines(b));
            }
        }
    }
}

#[test]
fn stats_count_the_edits() {
    let diff = Diff::calculate("f".to_string(), "a\nb\nc\n", "b\nc\nd\ne\n").unwrap().unwrap();
    let insertions = diff.edits.iter().filter(|e| e.typ == EditType::Ins).count();
    let deletions = diff.edits.iter().filter(|e| e.typ == EditType::Del).count();
    assert_eq!(diff.stats.insertions, insertions);
    assert_eq!(diff.stats.deletions, deletions);
    assert_eq!((insertions, deletions), (2, 1));
    assert_eq!(DiffStats::new(&diff.edits), diff.stats);
    assert_eq!(DiffStats::default(), DiffStats { insertions: 0, deletions: 0 });
}

#[test]
fn lines_end_at_line_feeds() {
    let texts = |s: &str| get_lines(s).into_iter().map(|l| l.text).collect::<Vec<_>>();
    assert_eq!(texts(""), Vec::<String>::new());
    assert_eq!(texts("a"), vec!["a"]);
    assert_eq!(texts("a\n"), vec!["a"]);
    assert_eq!(texts("a\n\nb"), vec!["a", "", "b"]);
    assert_eq!(texts("a\r\nb\r\n"), vec!["a", "b"]);
    assert_eq!(texts("a\rb\n"), vec!["a\rb"]);
    assert_eq!(texts("a\r"), vec!["a\r"]);
    assert_eq!(texts("\n"), vec![""]);
    assert_eq!(texts("\r\n\r\n"), vec!["", ""]);
    assert_eq!(texts("é\nü"), vec!["é", "ü"]);
    for text in ["", "a", "a\n", "a\n\nb", "a\r\nb\r\n", "a\rb\n", "a\r", "\n", "x\ny\r\n\nz"] {
        assert_eq!(texts(text), text.lines().collect::<Vec<_>>());
    }
}

#[test]
fn lines_are_numbered_from_one() {
    let lines = get_lines("x\ny\nz");
    assert_eq!(lines, vec![line(1, "x"), line(2, "y"), line(3, "z")]);
}

#[test]
fn tags_and_colours() {
    assert_eq!(EditType::Ins.get_tag(), "+");
    assert_eq!(EditType::Del.get_tag(), "-");
    assert_eq!(EditType::Eql.get_tag(), " ");
    assert_eq!(EditType::Ins.get_color(), "\x1b[32m");
    assert_eq!(EditType::Del.get_color(), "\x1b[31m");
    assert_eq!(EditType::Eql.get_color(), "\x1b[39m");
}

#[test]
fn summaries_add_up() {
    let one = Diff::calculate("a".to_string(), "1\n2\n", "2\n3\n4\n").unwrap().unwrap();
    let two = Diff::calculate("b".to_string(), "x\n", "").unwrap().unwrap();
    let stats = summarize(&vec![one, two]).unwrap();
    assert_eq!(stats, Stats { files_changed: 2, total_insertions: 2, total_deletions: 2 });
    assert_eq!(summarize(&Vec::new()), Ok(Stats::new(0, 0, 0)));
}

#[test]
fn summaries_that_overflow_are_refused() {
    let huge = Diff {
        file_name: "a".to_string(),
        edits: Vec::new(),
        stats: DiffStats { insertions: usize::MAX, deletions: 0 },
    };
    let small = Diff {
        file_name: "b".to_string(),
        edits: Vec::new(),
        stats: DiffStats { insertions: 1, deletions: 0 },
    };
    assert_eq!(summarize(&vec![huge, small]), Err(GitError::TooLarge));
}

#[test]
fn staged_entries_are_compared_with_the_commit() {
    let tree = vec![
        committed("repo/kept.txt", b"same\n"),
        committed("repo/changed.txt", b"one\ntwo\n"),
        committed("repo/binary.bin", &[0xff, 0xfe]),
    ];
    let index = vec![
        staged("kept.txt", b"same\n"),
        staged("changed.txt", b"one\nthree\n"),
        staged("binary.bin", b"now text\n"),
        staged("new.txt", b"fresh\n"),
        staged("empty.txt", b""),
        staged("blob.bin", &[0xc3, 0x28]),
    ];
    let (diffs, stats) = get_staged_diffs("repo", &tree, &index).unwrap();
    let names: Vec<&str> = diffs.iter().map(|d| d.file_name.as_str()).collect();
    assert_eq!(names, vec!["repo/changed.txt", "repo/new.txt", "repo/empty.txt"]);
    assert_eq!(diffs[0].stats, DiffStats { insertions: 1, deletions: 1 });
    assert_eq!(diffs[1].stats, DiffStats { insertions: 1, deletions: 0 });
    assert_eq!(diffs[2].edits, Vec::new());
    assert_eq!(stats, Stats { files_changed: 3, total_insertions: 2, total_deletions: 1 });
}

#[test]
fn working_files_are_compared_with_the_commit() {
    let tree = vec![
        committed("repo/kept.txt", b"same\n"),
        committed("repo/changed.txt", b"one\ntwo\n"),
        committed("repo/staged.txt", b"old\n"),
        committed("repo/gone.txt", b"bye\n"),
        committed("repo/unreadable.txt", b"text\n"),
        committed("repo/binary.bin", &[0xff]),
    ];
    let working = vec![
        work("repo/untracked.txt", Some("hello\nworld\n")),
        work("repo/kept.txt", Some("same\n")),
        work("repo/changed.txt", Some("one\ntwo\nthree\n")),
        work("repo/staged.txt", Some("newer\n")),
        work("repo/empty.txt", Some("")),
        work("repo/unreadable.txt", None),
        work("repo/picture.png", None),
        work("repo/binary.bin", Some("text now\n")),
        work("repo/also_staged.txt", Some("x\n")),
    ];
    let staged_diffs = vec![
        Diff::calculate("repo/staged.txt".to_string(), "old\n", "new\n").unwrap().unwrap(),
        Diff::calculate("repo/also_staged.txt".to_string(), "", "x\n").unwrap().unwrap(),
    ];
    let (diffs, stats) = get_diffs(&tree, &working, &staged_diffs).unwrap();
    let names: Vec<&str> = diffs.iter().map(|d| d.file_name.as_str()).collect();
    assert_eq!(names, vec!["repo/untracked.txt", "repo/empty.txt", "repo/changed.txt"]);
    assert_eq!(diffs[0].stats, DiffStats { insertions: 2, deletions: 0 });
    assert_eq!(diffs[1].edits, Vec::new());
    assert_eq!(diffs[2].stats, DiffStats { insertions: 1, deletions: 0 });
    assert_eq!(stats, Stats { files_changed: 3, total_insertions: 3, total_deletions: 0 });
}

#[test]
fn the_last_entry_of_a_path_counts() {
    let tree = vec![committed("repo/a.txt", b"first\n"), committed("repo/a.txt", b"second\n")];
    let index = vec![staged("a.txt", b"second\n")];
    let (diffs, stats) = get_staged_diffs("repo/", &tree, &index).unwrap();
    assert!(diffs.is_empty());
    assert_eq!(stats, Stats { files_changed: 0, total_insertions: 0, total_deletions: 0 });
}
