use contrast::commit::{matching, Commit};
use contrast::diff::{Diff, DiffEdit, DiffLine, DiffStats, EditType};
use contrast::header::Header;
use contrast::line::Line;
use contrast::patch::{self, parse_diffs, Delta, DiffParsingError, RawLine};
use contrast::stats::Stats;
use contrast::render::{
    code, deletions_text, files_changed_text, insertions_text, line_numbers, split_row, tags,
};
use contrast::text::{
    chars_of, contains_chars, decimal, find_char, get_field, has_prefix, parse_digits, parse_i64,
    string_of, sub_chars,
};

fn chars(s: &str) -> Vec<char> {
    s.chars().collect()
}

fn sample() -> Diff {
    let old: String = (1..=12).map(|i| format!("line {}\n", i)).collect();
    let new = old.replace("line 3\n", "").replace("line 11\n", "line eleven\nline 11 and a half\n");
    Diff::calculate("f".to_string(), &old, &new).unwrap().unwrap()
}

#[test]
fn numbers_are_aligned_to_the_right() {
    let diff = sample();
    assert_eq!(
        line_numbers(&diff, 0, 4),
        " 1  1\n 2  2\n 3   \n 4  3\n"
    );
    assert_eq!(line_numbers(&diff, 9, 14), "10  9\n11   \n   10\n   11\n12 12\n");
    assert_eq!(line_numbers(&diff, 13, 100), "12 12\n");
    assert_eq!(line_numbers(&diff, 14, 100), "");
    assert_eq!(line_numbers(&diff, 5, 2), "");
    assert_eq!(line_numbers(&diff, 100, 200), "");
}

#[test]
fn a_column_of_numbers_is_as_wide_as_its_largest() {
    let line = |number: usize| Some(DiffLine { number, text: "x".to_string() });
    let diff = Diff {
        file_name: "f".to_string(),
        edits: vec![
            DiffEdit::new(EditType::Eql, line(99), line(100)),
            DiffEdit::new(EditType::Ins, None, line(7)),
            DiffEdit::new(EditType::Del, line(5), None),
        ],
        stats: DiffStats { insertions: 1, deletions: 1 },
    };
    assert_eq!(line_numbers(&diff, 0, 3), "99 100\n     7\n 5    \n");
    let empty = Diff { file_name: "f".to_string(), edits: Vec::new(), stats: DiffStats::default() };
    assert_eq!(line_numbers(&empty, 0, 3), "");
}

#[test]
fn marks_and_code_come_row_by_row() {
    let diff = sample();
    assert_eq!(tags(&diff, 0, 4), " \n \n-\n \n");
    assert_eq!(tags(&diff, 10, 13), "-\n+\n+\n");
    assert_eq!(code(&diff, 1, 4), " line 2\n-line 3\n line 4\n");
    assert_eq!(code(&diff, 10, 13), "-line 11\n+line eleven\n+line 11 and a half\n");
    assert_eq!(tags(&diff, 20, 30), "");
    assert_eq!(code(&diff, 3, 3), "");
}

#[test]
fn rows_of_code_are_taken_apart_by_their_mark() {
    assert_eq!(split_row("+added"), (EditType::Ins, "added".to_string()));
    assert_eq!(split_row("-removed"), (EditType::Del, "removed".to_string()));
    assert_eq!(split_row(" kept"), (EditType::Eql, "kept".to_string()));
    assert_eq!(split_row("x"), (EditType::Eql, "".to_string()));
    assert_eq!(split_row(""), (EditType::Eql, "".to_string()));
    assert_eq!(split_row("+"), (EditType::Ins, "".to_string()));
    assert_eq!(split_row("é+"), (EditType::Eql, "+".to_string()));
}

#[test]
fn counts_are_put_in_words() {
    assert_eq!(files_changed_text(0), "0 files changed,");
    assert_eq!(files_changed_text(1), "1 file changed,");
    assert_eq!(files_changed_text(2), "2 files changed,");
    assert_eq!(insertions_text(1), "1 insertion(+),");
    assert_eq!(insertions_text(120), "120 insertions(+),");
    assert_eq!(deletions_text(1), "1 deletion(-)");
    assert_eq!(deletions_text(0), "0 deletions(-)");
}

#[test]
fn numbers_are_written_in_decimal() {
    for n in [0u64, 1, 9, 10, 11, 99, 100, 101, 4294967295, 4294967296, u64::MAX] {
        assert_eq!(decimal(n).into_iter().collect::<String>(), n.to_string());
    }
}

#[test]
fn digits_are_read_up_to_a_limit() {
    let read = |s: &str, limit: u64| parse_digits(&chars(s), 0, s.chars().count(), limit);
    assert_eq!(read("0", 0), Some(0));
    assert_eq!(read("007", 7), Some(7));
    assert_eq!(read("8", 7), None);
    assert_eq!(read("18446744073709551615", u64::MAX), Some(u64::MAX));
    assert_eq!(read("18446744073709551616", u64::MAX), None);
    assert_eq!(read("99999999999999999999999", u64::MAX), None);
    assert_eq!(read("", 5), None);
    assert_eq!(read("1a", 50), None);
    assert_eq!(read("+1", 50), None);
    assert_eq!(read("１", 50), None);
    assert_eq!(parse_digits(&chars("ab123cd"), 2, 5, 1000), Some(123));
    assert_eq!(parse_digits(&chars("ab123cd"), 2, 6, 1000), None);
    assert_eq!(parse_digits(&chars("ab123cd"), 3, 3, 1000), None);
}

#[test]
fn signed_numbers_are_read_as_the_standard_library_does() {
    for s in [
        "0", "-0", "+0", "12", "-12", "+12", "9223372036854775807", "9223372036854775808",
        "-9223372036854775808", "-9223372036854775809", "", "-", "+", "--1", "+-1", "1-", " 1",
        "0x10", "1e3", "00000000000000000000000000001",
    ] {
        assert_eq!(parse_i64(&chars(s)), s.parse::<i64>().ok(), "{:?}", s);
    }
}

#[test]
fn fields_are_what_the_separator_separates() {
    let field = |s: &str, n: usize| get_field(&chars(s), ' ', n).map(|f| f.into_iter().collect::<String>());
    for s in ["a b c", "", " ", "a", "a  b", " a b ", "tree abc"] {
        for n in 0..5 {
            assert_eq!(field(s, n), s.split(' ').nth(n).map(|f| f.to_string()), "{:?} {}", s, n);
        }
    }
}

#[test]
fn characters_are_found_and_copied() {
    let text = chars("hello world");
    assert_eq!(chars_of("héllo"), chars("héllo"));
    assert_eq!(find_char(&text, 'o', 0), 4);
    assert_eq!(find_char(&text, 'o', 5), 7);
    assert_eq!(find_char(&text, 'o', 8), 11);
    assert_eq!(find_char(&text, 'h', 11), 11);
    assert_eq!(string_of(&text, 6, 11), "world");
    assert_eq!(string_of(&text, 3, 3), "");
    assert_eq!(sub_chars(&text, 0, 5), chars("hello"));
    assert!(has_prefix(&text, 0, 11, "hello"));
    assert!(has_prefix(&text, 6, 11, "world"));
    assert!(has_prefix(&text, 6, 11, ""));
    assert!(!has_prefix(&text, 6, 10, "world"));
    assert!(!has_prefix(&text, 0, 11, "help"));
    assert!(contains_chars(&text, &chars("lo wo")));
    assert!(contains_chars(&text, &chars("")));
    assert!(contains_chars(&text, &chars("hello world")));
    assert!(contains_chars(&text, &chars("d")));
    assert!(!contains_chars(&text, &chars("hello world!")));
    assert!(!contains_chars(&text, &chars("ow")));
    assert!(contains_chars(&chars(""), &chars("")));
    assert!(!contains_chars(&chars(""), &chars("a")));
}

#[test]
fn the_log_is_searched() {
    let commit = |name: &str, message: &str| {
        Commit::new(
            "h",
            &format!("tree t\nauthor {} <a> 0 +0000\ncommitter C <c> 0 +0000\n\n{}", name, message),
        )
        .unwrap()
    };
    let log = vec![
        commit("Ada", "Fix the parser"),
        commit("Bob", "Add tests"),
        commit("Carol", "fix typos, thanks ADA"),
        commit("Dan", "Release"),
    ];
    assert_eq!(matching(&log, "ada"), vec![0, 2]);
    assert_eq!(matching(&log, "FIX"), vec![0, 2]);
    assert_eq!(matching(&log, ""), vec![0, 1, 2, 3]);
    assert_eq!(matching(&log, "nothing"), Vec::<usize>::new());
    assert_eq!(matching(&log, "<a>"), vec![0, 1, 2, 3]);
    assert_eq!(matching(&Vec::new(), "x"), Vec::<usize>::new());
}

#[test]
fn hunks_are_laid_out_in_rows() {
    let headers = vec![
        Header::new("@@ -1,3 +1,4 @@ fn main() {".to_string()).unwrap(),
        Header::new("@@ -98,2 +99,2 @@".to_string()).unwrap(),
    ];
    let lines = vec![
        Line::new(Some(1), Some(1), "fn main() {".to_string(), ' '),
        Line::new(None, Some(2), "    let x = 1;".to_string(), '+'),
        Line::new(Some(2), Some(3), "}".to_string(), ' '),
        Line::new(Some(98), Some(99), "// end".to_string(), ' '),
        Line::new(Some(99), None, "old".to_string(), '-'),
        Line::new(None, Some(100), "new".to_string(), '+'),
    ];
    assert_eq!(patch::get_longest_line(&lines), 3);
    let diff = patch::Diff::new("a.rs".to_string(), "b.rs".to_string(), headers, lines);
    assert_eq!(
        diff.content,
        "@@ -1,3 +1,4 @@ fn main() {\nfn main() {\n    let x = 1;\n}\n@@ -98,2 +99,2 @@\n// end\nold\nnew\n"
    );
    assert_eq!(diff.origins_content, " \n  \n+ \n  \n \n  \n- \n+ \n");
    assert_eq!(diff.lines_content, " \n  1\n  2\n  3\n \n 99\n 99\n100\n");
    assert_eq!(diff.header_indices, vec![0, 4]);
    assert_eq!(diff.insertion_indices, vec![2, 7]);
    assert_eq!(diff.deletion_indices, vec![6]);
    assert_eq!(diff.neutral_indices, vec![1, 3, 5]);
    assert_eq!(diff.file_name(), "a.rs");
    assert_eq!(
        diff.to_text(),
        "diff --git a/a.rs b/b.rs\n  fn main() {+     let x = 1;  }  // end- old+ new"
    );
}

#[test]
fn a_hunk_may_start_at_several_headers_or_none() {
    let twice = vec![
        Header::new("@@ -1 +5 @@ first".to_string()).unwrap(),
        Header::new("@@ -9 +9 @@ other".to_string()).unwrap(),
        Header::new("@@ -1 +5 @@ second".to_string()).unwrap(),
    ];
    let lines = vec![
        Line::new(None, Some(5), "added at five".to_string(), '+'),
        Line::new(Some(5), Some(5), "kept at five".to_string(), ' '),
        Line::new(None, None, "\\ No newline at end of file".to_string(), '='),
    ];
    let diff = patch::Diff::new("f".to_string(), "f".to_string(), twice, lines);
    assert_eq!(diff.header_indices, vec![1, 2]);
    assert_eq!(diff.insertion_indices, vec![0]);
    assert_eq!(diff.neutral_indices, vec![3, 4]);
    assert_eq!(diff.lines_content, "5\n \n \n5\n0\n");
    assert_eq!(
        diff.content,
        "added at five\n@@ -1 +5 @@ first\n@@ -1 +5 @@ second\nkept at five\n\\ No newline at end of file\n"
    );

    let none = patch::Diff::new("f".to_string(), "g".to_string(), Vec::new(), Vec::new());
    assert_eq!(none.content, "");
    assert_eq!(none.header_indices, Vec::<usize>::new());
    assert_eq!(none.to_text(), "diff --git a/f b/g\n");
    assert_eq!(patch::get_longest_line(&Vec::new()), 1);
}

#[test]
fn lines_are_printed_with_their_mark() {
    assert_eq!(Line::new(None, Some(1), "x".to_string(), '+').to_text(), "+ x");
    assert_eq!(Line::new(None, None, "".to_string(), ' ').to_text(), "  ");
}

fn raw(old_lineno: Option<u32>, new_lineno: Option<u32>, content: &[u8], origin: char) -> RawLine {
    RawLine { old_lineno, new_lineno, content: content.to_vec(), origin }
}

fn delta(name: &str, headers: &[&[u8]], lines: Vec<RawLine>) -> Delta {
    Delta {
        old_file: Some(name.to_string()),
        new_file: Some(name.to_string()),
        headers: headers.iter().map(|h| h.to_vec()).collect(),
        lines,
    }
}

#[test]
fn what_a_repository_hands_out_is_laid_out() {
    let deltas = vec![
        delta(
            "src/a.rs",
            &[b"@@ -1,2 +1,2 @@ fn a() {\n"],
            vec![
                raw(Some(1), Some(1), b"fn a() {\n", ' '),
                raw(Some(2), None, b"    old();\r\n", '-'),
                raw(None, Some(2), b"    new();", '+'),
            ],
        ),
        delta("b.txt", &[], vec![raw(None, Some(1), b"\n", '+'), raw(None, Some(2), b"\r", '+')]),
        delta("empty", &[], Vec::new()),
    ];
    let (diffs, stats) = parse_diffs(deltas, Stats::new(3, 3, 1)).unwrap();
    assert_eq!(stats, Stats::new(3, 3, 1));
    assert_eq!(diffs.len(), 3);
    assert_eq!(diffs[0].file_name(), "src/a.rs");
    assert_eq!(diffs[0].headers[0].content, "@@ -1,2 +1,2 @@ fn a() {");
    assert_eq!(diffs[0].headers[0].line, 1);
    assert_eq!(diffs[0].content, "@@ -1,2 +1,2 @@ fn a() {\nfn a() {\n    old();\n    new();\n");
    assert_eq!(diffs[0].lines[1].content, "    old();");
    assert_eq!(diffs[0].header_indices, vec![0]);
    assert_eq!(diffs[0].deletion_indices, vec![2]);
    assert_eq!(diffs[1].file_name(), "b.txt");
    assert_eq!(diffs[1].lines[0].content, "");
    assert_eq!(diffs[1].lines[1].content, "\r");
    assert_eq!(diffs[2].file_name(), "empty");
    assert_eq!(diffs[2].content, "");
}

#[test]
fn what_is_no_diff_is_refused() {
    let good = || delta("f", &[b"@@ -1 +1 @@\n"], vec![raw(Some(1), Some(1), b"x\n", ' ')]);
    assert!(parse_diffs(vec![good(), good()], Stats::new(2, 0, 0)).is_ok());
    assert_eq!(parse_diffs(Vec::new(), Stats::new(0, 0, 0)), Ok((Vec::new(), Stats::new(0, 0, 0))));

    let mut nameless = good();
    nameless.old_file = None;
    let mut unnamed = good();
    unnamed.new_file = None;
    let mut binary = good();
    binary.lines.push(raw(None, Some(2), &[0xff, b'\n'], '+'));
    let mut headless = good();
    headless.headers.push(b"@@ no numbers @@".to_vec());
    let mut garbled = good();
    garbled.headers.push(vec![0xc3, 0x28]);
    for bad in [nameless, unnamed, binary, headless, garbled] {
        assert_eq!(
            parse_diffs(vec![good(), bad, good()], Stats::new(3, 0, 0)).map(|_| ()),
            Err(DiffParsingError)
        );
    }
}
