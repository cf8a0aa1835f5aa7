use contrast::error::GitError;
use contrast::header::Header;
use contrast::line::Line;
use contrast::stats::Stats;

#[test]
fn git_parse_header() {
    let header =
        Header::new("@@ -209,6 +222,33 @@ impl fmt::Display for Diff {".to_string()).unwrap();
    assert_eq!(header.line, 222)
}

#[test]
fn header_parse_header() {
    let header =
        Header::new("@@ -209,6 +222,33 @@ impl fmt::Display for Diff {".to_string()).unwrap();
    assert_eq!(header.line, 222)
}

#[test]
fn headers_keep_their_text() {
    let header = Header::new("@@ -1 +1 @@".to_string()).unwrap();
    assert_eq!(header.content, "@@ -1 +1 @@");
    assert_eq!(header.line, 1);
    assert_eq!(header.clone(), header);
}

#[test]
fn headers_without_a_first_line_are_refused() {
    for raw in [
        "",
        "@@ -1",
        "@@ -1 ",
        "@@ -1 + @@",
        "@@ -1 +x @@",
        "@@ -1 +-3 @@",
        "@@ -1 +4294967296 @@",
        "@@ -1 é12 @@",
        "@@ -1 ,5 @@",
    ] {
        assert_eq!(Header::new(raw.to_string()), Err(GitError::MalformedHeader), "{}", raw);
    }
}

#[test]
fn headers_read_as_the_standard_library_does() {
    for raw in ["@@ -1 +4294967295 @@", "@@ -1 ++7 @@", "a b c12,9", "a b 007", "x  y", "a b -0"] {
        let expected: Option<u32> = raw
            .split(' ')
            .nth(2)
            .and_then(|f| f.split(',').next())
            .and_then(|f| f.get(1..))
            .and_then(|f| f.parse().ok());
        assert_eq!(Header::new(raw.to_string()).ok().map(|h| h.line), expected, "{}", raw);
    }
}

#[test]
fn lines_show_the_number_of_their_side() {
    let added = Line::new(None, Some(7), "x".to_string(), '+');
    let removed = Line::new(Some(3), None, "y".to_string(), '-');
    let kept = Line::new(Some(3), Some(4), "z".to_string(), ' ');
    let bare = Line::new(None, None, "".to_string(), '-');
    assert_eq!(added.number(), 7);
    assert_eq!(removed.number(), 3);
    assert_eq!(kept.number(), 4);
    assert_eq!(bare.number(), 0);
    assert_eq!(kept.clone(), kept);
    assert_eq!(kept.content, "z");
    assert_eq!(kept.origin, ' ');
}

#[test]
fn stats_hold_what_they_are_given() {
    let stats = Stats::new(3, 10, 4);
    assert_eq!(stats, Stats { files_changed: 3, insertions: 10, deletions: 4 });
}
