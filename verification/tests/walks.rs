use contrast::error::GitError;
use contrast::head::{FileBlob, Head, TreeEntry};
use contrast::walk::{LogWalk, TreeWalk};

const ROOT: [u8; 96] = [
    49, 48, 48, 54, 52, 52, 32, 97, 46, 116, 120, 116, 0, 1, 1, 1, 1, 1, 1, 1, 1, 1, 1, 1, 1, 1, 1, 1,
    1, 1, 1, 1, 1, 52, 48, 48, 48, 48, 32, 115, 114, 99, 0, 2, 2, 2, 2, 2, 2, 2, 2, 2, 2, 2, 2, 2, 2,
    2, 2, 2, 2, 2, 2, 49, 48, 48, 54, 52, 52, 32, 122, 46, 116, 120, 116, 0, 3, 3, 3, 3, 3, 3, 3, 3, 3,
    3, 3, 3, 3, 3, 3, 3, 3, 3, 3, 3,
];

// The objects of a small repository, compressed as they are stored:
//   a.txt            blob 01..  "A"
//   src/             tree 02..
//     main.rs        blob 04..  "main"
//     ui/            tree 05..
//       mod.rs       blob 07..  "ui"
//     empty/         tree 06..
//   z.txt            blob 03..  "Z"
fn stored(hash: &str) -> Option<Vec<u8>> {
    let bytes: &[u8] = match &hash[..2] {
        "01" => &[120, 156, 75, 202, 201, 79, 82, 48, 100, 112, 4, 0, 11, 228, 2, 50],
        "02" => &[
            120, 156, 43, 41, 74, 77, 85, 176, 52, 99, 48, 52, 48, 48, 51, 49, 81, 200, 77, 204, 204,
            211, 43, 42, 102, 96, 193, 2, 76, 12, 128, 64, 161, 52, 147, 129, 21, 11, 128, 72, 166,
            230, 22, 148, 84, 50, 176, 97, 1, 0, 55, 54, 12, 168,
        ],
        "03" => &[120, 156, 75, 202, 201, 79, 82, 48, 100, 136, 2, 0, 11, 253, 2, 75],
        "04" => &[120, 156, 75, 202, 201, 79, 82, 48, 97, 200, 77, 204, 204, 3, 0, 21, 159, 3, 153],
        "05" => &[
            120, 156, 43, 41, 74, 77, 85, 48, 54, 97, 48, 52, 48, 48, 51, 49, 81, 200, 205, 79, 209,
            43, 42, 102, 96, 199, 2, 0, 191, 125, 6, 102,
        ],
        "06" => &[120, 156, 43, 41, 74, 77, 85, 48, 96, 0, 0, 10, 44, 2, 1],
        "07" => &[120, 156, 75, 202, 201, 79, 82, 48, 98, 40, 205, 4, 0, 14, 235, 2, 208],
        // the three commits of the log, the newest first
        "c1" => &[
            120, 156, 75, 206, 207, 205, 205, 44, 81, 48, 52, 48, 103, 40, 41, 74, 77, 85, 40, 225, 42,
            72, 44, 74, 205, 43, 81, 72, 36, 18, 112, 37, 150, 150, 100, 228, 23, 41, 56, 42, 216, 36,
            218, 41, 24, 43, 104, 27, 0, 1, 87, 50, 216, 216, 146, 212, 34, 5, 103, 5, 155, 100, 132,
            56, 87, 73, 70, 102, 81, 10, 23, 0, 77, 142, 37, 142,
        ],
        "aa" => &[
            120, 156, 75, 206, 207, 205, 205, 44, 81, 48, 52, 53, 99, 40, 41, 74, 77, 85, 40, 225, 42,
            72, 44, 74, 205, 43, 81, 72, 34, 18, 192, 212, 39, 19, 9, 184, 18, 75, 75, 50, 242, 139, 20,
            28, 21, 108, 18, 237, 20, 140, 20, 180, 13, 128, 128, 43, 25, 236, 140, 146, 212, 34, 5,
            103, 5, 155, 100, 132, 56, 87, 113, 106, 114, 126, 94, 10, 23, 0, 118, 94, 56, 69,
        ],
        "bb" => &[
            120, 156, 75, 206, 207, 205, 205, 44, 81, 48, 181, 100, 40, 41, 74, 77, 85, 40, 225, 74, 44,
            45, 201, 200, 47, 82, 112, 84, 176, 73, 180, 83, 48, 84, 208, 54, 0, 2, 174, 100, 176, 170,
            146, 212, 34, 5, 103, 5, 155, 100, 132, 56, 87, 90, 102, 81, 113, 9, 23, 0, 213, 98, 19,
            145,
        ],
        _ => return None,
    };
    Some(bytes.to_vec())
}

fn walk_through(root: &[u8], store: impl Fn(&str) -> Option<Vec<u8>>) -> Result<(Vec<TreeEntry>, Vec<String>), GitError> {
    let mut walk = TreeWalk::new(root)?;
    let mut asked = Vec::new();
    while let Some(hash) = walk.wanted().cloned() {
        assert_eq!(walk.wanted(), Some(&hash));
        let bytes = store(&hash);
        asked.push(hash);
        walk = walk.supply(bytes.as_deref())?;
    }
    Ok((walk.finish().unwrap(), asked))
}

fn leaf(name: &str, digit: &str, content: &[u8]) -> TreeEntry {
    TreeEntry {
        mode: "100644".to_string(),
        name: name.to_string(),
        hash: digit.repeat(20),
        children: Vec::new(),
        blob: Some(content.to_vec()),
    }
}

fn dir(name: &str, digit: &str, children: Vec<TreeEntry>) -> TreeEntry {
    TreeEntry {
        mode: "040000".to_string(),
        name: name.to_string(),
        hash: digit.repeat(20),
        children,
        blob: None,
    }
}

#[test]
fn a_tree_is_walked_depth_first() {
    let (forest, asked) = walk_through(&ROOT, stored).unwrap();
    assert_eq!(
        forest,
        vec![
            leaf("a.txt", "01", b"A"),
            dir(
                "src",
                "02",
                vec![
                    leaf("main.rs", "04", b"main"),
                    dir("ui", "05", vec![leaf("mod.rs", "07", b"ui")]),
                    dir("empty", "06", Vec::new()),
                ]
            ),
            leaf("z.txt", "03", b"Z"),
        ]
    );
    let order: Vec<&str> = asked.iter().map(|h| &h[..2]).collect();
    assert_eq!(order, vec!["01", "02", "04", "05", "07", "06", "03"]);
}

#[test]
fn the_walk_brings_home_every_tracked_file() {
    let (forest, _) = walk_through(&ROOT, stored).unwrap();
    let blobs = Head::new(forest).get_blobs("repo");
    let file = |path: &str, content: &[u8]| FileBlob { path: path.to_string(), content: content.to_vec() };
    assert_eq!(
        blobs,
        vec![
            file("repo/a.txt", b"A"),
            file("repo/src/main.rs", b"main"),
            file("repo/src/ui/mod.rs", b"ui"),
            file("repo/z.txt", b"Z"),
        ]
    );
}

#[test]
fn an_empty_tree_is_walked_at_once() {
    let walk = TreeWalk::new(b"").unwrap();
    assert_eq!(walk.wanted(), None);
    // a walk that is over takes nothing more
    let walk = walk.supply(stored("01").as_deref()).unwrap();
    assert_eq!(walk.wanted(), None);
    assert_eq!(walk.finish(), Some(Vec::new()));
}

#[test]
fn a_walk_that_is_not_over_gives_nothing() {
    let walk = TreeWalk::new(&ROOT).unwrap();
    assert_eq!(walk.finish(), None);
    let walk = TreeWalk::new(&ROOT).unwrap().supply(stored("01").as_deref()).unwrap();
    assert_eq!(walk.wanted(), Some(&"02".repeat(20)));
    let walk = walk.supply(stored("02").as_deref()).unwrap();
    assert_eq!(walk.wanted(), Some(&"04".repeat(20)));
    assert_eq!(walk.finish(), None);
}

#[test]
fn a_tree_whose_last_entry_is_a_directory_is_closed() {
    // src alone: its last entry is the empty directory
    let src = &ROOT[33..63];
    let (forest, asked) = walk_through(src, stored).unwrap();
    assert_eq!(forest.len(), 1);
    assert_eq!(forest[0].children.len(), 3);
    assert_eq!(forest[0].children[2], dir("empty", "06", Vec::new()));
    assert_eq!(asked.len(), 5);
}

#[test]
fn a_walk_fails_on_what_is_missing_or_broken() {
    let without = |missing: &'static str| move |hash: &str| if hash.starts_with(missing) { None } else { stored(hash) };
    assert_eq!(walk_through(&ROOT, without("07")), Err(GitError::ObjectMissing));
    assert_eq!(walk_through(&ROOT, without("02")), Err(GitError::ObjectMissing));
    assert_eq!(walk_through(&ROOT, |_| None), Err(GitError::ObjectMissing));

    let garbled = |hash: &str| if hash.starts_with("04") { Some(b"garbage".to_vec()) } else { stored(hash) };
    assert_eq!(walk_through(&ROOT, garbled), Err(GitError::CorruptObject));

    let commit_inside = |hash: &str| if hash.starts_with("05") { stored("c1") } else { stored(hash) };
    assert_eq!(walk_through(&ROOT, commit_inside), Err(GitError::MalformedTree));

    assert_eq!(TreeWalk::new(b"100644 a.txt").map(|_| ()), Err(GitError::MalformedTree));
    assert_eq!(TreeWalk::new(&ROOT[..95]).map(|_| ()), Err(GitError::MalformedTree));
}

#[test]
fn the_log_follows_the_first_parents() {
    let mut walk = LogWalk::new("c1".repeat(20));
    let mut asked = Vec::new();
    while let Some(hash) = walk.wanted() {
        asked.push(hash.clone());
        let bytes = stored(hash);
        walk.supply(bytes.as_deref()).unwrap();
    }
    assert_eq!(asked, vec!["c1".repeat(20), "aa".repeat(20), "bb".repeat(20)]);
    let log = walk.finish();
    let messages: Vec<&str> = log.iter().map(|c| c.message.as_str()).collect();
    assert_eq!(messages, vec!["third", "second", "first"]);
    let hashes: Vec<&str> = log.iter().map(|c| c.hash.as_str()).collect();
    assert_eq!(hashes, asked);
    assert_eq!(log[1].parents, vec!["bb".repeat(20), "cc".repeat(20)]);
    assert_eq!(log[2].parents, Vec::<String>::new());
}

#[test]
fn a_log_that_is_cut_off_fails() {
    let mut walk = LogWalk::new("c1".repeat(20));
    walk.supply(stored("c1").as_deref()).unwrap();
    assert_eq!(walk.wanted(), Some(&"aa".repeat(20)));
    assert_eq!(walk.supply(None), Err(GitError::ObjectMissing));
    assert_eq!(walk.supply(stored("01").as_deref()), Err(GitError::WrongType));
    // the walk is where it was
    assert_eq!(walk.wanted(), Some(&"aa".repeat(20)));
    assert_eq!(walk.commits.len(), 1);
    walk.supply(stored("aa").as_deref()).unwrap();
    walk.supply(stored("bb").as_deref()).unwrap();
    assert_eq!(walk.wanted(), None);
    // a walk that is over takes nothing more
    assert_eq!(walk.supply(stored("c1").as_deref()), Ok(()));
    assert_eq!(walk.finish().len(), 3);
}
