use contrast::commit::{Author, Commit, Timestamp};
use contrast::error::GitError;
use contrast::get_hash;
use contrast::hash::from_bytes;
use contrast::head::{
    get_branch, parse_tree, parse_tree_record, ref_path, FileBlob, Head, TreeEntry, TreeRecord,
};
use contrast::object::{get_bytes, object_path, parse_blob, read_object, GitObject, ObjectKind};

const BLOB: [u8; 20] = [120, 156, 75, 202, 201, 79, 82, 48, 101, 200, 72, 205, 201, 201, 7, 0, 25, 170, 4, 9];

const COMMIT: [u8; 168] = [
    120, 156, 141, 206, 203, 10, 194, 48, 16, 64, 81, 215, 249, 138, 217, 139, 50, 109, 211, 152,
    128, 136, 15, 112, 229, 206, 47, 152, 36, 211, 7, 164, 77, 73, 163, 248, 249, 22, 113, 233, 194,
    187, 63, 112, 93, 28, 134, 62, 67, 89, 153, 85, 78, 204, 32, 173, 46, 107, 239, 148, 44, 157, 85,
    108, 13, 161, 66, 174, 165, 109, 180, 87, 166, 212, 186, 177, 204, 210, 160, 20, 19, 37, 30, 51,
    20, 127, 38, 232, 145, 187, 152, 224, 228, 9, 110, 241, 201, 129, 28, 195, 158, 60, 29, 249, 69,
    195, 20, 120, 27, 83, 123, 128, 98, 135, 223, 96, 141, 5, 162, 112, 159, 191, 204, 9, 46, 29, 165,
    192, 51, 156, 201, 90, 106, 23, 236, 236, 79, 187, 40, 216, 96, 93, 161, 16, 215, 62, 205, 25, 66,
    63, 178, 16, 119, 118, 113, 244, 176, 108, 83, 155, 104, 234, 196, 27, 101, 99, 71, 239,
];

const COMMIT_TEXT: &str = "tree 4b825dc642cb6eb9a060e54bf8d69288fbee4904\nparent 1111111111111111111111111111111111111111\nauthor Ada Lovelace <ada@example.org> 1700000000 +0100\ncommitter Charles Babbage <cb@example.org> 1700000100 -0530\n\nFirst line\n\nSecond paragraph\n";

fn tree_bytes() -> Vec<u8> {
    let mut bytes = b"100644 a.txt\0".to_vec();
    bytes.extend(1..=20u8);
    bytes.extend_from_slice(b"40000 src\0");
    bytes.extend(21..=40u8);
    bytes
}

fn leaf(name: &str, content: &[u8]) -> TreeEntry {
    TreeEntry::new(
        "100644".to_string(),
        name.to_string(),
        "00".repeat(20),
        Vec::new(),
        Some(content.to_vec()),
    )
}

fn dir(name: &str, children: Vec<TreeEntry>) -> TreeEntry {
    TreeEntry::new("40000".to_string(), name.to_string(), "11".repeat(20), children, None)
}

fn file(path: &str, content: &[u8]) -> FileBlob {
    FileBlob { path: path.to_string(), content: content.to_vec() }
}

#[test]
fn hashes_are_printed_in_lower_case_hex() {
    assert_eq!(from_bytes(&[]), "");
    assert_eq!(from_bytes(&[0x00, 0x0f, 0xa0, 0xff, 0x9c]), "000fa0ff9c");
    assert_eq!(get_hash(&[0xde, 0xad, 0xbe, 0xef]), "deadbeef");
    let all: Vec<u8> = (0..=255).collect();
    let expected: String = all.iter().map(|b| format!("{:02x}", b)).collect();
    assert_eq!(from_bytes(&all), expected);
}

#[test]
fn objects_lie_under_their_first_two_digits() {
    assert_eq!(
        object_path("4b825dc642cb6eb9a060e54bf8d69288fbee4904"),
        Some("objects/4b/825dc642cb6eb9a060e54bf8d69288fbee4904".to_string())
    );
    assert_eq!(object_path(""), None);
    assert_eq!(object_path("4b825dc642cb6eb9a060e54bf8d69288fbee490"), None);
    assert_eq!(object_path("4b825dc642cb6eb9a060e54bf8d69288fbee49045"), None);
    assert_eq!(object_path("4B825DC642CB6EB9A060E54BF8D69288FBEE4904"), None);
    assert_eq!(object_path("4b825dc642cb6eb9a060e54bf8d69288fbee490g"), None);
    assert_eq!(object_path("../25dc642cb6eb9a060e54bf8d69288fbee4904"), None);
}

#[test]
fn payloads_are_read_as_objects() {
    assert_eq!(
        read_object(b"blob 5\0hello", None),
        Ok(GitObject { kind: ObjectKind::Blob, content: b"hello".to_vec() })
    );
    assert_eq!(
        read_object(b"tree 0\0", Some(ObjectKind::Tree)),
        Ok(GitObject { kind: ObjectKind::Tree, content: Vec::new() })
    );
    assert_eq!(
        read_object(b"commit 3\0a\0b", Some(ObjectKind::Commit)),
        Ok(GitObject { kind: ObjectKind::Commit, content: b"a\0b".to_vec() })
    );
}

#[test]
fn objects_of_another_kind_are_refused() {
    assert_eq!(read_object(b"blob 5\0hello", Some(ObjectKind::Tree)), Err(GitError::WrongType));
    assert_eq!(read_object(b"tree 0\0", Some(ObjectKind::Blob)), Err(GitError::WrongType));
    assert_eq!(parse_blob(b"commit 1\0x".to_vec()), Err(GitError::WrongType));
}

#[test]
fn payloads_of_another_shape_are_refused() {
    for payload in [
        &b""[..],
        b"blob",
        b"blob 5",
        b"blob 5hello",
        b"blob\x005 hello",
        b"blob 4\0hello",
        b"blob 6\0hello",
        b"blob \0",
        b"blob +5\0hello",
        b"blob 5 \0hello",
        b"blob x\0hello",
        b"blub 5\0hello",
        b"BLOB 5\0hello",
        b"tag 5\0hello",
        b" 5\0hello",
        b"blob 99999999999999999999999999\0hello",
    ] {
        assert_eq!(read_object(payload, None), Err(GitError::CorruptObject), "{:?}", payload);
    }
}

#[test]
fn blobs_give_their_content() {
    assert_eq!(parse_blob(b"blob 5\0hello".to_vec()), Ok(b"hello".to_vec()));
    assert_eq!(parse_blob(b"blob 0\0".to_vec()), Ok(Vec::new()));
    assert_eq!(parse_blob(b"blob 05\0hello".to_vec()), Ok(b"hello".to_vec()));
    assert_eq!(parse_blob(b"blob 1\0".to_vec()), Err(GitError::CorruptObject));
}

#[test]
fn stored_objects_are_decompressed() {
    assert_eq!(
        get_bytes(Some(&BLOB), None),
        Ok(GitObject { kind: ObjectKind::Blob, content: b"hello".to_vec() })
    );
    assert_eq!(get_bytes(Some(&BLOB), Some(ObjectKind::Commit)), Err(GitError::WrongType));
    assert_eq!(get_bytes(Some(b"blob 5\0hello"), None), Err(GitError::CorruptObject));
    assert_eq!(get_bytes(Some(&BLOB[..10]), None), Err(GitError::CorruptObject));
    assert_eq!(get_bytes(Some(&[]), None), Err(GitError::CorruptObject));
    assert_eq!(get_bytes(None, None), Err(GitError::ObjectMissing));
    assert_eq!(get_bytes(None, Some(ObjectKind::Blob)), Err(GitError::ObjectMissing));
    let commit = get_bytes(Some(&COMMIT), Some(ObjectKind::Commit)).unwrap();
    assert_eq!(commit.content, COMMIT_TEXT.as_bytes());
}

#[test]
fn head_names_a_branch() {
    assert_eq!(get_branch(Some("ref: refs/heads/main\n")), Ok("main".to_string()));
    assert_eq!(get_branch(Some("ref: refs/heads/feature/x\n")), Ok("feature/x".to_string()));
    assert_eq!(ref_path("main"), "refs/heads/main");
    assert_eq!(ref_path("feature/x"), "refs/heads/feature/x");
}

#[test]
fn a_head_of_another_shape_is_unresolved() {
    for head in [
        "",
        "ref: refs/heads/main",
        "ref: refs/heads/\n",
        "ref: refs/tags/v1\n",
        "4b825dc642cb6eb9a060e54bf8d69288fbee4904\n",
        " ref: refs/heads/main\n",
    ] {
        let expected = head
            .strip_prefix("ref: refs/heads/")
            .and_then(|h| h.strip_suffix('\n'))
            .map(|h| h.to_owned())
            .ok_or(GitError::UnresolvedHead);
        assert_eq!(get_branch(Some(head)), expected, "{:?}", head);
    }
    assert_eq!(get_branch(Some("ref: refs/heads/main")), Err(GitError::UnresolvedHead));
    assert_eq!(get_branch(Some("ref: refs/heads/\n")), Ok(String::new()));
    assert_eq!(get_branch(None), Err(GitError::UnresolvedHead));
}

#[test]
fn a_branch_file_holds_the_tip() {
    assert_eq!(
        contrast::head::get_hash(Some("4b825dc642cb6eb9a060e54bf8d69288fbee4904\n")),
        Ok("4b825dc642cb6eb9a060e54bf8d69288fbee4904".to_string())
    );
    assert_eq!(contrast::head::get_hash(Some("\n")), Ok(String::new()));
    assert_eq!(contrast::head::get_hash(Some("abc")), Err(GitError::UnresolvedHead));
    assert_eq!(contrast::head::get_hash(Some("")), Err(GitError::UnresolvedHead));
    assert_eq!(contrast::head::get_hash(None), Err(GitError::UnresolvedHead));
}

#[test]
fn trees_are_read_record_by_record() {
    let records = parse_tree(&tree_bytes()).unwrap();
    assert_eq!(
        records,
        vec![
            TreeRecord {
                mode: "100644".to_string(),
                name: "a.txt".to_string(),
                hash: "0102030405060708090a0b0c0d0e0f1011121314".to_string(),
            },
            TreeRecord {
                mode: "040000".to_string(),
                name: "src".to_string(),
                hash: "15161718191a1b1c1d1e1f202122232425262728".to_string(),
            },
        ]
    );
    assert_eq!(parse_tree(b""), Ok(Vec::new()));
    let (record, next) = parse_tree_record(&tree_bytes(), 33).unwrap();
    assert_eq!(record.name, "src");
    assert_eq!(next, 63);
}

#[test]
fn faulty_trees_are_refused() {
    let good = tree_bytes();
    assert_eq!(parse_tree(&good[..62]), Err(GitError::MalformedTree));
    assert_eq!(parse_tree(&good[..40]), Err(GitError::MalformedTree));
    assert_eq!(parse_tree(&good[..36]), Err(GitError::MalformedTree));
    let mut extra = good.clone();
    extra.push(1);
    assert_eq!(parse_tree(&extra), Err(GitError::MalformedTree));
    assert_eq!(parse_tree(b"1006 a\0aaaaaaaaaaaaaaaaaaaa"), Err(GitError::MalformedTree));
    assert_eq!(parse_tree(b"1006444 a\0aaaaaaaaaaaaaaaaaaaa"), Err(GitError::MalformedTree));
    assert_eq!(parse_tree(b"10064x a\0aaaaaaaaaaaaaaaaaaaa"), Err(GitError::MalformedTree));
    assert_eq!(parse_tree(b"100644 \xc3\x28\0aaaaaaaaaaaaaaaaaaaa"), Err(GitError::NonUtf8Content));
}

#[test]
fn modes_are_written_with_six_digits() {
    assert_eq!(dir("d", Vec::new()).mode, "040000");
    assert_eq!(leaf("f", b"").mode, "100644");
}

#[test]
fn records_become_files_or_directories() {
    let record = |name: &str| TreeRecord {
        mode: "100644".to_string(),
        name: name.to_string(),
        hash: "ab".repeat(20),
    };
    let blob = GitObject { kind: ObjectKind::Blob, content: b"text".to_vec() };
    let entry = TreeEntry::resolve(record("f"), blob, vec![leaf("ignored", b"")]).unwrap();
    assert_eq!(entry.blob, Some(b"text".to_vec()));
    assert!(entry.children.is_empty());
    assert_eq!(entry.name, "f");
    assert_eq!(entry.hash, "ab".repeat(20));

    let tree = GitObject { kind: ObjectKind::Tree, content: Vec::new() };
    let entry = TreeEntry::resolve(record("d"), tree, vec![leaf("inner", b"x")]).unwrap();
    assert_eq!(entry.blob, None);
    assert_eq!(entry.children, vec![leaf("inner", b"x")]);

    let commit = GitObject { kind: ObjectKind::Commit, content: Vec::new() };
    assert_eq!(TreeEntry::resolve(record("m"), commit, Vec::new()), Err(GitError::MalformedTree));
}

#[test]
fn blobs_are_collected_depth_first() {
    let head = Head::new(vec![
        leaf("README.md", b"readme"),
        dir(
            "src",
            vec![
                leaf("main.rs", b"main"),
                dir("ui", vec![leaf("mod.rs", b"ui")]),
                dir("empty", Vec::new()),
                leaf("lib.rs", b"lib"),
            ],
        ),
        dir("docs", Vec::new()),
        leaf("Cargo.toml", b"cargo"),
    ]);
    assert_eq!(
        head.get_blobs("/repo"),
        vec![
            file("/repo/README.md", b"readme"),
            file("/repo/src/main.rs", b"main"),
            file("/repo/src/ui/mod.rs", b"ui"),
            file("/repo/src/lib.rs", b"lib"),
            file("/repo/Cargo.toml", b"cargo"),
        ]
    );
    assert_eq!(head.get_blobs("")[1].path, "src/main.rs");
    assert_eq!(head.get_blobs("repo/")[1].path, "repo/src/main.rs");
    assert_eq!(Head::new(Vec::new()).get_blobs("x"), Vec::new());
}

#[test]
fn a_snapshot_has_as_many_files_as_leaves() {
    fn leaves(e: &TreeEntry) -> usize {
        if e.blob.is_some() {
            1
        } else {
            e.children.iter().map(leaves).sum()
        }
    }
    let tree = dir(
        "a",
        vec![leaf("1", b""), dir("b", vec![leaf("2", b""), leaf("3", b"")]), dir("c", Vec::new())],
    );
    assert_eq!(tree.get_blobs("").len(), leaves(&tree));
    assert_eq!(leaves(&tree), 3);
}

#[test]
fn trees_are_listed_with_their_depth() {
    let tree = dir("src", vec![leaf("main.rs", b"x"), dir("ui", vec![leaf("mod.rs", b"y")])]);
    let zeros = "00".repeat(20);
    let ones = "11".repeat(20);
    assert_eq!(
        tree.to_text(),
        format!(
            "040000 src ({ones})\n  100644 main.rs ({zeros}) (blob data)\n  040000 ui ({ones})\n    100644 mod.rs ({zeros}) (blob data)\n"
        )
    );
}

#[test]
fn commits_are_decoded() {
    let commit = Commit::new("abc", COMMIT_TEXT).unwrap();
    assert_eq!(
        commit,
        Commit {
            hash: "abc".to_string(),
            tree: "4b825dc642cb6eb9a060e54bf8d69288fbee4904".to_string(),
            parents: vec!["1111111111111111111111111111111111111111".to_string()],
            author: Author {
                name: "Ada Lovelace <ada@example.org>".to_string(),
                timestamp: Timestamp { seconds: 1_700_000_000, offset: 3600 },
            },
            commiter: Author {
                name: "Charles Babbage <cb@example.org>".to_string(),
                timestamp: Timestamp { seconds: 1_700_000_100, offset: -(5 * 3600 + 30 * 60) },
            },
            message: "First line\n\nSecond paragraph".to_string(),
        }
    );
    assert_eq!(Commit::decode("abc", Some(&COMMIT)), Ok(commit));
}

#[test]
fn commits_may_have_no_parent_or_several() {
    let root = "tree t\nauthor A <a> 0 +0000\ncommitter B <b> 0 +0000\n\nroot";
    let commit = Commit::new("h", root).unwrap();
    assert_eq!(commit.parents, Vec::<String>::new());
    assert_eq!(commit.first_parent(), None);
    assert_eq!(commit.message, "root");

    let merge = "tree t\nparent pa\nparent pb\nparent pc\nauthor A <a> 0 +0000\ncommitter B <b> 0 +0000\n";
    let commit = Commit::new("h", merge).unwrap();
    assert_eq!(commit.parents, vec!["pa", "pb", "pc"]);
    assert_eq!(commit.first_parent(), Some(&"pa".to_string()));
    assert_eq!(commit.message, "");
}

#[test]
fn other_header_lines_are_passed_over() {
    let signed = "tree t\nparent p\ngpgsig -----BEGIN PGP SIGNATURE-----\n abcdef\n -----END PGP SIGNATURE-----\nauthor A <a> 1 +0000\nencoding UTF-8\ncommitter B <b> 2 +0000\nmergetag x\n\nthe message\nauthor X <x> 9 +0000\n";
    let commit = Commit::new("h", signed).unwrap();
    assert_eq!(commit.author.name, "A <a>");
    assert_eq!(commit.author.timestamp.seconds, 1);
    assert_eq!(commit.commiter.name, "B <b>");
    assert_eq!(commit.commiter.timestamp.seconds, 2);
    assert_eq!(commit.message, "the message\nauthor X <x> 9 +0000");
}

#[test]
fn faulty_commits_are_refused() {
    for text in [
        "",
        "\n",
        "parent p\nauthor A <a> 0 +0000\ncommitter B <b> 0 +0000\n",
        "tree\nauthor A <a> 0 +0000\ncommitter B <b> 0 +0000\n",
        "tree t\ncommitter B <b> 0 +0000\n\nmessage",
        "tree t\nauthor A <a> 0 +0000\n\nmessage",
        "tree t\ncommitter B <b> 0 +0000\nauthor A <a> 0 +0000\n\nmessage",
        "tree t\n\nauthor A <a> 0 +0000\ncommitter B <b> 0 +0000\n",
        "tree t\nauthor A a 0 +0000\ncommitter B <b> 0 +0000\n",
        "tree t\nauthor A <a> x +0000\ncommitter B <b> 0 +0000\n",
        "tree t\nauthor A <a> 0\ncommitter B <b> 0 +0000\n",
        "tree t\nauthor A <a> 0 0000\ncommitter B <b> 0 +0000\n",
        "tree t\nauthor A <a> 0 +000\ncommitter B <b> 0 +0000\n",
        "tree t\nauthor A <a> 0 +00000\ncommitter B <b> 0 +0000\n",
        "tree t\nauthor A <a> 0 +2400\ncommitter B <b> 0 +0000\n",
        "tree t\nauthor A <a> 0 -2400\ncommitter B <b> 0 +0000\n",
        "tree t\nauthor A <a> 9223372036854775808 +0000\ncommitter B <b> 0 +0000\n",
        "tree t\nauthor A <a> 9999999999999999 +0000\ncommitter B <b> 0 +0000\n",
        "tree t\nauthor A <a>\ncommitter B <b> 0 +0000\n",
    ] {
        assert_eq!(Commit::new("h", text), Err(GitError::MalformedCommit), "{:?}", text);
    }
    assert_eq!(Commit::decode("h", Some(&BLOB)), Err(GitError::WrongType));
    assert_eq!(Commit::decode("h", Some(b"junk")), Err(GitError::CorruptObject));
    assert_eq!(Commit::decode("h", None), Err(GitError::ObjectMissing));
    // a commit whose text is not UTF-8
    let latin: [u8; 18] = [120, 156, 75, 206, 207, 205, 205, 44, 81, 48, 100, 248, 15, 0, 20, 254, 3, 218];
    assert_eq!(Commit::decode("h", Some(&latin)), Err(GitError::NonUtf8Content));
}

#[test]
fn people_are_read_with_their_time() {
    assert_eq!(
        Author::new("Grace Hopper <grace@navy.mil> -86400 -1159"),
        Ok(Author {
            name: "Grace Hopper <grace@navy.mil>".to_string(),
            timestamp: Timestamp { seconds: -86400, offset: -(11 * 3600 + 59 * 60) },
        })
    );
    assert_eq!(
        Author::new("<> +5 +2359 and more").map(|a| a.timestamp),
        Ok(Timestamp { seconds: 5, offset: 23 * 3600 + 59 * 60 })
    );
    assert_eq!(Author::new("no address 5 +0000"), Err(GitError::MalformedCommit));
    assert_eq!(Author::new("a <b>5 +0000"), Err(GitError::MalformedCommit));
}

#[test]
fn commits_are_searched_without_regard_to_case() {
    let commit = Commit::new("abc", COMMIT_TEXT).unwrap();
    assert!(commit.contains(""));
    assert!(commit.contains("ada"));
    assert!(commit.contains("LOVELACE <ADA@"));
    assert!(commit.contains("second PARAGRAPH"));
    assert!(commit.contains("line\n\nsecond"));
    assert!(!commit.contains("babbage"));
    assert!(!commit.contains("third"));
    assert!(!commit.contains("4b825dc"));
    assert!(!commit.contains(&"x".repeat(1000)));
}
