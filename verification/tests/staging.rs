use contrast::error::GitError;
use contrast::index::{
    parse_index_entry, parse_index_file, FileTime, IndexEntry, ModeType, Version,
};

const BLOB: [u8; 20] = [120, 156, 75, 202, 201, 79, 82, 48, 101, 200, 72, 205, 201, 201, 7, 0, 25, 170, 4, 9];

fn be32(v: u32) -> [u8; 4] {
    v.to_be_bytes()
}

struct Raw<'a> {
    ctime: (u32, u32),
    mtime: (u32, u32),
    dev: u32,
    ino: u32,
    mode: u32,
    uid: u32,
    gid: u32,
    size: u32,
    hash: [u8; 20],
    flags: u16,
    name: &'a [u8],
}

fn raw(name: &[u8]) -> Raw<'_> {
    Raw {
        ctime: (1_700_000_000, 123_456_789),
        mtime: (1_700_000_001, 987_654_321),
        dev: 2051,
        ino: 15886105,
        mode: 0o100644,
        uid: 1000,
        gid: 1000,
        size: 388,
        hash: [
            0xde, 0xad, 0xbe, 0xef, 0x00, 0x01, 0x02, 0x03, 0x04, 0x05, 0x06, 0x07, 0x08, 0x09,
            0x0a, 0x0b, 0x0c, 0x0d, 0x0e, 0xff,
        ],
        flags: name.len() as u16,
        name,
    }
}

fn entry_bytes(r: &Raw) -> Vec<u8> {
    let mut out = Vec::new();
    for v in [r.ctime.0, r.ctime.1, r.mtime.0, r.mtime.1, r.dev, r.ino, r.mode, r.uid, r.gid, r.size]
    {
        out.extend_from_slice(&be32(v));
    }
    out.extend_from_slice(&r.hash);
    out.extend_from_slice(&r.flags.to_be_bytes());
    out.extend_from_slice(r.name);
    let padded = ((62 + r.name.len()) / 8 + 1) * 8;
    while out.len() < padded {
        out.push(0);
    }
    out
}

fn index_bytes(version: u32, entries: &[Vec<u8>]) -> Vec<u8> {
    let mut out = b"DIRC".to_vec();
    out.extend_from_slice(&be32(version));
    out.extend_from_slice(&be32(entries.len() as u32));
    for e in entries {
        out.extend_from_slice(e);
    }
    // what follows the entries in a real file: a checksum
    out.extend_from_slice(&[0xab; 20]);
    out
}

fn fixture() -> Vec<u8> {
    let mut entries = vec![entry_bytes(&raw(b".github/workflows/rust.yml"))];
    for i in 1..26 {
        let name = format!("src/file_{}.rs", "x".repeat(i));
        let mut r = raw(name.as_bytes());
        r.ino = 100 + i as u32;
        // a first byte of zero in the next entry must not be taken for padding
        r.ctime = (i as u32, 0);
        entries.push(entry_bytes(&r));
    }
    index_bytes(2, &entries)
}

#[test]
fn test_parse_index() {
    let index_file = parse_index_file(&fixture()).unwrap();

    assert!(matches!(index_file.version, Version::Two));
    assert_eq!(index_file.index_entries.len(), 26);
    assert_eq!(index_file.index_entries[0].dev, 2051);
    assert_eq!(index_file.index_entries[0].ino, 15886105);
    assert!(matches!(index_file.index_entries[0].mode_type, ModeType::RegularFile));
    assert_eq!(index_file.index_entries[0].user_permissions, 6);
    assert_eq!(index_file.index_entries[0].group_permissions, 4);
    assert_eq!(index_file.index_entries[0].other_permissions, 4);
    assert_eq!(index_file.index_entries[0].uid, 1000);
    assert_eq!(index_file.index_entries[0].gid, 1000);
    assert_eq!(index_file.index_entries[0].file_size, 388);
    assert!(!index_file.index_entries[0].assume_valid);
    assert!(!index_file.index_entries[0].extended);
    assert_eq!(index_file.index_entries[0].stage, 0);
    assert_eq!(index_file.index_entries[0].name_length, 26);
    assert_eq!(index_file.index_entries[0].name, ".github/workflows/rust.yml");
}

#[test]
fn every_entry_of_the_file_is_read_in_order() {
    let index_file = parse_index_file(&fixture()).unwrap();
    for i in 1..26 {
        let entry = &index_file.index_entries[i];
        assert_eq!(entry.name, format!("src/file_{}.rs", "x".repeat(i)));
        assert_eq!(entry.ino, 100 + i as u32);
        assert_eq!(entry.metadata_changed, FileTime { seconds: i as u32, nanoseconds: 0 });
        assert!(entry.blob.is_empty());
    }
}

#[test]
fn entries_hold_their_times_and_hash() {
    let bytes = entry_bytes(&raw(b"a"));
    let (entry, next) = parse_index_entry(&bytes, 0, &Version::Two).unwrap();
    assert_eq!(next, 64);
    assert_eq!(entry.metadata_changed, FileTime { seconds: 1_700_000_000, nanoseconds: 123_456_789 });
    assert_eq!(entry.data_changed, FileTime { seconds: 1_700_000_001, nanoseconds: 987_654_321 });
    assert_eq!(entry.hash, "deadbeef000102030405060708090a0b0c0d0eff");
    assert_eq!(entry.name, "a");
    assert_eq!(entry.name_length, 1);
}

#[test]
fn entries_are_padded_to_a_multiple_of_eight() {
    // 62 + 2 = 64 bytes of head and name take 8 bytes of padding
    let bytes = entry_bytes(&raw(b"ab"));
    assert_eq!(bytes.len(), 72);
    let (_, next) = parse_index_entry(&bytes, 0, &Version::Two).unwrap();
    assert_eq!(next, 72);
    // 62 + 9 = 71 bytes take one
    let bytes = entry_bytes(&raw(b"abcdefghi"));
    assert_eq!(bytes.len(), 72);
    let (_, next) = parse_index_entry(&bytes, 0, &Version::Two).unwrap();
    assert_eq!(next, 72);
}

#[test]
fn padding_ends_at_the_first_byte_that_is_not_zero() {
    let mut bytes = entry_bytes(&raw(b"ab"));
    bytes[66] = 7;
    let (_, next) = parse_index_entry(&bytes, 0, &Version::Two).unwrap();
    assert_eq!(next, 66);
}

#[test]
fn padding_ends_at_the_end_of_the_entry() {
    let mut bytes = entry_bytes(&raw(b"ab"));
    bytes.extend_from_slice(&[0, 0, 0, 0]);
    let (_, next) = parse_index_entry(&bytes, 0, &Version::Two).unwrap();
    assert_eq!(next, 72);
}

#[test]
fn modes_are_split_into_type_and_permissions() {
    let mut r = raw(b"link");
    r.mode = 0o120000;
    let (entry, _) = parse_index_entry(&entry_bytes(&r), 0, &Version::Two).unwrap();
    assert_eq!(entry.mode_type, ModeType::SymbolicLink);
    assert_eq!(
        (entry.user_permissions, entry.group_permissions, entry.other_permissions),
        (0, 0, 0)
    );
    r.mode = 0o160000;
    let (entry, _) = parse_index_entry(&entry_bytes(&r), 0, &Version::Two).unwrap();
    assert_eq!(entry.mode_type, ModeType::GitLink);
    r.mode = 0xffff_0000 | 0o100755;
    let (entry, _) = parse_index_entry(&entry_bytes(&r), 0, &Version::Two).unwrap();
    assert_eq!(entry.mode_type, ModeType::RegularFile);
    assert_eq!(
        (entry.user_permissions, entry.group_permissions, entry.other_permissions),
        (7, 5, 5)
    );
}

#[test]
fn flags_are_split_into_their_bits() {
    let mut r = raw(b"name");
    r.flags = 0x8000 | 0x2000 | 4;
    let (entry, _) = parse_index_entry(&entry_bytes(&r), 0, &Version::Two).unwrap();
    assert!(entry.assume_valid);
    assert!(!entry.extended);
    assert_eq!(entry.stage, 2);
    assert_eq!(entry.name_length, 4);
    r.flags = 0x3000 | 4;
    let (entry, _) = parse_index_entry(&entry_bytes(&r), 0, &Version::Two).unwrap();
    assert!(!entry.assume_valid);
    assert_eq!(entry.stage, 3);
    r.flags = 0x4000 | 4;
    let (entry, _) = parse_index_entry(&entry_bytes(&r), 0, &Version::Three).unwrap();
    assert!(entry.extended);
}

#[test]
fn faulty_entries_are_refused() {
    let parse = |r: &Raw| parse_index_entry(&entry_bytes(r), 0, &Version::Two).map(|(e, _)| e.name);

    let mut r = raw(b"name");
    r.flags = 5;
    assert_eq!(parse(&r), Err(GitError::NameLengthMismatch));

    let mut r = raw(b"name");
    r.flags = 0x4000 | 4;
    assert_eq!(parse(&r), Err(GitError::MalformedEntry));

    let mut r = raw(b"name");
    r.mode = 0o040000;
    assert_eq!(parse(&r), Err(GitError::MalformedEntry));

    let mut r = raw(b"name");
    r.ctime = (1, 2_000_000_000);
    assert_eq!(parse(&r), Err(GitError::MalformedEntry));

    let mut r = raw(b"name");
    r.mtime = (1, 1_500_000_000);
    assert_eq!(parse(&r), Err(GitError::MalformedEntry));

    let r = raw(&[0xc3, 0x28]);
    assert_eq!(parse(&r), Err(GitError::NonUtf8Content));

    let bytes = entry_bytes(&raw(b"name"));
    assert_eq!(
        parse_index_entry(&bytes[..61], 0, &Version::Two).map(|(e, _)| e.name),
        Err(GitError::TruncatedIndex)
    );
    assert_eq!(
        parse_index_entry(&bytes[..66], 0, &Version::Two).map(|(e, _)| e.name),
        Err(GitError::TruncatedIndex)
    );
}

#[test]
fn a_leap_second_is_a_time() {
    let mut r = raw(b"name");
    r.ctime = (59, 1_500_000_000);
    assert!(parse_index_entry(&entry_bytes(&r), 0, &Version::Two).is_ok());
}

#[test]
fn faulty_files_are_refused() {
    let entry = entry_bytes(&raw(b"name"));
    assert_eq!(parse_index_file(b""), Err(GitError::InvalidSignature));
    assert_eq!(parse_index_file(b"DIR"), Err(GitError::InvalidSignature));
    assert_eq!(parse_index_file(b"DIRX\0\0\0\x02\0\0\0\0"), Err(GitError::InvalidSignature));
    assert_eq!(parse_index_file(b"DIRC\0\0"), Err(GitError::TruncatedIndex));
    assert_eq!(parse_index_file(b"DIRC\0\0\0\x02\0"), Err(GitError::TruncatedIndex));
    for version in [0, 1, 3, 4, 5, 0x0200_0000] {
        assert_eq!(
            parse_index_file(&index_bytes(version, &[entry.clone()])),
            Err(GitError::UnsupportedVersion)
        );
    }
    let mut short = index_bytes(2, &[entry.clone()]);
    short[11] = 2;
    assert_eq!(parse_index_file(&short), Err(GitError::TruncatedIndex));
    let mut bad = raw(b"name");
    bad.flags = 3;
    assert_eq!(
        parse_index_file(&index_bytes(2, &[entry.clone(), entry_bytes(&bad)])),
        Err(GitError::NameLengthMismatch)
    );
}

#[test]
fn an_empty_file_has_no_entries() {
    let file = parse_index_file(b"DIRC\0\0\0\x02\0\0\0\0").unwrap();
    assert_eq!(file.version, Version::Two);
    assert_eq!(file.index_entries, Vec::<IndexEntry>::new());
}

#[test]
fn versions_and_mode_types_have_their_numbers() {
    assert_eq!(Version::try_from(2), Ok(Version::Two));
    assert_eq!(Version::try_from(3), Ok(Version::Three));
    assert_eq!(Version::try_from(4), Ok(Version::Four));
    assert_eq!(Version::try_from(1), Err(GitError::UnsupportedVersion));
    assert_eq!(ModeType::try_from(0b1000), Ok(ModeType::RegularFile));
    assert_eq!(ModeType::try_from(0b1010), Ok(ModeType::SymbolicLink));
    assert_eq!(ModeType::try_from(0b1110), Ok(ModeType::GitLink));
    assert_eq!(ModeType::try_from(0b0100), Err(GitError::MalformedEntry));
}

#[test]
fn entries_take_their_content_from_the_store() {
    let (entry, _) = parse_index_entry(&entry_bytes(&raw(b"hello.txt")), 0, &Version::Two).unwrap();
    let filled = entry.with_blob(Some(&BLOB)).unwrap();
    assert_eq!(filled.blob, b"hello");
    assert_eq!(filled.name, "hello.txt");
    assert_eq!(filled.ino, 15886105);

    let (entry, _) = parse_index_entry(&entry_bytes(&raw(b"hello.txt")), 0, &Version::Two).unwrap();
    assert_eq!(
        entry.with_blob(Some(b"not compressed")).map(|e| e.blob),
        Err(GitError::CorruptObject)
    );
    let (entry, _) = parse_index_entry(&entry_bytes(&raw(b"hello.txt")), 0, &Version::Two).unwrap();
    assert_eq!(entry.with_blob(None).map(|e| e.blob), Err(GitError::ObjectMissing));
}
