//! The staging area: a binary file that lists what the next commit holds.

use vstd::prelude::*;
use vstd::slice::slice_subrange;
use vstd::utf8::{decode_utf8, valid_utf8};
use crate::bytes::{
    be16, be32, copy_range, find_byte, first_byte, holds_at, matches_at, read_be16, read_be32,
};
use crate::error::GitError;
use crate::hash::{from_bytes, hex_of};
use crate::object::{get_bytes, stored_object, stored_view, ObjectKind};
use crate::text::string_from_utf8;
use crate::time::{is_timestamp, timestamp_representable};

verus! {

/// The versions of the staging file that exist.
#[derive(Debug, Clone, Copy, PartialEq, Eq, Structural)]
pub enum Version {
    Two,
    Three,
    Four,
}

/// The version that the number `value` names.
pub open spec fn version_of(value: int) -> Result<Version, GitError> {
    if value == 2 {
        Ok(Version::Two)
    } else if value == 3 {
        Ok(Version::Three)
    } else if value == 4 {
        Ok(Version::Four)
    } else {
        Err(GitError::UnsupportedVersion)
    }
}

impl Version {
    /// The version that the number `value` names; `UnsupportedVersion`
    /// where it names none.
    pub fn try_from(value: u32) -> (r: Result<Version, GitError>)
        ensures
            r == version_of(value as int),
    {
        match value {
            2 => Ok(Version::Two),
            3 => Ok(Version::Three),
            4 => Ok(Version::Four),
            _ => Err(GitError::UnsupportedVersion),
        }
    }
}

/// What kind of thing a staged entry is.
#[derive(Debug, Clone, Copy, PartialEq, Eq, Structural)]
pub enum ModeType {
    RegularFile,
    SymbolicLink,
    GitLink,
}

/// The kind that the four-bit number `value` names.
pub open spec fn mode_type_of(value: int) -> Result<ModeType, GitError> {
    if value == 8 {
        Ok(ModeType::RegularFile)
    } else if value == 10 {
        Ok(ModeType::SymbolicLink)
    } else if value == 14 {
        Ok(ModeType::GitLink)
    } else {
        Err(GitError::MalformedEntry)
    }
}

impl ModeType {
    /// The kind that the four-bit number `value` names; `MalformedEntry`
    /// where it names none.
    pub fn try_from(value: u32) -> (r: Result<ModeType, GitError>)
        ensures
            r == mode_type_of(value as int),
    {
        match value {
            8 => Ok(ModeType::RegularFile),
            10 => Ok(ModeType::SymbolicLink),
            14 => Ok(ModeType::GitLink),
            _ => Err(GitError::MalformedEntry),
        }
    }
}

/// A file system time stamp: seconds since the start of 1970, and the
/// nanoseconds within that second.
#[derive(Debug, Clone, Copy, PartialEq, Eq, Structural)]
pub struct FileTime {
    pub seconds: u32,
    pub nanoseconds: u32,
}

/// One staged path.
#[derive(Debug, PartialEq, Eq)]
pub struct IndexEntry {
    pub metadata_changed: FileTime,
    pub data_changed: FileTime,
    pub dev: u32,
    pub ino: u32,
    pub mode_type: ModeType,
    pub user_permissions: u32,
    pub group_permissions: u32,
    pub other_permissions: u32,
    pub uid: u32,
    pub gid: u32,
    pub file_size: u32,
    pub hash: String,
    pub blob: Vec<u8>,
    pub assume_valid: bool,
    pub extended: bool,
    pub stage: u16,
    pub name_length: u16,
    pub name: String,
}

/// The staging file, decoded.
#[derive(Debug, PartialEq, Eq)]
pub struct IndexFile {
    pub version: Version,
    pub index_entries: Vec<IndexEntry>,
}

/// The bytes that every entry holds before its name.
pub const ENTRY_HEAD: usize = 62;

/// The sixteen bits of an entry's mode that matter.
pub open spec fn mode_at(s: Seq<u8>, at: int) -> int {
    be32(s, at + 24) % 65536
}

/// The position of the zero byte that ends the name of the entry at `at`.
pub open spec fn name_end(s: Seq<u8>, at: int) -> int {
    first_byte(s, 0, at + 62)
}

/// The first position from `from` on that holds no zero byte, or `limit`.
pub open spec fn skip_zeros(s: Seq<u8>, from: int, limit: int) -> int
    decreases limit - from,
{
    if from >= limit || from >= s.len() || s[from] != 0 {
        from
    } else {
        skip_zeros(s, from + 1, limit)
    }
}

/// Where the entry at `at` would end if it were padded in full: its length
/// is the next multiple of eight above that of its head and name.
pub open spec fn entry_boundary(s: Seq<u8>, at: int) -> int {
    at + ((62 + (name_end(s, at) - (at + 62))) / 8 + 1) * 8
}

/// Where the entry after the one at `at` begins: behind the name's zero
/// byte and the zero bytes that pad it, which are at most eight together.
pub open spec fn entry_end(s: Seq<u8>, at: int) -> int {
    skip_zeros(
        s,
        name_end(s, at) + 1,
        if entry_boundary(s, at) < s.len() {
            entry_boundary(s, at)
        } else {
            s.len() as int
        },
    )
}

/// Why the bytes at `at` are no entry of a file of version `version`, or
/// `None` where they are one.
#[verifier::opaque]
pub open spec fn entry_error(s: Seq<u8>, at: int, version: Version) -> Option<GitError> {
    if at + 62 > s.len() {
        Some(GitError::TruncatedIndex)
    } else if !timestamp_representable(be32(s, at) as i64, be32(s, at + 4) as u32)
        || !timestamp_representable(be32(s, at + 8) as i64, be32(s, at + 12) as u32) {
        Some(GitError::MalformedEntry)
    } else if mode_type_of(mode_at(s, at) / 4096) is Err {
        Some(GitError::MalformedEntry)
    } else if version == Version::Two && (be16(s, at + 60) / 16384) % 2 == 1 {
        Some(GitError::MalformedEntry)
    } else if name_end(s, at) >= s.len() {
        Some(GitError::TruncatedIndex)
    } else if name_end(s, at) - (at + 62) != be16(s, at + 60) % 4096 {
        Some(GitError::NameLengthMismatch)
    } else if !valid_utf8(s.subrange(at + 62, name_end(s, at))) {
        Some(GitError::NonUtf8Content)
    } else {
        None
    }
}

impl IndexEntry {
    /// This entry holds what the bytes at `at` say, field by field, and no
    /// content yet.
    #[verifier::opaque]
    pub open spec fn decodes(&self, s: Seq<u8>, at: int) -> bool {
        &&& self.metadata_changed.seconds == be32(s, at)
        &&& self.metadata_changed.nanoseconds == be32(s, at + 4)
        &&& self.data_changed.seconds == be32(s, at + 8)
        &&& self.data_changed.nanoseconds == be32(s, at + 12)
        &&& self.dev == be32(s, at + 16)
        &&& self.ino == be32(s, at + 20)
        &&& Ok::<ModeType, GitError>(self.mode_type) == mode_type_of(mode_at(s, at) / 4096)
        &&& self.user_permissions == (mode_at(s, at) / 64) % 8
        &&& self.group_permissions == (mode_at(s, at) / 8) % 8
        &&& self.other_permissions == mode_at(s, at) % 8
        &&& self.uid == be32(s, at + 28)
        &&& self.gid == be32(s, at + 32)
        &&& self.file_size == be32(s, at + 36)
        &&& self.hash@ == hex_of(s.subrange(at + 40, at + 60))
        &&& self.assume_valid == (be16(s, at + 60) >= 32768)
        &&& self.extended == ((be16(s, at + 60) / 16384) % 2 == 1)
        &&& self.stage == (be16(s, at + 60) / 4096) % 4
        &&& self.name_length == be16(s, at + 60) % 4096
        &&& self.name@ == decode_utf8(s.subrange(at + 62, name_end(s, at)))
        &&& self.blob@ == Seq::<u8>::empty()
    }
}

impl IndexEntry {
    /// This entry with the content that is stored as `stored`; `stored` is
    /// `None` where nothing is stored under the entry's hash.
    ///
    /// Fails with `ObjectMissing` where nothing is stored, `CorruptObject`
    /// where `stored` holds no object, and with `WrongType` where it holds
    /// one that is no blob.
    pub fn with_blob(self, stored: Option<&[u8]>) -> (r: Result<IndexEntry, GitError>)
        ensures
            match stored_object(stored_view(stored), Some(ObjectKind::Blob)) {
                Ok((_, content)) => r matches Ok(entry) && entry.blob@ == content && entry
                    == (IndexEntry { blob: entry.blob, ..self }),
                Err(e) => r == Err::<IndexEntry, GitError>(e),
            },
    {
        match get_bytes(stored, Some(ObjectKind::Blob)) {
            Ok(object) => Ok(IndexEntry { blob: object.content, ..self }),
            Err(e) => Err(e),
        }
    }
}

/// The first position from `from` on that holds no zero byte, or `limit`.
fn end_of_padding(bytes: &[u8], from: usize, limit: usize) -> (r: usize)
    requires
        from <= bytes.len(),
        limit <= bytes.len(),
    ensures
        r == skip_zeros(bytes@, from as int, limit as int),
        from <= r <= bytes.len(),
{
    let mut at: usize = from;
    while at < limit && bytes[at] == 0
        invariant
            from <= at <= bytes.len(),
            limit <= bytes.len(),
            skip_zeros(bytes@, at as int, limit as int) == skip_zeros(
                bytes@,
                from as int,
                limit as int,
            ),
        decreases limit - at,
    {
        at += 1;
    }
    at
}

/// Decodes the entry that starts at `at`, and says where the next begins.
///
/// The entry's content is left empty: it lies in the object store, under
/// the entry's hash.
pub fn parse_index_entry(bytes: &[u8], at: usize, version: &Version) -> (r: Result<
    (IndexEntry, usize),
    GitError,
>)
    requires
        at <= bytes.len(),
    ensures
        match r {
            Ok((entry, next)) => {
                &&& entry_error(bytes@, at as int, *version) is None
                &&& entry.decodes(bytes@, at as int)
                &&& next == entry_end(bytes@, at as int)
                &&& at < next <= bytes.len()
            },
            Err(e) => entry_error(bytes@, at as int, *version) == Some(e),
        },
{
    reveal(entry_error);
    reveal(IndexEntry::decodes);
    if bytes.len() - at < ENTRY_HEAD {
        return Err(GitError::TruncatedIndex);
    }
    let metadata_changed = FileTime {
        seconds: read_be32(bytes, at),
        nanoseconds: read_be32(bytes, at + 4),
    };
    let data_changed = FileTime {
        seconds: read_be32(bytes, at + 8),
        nanoseconds: read_be32(bytes, at + 12),
    };
    if !is_timestamp(metadata_changed.seconds as i64, metadata_changed.nanoseconds)
        || !is_timestamp(data_changed.seconds as i64, data_changed.nanoseconds) {
        return Err(GitError::MalformedEntry);
    }
    let dev = read_be32(bytes, at + 16);
    let ino = read_be32(bytes, at + 20);
    let mode: u32 = read_be32(bytes, at + 24) % 65536;
    let mode_type = match ModeType::try_from(mode / 4096) {
        Ok(mode_type) => mode_type,
        Err(e) => {
            return Err(e);
        },
    };
    let user_permissions: u32 = (mode / 64) % 8;
    let group_permissions: u32 = (mode / 8) % 8;
    let other_permissions: u32 = mode % 8;
    let uid = read_be32(bytes, at + 28);
    let gid = read_be32(bytes, at + 32);
    let file_size = read_be32(bytes, at + 36);
    let hash = from_bytes(slice_subrange(bytes, at + 40, at + 60));
    let flags: u16 = read_be16(bytes, at + 60);
    let assume_valid = flags >= 32768;
    let extended = (flags / 16384) % 2 == 1;
    if extended {
        match version {
            Version::Two => {
                return Err(GitError::MalformedEntry);
            },
            _ => {},
        }
    }
    let stage: u16 = (flags / 4096) % 4;
    let name_length: u16 = flags % 4096;
    let nul = find_byte(bytes, 0, at + 62);
    if nul >= bytes.len() {
        return Err(GitError::TruncatedIndex);
    }
    if nul - (at + 62) != name_length as usize {
        return Err(GitError::NameLengthMismatch);
    }
    let name = match string_from_utf8(copy_range(bytes, at + 62, nul)) {
        Some(name) => name,
        None => {
            return Err(GitError::NonUtf8Content);
        },
    };
    let span: usize = ((62 + name_length as usize) / 8 + 1) * 8;
    let limit: usize = if span < bytes.len() - at {
        at + span
    } else {
        bytes.len()
    };
    let next = end_of_padding(bytes, nul + 1, limit);
    Ok(
        (
            IndexEntry {
                metadata_changed,
                data_changed,
                dev,
                ino,
                mode_type,
                user_permissions,
                group_permissions,
                other_permissions,
                uid,
                gid,
                file_size,
                hash,
                blob: Vec::new(),
                assume_valid,
                extended,
                stage,
                name_length,
                name,
            },
            next,
        ),
    )
}

/// The four bytes that a staging file starts with: `DIRC`.
pub open spec fn signature() -> Seq<u8> {
    seq![68u8, 73u8, 82u8, 67u8]
}

/// Where entry number `i` of the staging file `s` begins.
pub open spec fn entry_start(s: Seq<u8>, i: nat) -> int
    decreases i,
{
    if i == 0 {
        12
    } else {
        entry_end(s, entry_start(s, (i - 1) as nat))
    }
}

/// The first fault among the entries from number `i` on, of `count` in all.
pub open spec fn entries_error(s: Seq<u8>, i: nat, count: nat) -> Option<GitError>
    decreases count - i,
{
    if i >= count {
        None
    } else if entry_error(s, entry_start(s, i), Version::Two) is Some {
        entry_error(s, entry_start(s, i), Version::Two)
    } else {
        entries_error(s, i + 1, count)
    }
}

/// Why `s` is no staging file that this library reads, or `None` where it
/// is one.
pub open spec fn index_error(s: Seq<u8>) -> Option<GitError> {
    if !holds_at(s, 0, signature()) {
        Some(GitError::InvalidSignature)
    } else if s.len() < 8 {
        Some(GitError::TruncatedIndex)
    } else if be32(s, 4) != 2 {
        Some(GitError::UnsupportedVersion)
    } else if s.len() < 12 {
        Some(GitError::TruncatedIndex)
    } else {
        entries_error(s, 0, be32(s, 8) as nat)
    }
}

/// Decodes a staging file: its signature, its version, which has to be 2,
/// the number of its entries, and then the entries, one behind the other.
///
/// The entries come out in the file's order, each without its content.
pub fn parse_index_file(bytes: &[u8]) -> (r: Result<IndexFile, GitError>)
    ensures
        match r {
            Ok(file) => {
                &&& index_error(bytes@) is None
                &&& file.version == Version::Two
                &&& file.index_entries.len() == be32(bytes@, 8)
                &&& forall|i: int|
                    0 <= i < file.index_entries.len() ==> (#[trigger] file.index_entries[i]).decodes(
                        bytes@,
                        entry_start(bytes@, i as nat),
                    )
            },
            Err(e) => index_error(bytes@) == Some(e),
        },
{
    let magic: [u8; 4] = [68, 73, 82, 67];
    proof {
        assert(magic@ =~= signature());
    }
    if !matches_at(bytes, 0, magic.as_slice()) {
        return Err(GitError::InvalidSignature);
    }
    if bytes.len() < 8 {
        return Err(GitError::TruncatedIndex);
    }
    let version = match Version::try_from(read_be32(bytes, 4)) {
        Ok(Version::Two) => Version::Two,
        _ => {
            return Err(GitError::UnsupportedVersion);
        },
    };
    if bytes.len() < 12 {
        return Err(GitError::TruncatedIndex);
    }
    let count: u32 = read_be32(bytes, 8);
    let mut index_entries: Vec<IndexEntry> = Vec::new();
    let mut at: usize = 12;
    let mut i: u32 = 0;
    while i < count
        invariant
            0 <= i <= count,
            count == be32(bytes@, 8),
            version == Version::Two,
            at <= bytes.len(),
            at == entry_start(bytes@, i as nat),
            index_entries.len() == i,
            index_error(bytes@) == entries_error(bytes@, 0, count as nat),
            entries_error(bytes@, 0, count as nat) == entries_error(bytes@, i as nat, count as nat),
            forall|j: int|
                0 <= j < index_entries.len() ==> (#[trigger] index_entries[j]).decodes(
                    bytes@,
                    entry_start(bytes@, j as nat),
                ),
        decreases count - i,
    {
        match parse_index_entry(bytes, at, &version) {
            Ok((entry, next)) => {
                proof {
                    assert(entry_error(bytes@, entry_start(bytes@, i as nat), Version::Two)
                        is None);
                    assert(entries_error(bytes@, i as nat, count as nat) == entries_error(
                        bytes@,
                        (i + 1) as nat,
                        count as nat,
                    ));
                    assert(entry_start(bytes@, (i + 1) as nat) == entry_end(
                        bytes@,
                        entry_start(bytes@, i as nat),
                    ));
                }
                index_entries.push(entry);
                at = next;
            },
            Err(e) => {
                proof {
                    assert(entry_error(bytes@, entry_start(bytes@, i as nat), Version::Two)
                        == Some(e));
                    assert(entries_error(bytes@, i as nat, count as nat) == Some(e));
                }
                return Err(e);
            },
        }
        i += 1;
    }
    Ok(IndexFile { version, index_entries })
}

} // verus!
