//! The object store: compressed, length-prefixed objects addressed by the
//! hash of their content.

use std::io::Read;
use vstd::prelude::*;
use crate::bytes::{copy_range, find_byte, first_byte, holds_at, latin, latin_chars, matches_at};
use crate::error::GitError;
use crate::hash::{is_hash, is_hex};
use crate::text::{all_digits, chars_of, digits_value, parse_digits};

verus! {

/// What kind of thing an object is.
#[derive(Debug, Clone, Copy, PartialEq, Eq, Structural)]
pub enum ObjectKind {
    Commit,
    Tree,
    Blob,
}

/// An object out of the store: its kind and its content.
#[derive(Debug, PartialEq, Eq)]
pub struct GitObject {
    pub kind: ObjectKind,
    pub content: Vec<u8>,
}

/// The tag that an object of kind `kind` starts with, in ASCII.
pub open spec fn tag_of(kind: ObjectKind) -> Seq<u8> {
    match kind {
        ObjectKind::Commit => seq![99u8, 111u8, 109u8, 109u8, 105u8, 116u8],
        ObjectKind::Tree => seq![116u8, 114u8, 101u8, 101u8],
        ObjectKind::Blob => seq![98u8, 108u8, 111u8, 98u8],
    }
}

/// The kind that the tag `tag` names, if any.
pub open spec fn kind_of(tag: Seq<u8>) -> Option<ObjectKind> {
    if tag == tag_of(ObjectKind::Commit) {
        Some(ObjectKind::Commit)
    } else if tag == tag_of(ObjectKind::Tree) {
        Some(ObjectKind::Tree)
    } else if tag == tag_of(ObjectKind::Blob) {
        Some(ObjectKind::Blob)
    } else {
        None
    }
}

/// The object that the payload `p` holds: a tag, a space, the content's
/// length in decimal digits, a zero byte, and then exactly that many bytes
/// of content. `None` where `p` is not of that shape.
pub open spec fn object_of(p: Seq<u8>) -> Option<(ObjectKind, Seq<u8>)> {
    let space = first_byte(p, 32, 0);
    let nul = first_byte(p, 0, 0);
    let length = latin(p.subrange(space + 1, nul));
    if space < nul < p.len() && kind_of(p.subrange(0, space)) is Some && length.len() > 0
        && all_digits(length) && digits_value(length) == p.len() - nul - 1 {
        Some((kind_of(p.subrange(0, space)).unwrap(), p.subrange(nul + 1, p.len() as int)))
    } else {
        None
    }
}

/// What reading the payload `p` gives to a caller that expects `expected`.
pub open spec fn object_read(p: Seq<u8>, expected: Option<ObjectKind>) -> Result<
    (ObjectKind, Seq<u8>),
    GitError,
> {
    match object_of(p) {
        None => Err(GitError::CorruptObject),
        Some((kind, content)) => if expected is Some && expected != Some(kind) {
            Err(GitError::WrongType)
        } else {
            Ok((kind, content))
        },
    }
}

/// An object as contracts see it.
pub open spec fn object_view(r: Result<GitObject, GitError>) -> Result<
    (ObjectKind, Seq<u8>),
    GitError,
> {
    match r {
        Ok(o) => Ok((o.kind, o.content@)),
        Err(e) => Err(e),
    }
}

/// The kind that the tag `payload[..end]` names.
fn kind_at(payload: &[u8], end: usize) -> (r: Option<ObjectKind>)
    requires
        end <= payload.len(),
    ensures
        r == kind_of(payload@.subrange(0, end as int)),
{
    let commit: [u8; 6] = [99, 111, 109, 109, 105, 116];
    let tree: [u8; 4] = [116, 114, 101, 101];
    let blob: [u8; 4] = [98, 108, 111, 98];
    let ghost tag = payload@.subrange(0, end as int);
    proof {
        assert(commit@ =~= tag_of(ObjectKind::Commit));
        assert(tree@ =~= tag_of(ObjectKind::Tree));
        assert(blob@ =~= tag_of(ObjectKind::Blob));
        assert(holds_at(payload@, 0, commit@) && end == 6 <==> tag == commit@) by {
            if tag == commit@ {
                assert(tag.len() == 6);
            }
            if end == 6 {
                assert(payload@.subrange(0, 0int + 6) =~= tag);
            }
        }
        assert(holds_at(payload@, 0, tree@) && end == 4 <==> tag == tree@) by {
            if tag == tree@ {
                assert(tag.len() == 4);
            }
            if end == 4 {
                assert(payload@.subrange(0, 0int + 4) =~= tag);
            }
        }
        assert(holds_at(payload@, 0, blob@) && end == 4 <==> tag == blob@) by {
            if tag == blob@ {
                assert(tag.len() == 4);
            }
            if end == 4 {
                assert(payload@.subrange(0, 0int + 4) =~= tag);
            }
        }
    }
    if end == 6 && matches_at(payload, 0, commit.as_slice()) {
        Some(ObjectKind::Commit)
    } else if end == 4 && matches_at(payload, 0, tree.as_slice()) {
        Some(ObjectKind::Tree)
    } else if end == 4 && matches_at(payload, 0, blob.as_slice()) {
        Some(ObjectKind::Blob)
    } else {
        None
    }
}

/// Reads an object out of its decompressed payload.
///
/// Fails with `CorruptObject` where the payload is not an object, and with
/// `WrongType` where it is one of another kind than `expected` names.
pub fn read_object(payload: &[u8], expected: Option<ObjectKind>) -> (r: Result<GitObject, GitError>)
    ensures
        object_view(r) == object_read(payload@, expected),
{
    let space = find_byte(payload, 32, 0);
    let nul = find_byte(payload, 0, 0);
    if !(space < nul && nul < payload.len()) {
        return Err(GitError::CorruptObject);
    }
    let kind = match kind_at(payload, space) {
        Some(kind) => kind,
        None => {
            return Err(GitError::CorruptObject);
        },
    };
    let digits = latin_chars(payload, space + 1, nul);
    let rest: usize = payload.len() - nul - 1;
    let length = match parse_digits(&digits, 0, digits.len(), rest as u64) {
        Some(length) => length,
        None => {
            proof {
                assert(digits@.subrange(0, digits.len() as int) =~= digits@);
            }
            return Err(GitError::CorruptObject);
        },
    };
    proof {
        assert(digits@.subrange(0, digits.len() as int) =~= digits@);
    }
    if length != rest as u64 {
        return Err(GitError::CorruptObject);
    }
    if let Some(wanted) = expected {
        if wanted != kind {
            return Err(GitError::WrongType);
        }
    }
    Ok(GitObject { kind, content: copy_range(payload, nul + 1, payload.len()) })
}

/// The content of the blob that the payload `bytes` holds.
pub fn parse_blob(bytes: Vec<u8>) -> (r: Result<Vec<u8>, GitError>)
    ensures
        match object_read(bytes@, Some(ObjectKind::Blob)) {
            Ok((_, content)) => r matches Ok(blob) && blob@ == content,
            Err(e) => r == Err::<Vec<u8>, GitError>(e),
        },
{
    match read_object(bytes.as_slice(), Some(ObjectKind::Blob)) {
        Ok(object) => Ok(object.content),
        Err(e) => Err(e),
    }
}

/// What the zlib stream `data` decompresses to, or `None` where `data` is
/// no complete zlib stream.
pub uninterp spec fn zlib_inflate(data: Seq<u8>) -> Option<Seq<u8>>;

/// Runs `flate2::read::ZlibDecoder` over `data` to its end. The contract
/// only names the outcome: the bytes that came out, or that decoding
/// failed.
#[verifier::external_body]
fn inflate(data: &[u8]) -> (r: Option<Vec<u8>>)
    ensures
        match r {
            Some(v) => zlib_inflate(data@) == Some(v@),
            None => zlib_inflate(data@) is None,
        },
{
    let mut out = Vec::new();
    match flate2::read::ZlibDecoder::new(data).read_to_end(&mut out) {
        Ok(_) => Some(out),
        Err(_) => None,
    }
}

/// What reading the stored object `stored` gives to a caller that expects
/// `expected`; `stored` is `None` where nothing is stored under the hash.
pub open spec fn stored_object(stored: Option<Seq<u8>>, expected: Option<ObjectKind>) -> Result<
    (ObjectKind, Seq<u8>),
    GitError,
> {
    match stored {
        None => Err(GitError::ObjectMissing),
        Some(bytes) => match zlib_inflate(bytes) {
            Some(payload) => object_read(payload, expected),
            None => Err(GitError::CorruptObject),
        },
    }
}

/// What is stored, as contracts see it.
pub open spec fn stored_view(stored: Option<&[u8]>) -> Option<Seq<u8>> {
    match stored {
        Some(bytes) => Some(bytes@),
        None => None,
    }
}

/// Decompresses a stored object and reads it; `stored` is `None` where
/// nothing is stored under the object's hash.
///
/// Fails with `ObjectMissing` where nothing is stored, `CorruptObject`
/// where what is stored does not decompress or what comes out is not an
/// object, and with `WrongType` where it is one of another kind than
/// `expected` names.
pub fn get_bytes(stored: Option<&[u8]>, expected: Option<ObjectKind>) -> (r: Result<
    GitObject,
    GitError,
>)
    ensures
        object_view(r) == stored_object(stored_view(stored), expected),
{
    match stored {
        None => Err(GitError::ObjectMissing),
        Some(bytes) => match inflate(bytes) {
            Some(payload) => read_object(payload.as_slice(), expected),
            None => Err(GitError::CorruptObject),
        },
    }
}

/// Where the object with hash `hash` lies, relative to the repository's
/// data directory: under `objects`, in the directory named by the first two
/// digits, in the file named by the other thirty-eight.
pub open spec fn object_path_of(hash: Seq<char>) -> Seq<char> {
    "objects/"@ + hash.subrange(0, 2) + seq!['/'] + hash.subrange(2, 40)
}

/// The path of the stored object with hash `hash`; `None` where `hash` is
/// not forty lower-case hexadecimal digits.
pub fn object_path(hash: &str) -> (r: Option<String>)
    ensures
        r is Some <==> is_hash(hash@),
        r matches Some(path) ==> path@ == object_path_of(hash@),
{
    let digits = chars_of(hash);
    if digits.len() != 40 {
        return None;
    }
    let mut path = "objects/".to_string();
    let mut i: usize = 0;
    while i < 40
        invariant
            digits.len() == 40,
            digits@ == hash@,
            0 <= i <= 40,
            forall|j: int| 0 <= j < i ==> is_hex(#[trigger] digits@[j]),
            path@ == "objects/"@ + digits@.subrange(0, if i < 2 {
                i as int
            } else {
                2
            }) + if i <= 2 {
                Seq::<char>::empty()
            } else {
                seq!['/'] + digits@.subrange(2, i as int)
            },
        decreases 40 - i,
    {
        let c = digits[i];
        if !((c >= '0' && c <= '9') || (c >= 'a' && c <= 'f')) {
            return None;
        }
        let ghost before = path@;
        if i == 2 {
            path.push('/');
        }
        path.push(c);
        proof {
            if i < 2 {
                assert(path@ =~= "objects/"@ + digits@.subrange(0, i + 1) + Seq::<char>::empty());
            } else {
                assert(path@ =~= "objects/"@ + digits@.subrange(0, 2) + (seq!['/']
                    + digits@.subrange(2, i + 1)));
            }
        }
        i += 1;
    }
    proof {
        assert(path@ =~= object_path_of(hash@));
    }
    Some(path)
}

} // verus!
