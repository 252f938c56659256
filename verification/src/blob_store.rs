//! The decisions of the blob store: which put replaces a stored blob, the
//! metadata it records, the file a key is stored in, and the check of a
//! blob's content against its recorded hash.  Reading and writing the
//! files and the metadata database is the caller's.
use vstd::prelude::*;
use crate::blob_names::{compare_versions, encode_filename, encode_filename_spec, version_order};
use crate::collections::{str_eq, string_views};
use crate::layout::{join, join_path};
use crate::mapping::utf8_len;
use crate::server::BraidError;
use sha2::Digest;

verus! {

/// The SHA-256 digest of some bytes in lowercase hexadecimal.
pub uninterp spec fn sha256_hex_of(data: Seq<u8>) -> Seq<char>;

/// The SHA-256 digest of the bytes (`sha2::Sha256::digest`), formatted
/// with `{:x}`: two lowercase hexadecimal digits per byte of the 32-byte
/// digest.
#[verifier::external_body]
fn sha256_hex(data: &[u8]) -> (h: String)
    ensures
        h@ == sha256_hex_of(data@),
        h@.len() == 64,
{
    format!("{:x}", sha2::Sha256::digest(data))
}

/// What is recorded of a blob.
#[derive(Debug)]
pub struct BlobMetadata {
    pub key: String,
    pub version: Vec<String>,
    pub content_type: Option<String>,
    pub parents: Vec<String>,
    /// SHA-256 hash of the blob's content.
    pub content_hash: Option<String>,
    /// Size of the blob in bytes.
    pub size: Option<u64>,
}

/// The first version of a list, the empty text for none.
pub open spec fn first_version(vs: Seq<String>) -> Seq<char> {
    if vs.len() > 0 { vs[0]@ } else { Seq::empty() }
}

/// What a put does.
#[derive(Debug)]
pub enum PutPlan {
    /// The stored blob is as new or newer: nothing is written, and its
    /// versions are the answer.
    Keep(Vec<String>),
    /// The blob is written with this metadata.
    Write(BlobMetadata),
}

/// A copy of a list of strings.
fn copy_list(v: &Vec<String>) -> (r: Vec<String>)
    ensures
        string_views(r@) == string_views(v@),
{
    let mut r: Vec<String> = Vec::new();
    let mut i: usize = 0;
    while i < v.len()
        invariant
            i <= v@.len(),
            string_views(r@) == string_views(v@).subrange(0, i as int),
        decreases v@.len() - i,
    {
        let ghost before = r@;
        let x = String::from_str(v[i].as_str());
        r.push(x);
        proof {
            assert(string_views(r@) =~= string_views(before).push(x@));
            assert(string_views(v@).subrange(0, i + 1) =~= string_views(v@).subrange(0, i as int).push(v@[i as int]@));
        }
        i = i + 1;
    }
    proof {
        assert(string_views(v@).subrange(0, v@.len() as int) =~= string_views(v@));
    }
    r
}

/// A put of `data` under `key` with `version` (only the first counts):
/// when a blob is stored whose first version is not older (see
/// `version_order`), it is kept; otherwise the blob is written with its
/// key, versions, content type, parents, the SHA-256 of its content and
/// its size.
pub fn plan_put(
    current: Option<&BlobMetadata>,
    key: &str,
    data: &[u8],
    version: Vec<String>,
    parents: Vec<String>,
    content_type: Option<String>,
) -> (p: PutPlan)
    requires
        current is Some ==> utf8_len(first_version(version@)) <= i32::MAX
            && utf8_len(first_version(current->0.version@)) <= i32::MAX,
    ensures
        match current {
            Some(m) => version_order(first_version(version@), first_version(m.version@)) <= 0 ==> (p matches PutPlan::Keep(vs)
                && string_views(vs@) == string_views(m.version@)),
            None => true,
        },
        (current is None || version_order(first_version(version@), first_version(current->0.version@)) > 0) ==>
            (p matches PutPlan::Write(m) && {
                &&& m.key@ == key@
                &&& m.version == version
                &&& m.content_type == content_type
                &&& m.parents == parents
                &&& m.content_hash matches Some(h) && h@ == sha256_hex_of(data@)
                &&& m.size == Some(data@.len() as u64)
            }),
{
    if let Some(meta) = current {
        let new_first = if version.len() > 0 { String::from_str(version[0].as_str()) } else { String::new() };
        let cur_first = if meta.version.len() > 0 { String::from_str(meta.version[0].as_str()) } else { String::new() };
        if compare_versions(new_first.as_str(), cur_first.as_str()) <= 0 {
            return PutPlan::Keep(copy_list(&meta.version));
        }
    }
    let hash = sha256_hex(data);
    PutPlan::Write(BlobMetadata {
        key: String::from_str(key),
        version,
        content_type,
        parents,
        content_hash: Some(hash),
        size: Some(data.len() as u64),
    })
}

/// The message of a blob whose content does not match its hash.
pub open spec fn mismatch_message(key: Seq<char>, expected: Seq<char>, actual: Seq<char>) -> Seq<char> {
    "Checksum mismatch for blob "@ + key + ": expected "@ + expected + ", got "@ + actual
}

/// Check a blob read back against its metadata: without a recorded hash
/// it passes; otherwise its SHA-256 must be the recorded one, and a
/// mismatch is an `Fs` error naming the key and both hashes.
pub fn verify_blob(key: &str, data: &[u8], meta: &BlobMetadata) -> (r: Result<(), BraidError>)
    ensures
        match meta.content_hash {
            None => r is Ok,
            Some(h) => if sha256_hex_of(data@) == h@ {
                r is Ok
            } else {
                r matches Err(BraidError::Fs(msg)) && msg@ == mismatch_message(key@, h@, sha256_hex_of(data@))
            },
        },
{
    match &meta.content_hash {
        None => Ok(()),
        Some(expected) => {
            let actual = sha256_hex(data);
            if str_eq(actual.as_str(), expected.as_str()) {
                Ok(())
            } else {
                let mut msg = String::from_str("Checksum mismatch for blob ");
                msg.append(key);
                msg.append(": expected ");
                msg.append(expected.as_str());
                msg.append(", got ");
                msg.append(actual.as_str());
                proof {
                    reveal_strlit("Checksum mismatch for blob ");
                    reveal_strlit(": expected ");
                    reveal_strlit(", got ");
                    assert(msg@ =~= mismatch_message(key@, expected@, actual@));
                }
                Err(BraidError::Fs(msg))
            }
        },
    }
}

/// The file a key is stored in: its encoded name (see `encode_filename`)
/// in the store's directory.
pub fn blob_file_path(db_path: &str, key: &str) -> (p: String)
    ensures
        p@ == join_path(db_path@, encode_filename_spec(key@)),
{
    let name = encode_filename(key);
    join(db_path, name.as_str())
}

/// The key of an uploaded blob: `blob:` and the SHA-256 of its content.
pub open spec fn upload_key_spec(data: Seq<u8>) -> Seq<char> {
    "blob:"@ + sha256_hex_of(data)
}

/// The hash and key an uploaded blob is stored under (see
/// `upload_key_spec`).
pub fn upload_key(data: &[u8]) -> (r: (String, String))
    ensures
        r.0@ == sha256_hex_of(data@),
        r.1@ == upload_key_spec(data@),
{
    let hash = sha256_hex(data);
    let mut key = String::from_str("blob:");
    key.append(hash.as_str());
    (hash, key)
}

} // verus!
