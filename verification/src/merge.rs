//! Merge types: how a resource takes patches from peers and local edits.
use vstd::prelude::*;
use crate::collections::{StrMap, str_eq};
use crate::json_crdt::PatchContent;
use crate::text::{decimal, push_char, push_decimal, parse_usize, parse_usize_spec, find_char_from, substring};

verus! {

/// A patch to a resource.
#[derive(Debug)]
pub struct MergePatch {
    /// Range or path specifier (e.g. "[0:5]")
    pub range: String,
    /// The content to insert or put in place
    pub content: PatchContent,
    /// The version that made this patch
    pub version: Option<String>,
    /// The versions this patch depends on
    pub parents: Vec<String>,
}

impl MergePatch {
    /// A patch without version.
    pub fn new(range: &str, content: PatchContent) -> (p: MergePatch)
        ensures
            p.range@ == range@,
            p.content == content,
            p.version is None,
            p.parents@.len() == 0,
    {
        MergePatch { range: String::from_str(range), content, version: None, parents: Vec::new() }
    }

    /// A patch made by `version` on top of `parents`.
    pub fn with_version(range: &str, content: PatchContent, version: String, parents: Vec<String>) -> (p: MergePatch)
        ensures
            p.range@ == range@,
            p.content == content,
            p.version == Some(version),
            p.parents == parents,
    {
        MergePatch { range: String::from_str(range), content, version: Some(version), parents }
    }
}

/// The outcome of a merge.
#[derive(Debug)]
pub struct MergeResult {
    /// Whether the merge succeeded
    pub success: bool,
    /// Patches to pass on to other clients
    pub rebased_patches: Vec<MergePatch>,
    /// The version made, if any
    pub version: Option<String>,
    /// Why the merge failed
    pub error: Option<String>,
}

impl MergeResult {
    /// A successful merge.
    pub fn success(version: Option<String>, rebased_patches: Vec<MergePatch>) -> (r: MergeResult)
        ensures
            r.success,
            r.rebased_patches == rebased_patches,
            r.version == version,
            r.error is None,
    {
        MergeResult { success: true, rebased_patches, version, error: None }
    }

    /// A failed merge.
    pub fn failure(error: &str) -> (r: MergeResult)
        ensures
            !r.success,
            r.rebased_patches@.len() == 0,
            r.version is None,
            r.error matches Some(e) && e@ == error@,
    {
        MergeResult { success: false, rebased_patches: Vec::new(), version: None, error: Some(String::from_str(error)) }
    }
}

/// The text of a signed integer.
pub open spec fn int_text(n: int) -> Seq<char> {
    if n < 0 { seq!['-'] + decimal((-n) as nat) } else { decimal(n as nat) }
}

/// Appends the text of a signed integer.
pub(crate) fn push_i64(s: &mut String, n: i64)
    ensures
        final(s)@ == old(s)@ + int_text(n as int),
{
    if n < 0 {
        push_char(s, '-');
        let m: i128 = -(n as i128);
        push_decimal(s, m as u128);
        proof {
            assert(final(s)@ =~= old(s)@ + int_text(n as int));
        }
    } else {
        push_decimal(s, n as u128);
    }
}

} // verus!
