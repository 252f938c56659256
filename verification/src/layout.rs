//! The directory layout under the Braid root:
//!
//! ```text
//! <root>/
//! ├── local/           # Local SQLite, config files
//! ├── peers/           # P2P chat exports (markdown)
//! ├── ai/              # AI chat exports (markdown)
//! ├── braid.org/       # Synced wiki pages
//! └── .braidfs/        # Internal blob storage
//! ```
//!
//! Paths are strings with `/` as separator; the root itself comes from the
//! environment or the configuration file, which the caller reads.
use vstd::prelude::*;
use crate::collections::str_eq;
use crate::text::{contains, contains_seq, lowercase, to_lower};

verus! {

/// `name` under `base`, as `Path::join` gives it for a relative name: a
/// separator is added unless `base` is empty or already ends with one.
pub open spec fn join_path(base: Seq<char>, name: Seq<char>) -> Seq<char> {
    if base.len() == 0 || base.last() == '/' { base + name } else { base + seq!['/'] + name }
}

/// `name` under `base`.
pub fn join(base: &str, name: &str) -> (p: String)
    ensures
        p@ == join_path(base@, name@),
{
    let n = base.unicode_len();
    let mut p = String::from_str(base);
    if n > 0 && base.get_char(n - 1) == '/' {
        p.append(name);
    } else if n == 0 {
        p.append(name);
    } else {
        p.append("/");
        proof {
            reveal_strlit("/");
        }
        p.append(name);
    }
    proof {
        if n > 0 {
            assert(base@.last() == base@[n - 1]);
        }
        assert(p@ =~= join_path(base@, name@));
    }
    p
}

/// Local data directory (SQLite, config)
pub fn local_dir(root: &str) -> (p: String)
    ensures
        p@ == join_path(root@, "local"@),
{
    join(root, "local")
}

/// Peer chat exports directory
pub fn peers_dir(root: &str) -> (p: String)
    ensures
        p@ == join_path(root@, "peers"@),
{
    join(root, "peers")
}

/// AI chat exports directory
pub fn ai_dir(root: &str) -> (p: String)
    ensures
        p@ == join_path(root@, "ai"@),
{
    join(root, "ai")
}

/// AI context directory for supplemental files
pub fn ai_context_dir(root: &str) -> (p: String)
    ensures
        p@ == join_path(join_path(root@, "ai"@), "context"@),
{
    let ai = ai_dir(root);
    join(ai.as_str(), "context")
}

/// Braid.org synced wiki pages directory
pub fn braid_org_dir(root: &str) -> (p: String)
    ensures
        p@ == join_path(root@, "braid.org"@),
{
    join(root, "braid.org")
}

/// BraidFS internal blob storage directory
pub fn braidfs_dir(root: &str) -> (p: String)
    ensures
        p@ == join_path(root@, ".braidfs"@),
{
    join(root, ".braidfs")
}

/// Blob storage subdirectory
pub fn blobs_dir(root: &str) -> (p: String)
    ensures
        p@ == join_path(join_path(root@, ".braidfs"@), "blobs"@),
{
    let d = braidfs_dir(root);
    join(d.as_str(), "blobs")
}

/// Blob metadata database path
pub fn blob_meta_path(root: &str) -> (p: String)
    ensures
        p@ == join_path(join_path(root@, ".braidfs"@), "meta.sqlite"@),
{
    let d = braidfs_dir(root);
    join(d.as_str(), "meta.sqlite")
}

/// Database file path
pub fn db_path(root: &str) -> (p: String)
    ensures
        p@ == join_path(join_path(root@, "local"@), "xfmail.db"@),
{
    let d = local_dir(root);
    join(d.as_str(), "xfmail.db")
}

/// Sync directory (for filesystem watcher)
pub fn sync_dir(root: &str) -> (p: String)
    ensures
        p@ == join_path(root@, "sync"@),
{
    join(root, "sync")
}

/// Whether a participant is an AI: its lowercase name contains "bot", or
/// it is "@BraidBot".
pub open spec fn is_ai_participant(p: Seq<char>) -> bool {
    contains_seq(lowercase(p), "bot"@) || p == "@BraidBot"@
}

/// Whether some participant is an AI.
pub open spec fn has_ai_participant(ps: Seq<String>) -> bool {
    exists|i: int| 0 <= i < ps.len() && is_ai_participant(#[trigger] ps[i]@)
}

/// Get the appropriate chat export directory based on participants:
/// the AI directory if any participant is an AI, the peers directory
/// otherwise.
pub fn chat_export_dir(root: &str, participants: &[String]) -> (p: String)
    ensures
        p@ == (if has_ai_participant(participants@) { join_path(root@, "ai"@) } else { join_path(root@, "peers"@) }),
{
    let mut i: usize = 0;
    let mut is_ai = false;
    while i < participants.len()
        invariant
            i <= participants@.len(),
            is_ai == exists|j: int| 0 <= j < i && is_ai_participant(#[trigger] participants@[j]@),
        decreases participants@.len() - i,
    {
        let lower = to_lower(participants[i].as_str());
        if contains(lower.as_str(), "bot") || str_eq(participants[i].as_str(), "@BraidBot") {
            proof {
                assert(is_ai_participant(participants@[i as int]@));
            }
            is_ai = true;
        }
        i = i + 1;
    }
    if is_ai {
        ai_dir(root)
    } else {
        peers_dir(root)
    }
}

/// Get the full path for a chat export file: `<conversation_id>.md` in the
/// chat export directory.
pub fn chat_export_path(root: &str, conversation_id: &str, participants: &[String]) -> (p: String)
    ensures
        p@ == join_path(
            if has_ai_participant(participants@) { join_path(root@, "ai"@) } else { join_path(root@, "peers"@) },
            conversation_id@ + ".md"@,
        ),
{
    let dir = chat_export_dir(root, participants);
    let mut name = String::from_str(conversation_id);
    name.append(".md");
    join(dir.as_str(), name.as_str())
}

} // verus!
