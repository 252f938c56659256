//! Patches between two texts: the chunks of a diff (from the `dissimilar`
//! crate) turned into `[start:end]` patches on character positions.
use vstd::prelude::*;
use crate::mapping::{byte_len, utf8_len};
use crate::simpleton::range_text;
use crate::text::{push_char, push_decimal};

verus! {

/// The kind of a diff chunk.
#[derive(Debug, Clone, Copy, PartialEq, Eq, Structural)]
pub enum ChunkKind {
    /// Text both sides share.
    Equal,
    /// Text only the old side has.
    Delete,
    /// Text only the new side has.
    Insert,
}

/// The chunks `dissimilar::diff` gives for two texts, each with its kind
/// and its text.
pub uninterp spec fn diff_chunks(a: Seq<char>, b: Seq<char>) -> Seq<(ChunkKind, Seq<char>)>;

/// The views of chunks.
pub open spec fn chunk_views(v: Seq<(ChunkKind, String)>) -> Seq<(ChunkKind, Seq<char>)> {
    v.map_values(|c: (ChunkKind, String)| (c.0, c.1@))
}

/// The text the chunks take from the old side: the shared and deleted
/// chunks, in order.
pub open spec fn old_side(cs: Seq<(ChunkKind, Seq<char>)>) -> Seq<char>
    decreases cs.len(),
{
    if cs.len() == 0 {
        Seq::empty()
    } else {
        old_side(cs.drop_last()) + (if cs.last().0 == ChunkKind::Insert { Seq::empty() } else { cs.last().1 })
    }
}

/// The text the chunks take from the new side: the shared and inserted
/// chunks, in order.
pub open spec fn new_side(cs: Seq<(ChunkKind, Seq<char>)>) -> Seq<char>
    decreases cs.len(),
{
    if cs.len() == 0 {
        Seq::empty()
    } else {
        new_side(cs.drop_last()) + (if cs.last().0 == ChunkKind::Delete { Seq::empty() } else { cs.last().1 })
    }
}

/// `dissimilar::diff`, each chunk taken with its kind and its text.  The
/// chunks are consecutive slices of the texts: the shared and deleted ones
/// make up the first text, the shared and inserted ones the second.
#[verifier::external_body]
fn diff_of(a: &str, b: &str) -> (r: Vec<(ChunkKind, String)>)
    ensures
        chunk_views(r@) == diff_chunks(a@, b@),
        old_side(chunk_views(r@)) == a@,
        new_side(chunk_views(r@)) == b@,
{
    let mut r = Vec::new();
    for c in dissimilar::diff(a, b) {
        r.push(match c {
            dissimilar::Chunk::Equal(t) => (ChunkKind::Equal, t.to_string()),
            dissimilar::Chunk::Delete(t) => (ChunkKind::Delete, t.to_string()),
            dissimilar::Chunk::Insert(t) => (ChunkKind::Insert, t.to_string()),
        });
    }
    r
}

/// A patch to a text.
#[derive(Debug)]
pub struct TextPatch {
    /// The unit of the range: `text`.
    pub unit: String,
    /// The range `[start:end]` in characters.
    pub range: String,
    /// The text put in place of the range.
    pub content: String,
    /// The length of the content in bytes.
    pub content_length: Option<usize>,
}

/// The position in the new text after some chunks: the characters of the
/// chunks that the new text has.
pub open spec fn position_after(chunks: Seq<(ChunkKind, Seq<char>)>) -> nat
    decreases chunks.len(),
{
    if chunks.len() == 0 {
        0
    } else {
        position_after(chunks.drop_last()) + (if chunks.last().0 == ChunkKind::Delete { 0 } else { chunks.last().1.len() })
    }
}

/// The patches of some chunks, each as its range, its content and its
/// content's length in bytes: a deletion removes its characters at the
/// current position, an insertion puts its text there, and a shared
/// chunk gives no patch.
pub open spec fn chunk_patches(chunks: Seq<(ChunkKind, Seq<char>)>) -> Seq<(Seq<char>, Seq<char>, nat)>
    decreases chunks.len(),
{
    if chunks.len() == 0 {
        Seq::empty()
    } else {
        let prev = chunk_patches(chunks.drop_last());
        let p = position_after(chunks.drop_last());
        let (kind, text) = chunks.last();
        match kind {
            ChunkKind::Equal => prev,
            ChunkKind::Delete => prev.push((range_text(p, p + text.len()), Seq::empty(), 0)),
            ChunkKind::Insert => prev.push((range_text(p, p), text, utf8_len(text))),
        }
    }
}

/// The edits of some chunks, each as the range of characters it
/// replaces in the text being edited and the text it puts there: a
/// deletion removes its characters at the current position, an insertion
/// puts its text there, and a shared chunk gives no edit.
pub open spec fn chunk_edits(chunks: Seq<(ChunkKind, Seq<char>)>) -> Seq<(nat, nat, Seq<char>)>
    decreases chunks.len(),
{
    if chunks.len() == 0 {
        Seq::empty()
    } else {
        let prev = chunk_edits(chunks.drop_last());
        let p = position_after(chunks.drop_last());
        let (kind, text) = chunks.last();
        match kind {
            ChunkKind::Equal => prev,
            ChunkKind::Delete => prev.push((p, p + text.len(), Seq::empty())),
            ChunkKind::Insert => prev.push((p, p, text)),
        }
    }
}

/// A text with edits applied in order, each replacing the characters
/// `start..end` of the text so far by its text.
pub open spec fn apply_edits(t: Seq<char>, es: Seq<(nat, nat, Seq<char>)>) -> Seq<char>
    decreases es.len(),
{
    if es.len() == 0 {
        t
    } else {
        let u = apply_edits(t, es.drop_last());
        let (start, end, x) = es.last();
        u.subrange(0, start as int) + x + u.subrange(end as int, u.len() as int)
    }
}

/// An edit as a patch: its range `[start:end]`, its text, and the text's
/// length in bytes.
pub open spec fn edit_patch(e: (nat, nat, Seq<char>)) -> (Seq<char>, Seq<char>, nat) {
    (range_text(e.0, e.1), e.2, utf8_len(e.2))
}

proof fn lemma_position_after(cs: Seq<(ChunkKind, Seq<char>)>)
    ensures
        position_after(cs) == new_side(cs).len(),
    decreases cs.len(),
{
    if cs.len() > 0 {
        lemma_position_after(cs.drop_last());
    }
}

proof fn lemma_edits_apply_with(cs: Seq<(ChunkKind, Seq<char>)>, r: Seq<char>)
    ensures
        apply_edits(old_side(cs) + r, chunk_edits(cs)) == new_side(cs) + r,
    decreases cs.len(),
{
    if cs.len() == 0 {
        assert(old_side(cs) + r =~= r);
        assert(new_side(cs) + r =~= r);
    } else {
        let pre = cs.drop_last();
        let (kind, text) = cs.last();
        let oc = if kind == ChunkKind::Insert { Seq::<char>::empty() } else { text };
        lemma_edits_apply_with(pre, oc + r);
        lemma_position_after(pre);
        assert(old_side(cs) + r =~= old_side(pre) + (oc + r));
        let u = new_side(pre) + (oc + r);
        let p = new_side(pre).len();
        match kind {
            ChunkKind::Equal => {
                assert(new_side(cs) + r =~= u);
            },
            ChunkKind::Delete => {
                let es = chunk_edits(cs);
                assert(es.drop_last() =~= chunk_edits(pre));
                assert(u.subrange(0, p as int) + Seq::<char>::empty() + u.subrange((p + text.len()) as int, u.len() as int)
                    =~= new_side(cs) + r);
            },
            ChunkKind::Insert => {
                let es = chunk_edits(cs);
                assert(es.drop_last() =~= chunk_edits(pre));
                assert(u.subrange(0, p as int) + text + u.subrange(p as int, u.len() as int) =~= new_side(cs) + r);
            },
        }
    }
}

/// Applying the edits of a diff's chunks to the old side gives the new
/// side, and the chunks' patches are their edits written as patches.
pub proof fn lemma_chunk_edits_apply(cs: Seq<(ChunkKind, Seq<char>)>)
    ensures
        apply_edits(old_side(cs), chunk_edits(cs)) == new_side(cs),
        chunk_patches(cs) == chunk_edits(cs).map_values(|e: (nat, nat, Seq<char>)| edit_patch(e)),
    decreases cs.len(),
{
    lemma_edits_apply_with(cs, Seq::empty());
    assert(old_side(cs) + Seq::<char>::empty() =~= old_side(cs));
    assert(new_side(cs) + Seq::<char>::empty() =~= new_side(cs));
    if cs.len() > 0 {
        lemma_chunk_edits_apply(cs.drop_last());
        assert(chunk_patches(cs) =~= chunk_edits(cs).map_values(|e: (nat, nat, Seq<char>)| edit_patch(e)));
    } else {
        assert(chunk_patches(cs) =~= chunk_edits(cs).map_values(|e: (nat, nat, Seq<char>)| edit_patch(e)));
    }
}

/// The views of patches.
pub open spec fn patch_views(v: Seq<TextPatch>) -> Seq<(Seq<char>, Seq<char>, nat)> {
    v.map_values(|p: TextPatch| (p.range@, p.content@, match p.content_length { Some(n) => n as nat, None => 0 }))
}

/// The text `[start:end]`.
fn range_of(start: u128, end: u128) -> (r: String)
    ensures
        r@ == range_text(start as nat, end as nat),
{
    let mut r = String::new();
    push_char(&mut r, '[');
    push_decimal(&mut r, start);
    push_char(&mut r, ':');
    push_decimal(&mut r, end);
    push_char(&mut r, ']');
    proof {
        assert(r@ =~= range_text(start as nat, end as nat));
    }
    r
}

/// The patches that turn `original` into `new` (see `chunk_patches` of
/// the chunks of `dissimilar::diff`): applied in order, they give `new`.
/// Each has the unit `text` and a content length.
pub fn compute_patches(original: &str, new: &str) -> (patches: Vec<TextPatch>)
    ensures
        patch_views(patches@) == chunk_patches(diff_chunks(original@, new@)),
        patch_views(patches@) == chunk_edits(diff_chunks(original@, new@)).map_values(|e: (nat, nat, Seq<char>)| edit_patch(e)),
        apply_edits(original@, chunk_edits(diff_chunks(original@, new@))) == new@,
        forall|i: int| 0 <= i < patches@.len() ==> (#[trigger] patches@[i]).unit@ == "text"@
            && patches@[i].content_length is Some,
{
    let chunks = diff_of(original, new);
    proof {
        lemma_chunk_edits_apply(chunk_views(chunks@));
    }
    chunks_to_patches(&chunks)
}

/// The patches of the chunks of a diff (see `chunk_patches`); each has the
/// unit `text` and a content length.
pub fn chunks_to_patches(chunks: &Vec<(ChunkKind, String)>) -> (patches: Vec<TextPatch>)
    ensures
        patch_views(patches@) == chunk_patches(chunk_views(chunks@)),
        forall|i: int| 0 <= i < patches@.len() ==> (#[trigger] patches@[i]).unit@ == "text"@
            && patches@[i].content_length is Some,
{
    let ghost cs = chunk_views(chunks@);
    let mut patches: Vec<TextPatch> = Vec::new();
    let mut current_pos: u128 = 0;
    let n = chunks.len();
    let mut i: usize = 0;
    proof {
        reveal_strlit("text");
        assert(cs.subrange(0, 0) =~= Seq::<(ChunkKind, Seq<char>)>::empty());
    }
    while i < n
        invariant
            i <= n,
            n == chunks@.len(),
            cs == chunk_views(chunks@),
            current_pos == position_after(cs.subrange(0, i as int)),
            current_pos <= i * (usize::MAX as int),
            patch_views(patches@) == chunk_patches(cs.subrange(0, i as int)),
            forall|k: int| 0 <= k < patches@.len() ==> (#[trigger] patches@[k]).unit@ == "text"@
                && patches@[k].content_length is Some,
        decreases n - i,
    {
        let (kind, text) = (chunks[i].0, chunks[i].1.as_str());
        let count = text.unicode_len();
        let ghost pre = cs.subrange(0, i as int);
        let ghost post = cs.subrange(0, i + 1);
        proof {
            assert(post.drop_last() =~= pre);
            assert(post.last() == cs[i as int]);
            assert(cs[i as int] == (kind, text@));
            assert(current_pos + count <= (i + 1) * (usize::MAX as int)) by (nonlinear_arith)
                requires current_pos <= i * (usize::MAX as int), count <= usize::MAX;
            assert((i + 1) * (usize::MAX as int) <= (usize::MAX as int) * (usize::MAX as int)) by (nonlinear_arith)
                requires i < usize::MAX;
            assert((usize::MAX as int) * (usize::MAX as int) < u128::MAX) by (nonlinear_arith)
                requires usize::MAX <= u64::MAX;
        }
        let ghost before = patches@;
        match kind {
            ChunkKind::Equal => {
                current_pos = current_pos + count as u128;
            },
            ChunkKind::Delete => {
                let end = current_pos + count as u128;
                let p = TextPatch {
                    unit: String::from_str("text"),
                    range: range_of(current_pos, end),
                    content: String::new(),
                    content_length: Some(0),
                };
                patches.push(p);
                proof {
                    assert(patch_views(patches@) =~= patch_views(before).push(
                        (range_text(current_pos as nat, (current_pos + count) as nat), Seq::<char>::empty(), 0nat)));
                }
            },
            ChunkKind::Insert => {
                let p = TextPatch {
                    unit: String::from_str("text"),
                    range: range_of(current_pos, current_pos),
                    content: String::from_str(text),
                    content_length: Some(byte_len(text)),
                };
                patches.push(p);
                proof {
                    assert(patch_views(patches@) =~= patch_views(before).push(
                        (range_text(current_pos as nat, current_pos as nat), text@, utf8_len(text@))));
                }
                current_pos = current_pos + count as u128;
            },
        }
        i = i + 1;
    }
    proof {
        assert(cs.subrange(0, n as int) =~= cs);
    }
    patches
}

} // verus!
