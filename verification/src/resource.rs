//! The state of one collaborative resource and the updates it takes:
//! whole-text replacements and remote insertions and deletions, each
//! checked against the resource's merge type and the versions it has seen.
use vstd::prelude::*;
use crate::collections::{StrSet, str_eq};
use crate::diamond::{
    DiamondCRDT, OpsExport, DtOp, ops_len, oplog_version_string, opt_str, remote_delete_done, remote_insert_done,
    splice_text, str_views, usable_agent,
};

verus! {

/// The state of a single collaborative resource.
#[derive(Debug)]
pub struct ResourceState {
    pub crdt: DiamondCRDT,
    /// Milliseconds since the epoch of the last synchronisation.
    pub last_sync: u64,
    pub seen_versions: StrSet,
    pub merge_type: String,
}

/// The merge type of a new resource: the one asked for, `simpleton`
/// otherwise.
pub open spec fn merge_type_of(requested: Option<Seq<char>>) -> Seq<char> {
    match requested {
        Some(m) => m,
        None => "simpleton"@,
    }
}

/// The message refusing an update that asks for another merge type.
pub open spec fn mismatch_message(have: Seq<char>, asked: Seq<char>) -> Seq<char> {
    "Merge-type mismatch: "@ + have + " vs "@ + asked
}

/// How a resource receives an update.
pub enum Admission {
    /// It asks for another merge type: refused.
    Refused,
    /// Its version was seen before: nothing to do.
    Seen,
    /// It is applied.
    Taken,
}

/// How a resource receives an update with the given version that asks for
/// the given merge type.
pub open spec fn admission(s: ResourceState, version_id: Option<Seq<char>>, requested: Option<Seq<char>>) -> Admission {
    if requested is Some && s.merge_type@ != requested->0 {
        Admission::Refused
    } else if version_id is Some && s.seen_versions@.contains(version_id->0) {
        Admission::Seen
    } else {
        Admission::Taken
    }
}

/// Whether a merge type is one of the text merge types a resource merges:
/// `simpleton`, `braid-text` or `diamond`.
pub open spec fn is_text_merge_spec(m: Option<Seq<char>>) -> bool {
    m == Some("simpleton"@) || m == Some("braid-text"@) || m == Some("diamond"@)
}

/// Whether an update's merge type is a text one (see `is_text_merge_spec`).
pub fn is_text_merge_type(m: Option<&str>) -> (b: bool)
    ensures
        b == is_text_merge_spec(opt_str(m)),
{
    match m {
        Some(t) => str_eq(t, "simpleton") || str_eq(t, "braid-text") || str_eq(t, "diamond"),
        None => false,
    }
}

/// Whether a body looks like a JSON object: it starts with `{` and ends
/// with `}`.
pub fn looks_like_json_object(body: &str) -> (b: bool)
    ensures
        b == (body@.len() > 0 && body@[0] == '{' && body@.last() == '}'),
{
    let n = body.unicode_len();
    n > 0 && body.get_char(0) == '{' && body.get_char(n - 1) == '}'
}

/// Whether a summary describes a document.
pub open spec fn exported(e: OpsExport, c: DiamondCRDT) -> bool {
    &&& e.agent_id@ == c.agent()
    &&& e.operations_count == ops_len(c.ops())
    &&& e.content@ == c.text()
    &&& e.version@ == oplog_version_string(c.agent(), ops_len(c.ops()))
}

/// What an update does to a resource: refused, it changes nothing and
/// names both merge types; for a version seen, it changes nothing and
/// answers the summary of the document; otherwise the version joins the
/// seen ones, the document changes as `done` says, the time of the last
/// synchronisation becomes `now_ms`, and the answer is the new summary.
pub open spec fn updated(
    old: ResourceState,
    new: ResourceState,
    version_id: Option<Seq<char>>,
    requested: Option<Seq<char>>,
    now_ms: u64,
    r: Result<OpsExport, String>,
    done: spec_fn(DiamondCRDT, DiamondCRDT) -> bool,
) -> bool {
    match admission(old, version_id, requested) {
        Admission::Refused => new == old && r is Err && r->Err_0@ == mismatch_message(old.merge_type@, requested->0),
        Admission::Seen => new == old && r is Ok && exported(r->Ok_0, old.crdt),
        Admission::Taken => {
            &&& new.seen_versions@ == match version_id {
                Some(v) => old.seen_versions@.insert(v),
                None => old.seen_versions@,
            }
            &&& new.merge_type == old.merge_type
            &&& new.last_sync == now_ms
            &&& new.crdt.wf()
            &&& done(old.crdt, new.crdt)
            &&& r is Ok && exported(r->Ok_0, new.crdt)
        },
    }
}

/// A version is applied at most once: once an update with a version has
/// been received without refusal, no later update with that version is
/// taken again, whatever merge type it asks for.
pub proof fn lemma_version_applied_once(
    s0: ResourceState,
    s1: ResourceState,
    v: Seq<char>,
    requested: Option<Seq<char>>,
    now_ms: u64,
    r: Result<OpsExport, String>,
    done: spec_fn(DiamondCRDT, DiamondCRDT) -> bool,
    later_requested: Option<Seq<char>>,
)
    requires
        updated(s0, s1, Some(v), requested, now_ms, r, done),
        !(admission(s0, Some(v), requested) is Refused),
    ensures
        !(admission(s1, Some(v), later_requested) is Taken),
{
    assert(s1.seen_versions@.contains(v));
}

/// The whole text replaced: the old characters are deleted, then the new
/// ones inserted, as this session's operations.
pub open spec fn replaced(old: DiamondCRDT, new: DiamondCRDT, content: Seq<char>) -> bool {
    &&& new.text() == content
    &&& new.agent() == old.agent()
    &&& ops_len(new.ops()) == ops_len(old.ops()) + old.text().len() + content.len()
}

/// An insertion at the current version, as this session's operation.
pub open spec fn inserted(old: DiamondCRDT, new: DiamondCRDT, pos: usize, text: Seq<char>) -> bool {
    &&& new.text() == splice_text(old.text(), pos as int, pos as int, text)
    &&& new.ops() == old.ops().push((old.agent(), old.frontier(), true, pos, (pos + text.len()) as usize, text))
    &&& new.agent() == old.agent()
}

/// A deletion at the current version, as this session's operation.
pub open spec fn deleted(old: DiamondCRDT, new: DiamondCRDT, start: usize, end: usize) -> bool {
    &&& new.text() == splice_text(old.text(), start as int, end as int, Seq::<char>::empty())
    &&& new.ops() == old.ops().push((old.agent(), old.frontier(), false, start, end, Seq::<char>::empty()))
    &&& new.agent() == old.agent()
}

/// One more operation adds its characters to the count.
proof fn lemma_ops_len_push(ops: Seq<DtOp>, op: DtOp)
    ensures
        ops_len(ops.push(op)) == ops_len(ops) + (if op.4 >= op.3 { (op.4 - op.3) as nat } else { 0 }),
{
    assert(ops.push(op).drop_last() =~= ops);
}

impl ResourceState {
    /// The document is checked out at its log's version.
    pub open spec fn wf(&self) -> bool {
        self.crdt.wf()
    }

    /// A new resource: an empty document for `agent_id`, the merge type
    /// asked for (`simpleton` otherwise), no version seen, synchronised at
    /// `now_ms`.
    pub fn new(agent_id: &str, requested_merge_type: Option<&str>, now_ms: u64) -> (r: Self)
        ensures
            r.wf(),
            r.crdt.text() == Seq::<char>::empty(),
            r.crdt.ops() == Seq::<DtOp>::empty(),
            r.crdt.agent() == agent_id@,
            r.last_sync == now_ms,
            r.seen_versions@ == Set::<Seq<char>>::empty(),
            r.merge_type@ == merge_type_of(opt_str(requested_merge_type)),
    {
        proof {
            reveal_strlit("simpleton");
        }
        let merge_type = match requested_merge_type {
            Some(m) => String::from_str(m),
            None => String::from_str("simpleton"),
        };
        ResourceState { crdt: DiamondCRDT::new(agent_id), last_sync: now_ms, seen_versions: StrSet::new(), merge_type }
    }

    /// Whether the resource has seen the version.
    pub fn has_version(&self, version_id: &str) -> (b: bool)
        ensures
            b == self.seen_versions@.contains(version_id@),
    {
        self.seen_versions.contains(version_id)
    }

    /// Whether the resource takes an update with the given version that
    /// asks for the given merge type, rather than refusing it or having
    /// seen it (see `admission`).
    pub fn takes_update(&self, version_id: Option<&str>, requested: Option<&str>) -> (b: bool)
        ensures
            b == (admission(*self, opt_str(version_id), opt_str(requested)) is Taken),
    {
        let refused = match requested {
            Some(m) => !str_eq(self.merge_type.as_str(), m),
            None => false,
        };
        let seen = match version_id {
            Some(v) => self.seen_versions.contains(v),
            None => false,
        };
        !refused && !seen
    }

    /// Decide how an update is received (see `admission`); a taken one's
    /// version joins the seen ones.
    fn receive_update(&mut self, version_id: Option<&str>, requested: Option<&str>) -> (a: Result<bool, String>)
        ensures
            match admission(*old(self), opt_str(version_id), opt_str(requested)) {
                Admission::Refused => *final(self) == *old(self) && a is Err
                    && a->Err_0@ == mismatch_message(old(self).merge_type@, opt_str(requested)->0),
                Admission::Seen => *final(self) == *old(self) && a == Ok::<bool, String>(false),
                Admission::Taken => a == Ok::<bool, String>(true) && final(self).crdt == old(self).crdt
                    && final(self).merge_type == old(self).merge_type && final(self).last_sync == old(self).last_sync
                    && final(self).seen_versions@ == match opt_str(version_id) {
                        Some(v) => old(self).seen_versions@.insert(v),
                        None => old(self).seen_versions@,
                    },
            },
    {
        if let Some(m) = requested {
            if !str_eq(self.merge_type.as_str(), m) {
                let mut msg = String::from_str("Merge-type mismatch: ");
                msg.append(self.merge_type.as_str());
                msg.append(" vs ");
                msg.append(m);
                proof {
                    reveal_strlit("Merge-type mismatch: ");
                    reveal_strlit(" vs ");
                    assert(msg@ =~= mismatch_message(self.merge_type@, m@));
                }
                return Err(msg);
            }
        }
        if let Some(v) = version_id {
            if self.seen_versions.contains(v) {
                return Ok(false);
            }
            self.seen_versions.insert(String::from_str(v));
        }
        Ok(true)
    }

    /// Replace the whole text by `content` (see `replaced`), for an update
    /// with the given version asking for the given merge type (see
    /// `updated`).  An empty content leaves the document empty.
    pub fn apply_update(
        &mut self,
        content: &str,
        version_id: Option<&str>,
        requested_merge_type: Option<&str>,
        now_ms: u64,
    ) -> (r: Result<OpsExport, String>)
        requires
            old(self).wf(),
            usable_agent(old(self).crdt.agent()),
        ensures
            updated(*old(self), *final(self), opt_str(version_id), opt_str(requested_merge_type), now_ms, r,
                |a: DiamondCRDT, b: DiamondCRDT| replaced(a, b, content@)),
    {
        match self.receive_update(version_id, requested_merge_type) {
            Err(e) => {
                return Err(e);
            },
            Ok(false) => {
                return Ok(self.crdt.export_operations());
            },
            Ok(true) => {},
        }
        let ghost c0 = self.crdt;
        let len = self.crdt.content().unicode_len();
        if len > 0 {
            self.crdt.add_delete(0..len);
            proof {
                lemma_ops_len_push(c0.ops(), (c0.agent(), c0.frontier(), false, 0usize, len, Seq::<char>::empty()));
                assert(splice_text(c0.text(), 0, len as int, Seq::<char>::empty()) =~= Seq::<char>::empty());
            }
        }
        let ghost c1 = self.crdt;
        proof {
            assert(c1.text() =~= Seq::<char>::empty());
            assert(ops_len(c1.ops()) == ops_len(c0.ops()) + c0.text().len());
        }
        if content.unicode_len() > 0 {
            self.crdt.add_insert(0, content);
            proof {
                lemma_ops_len_push(c1.ops(), (c1.agent(), c1.frontier(), true, 0usize, content@.len() as usize, content@));
                assert(splice_text(c1.text(), 0, 0, content@) =~= content@);
            }
        } else {
            proof {
                assert(content@ =~= Seq::<char>::empty());
            }
        }
        self.last_sync = now_ms;
        Ok(self.crdt.export_operations())
    }

    /// Insert `text` at `pos` of the current document (see `inserted`),
    /// for an update with the given version asking for the given merge
    /// type (see `updated`).
    pub fn apply_remote_insert(
        &mut self,
        pos: usize,
        text: &str,
        version_id: Option<&str>,
        requested_merge_type: Option<&str>,
        now_ms: u64,
    ) -> (r: Result<OpsExport, String>)
        requires
            old(self).wf(),
            usable_agent(old(self).crdt.agent()),
            admission(*old(self), opt_str(version_id), opt_str(requested_merge_type)) is Taken ==>
                text@.len() > 0 && pos <= old(self).crdt.text().len(),
        ensures
            updated(*old(self), *final(self), opt_str(version_id), opt_str(requested_merge_type), now_ms, r,
                |a: DiamondCRDT, b: DiamondCRDT| inserted(a, b, pos, text@)),
    {
        match self.receive_update(version_id, requested_merge_type) {
            Err(e) => {
                return Err(e);
            },
            Ok(false) => {
                return Ok(self.crdt.export_operations());
            },
            Ok(true) => {},
        }
        self.crdt.add_insert(pos, text);
        self.last_sync = now_ms;
        Ok(self.crdt.export_operations())
    }

    /// Delete `start..end` of the current document (see `deleted`), for an
    /// update with the given version asking for the given merge type (see
    /// `updated`).
    pub fn apply_remote_delete(
        &mut self,
        start: usize,
        end: usize,
        version_id: Option<&str>,
        requested_merge_type: Option<&str>,
        now_ms: u64,
    ) -> (r: Result<OpsExport, String>)
        requires
            old(self).wf(),
            usable_agent(old(self).crdt.agent()),
            admission(*old(self), opt_str(version_id), opt_str(requested_merge_type)) is Taken ==>
                start < end <= old(self).crdt.text().len(),
        ensures
            updated(*old(self), *final(self), opt_str(version_id), opt_str(requested_merge_type), now_ms, r,
                |a: DiamondCRDT, b: DiamondCRDT| deleted(a, b, start, end)),
    {
        match self.receive_update(version_id, requested_merge_type) {
            Err(e) => {
                return Err(e);
            },
            Ok(false) => {
                return Ok(self.crdt.export_operations());
            },
            Ok(true) => {},
        }
        self.crdt.add_delete(start..end);
        self.last_sync = now_ms;
        Ok(self.crdt.export_operations())
    }

    /// Insert `text` from `agent_id` at `pos` of the document at the named
    /// parents, when the log can take it (see `remote_insert_done`), for an
    /// update with the given version (see `updated`; no merge type is
    /// checked).
    pub fn apply_remote_insert_versioned(
        &mut self,
        agent_id: &str,
        parents: &[&str],
        pos: usize,
        text: &str,
        version_id: Option<&str>,
        now_ms: u64,
    ) -> (r: Result<OpsExport, String>)
        requires
            old(self).wf(),
        ensures
            updated(*old(self), *final(self), opt_str(version_id), None, now_ms, r,
                |a: DiamondCRDT, b: DiamondCRDT| exists|t: Option<usize>|
                    remote_insert_done(a, b, agent_id@, str_views(parents@), pos, text@, opt_str(version_id), t)),
    {
        match self.receive_update(version_id, None) {
            Err(e) => {
                return Err(e);
            },
            Ok(false) => {
                return Ok(self.crdt.export_operations());
            },
            Ok(true) => {},
        }
        let _ = self.crdt.try_insert_remote_versioned(agent_id, parents, pos, text, version_id);
        self.last_sync = now_ms;
        Ok(self.crdt.export_operations())
    }

    /// Delete `range` of the document at the named parents for `agent_id`,
    /// when the log can take it (see `remote_delete_done`), for an update
    /// with the given version (see `updated`; no merge type is checked).
    pub fn apply_remote_delete_versioned(
        &mut self,
        agent_id: &str,
        parents: &[&str],
        range: std::ops::Range<usize>,
        version_id: Option<&str>,
        now_ms: u64,
    ) -> (r: Result<OpsExport, String>)
        requires
            old(self).wf(),
        ensures
            updated(*old(self), *final(self), opt_str(version_id), None, now_ms, r,
                |a: DiamondCRDT, b: DiamondCRDT| exists|t: Option<usize>|
                    remote_delete_done(a, b, agent_id@, str_views(parents@), range.start, range.end, opt_str(version_id), t)),
    {
        match self.receive_update(version_id, None) {
            Err(e) => {
                return Err(e);
            },
            Ok(false) => {
                return Ok(self.crdt.export_operations());
            },
            Ok(true) => {},
        }
        let _ = self.crdt.try_delete_remote_versioned(agent_id, parents, range, version_id);
        self.last_sync = now_ms;
        Ok(self.crdt.export_operations())
    }
}

/// An insertion of a structured text update.
#[derive(Debug)]
pub struct TextInsert {
    pub pos: usize,
    pub text: String,
}

/// A deletion of a structured text update.
#[derive(Debug)]
pub struct TextDelete {
    pub start: usize,
    pub end: usize,
}

/// The name of the diamond merge type.
pub open spec fn diamond_word() -> Seq<char> {
    "diamond"@
}

/// The answer `r` and new state `new` of an insertion at the named parents.
pub open spec fn versioned_insert_answer(
    old: ResourceState,
    new: ResourceState,
    agent: Seq<char>,
    ps: Seq<Seq<char>>,
    op: (usize, Seq<char>),
    version_id: Option<Seq<char>>,
    now_ms: u64,
    r: Result<OpsExport, String>,
) -> bool {
    updated(old, new, version_id, None, now_ms, r,
        |a: DiamondCRDT, b: DiamondCRDT| exists|t: Option<usize>|
            #[trigger] remote_insert_done(a, b, agent, ps, op.0, op.1, version_id, t))
}

/// The answer `r` and new state `new` of an insertion at the current
/// version asking for the diamond merge type.
pub open spec fn plain_insert_answer(
    old: ResourceState,
    new: ResourceState,
    op: (usize, Seq<char>),
    version_id: Option<Seq<char>>,
    now_ms: u64,
    r: Result<OpsExport, String>,
) -> bool {
    updated(old, new, version_id, Some(diamond_word()), now_ms, r,
        |a: DiamondCRDT, b: DiamondCRDT| inserted(a, b, op.0, op.1))
}

/// The answer `r` and new state `new` of a deletion at the named parents.
pub open spec fn versioned_delete_answer(
    old: ResourceState,
    new: ResourceState,
    agent: Seq<char>,
    ps: Seq<Seq<char>>,
    op: (usize, usize),
    version_id: Option<Seq<char>>,
    now_ms: u64,
    r: Result<OpsExport, String>,
) -> bool {
    updated(old, new, version_id, None, now_ms, r,
        |a: DiamondCRDT, b: DiamondCRDT| exists|t: Option<usize>|
            #[trigger] remote_delete_done(a, b, agent, ps, op.0, op.1, version_id, t))
}

/// The answer `r` and new state `new` of a deletion at the current
/// version asking for the diamond merge type.
pub open spec fn plain_delete_answer(
    old: ResourceState,
    new: ResourceState,
    op: (usize, usize),
    version_id: Option<Seq<char>>,
    now_ms: u64,
    r: Result<OpsExport, String>,
) -> bool {
    updated(old, new, version_id, Some(diamond_word()), now_ms, r,
        |a: DiamondCRDT, b: DiamondCRDT| deleted(a, b, op.0, op.1))
}

/// One insertion of a structured update: with parents, at the named
/// parents (see `apply_remote_insert_versioned`); without, at the current
/// version asking for the diamond merge type (see `apply_remote_insert`),
/// left out when the document cannot take it (an empty text or a position
/// past its end).
pub open spec fn insert_step(
    old: ResourceState,
    new: ResourceState,
    agent: Seq<char>,
    op: (usize, Seq<char>),
    version_id: Option<Seq<char>>,
    parents: Option<Seq<Seq<char>>>,
    now_ms: u64,
) -> bool {
    match parents {
        Some(ps) => exists|r: Result<OpsExport, String>|
            #[trigger] versioned_insert_answer(old, new, agent, ps, op, version_id, now_ms, r),
        None => if op.1.len() > 0 && op.0 <= old.crdt.text().len() {
            exists|r: Result<OpsExport, String>| #[trigger] plain_insert_answer(old, new, op, version_id, now_ms, r)
        } else {
            new == old
        },
    }
}

/// One deletion of a structured update: with parents, at the named
/// parents (see `apply_remote_delete_versioned`); without, at the current
/// version asking for the diamond merge type (see `apply_remote_delete`),
/// left out when the range is empty or past the end of the document.
pub open spec fn delete_step(
    old: ResourceState,
    new: ResourceState,
    agent: Seq<char>,
    op: (usize, usize),
    version_id: Option<Seq<char>>,
    parents: Option<Seq<Seq<char>>>,
    now_ms: u64,
) -> bool {
    match parents {
        Some(ps) => exists|r: Result<OpsExport, String>|
            #[trigger] versioned_delete_answer(old, new, agent, ps, op, version_id, now_ms, r),
        None => if op.0 < op.1 <= old.crdt.text().len() {
            exists|r: Result<OpsExport, String>| #[trigger] plain_delete_answer(old, new, op, version_id, now_ms, r)
        } else {
            new == old
        },
    }
}

/// The answer `r` and new state `new` of a replacement of the whole text
/// by `content` asking for no merge type.
pub open spec fn replace_answer(
    old: ResourceState,
    new: ResourceState,
    content: Seq<char>,
    version_id: Option<Seq<char>>,
    now_ms: u64,
    r: Result<OpsExport, String>,
) -> bool {
    updated(old, new, version_id, None, now_ms, r, |a: DiamondCRDT, b: DiamondCRDT| replaced(a, b, content))
}

/// The views of optional parents.
pub open spec fn parents_view(p: Option<&[&str]>) -> Option<Seq<Seq<char>>> {
    match p {
        Some(v) => Some(str_views(v@)),
        None => None,
    }
}

/// The insertions of a structured update, as pairs.
pub open spec fn insert_views(v: Seq<TextInsert>) -> Seq<(usize, Seq<char>)> {
    v.map_values(|x: TextInsert| (x.pos, x.text@))
}

/// The deletions of a structured update, as pairs.
pub open spec fn delete_views(v: Seq<TextDelete>) -> Seq<(usize, usize)> {
    v.map_values(|x: TextDelete| (x.start, x.end))
}

/// Whether `states` goes from one state to the next by the insertions,
/// then the deletions, of a structured update.
pub open spec fn text_ops_trace(
    states: Seq<ResourceState>,
    agent: Seq<char>,
    ins: Seq<(usize, Seq<char>)>,
    dels: Seq<(usize, usize)>,
    version_id: Option<Seq<char>>,
    parents: Option<Seq<Seq<char>>>,
    now_ms: u64,
) -> bool {
    &&& states.len() == ins.len() + dels.len() + 1
    &&& forall|i: int| 0 <= i < states.len() ==> (#[trigger] states[i]).wf()
    &&& forall|i: int| 0 <= i < ins.len() ==>
        insert_step(#[trigger] states[i], states[i + 1], agent, ins[i], version_id, parents, now_ms)
    &&& forall|j: int| 0 <= j < dels.len() ==>
        delete_step(#[trigger] states[ins.len() + j], states[ins.len() + j + 1], agent, dels[j], version_id, parents, now_ms)
}

impl ResourceState {
    /// Apply the operations of a structured text update: each insertion,
    /// then each deletion, in order (see `insert_step` and `delete_step`).
    pub fn apply_text_operations(
        &mut self,
        agent_id: &str,
        inserts: &Vec<TextInsert>,
        deletes: &Vec<TextDelete>,
        version_id: Option<&str>,
        parents: Option<&[&str]>,
        now_ms: u64,
    )
        requires
            old(self).wf(),
            usable_agent(old(self).crdt.agent()),
        ensures
            exists|states: Seq<ResourceState>| {
                &&& #[trigger] text_ops_trace(states, agent_id@, insert_views(inserts@), delete_views(deletes@),
                    opt_str(version_id), parents_view(parents), now_ms)
                &&& states[0] == *old(self)
                &&& states.last() == *final(self)
            },
    {
        let ghost ps = parents_view(parents);
        let ghost ins = insert_views(inserts@);
        let ghost dels = delete_views(deletes@);
        let ghost mut states: Seq<ResourceState> = seq![*self];
        proof {
            reveal_strlit("diamond");
        }
        let n = inserts.len();
        let mut i: usize = 0;
        while i < n
            invariant
                i <= n,
                n == inserts@.len(),
                ins == insert_views(inserts@),
                dels == delete_views(deletes@),
                ps == parents_view(parents),
                states.len() == i + 1,
                states[0] == *old(self),
                states.last() == *self,
                self.wf(),
                usable_agent(self.crdt.agent()),
                forall|k: int| 0 <= k < states.len() ==> (#[trigger] states[k]).wf(),
                forall|k: int| 0 <= k < i ==>
                    insert_step(#[trigger] states[k], states[k + 1], agent_id@, ins[k], opt_str(version_id), ps, now_ms),
            decreases n - i,
        {
            let op = &inserts[i];
            let ghost before = *self;
            proof {
                assert(ins[i as int] == (op.pos, op.text@));
            }
            match parents {
                Some(p) => {
                    let r = self.apply_remote_insert_versioned(agent_id, p, op.pos, op.text.as_str(), version_id, now_ms);
                    proof {
                        assert(versioned_insert_answer(before, *self, agent_id@, str_views(p@), ins[i as int], opt_str(version_id), now_ms, r));
                    }
                },
                None => {
                    let len = self.crdt.content().unicode_len();
                    if op.text.unicode_len() > 0 && op.pos <= len {
                        let r = self.apply_remote_insert(op.pos, op.text.as_str(), version_id, Some("diamond"), now_ms);
                        proof {
                            assert(opt_str(Some("diamond")) == Some(diamond_word()));
                            assert(plain_insert_answer(before, *self, ins[i as int], opt_str(version_id), now_ms, r));
                        }
                    }
                },
            }
            proof {
                match parents {
                    Some(p) => {
                        assert(ps->0 == str_views(p@));
                    },
                    None => {},
                }
                states = states.push(*self);
                assert(insert_step(before, *self, agent_id@, ins[i as int], opt_str(version_id), ps, now_ms));
            }
            i = i + 1;
        }
        let m = deletes.len();
        let mut j: usize = 0;
        while j < m
            invariant
                j <= m,
                n == inserts@.len(),
                m == deletes@.len(),
                ins == insert_views(inserts@),
                dels == delete_views(deletes@),
                ps == parents_view(parents),
                states.len() == n + j + 1,
                states[0] == *old(self),
                states.last() == *self,
                self.wf(),
                usable_agent(self.crdt.agent()),
                forall|k: int| 0 <= k < states.len() ==> (#[trigger] states[k]).wf(),
                forall|k: int| 0 <= k < n ==>
                    insert_step(#[trigger] states[k], states[k + 1], agent_id@, ins[k], opt_str(version_id), ps, now_ms),
                forall|k: int| 0 <= k < j ==>
                    delete_step(#[trigger] states[n + k], states[n + k + 1], agent_id@, dels[k], opt_str(version_id), ps, now_ms),
            decreases m - j,
        {
            let op = &deletes[j];
            let ghost before = *self;
            proof {
                assert(dels[j as int] == (op.start, op.end));
            }
            match parents {
                Some(p) => {
                    let r = self.apply_remote_delete_versioned(agent_id, p, op.start..op.end, version_id, now_ms);
                    proof {
                        assert(versioned_delete_answer(before, *self, agent_id@, str_views(p@), dels[j as int], opt_str(version_id), now_ms, r));
                    }
                },
                None => {
                    let len = self.crdt.content().unicode_len();
                    if op.start < op.end && op.end <= len {
                        let r = self.apply_remote_delete(op.start, op.end, version_id, Some("diamond"), now_ms);
                        proof {
                            assert(opt_str(Some("diamond")) == Some(diamond_word()));
                            assert(plain_delete_answer(before, *self, dels[j as int], opt_str(version_id), now_ms, r));
                        }
                    }
                },
            }
            proof {
                match parents {
                    Some(p) => {
                        assert(ps->0 == str_views(p@));
                    },
                    None => {},
                }
                let old_states = states;
                states = states.push(*self);
                assert(delete_step(before, *self, agent_id@, dels[j as int], opt_str(version_id), ps, now_ms));
                assert forall|k: int| 0 <= k < n implies
                    insert_step(#[trigger] states[k], states[k + 1], agent_id@, ins[k], opt_str(version_id), ps, now_ms) by {
                    assert(states[k] == old_states[k]);
                    assert(states[k + 1] == old_states[k + 1]);
                }
                assert forall|k: int| 0 <= k < j + 1 implies
                    delete_step(#[trigger] states[n + k], states[n + k + 1], agent_id@, dels[k], opt_str(version_id), ps, now_ms) by {
                    if k < j {
                        assert(states[n + k] == old_states[n + k]);
                        assert(states[n + k + 1] == old_states[n + k + 1]);
                    }
                }
            }
            j = j + 1;
        }
        proof {
            assert(text_ops_trace(states, agent_id@, ins, dels, opt_str(version_id), ps, now_ms));
        }
    }

    /// Merge a plain-text body: the whole text is replaced (see
    /// `apply_update`, with no merge type asked for), and the version of
    /// the summary then names the document's current diamond-types
    /// version.
    pub fn merge_text(&mut self, body: &str, version_id: Option<&str>, now_ms: u64) -> (r: Result<OpsExport, String>)
        requires
            old(self).wf(),
            usable_agent(old(self).crdt.agent()),
        ensures
            final(self).wf(),
            exists|mid: ResourceState| {
                &&& #[trigger] replace_answer(*old(self), mid, body@, opt_str(version_id), now_ms, r)
                &&& final(self).crdt.text() == mid.crdt.text()
                &&& final(self).crdt.ops() == mid.crdt.ops()
                &&& final(self).crdt.frontier() == mid.crdt.frontier()
                &&& final(self).crdt.version_map() == match r {
                    Ok(e) => mid.crdt.version_map().insert(e.version@, mid.crdt.frontier()),
                    Err(_) => mid.crdt.version_map(),
                }
                &&& final(self).seen_versions == mid.seen_versions
                &&& final(self).merge_type == mid.merge_type
                &&& final(self).last_sync == mid.last_sync
            },
    {
        let r = self.apply_update(body, version_id, None, now_ms);
        let ghost mid = *self;
        proof {
            assert(replace_answer(*old(self), mid, body@, opt_str(version_id), now_ms, r));
            assert(mid.wf()) by {
                match admission(*old(self), opt_str(version_id), None) {
                    Admission::Refused => {},
                    Admission::Seen => {},
                    Admission::Taken => {},
                }
            }
        }
        match &r {
            Ok(e) => {
                let frontier = self.crdt.get_local_frontier();
                self.crdt.register_version_mapping(String::from_str(e.version.as_str()), frontier);
            },
            Err(_) => {},
        }
        r
    }
}

} // verus!
