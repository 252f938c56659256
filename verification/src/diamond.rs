//! Diamond-Types CRDT integration for Braid-HTTP text synchronization.
//!
//! A `DiamondCRDT` keeps a diamond-types operation log (every edit ever
//! made) and a branch checked out at the log's current version (the
//! document text).  Local edits are made at the current version, so the
//! text after one is the text before it with the edit applied.
use vstd::prelude::*;
use crate::collections::{StrMap, str_eq};
use crate::text::{decimal, push_char, push_decimal};
use diamond_types::list::{Branch, OpLog};

verus! {

#[verifier::external_type_specification]
#[verifier::external_body]
pub struct ExOpLog(diamond_types::list::OpLog);

#[verifier::external_type_specification]
#[verifier::external_body]
pub struct ExBranch(diamond_types::list::Branch);

/// One operation of a log: the agent's name, the parent version, whether
/// it inserts, the range it covers (start, end), and the inserted text.
pub type DtOp = (Seq<char>, Seq<usize>, bool, usize, usize, Seq<char>);

/// The operations an oplog holds, in the order they were added.
pub uninterp spec fn oplog_ops(log: OpLog) -> Seq<(Seq<char>, Seq<usize>, bool, usize, usize, Seq<char>)>;

/// The current version (frontier) of an oplog: the operations that no
/// other operation of the log has as a parent.
pub uninterp spec fn oplog_version(log: OpLog) -> Seq<usize>;

/// The characters of a branch.
pub uninterp spec fn branch_text(b: Branch) -> Seq<char>;

/// The document that checking out the operations at a version gives.
pub uninterp spec fn text_at(ops: Seq<(Seq<char>, Seq<usize>, bool, usize, usize, Seq<char>)>, version: Seq<usize>) -> Seq<char>;

/// The bytes that encoding the operations since a version gives.
pub uninterp spec fn encoded_from(ops: Seq<(Seq<char>, Seq<usize>, bool, usize, usize, Seq<char>)>, from: Seq<usize>) -> Seq<u8>;

/// The number of single-character operations: each operation counts one
/// per character it inserts or deletes.
pub open spec fn ops_len(ops: Seq<DtOp>) -> nat
    decreases ops.len(),
{
    if ops.len() == 0 {
        0
    } else {
        let last = ops.last();
        ops_len(ops.drop_last()) + (if last.4 >= last.3 { (last.4 - last.3) as nat } else { 0 })
    }
}

/// `t` with the characters `start..end` replaced by `ins`.
pub open spec fn splice_text(t: Seq<char>, start: int, end: int, ins: Seq<char>) -> Seq<char> {
    t.subrange(0, start) + ins + t.subrange(end, t.len() as int)
}

/// Whether diamond-types can record edits by an agent of this name: the
/// name `ROOT` is its reserved root agent, and `OpLog::get_or_create_agent_id`
/// maps it to an ID that no edit can be recorded under.
pub open spec fn usable_agent(agent: Seq<char>) -> bool {
    agent != "ROOT"@
}

/// Whether a version is listed in increasing order, each operation once,
/// as diamond-types keeps its frontiers.
pub open spec fn sorted_version(v: Seq<usize>) -> bool {
    forall|i: int, j: int| 0 <= i < j < v.len() ==> v[i] < v[j]
}

/// Whether the history of a version holds an operation
/// (`OpLog::version_contains_time`).
pub uninterp spec fn version_holds(ops: Seq<(Seq<char>, Seq<usize>, bool, usize, usize, Seq<char>)>, version: Seq<usize>, target: usize) -> bool;

/// Whether a version is a frontier of the operations, as diamond-types
/// takes its versions: listed in increasing order, each operation once,
/// and, when it has two or more, none in the history of the others.
pub open spec fn frontier_of(ops: Seq<DtOp>, v: Seq<usize>) -> bool {
    &&& sorted_version(v)
    &&& v.len() >= 2 ==> forall|i: int| 0 <= i < v.len() ==> !#[trigger] version_holds(ops, v.remove(i), v[i])
}

/// A new, empty oplog (`OpLog::new`): it holds no operation, its version is
/// the root, and the document there is empty.
#[verifier::external_body]
fn dt_new_oplog() -> (log: OpLog)
    ensures
        oplog_ops(log) == Seq::<DtOp>::empty(),
        oplog_version(log) == Seq::<usize>::empty(),
        text_at(oplog_ops(log), oplog_version(log)) == Seq::<char>::empty(),
{
    OpLog::new()
}

/// Inserts text at the log's current version as the named agent
/// (`OpLog::get_or_create_agent_id` then `OpLog::add_insert`).  The new
/// operation's parents are the old version, the new version is the
/// operation's last character, and the document there is the old one with
/// the text inserted.  Returns the last character's time.
#[verifier::external_body]
fn dt_insert(log: &mut OpLog, agent: &str, pos: usize, text: &str) -> (t: usize)
    requires
        usable_agent(agent@),
        text@.len() > 0,
        pos <= text_at(oplog_ops(*old(log)), oplog_version(*old(log))).len(),
    ensures
        oplog_ops(*final(log)) == oplog_ops(*old(log)).push(
            (agent@, oplog_version(*old(log)), true, pos, (pos + text@.len()) as usize, text@)),
        t == ops_len(oplog_ops(*final(log))) - 1,
        oplog_version(*final(log)) == seq![t],
        text_at(oplog_ops(*final(log)), oplog_version(*final(log)))
            == splice_text(text_at(oplog_ops(*old(log)), oplog_version(*old(log))), pos as int, pos as int, text@),
{
    let a = log.get_or_create_agent_id(agent);
    log.add_insert(a, pos, text)
}

/// Deletes `start..end` at the log's current version as the named agent
/// (`OpLog::get_or_create_agent_id` then `OpLog::add_delete_without_content`).
/// Returns the last deleted character's time.
#[verifier::external_body]
fn dt_delete(log: &mut OpLog, agent: &str, start: usize, end: usize) -> (t: usize)
    requires
        usable_agent(agent@),
        start < end <= text_at(oplog_ops(*old(log)), oplog_version(*old(log))).len(),
    ensures
        oplog_ops(*final(log)) == oplog_ops(*old(log)).push(
            (agent@, oplog_version(*old(log)), false, start, end, Seq::<char>::empty())),
        t == ops_len(oplog_ops(*final(log))) - 1,
        oplog_version(*final(log)) == seq![t],
        text_at(oplog_ops(*final(log)), oplog_version(*final(log)))
            == splice_text(text_at(oplog_ops(*old(log)), oplog_version(*old(log))), start as int, end as int, Seq::<char>::empty()),
{
    let a = log.get_or_create_agent_id(agent);
    log.add_delete_without_content(a, start..end)
}

/// Inserts text at the given parent version as the named agent
/// (`OpLog::get_or_create_agent_id` then `OpLog::add_insert_at`).  The
/// document at the new operation is the document at the parents with the
/// text inserted.  What the log's version becomes is left unsaid: it
/// depends on how the parents relate to the old version.
#[verifier::external_body]
fn dt_insert_at(log: &mut OpLog, agent: &str, parents: &Vec<usize>, pos: usize, text: &str) -> (t: usize)
    requires
        usable_agent(agent@),
        frontier_of(oplog_ops(*old(log)), parents@),
        text@.len() > 0,
        forall|i: int| 0 <= i < parents@.len() ==> parents@[i] < ops_len(oplog_ops(*old(log))),
        pos <= text_at(oplog_ops(*old(log)), parents@).len(),
    ensures
        oplog_ops(*final(log)) == oplog_ops(*old(log)).push(
            (agent@, parents@, true, pos, (pos + text@.len()) as usize, text@)),
        t == ops_len(oplog_ops(*final(log))) - 1,
        text_at(oplog_ops(*final(log)), seq![t])
            == splice_text(text_at(oplog_ops(*old(log)), parents@), pos as int, pos as int, text@),
{
    let a = log.get_or_create_agent_id(agent);
    log.add_insert_at(a, parents.as_slice(), pos, text)
}

/// Deletes `start..end` at the given parent version as the named agent
/// (`OpLog::get_or_create_agent_id` then `OpLog::add_delete_at`).  What the
/// log's version becomes is left unsaid.
#[verifier::external_body]
fn dt_delete_at(log: &mut OpLog, agent: &str, parents: &Vec<usize>, start: usize, end: usize) -> (t: usize)
    requires
        usable_agent(agent@),
        frontier_of(oplog_ops(*old(log)), parents@),
        forall|i: int| 0 <= i < parents@.len() ==> parents@[i] < ops_len(oplog_ops(*old(log))),
        start < end <= text_at(oplog_ops(*old(log)), parents@).len(),
    ensures
        oplog_ops(*final(log)) == oplog_ops(*old(log)).push(
            (agent@, parents@, false, start, end, Seq::<char>::empty())),
        t == ops_len(oplog_ops(*final(log))) - 1,
        text_at(oplog_ops(*final(log)), seq![t])
            == splice_text(text_at(oplog_ops(*old(log)), parents@), start as int, end as int, Seq::<char>::empty()),
{
    let a = log.get_or_create_agent_id(agent);
    log.add_delete_at(a, parents.as_slice(), start..end)
}

/// A branch checked out at the log's current version (`OpLog::checkout_tip`).
#[verifier::external_body]
fn dt_checkout_tip(log: &OpLog) -> (b: Branch)
    ensures
        branch_text(b) == text_at(oplog_ops(*log), oplog_version(*log)),
{
    log.checkout_tip()
}

/// A branch checked out at the given version (`OpLog::checkout`): the
/// document there.
#[verifier::external_body]
fn dt_checkout_at(log: &OpLog, version: &Vec<usize>) -> (b: Branch)
    requires
        frontier_of(oplog_ops(*log), version@),
        forall|i: int| 0 <= i < version@.len() ==> version@[i] < ops_len(oplog_ops(*log)),
    ensures
        branch_text(b) == text_at(oplog_ops(*log), version@),
{
    log.checkout(version.as_slice())
}

/// Whether the history of a version holds an operation
/// (`OpLog::version_contains_time`); see `version_holds`.
#[verifier::external_body]
fn dt_version_contains(log: &OpLog, version: &Vec<usize>, target: usize) -> (b: bool)
    requires
        sorted_version(version@),
        forall|i: int| 0 <= i < version@.len() ==> version@[i] < ops_len(oplog_ops(*log)),
        target < ops_len(oplog_ops(*log)),
    ensures
        b == version_holds(oplog_ops(*log), version@, target),
{
    log.version_contains_time(version.as_slice(), target)
}

/// The characters of a branch (`Branch::content`, as a string).
#[verifier::external_body]
fn dt_branch_string(b: &Branch) -> (s: String)
    ensures
        s@ == branch_text(*b),
{
    b.content().to_string()
}

/// The number of single-character operations in the log (`OpLog::len`).
#[verifier::external_body]
fn dt_len(log: &OpLog) -> (n: usize)
    ensures
        n == ops_len(oplog_ops(*log)),
{
    log.len()
}

/// The log's current version (`OpLog::local_version`).
#[verifier::external_body]
fn dt_version(log: &OpLog) -> (v: Vec<usize>)
    ensures
        v@ == oplog_version(*log),
{
    log.local_version().to_vec()
}

/// The operations since a version, encoded (`OpLog::encode_from` with the
/// default options).
#[verifier::external_body]
fn dt_encode_from(log: &OpLog, from: &Vec<usize>) -> (bytes: Vec<u8>)
    requires
        sorted_version(from@),
        forall|i: int| 0 <= i < from@.len() ==> from@[i] < ops_len(oplog_ops(*log)),
    ensures
        bytes@ == encoded_from(oplog_ops(*log), from@),
{
    log.encode_from(Default::default(), from.as_slice())
}

/// Checks the log's internal consistency (`OpLog::dbg_check`).
#[verifier::external_body]
fn dt_dbg_check(log: &OpLog, deep: bool) {
    log.dbg_check(deep)
}

/// A version without its member at index `k`.
fn without_index(v: &Vec<usize>, k: usize) -> (r: Vec<usize>)
    requires
        k < v@.len(),
    ensures
        r@ == v@.remove(k as int),
{
    let mut r: Vec<usize> = Vec::new();
    let mut j: usize = 0;
    while j < v.len()
        invariant
            k < v@.len(),
            j <= v@.len(),
            r@ == (if j <= k { v@.subrange(0, j as int) } else { v@.subrange(0, j as int).remove(k as int) }),
        decreases v@.len() - j,
    {
        if j != k {
            r.push(v[j]);
        }
        proof {
            if j + 1 <= k {
                assert(r@ =~= v@.subrange(0, j + 1));
            } else {
                assert(r@ =~= v@.subrange(0, j + 1).remove(k as int));
            }
        }
        j = j + 1;
    }
    proof {
        assert(v@.subrange(0, v@.len() as int) =~= v@);
    }
    r
}

/// The version identifier of a document: `diamond-{agent}-{operations}`.
pub open spec fn version_string(agent: Seq<char>, count: nat) -> Seq<char> {
    seq!['d', 'i', 'a', 'm', 'o', 'n', 'd', '-'] + agent + seq!['-'] + decimal(count)
}

/// The versions named by a list of version strings, concatenated; a name
/// without a mapping contributes nothing.
pub open spec fn resolved_parents(map: Map<Seq<char>, Seq<usize>>, parents: Seq<Seq<char>>) -> Seq<usize>
    decreases parents.len(),
{
    if parents.len() == 0 {
        Seq::empty()
    } else {
        let rest = resolved_parents(map, parents.drop_last());
        if map.contains_key(parents.last()) { rest + map[parents.last()] } else { rest }
    }
}

/// A borrowed optional string by its view.
pub open spec fn opt_str(o: Option<&str>) -> Option<Seq<char>> {
    match o {
        Some(s) => Some(s@),
        None => None,
    }
}

/// What a checked remote insertion does: when the agent is usable, the
/// parents are in the log,
/// the text is not empty and the position is within the document at the
/// parents, the insertion is recorded at the parents, the document at the
/// new operation is the one at the parents with the text inserted, and the
/// version, if given, names it; otherwise nothing changes.
pub open spec fn remote_insert_done(
    old: DiamondCRDT,
    new: DiamondCRDT,
    agent: Seq<char>,
    parents: Seq<Seq<char>>,
    pos: usize,
    text: Seq<char>,
    version_id: Option<Seq<char>>,
    t: Option<usize>,
) -> bool {
    let lvs = resolved_parents(old.version_map(), parents);
    let base = text_at(old.ops(), lvs);
    if usable_agent(agent) && parents_known(old.version_map(), parents, old.ops()) && text.len() > 0 && pos <= base.len() {
        &&& t is Some
        &&& new.ops() == old.ops().push((agent, lvs, true, pos, (pos + text.len()) as usize, text))
        &&& t->0 == ops_len(new.ops()) - 1
        &&& text_at(new.ops(), seq![t->0]) == splice_text(base, pos as int, pos as int, text)
        &&& new.agent() == old.agent()
        &&& new.version_map() == match version_id {
            Some(v) => old.version_map().insert(v, seq![t->0]),
            None => old.version_map(),
        }
    } else {
        t is None && new == old
    }
}

/// What a checked remote deletion does: when the agent is usable, the
/// parents are in the log
/// and `start..end` is a non-empty part of the document at the parents,
/// the deletion is recorded at the parents, the document at the new
/// operation is the one at the parents without that part, and the
/// version, if given, names it; otherwise nothing changes.
pub open spec fn remote_delete_done(
    old: DiamondCRDT,
    new: DiamondCRDT,
    agent: Seq<char>,
    parents: Seq<Seq<char>>,
    start: usize,
    end: usize,
    version_id: Option<Seq<char>>,
    t: Option<usize>,
) -> bool {
    let lvs = resolved_parents(old.version_map(), parents);
    let base = text_at(old.ops(), lvs);
    if usable_agent(agent) && parents_known(old.version_map(), parents, old.ops()) && start < end <= base.len() {
        &&& t is Some
        &&& new.ops() == old.ops().push((agent, lvs, false, start, end, Seq::<char>::empty()))
        &&& t->0 == ops_len(new.ops()) - 1
        &&& text_at(new.ops(), seq![t->0]) == splice_text(base, start as int, end as int, Seq::<char>::empty())
        &&& new.agent() == old.agent()
        &&& new.version_map() == match version_id {
            Some(v) => old.version_map().insert(v, seq![t->0]),
            None => old.version_map(),
        }
    } else {
        t is None && new == old
    }
}

/// Whether the diamond-types versions the named parents resolve to are
/// operations of the log, together a frontier of it (see `frontier_of`).
pub open spec fn parents_known(map: Map<Seq<char>, Seq<usize>>, parents: Seq<Seq<char>>, ops: Seq<DtOp>) -> bool {
    &&& forall|i: int| 0 <= i < resolved_parents(map, parents).len() ==> resolved_parents(map, parents)[i] < ops_len(ops)
    &&& frontier_of(ops, resolved_parents(map, parents))
}

/// The views of a list of string slices.
pub open spec fn str_views(s: Seq<&str>) -> Seq<Seq<char>> {
    s.map_values(|x: &str| x@)
}

/// The views of a list of versions.
pub open spec fn version_views(s: Seq<Vec<usize>>) -> Seq<Seq<usize>> {
    s.map_values(|x: Vec<usize>| x@)
}

/// The concatenation of a list of versions.
pub open spec fn concat_versions(s: Seq<Seq<usize>>) -> Seq<usize>
    decreases s.len(),
{
    if s.len() == 0 { Seq::empty() } else { concat_versions(s.drop_last()) + s.last() }
}

/// The version of an operation log in a summary: `oplog-{agent}-{count}`.
pub open spec fn oplog_version_string(agent: Seq<char>, count: nat) -> Seq<char> {
    seq!['o', 'p', 'l', 'o', 'g', '-'] + agent + seq!['-'] + decimal(count)
}

/// A summary of an operation log.
#[derive(Debug)]
pub struct OpsExport {
    pub agent_id: String,
    pub operations_count: usize,
    pub content: String,
    pub version: String,
}

/// A checkpoint of a document.
#[derive(Debug)]
pub struct Checkpoint {
    pub content: String,
    pub version: String,
    pub agent_id: String,
    pub oplog_len: usize,
}

/// High-performance text CRDT wrapper for collaborative editing.
#[derive(Debug)]
pub struct DiamondCRDT {
    /// Unique identifier for this editing session (must not be reused)
    agent_id: String,
    /// Complete history of all document operations
    oplog: OpLog,
    /// Current document snapshot at the tip of the operation log
    branch: Branch,
    /// Remote agent IDs and their latest sequence numbers
    remote_versions: StrMap<u32>,
    /// Mapping from Braid version strings to diamond-types versions
    version_fronties: StrMap<Vec<usize>>,
}

impl DiamondCRDT {
    /// The branch is checked out at the log's current version.
    pub closed spec fn wf(&self) -> bool {
        branch_text(self.branch) == text_at(oplog_ops(self.oplog), oplog_version(self.oplog))
    }

    /// The document text.
    pub closed spec fn text(&self) -> Seq<char> {
        branch_text(self.branch)
    }

    /// The operations of the log.
    pub closed spec fn ops(&self) -> Seq<DtOp> {
        oplog_ops(self.oplog)
    }

    /// The log's current version.
    pub closed spec fn frontier(&self) -> Seq<usize> {
        oplog_version(self.oplog)
    }

    /// The session's agent ID.
    pub closed spec fn agent(&self) -> Seq<char> {
        self.agent_id@
    }

    /// The Braid versions that have a diamond-types version.
    pub closed spec fn version_map(&self) -> Map<Seq<char>, Seq<usize>> {
        self.version_fronties@.map_values(|v: Vec<usize>| v@)
    }

    /// The number of remote agents seen.
    pub closed spec fn remote_count(&self) -> nat {
        self.remote_versions@.dom().len()
    }

    /// Create a new empty CRDT with a unique agent ID.
    pub fn new(agent_id: &str) -> (c: Self)
        ensures
            c.wf(),
            c.text() == Seq::<char>::empty(),
            c.ops() == Seq::<DtOp>::empty(),
            c.agent() == agent_id@,
            c.version_map() == Map::<Seq<char>, Seq<usize>>::empty(),
            c.remote_count() == 0,
    {
        let oplog = dt_new_oplog();
        let branch = dt_checkout_tip(&oplog);
        let c = DiamondCRDT {
            agent_id: String::from_str(agent_id),
            oplog,
            branch,
            remote_versions: StrMap::new(),
            version_fronties: StrMap::new(),
        };
        proof {
            assert(c.version_map() =~= Map::<Seq<char>, Seq<usize>>::empty());
        }
        c
    }

    /// Records the current version under the current version string.
    fn record_version(&mut self)
        requires
            old(self).wf(),
        ensures
            final(self).wf(),
            final(self).text() == old(self).text(),
            final(self).ops() == old(self).ops(),
            final(self).frontier() == old(self).frontier(),
            final(self).agent() == old(self).agent(),
            final(self).remote_count() == old(self).remote_count(),
            final(self).version_map() == old(self).version_map().insert(
                version_string(old(self).agent(), ops_len(old(self).ops())), old(self).frontier()),
    {
        let frontier = self.get_local_frontier();
        let version = self.get_version();
        self.version_fronties.insert(version, frontier);
        proof {
            assert(self.version_map() =~= old(self).version_map().insert(
                version_string(old(self).agent(), ops_len(old(self).ops())), old(self).frontier()));
        }
    }

    /// Insert text at a position in the document.
    ///
    /// The text becomes the old text with `text` inserted at `pos`; the
    /// operation is recorded as this session's, made at the current
    /// version, and the new version is recorded under its version string.
    pub fn add_insert(&mut self, pos: usize, text: &str)
        requires
            old(self).wf(),
            usable_agent(old(self).agent()),
            text@.len() > 0,
            pos <= old(self).text().len(),
        ensures
            final(self).wf(),
            final(self).text() == splice_text(old(self).text(), pos as int, pos as int, text@),
            final(self).ops() == old(self).ops().push(
                (old(self).agent(), old(self).frontier(), true, pos, (pos + text@.len()) as usize, text@)),
            final(self).agent() == old(self).agent(),
            final(self).remote_count() == old(self).remote_count(),
            final(self).version_map() == old(self).version_map().insert(
                version_string(old(self).agent(), ops_len(final(self).ops())), final(self).frontier()),
    {
        dt_insert(&mut self.oplog, self.agent_id.as_str(), pos, text);
        self.branch = dt_checkout_tip(&self.oplog);
        self.record_version();
    }

    /// Delete a range of characters from the document.
    ///
    /// The text loses the characters of `range`; the operation is recorded
    /// as this session's, made at the current version, and the new version
    /// is recorded under its version string.
    pub fn add_delete(&mut self, range: std::ops::Range<usize>)
        requires
            old(self).wf(),
            usable_agent(old(self).agent()),
            range.start < range.end <= old(self).text().len(),
        ensures
            final(self).wf(),
            final(self).text() == splice_text(old(self).text(), range.start as int, range.end as int, Seq::<char>::empty()),
            final(self).ops() == old(self).ops().push(
                (old(self).agent(), old(self).frontier(), false, range.start, range.end, Seq::<char>::empty())),
            final(self).agent() == old(self).agent(),
            final(self).remote_count() == old(self).remote_count(),
            final(self).version_map() == old(self).version_map().insert(
                version_string(old(self).agent(), ops_len(final(self).ops())), final(self).frontier()),
    {
        dt_delete(&mut self.oplog, self.agent_id.as_str(), range.start, range.end);
        self.branch = dt_checkout_tip(&self.oplog);
        self.record_version();
    }

    /// The diamond-types versions named by a list of Braid versions.
    pub(crate) fn resolve_parents(&self, parents: &[&str]) -> (lvs: Vec<usize>)
        ensures
            lvs@ == resolved_parents(self.version_map(), str_views(parents@)),
    {
        let mut lvs: Vec<usize> = Vec::new();
        let mut i: usize = 0;
        while i < parents.len()
            invariant
                i <= parents@.len(),
                lvs@ == resolved_parents(self.version_map(), str_views(parents@).subrange(0, i as int)),
            decreases parents@.len() - i,
        {
            let ghost pre = str_views(parents@).subrange(0, i as int);
            proof {
                assert(str_views(parents@).subrange(0, i + 1).drop_last() =~= pre);
                assert(str_views(parents@).subrange(0, i + 1).last() == parents@[i as int]@);
            }
            match self.resolve_version(parents[i]) {
                Some(f) => {
                    let mut j: usize = 0;
                    let ghost start = lvs@;
                    while j < f.len()
                        invariant
                            j <= f@.len(),
                            lvs@ == start + f@.subrange(0, j as int),
                        decreases f@.len() - j,
                    {
                        lvs.push(f[j]);
                        proof {
                            assert(lvs@ =~= start + f@.subrange(0, j + 1));
                        }
                        j = j + 1;
                    }
                    proof {
                        assert(f@.subrange(0, f@.len() as int) =~= f@);
                    }
                },
                None => {},
            }
            i = i + 1;
        }
        proof {
            assert(str_views(parents@).subrange(0, parents@.len() as int) =~= str_views(parents@));
        }
        lvs
    }

    /// Apply an insertion from a remote peer at a specific version (parents).
    ///
    /// The parents are the diamond-types versions of the named Braid
    /// versions (those without a mapping are skipped).  The document at the
    /// new operation is the document at the parents with the text inserted;
    /// when `version_id` is given it is mapped to the new operation.
    pub fn add_insert_remote_versioned(
        &mut self,
        agent_id: &str,
        parents: &[&str],
        pos: usize,
        text: &str,
        version_id: Option<&str>,
    ) -> (t: usize)
        requires
            old(self).wf(),
            usable_agent(agent_id@),
            frontier_of(old(self).ops(), resolved_parents(old(self).version_map(), str_views(parents@))),
            text@.len() > 0,
            forall|i: int| 0 <= i < resolved_parents(old(self).version_map(), str_views(parents@)).len()
                ==> resolved_parents(old(self).version_map(), str_views(parents@))[i] < ops_len(old(self).ops()),
            pos <= text_at(old(self).ops(), resolved_parents(old(self).version_map(), str_views(parents@))).len(),
        ensures
            final(self).wf(),
            final(self).ops() == old(self).ops().push((agent_id@,
                resolved_parents(old(self).version_map(), str_views(parents@)), true, pos, (pos + text@.len()) as usize, text@)),
            t == ops_len(final(self).ops()) - 1,
            text_at(final(self).ops(), seq![t]) == splice_text(
                text_at(old(self).ops(), resolved_parents(old(self).version_map(), str_views(parents@))), pos as int, pos as int, text@),
            final(self).agent() == old(self).agent(),
            final(self).remote_count() == old(self).remote_count(),
            final(self).version_map() == match version_id {
                Some(v) => old(self).version_map().insert(v@, seq![t]),
                None => old(self).version_map(),
            },
    {
        let lvs = self.resolve_parents(parents);
        let t = dt_insert_at(&mut self.oplog, agent_id, &lvs, pos, text);
        self.branch = dt_checkout_tip(&self.oplog);
        if let Some(vid) = version_id {
            let f = vec![t];
            proof {
                assert(f@ =~= seq![t]);
            }
            self.register_version_mapping(String::from_str(vid), f);
        }
        t
    }

    /// The document at the named parents, when their diamond-types
    /// versions are in the log, in increasing order and each once.
    pub fn text_at_parents(&self, parents: &[&str]) -> (t: Option<String>)
        requires
            self.wf(),
        ensures
            match t {
                Some(s) => parents_known(self.version_map(), str_views(parents@), self.ops())
                    && s@ == text_at(self.ops(), resolved_parents(self.version_map(), str_views(parents@))),
                None => !parents_known(self.version_map(), str_views(parents@), self.ops()),
            },
    {
        let lvs = self.resolve_parents(parents);
        let n = self.operation_count();
        let mut i: usize = 0;
        while i < lvs.len()
            invariant
                i <= lvs@.len(),
                n == ops_len(self.ops()),
                lvs@ == resolved_parents(self.version_map(), str_views(parents@)),
                forall|j: int| 0 <= j < i ==> lvs@[j] < n,
                forall|a: int, b: int| 0 <= a < b < i ==> lvs@[a] < lvs@[b],
            decreases lvs@.len() - i,
        {
            if lvs[i] >= n || (i > 0 && lvs[i - 1] >= lvs[i]) {
                return None;
            }
            i = i + 1;
        }
        if lvs.len() >= 2 {
            let mut k: usize = 0;
            while k < lvs.len()
                invariant
                    2 <= lvs@.len(),
                    k <= lvs@.len(),
                    n == ops_len(self.ops()),
                    lvs@ == resolved_parents(self.version_map(), str_views(parents@)),
                    forall|j: int| 0 <= j < lvs@.len() ==> lvs@[j] < n,
                    sorted_version(lvs@),
                    forall|j: int| 0 <= j < k ==> !#[trigger] version_holds(self.ops(), lvs@.remove(j), lvs@[j]),
                decreases lvs@.len() - k,
            {
                let rest = without_index(&lvs, k);
                if dt_version_contains(&self.oplog, &rest, lvs[k]) {
                    return None;
                }
                k = k + 1;
            }
        }
        let b = dt_checkout_at(&self.oplog, &lvs);
        Some(dt_branch_string(&b))
    }

    /// Apply an insertion from a remote peer at the named parents (see
    /// `add_insert_remote_versioned`) when the parents are in the log, the
    /// text is not empty and the position is within the document at the
    /// parents; otherwise nothing changes and the answer is `None`.
    pub fn try_insert_remote_versioned(
        &mut self,
        agent_id: &str,
        parents: &[&str],
        pos: usize,
        text: &str,
        version_id: Option<&str>,
    ) -> (t: Option<usize>)
        requires
            old(self).wf(),
        ensures
            final(self).wf(),
            remote_insert_done(*old(self), *final(self), agent_id@, str_views(parents@), pos, text@, opt_str(version_id), t),
    {
        proof {
            reveal_strlit("ROOT");
        }
        if str_eq(agent_id, "ROOT") {
            return None;
        }
        match self.text_at_parents(parents) {
            Some(base) => {
                if text.unicode_len() > 0 && pos <= base.unicode_len() {
                    Some(self.add_insert_remote_versioned(agent_id, parents, pos, text, version_id))
                } else {
                    None
                }
            },
            None => None,
        }
    }

    /// Apply a deletion from a remote peer at the named parents (see
    /// `add_delete_remote_versioned`) when the parents are in the log and
    /// the range is a non-empty part of the document at the parents;
    /// otherwise nothing changes and the answer is `None`.
    pub fn try_delete_remote_versioned(
        &mut self,
        agent_id: &str,
        parents: &[&str],
        range: std::ops::Range<usize>,
        version_id: Option<&str>,
    ) -> (t: Option<usize>)
        requires
            old(self).wf(),
        ensures
            final(self).wf(),
            remote_delete_done(*old(self), *final(self), agent_id@, str_views(parents@), range.start, range.end, opt_str(version_id), t),
    {
        proof {
            reveal_strlit("ROOT");
        }
        if str_eq(agent_id, "ROOT") {
            return None;
        }
        match self.text_at_parents(parents) {
            Some(base) => {
                if range.start < range.end && range.end <= base.unicode_len() {
                    Some(self.add_delete_remote_versioned(agent_id, parents, range, version_id))
                } else {
                    None
                }
            },
            None => None,
        }
    }

    /// Apply an insertion from a remote peer, made at the current version.
    pub fn add_insert_remote(&mut self, agent_id: &str, pos: usize, text: &str)
        requires
            old(self).wf(),
            usable_agent(agent_id@),
            text@.len() > 0,
            pos <= old(self).text().len(),
        ensures
            final(self).wf(),
            final(self).text() == splice_text(old(self).text(), pos as int, pos as int, text@),
            final(self).ops() == old(self).ops().push(
                (agent_id@, old(self).frontier(), true, pos, (pos + text@.len()) as usize, text@)),
            final(self).agent() == old(self).agent(),
            final(self).remote_count() == old(self).remote_count(),
            final(self).version_map() == old(self).version_map(),
    {
        dt_insert(&mut self.oplog, agent_id, pos, text);
        self.branch = dt_checkout_tip(&self.oplog);
    }

    /// Apply a deletion from a remote peer at a specific version (parents).
    pub fn add_delete_remote_versioned(
        &mut self,
        agent_id: &str,
        parents: &[&str],
        range: std::ops::Range<usize>,
        version_id: Option<&str>,
    ) -> (t: usize)
        requires
            old(self).wf(),
            usable_agent(agent_id@),
            frontier_of(old(self).ops(), resolved_parents(old(self).version_map(), str_views(parents@))),
            forall|i: int| 0 <= i < resolved_parents(old(self).version_map(), str_views(parents@)).len()
                ==> resolved_parents(old(self).version_map(), str_views(parents@))[i] < ops_len(old(self).ops()),
            range.start < range.end <= text_at(old(self).ops(), resolved_parents(old(self).version_map(), str_views(parents@))).len(),
        ensures
            final(self).wf(),
            final(self).ops() == old(self).ops().push((agent_id@,
                resolved_parents(old(self).version_map(), str_views(parents@)), false, range.start, range.end, Seq::<char>::empty())),
            t == ops_len(final(self).ops()) - 1,
            text_at(final(self).ops(), seq![t]) == splice_text(
                text_at(old(self).ops(), resolved_parents(old(self).version_map(), str_views(parents@))),
                range.start as int, range.end as int, Seq::<char>::empty()),
            final(self).agent() == old(self).agent(),
            final(self).remote_count() == old(self).remote_count(),
            final(self).version_map() == match version_id {
                Some(v) => old(self).version_map().insert(v@, seq![t]),
                None => old(self).version_map(),
            },
    {
        let lvs = self.resolve_parents(parents);
        let t = dt_delete_at(&mut self.oplog, agent_id, &lvs, range.start, range.end);
        self.branch = dt_checkout_tip(&self.oplog);
        if let Some(vid) = version_id {
            let f = vec![t];
            proof {
                assert(f@ =~= seq![t]);
            }
            self.register_version_mapping(String::from_str(vid), f);
        }
        t
    }

    /// Apply a deletion from a remote peer, made at the current version.
    pub fn add_delete_remote(&mut self, agent_id: &str, range: std::ops::Range<usize>)
        requires
            old(self).wf(),
            usable_agent(agent_id@),
            range.start < range.end <= old(self).text().len(),
        ensures
            final(self).wf(),
            final(self).text() == splice_text(old(self).text(), range.start as int, range.end as int, Seq::<char>::empty()),
            final(self).ops() == old(self).ops().push(
                (agent_id@, old(self).frontier(), false, range.start, range.end, Seq::<char>::empty())),
            final(self).agent() == old(self).agent(),
            final(self).remote_count() == old(self).remote_count(),
            final(self).version_map() == old(self).version_map(),
    {
        dt_delete(&mut self.oplog, agent_id, range.start, range.end);
        self.branch = dt_checkout_tip(&self.oplog);
    }

    /// Get the current document content as a string.
    pub fn content(&self) -> (s: String)
        ensures
            s@ == self.text(),
    {
        dt_branch_string(&self.branch)
    }

    /// Get the session's agent ID.
    pub fn agent_id(&self) -> (a: &str)
        ensures
            a@ == self.agent(),
    {
        self.agent_id.as_str()
    }

    /// Get the total count of operations in the operation log: one per
    /// character inserted or deleted.
    pub fn operation_count(&self) -> (n: usize)
        ensures
            n == ops_len(self.ops()),
    {
        dt_len(&self.oplog)
    }

    /// Check if the document is empty (no operations applied).
    pub fn is_empty(&self) -> (b: bool)
        ensures
            b == (ops_len(self.ops()) == 0),
    {
        self.operation_count() == 0
    }

    /// Generate a version identifier for Braid-HTTP headers:
    /// `diamond-{agent_id}-{operation_count}`.
    pub fn get_version(&self) -> (v: String)
        ensures
            v@ == version_string(self.agent(), ops_len(self.ops())),
    {
        let mut v = String::from_str("diamond-");
        proof {
            reveal_strlit("diamond-");
            assert(v@ =~= seq!['d', 'i', 'a', 'm', 'o', 'n', 'd', '-']);
        }
        v.append(self.agent_id.as_str());
        push_char(&mut v, '-');
        push_decimal(&mut v, self.operation_count() as u128);
        proof {
            assert(v@ =~= version_string(self.agent(), ops_len(self.ops())));
        }
        v
    }

    /// A summary of the operation log: the agent, the number of
    /// operations, the text, and the version `oplog-{agent}-{operations}`.
    pub fn export_operations(&self) -> (e: OpsExport)
        ensures
            e.agent_id@ == self.agent(),
            e.operations_count == ops_len(self.ops()),
            e.content@ == self.text(),
            e.version@ == oplog_version_string(self.agent(), ops_len(self.ops())),
    {
        let n = self.operation_count();
        let mut version = String::from_str("oplog-");
        proof {
            reveal_strlit("oplog-");
            assert(version@ =~= seq!['o', 'p', 'l', 'o', 'g', '-']);
        }
        version.append(self.agent_id.as_str());
        push_char(&mut version, '-');
        push_decimal(&mut version, n as u128);
        proof {
            assert(version@ =~= oplog_version_string(self.agent(), ops_len(self.ops())));
        }
        OpsExport {
            agent_id: String::from_str(self.agent_id.as_str()),
            operations_count: n,
            content: self.content(),
            version,
        }
    }

    /// A checkpoint of the document: its text, its version (see
    /// `get_version`), the agent and the number of operations.
    pub fn checkpoint(&self) -> (c: Checkpoint)
        ensures
            c.content@ == self.text(),
            c.version@ == version_string(self.agent(), ops_len(self.ops())),
            c.agent_id@ == self.agent(),
            c.oplog_len == ops_len(self.ops()),
    {
        Checkpoint {
            content: self.content(),
            version: self.get_version(),
            agent_id: String::from_str(self.agent_id.as_str()),
            oplog_len: self.operation_count(),
        }
    }

    /// Get the current local frontier.
    pub fn get_local_frontier(&self) -> (f: Vec<usize>)
        ensures
            f@ == self.frontier(),
    {
        dt_version(&self.oplog)
    }

    /// Estimate merge quality from the number of remote agents `n`: 100
    /// without remote agents, otherwise the whole part of `100 * n / (n + 1)`.
    pub fn merge_quality(&self) -> (q: u32)
        ensures
            q == (if self.remote_count() == 0 { 100 } else {
                (100 * self.remote_count() / (self.remote_count() + 1)) as u32
            }),
    {
        let n = self.remote_versions.len();
        if n == 0 {
            100
        } else {
            let n128 = n as u128;
            let q = 100 * n128 / (n128 + 1);
            proof {
                assert(100 * n128 / (n128 + 1) < 100) by (nonlinear_arith)
                    requires n128 >= 1;
            }
            q as u32
        }
    }

    /// Resolve a Braid version string to an internal version.
    pub fn resolve_version(&self, version: &str) -> (f: Option<&Vec<usize>>)
        ensures
            match f {
                Some(v) => self.version_map().contains_key(version@) && v@ == self.version_map()[version@],
                None => !self.version_map().contains_key(version@),
            },
    {
        self.version_fronties.get(version)
    }

    /// Register a Braid version mapping for a given internal version.
    pub fn register_version_mapping(&mut self, version: String, frontier: Vec<usize>)
        ensures
            final(self).version_map() == old(self).version_map().insert(version@, frontier@),
            final(self).text() == old(self).text(),
            final(self).ops() == old(self).ops(),
            final(self).frontier() == old(self).frontier(),
            final(self).agent() == old(self).agent(),
            final(self).remote_count() == old(self).remote_count(),
            old(self).wf() ==> final(self).wf(),
    {
        let ghost fv = frontier@;
        let ghost k = version@;
        self.version_fronties.insert(version, frontier);
        proof {
            assert(self.version_map() =~= old(self).version_map().insert(k, fv));
        }
    }

    /// Get missing operations since a set of internal versions: the
    /// operations since their union, encoded.
    pub fn get_ops_since(&self, since: &[Vec<usize>]) -> (r: Vec<Vec<u8>>)
        requires
            sorted_version(concat_versions(version_views(since@))),
            forall|i: int| 0 <= i < concat_versions(version_views(since@)).len()
                ==> concat_versions(version_views(since@))[i] < ops_len(self.ops()),
        ensures
            r@.len() == 1,
            r@[0]@ == encoded_from(self.ops(), concat_versions(version_views(since@))),
    {
        let mut all: Vec<usize> = Vec::new();
        let mut i: usize = 0;
        while i < since.len()
            invariant
                i <= since@.len(),
                all@ == concat_versions(version_views(since@).subrange(0, i as int)),
            decreases since@.len() - i,
        {
            let f = &since[i];
            let ghost start = all@;
            let mut j: usize = 0;
            while j < f.len()
                invariant
                    j <= f@.len(),
                    all@ == start + f@.subrange(0, j as int),
                decreases f@.len() - j,
            {
                all.push(f[j]);
                proof {
                    assert(all@ =~= start + f@.subrange(0, j + 1));
                }
                j = j + 1;
            }
            proof {
                assert(f@.subrange(0, f@.len() as int) =~= f@);
                assert(version_views(since@).subrange(0, i + 1).drop_last() =~= version_views(since@).subrange(0, i as int));
                assert(version_views(since@).subrange(0, i + 1).last() == f@);
            }
            i = i + 1;
        }
        proof {
            assert(version_views(since@).subrange(0, since@.len() as int) =~= version_views(since@));
        }
        let bytes = dt_encode_from(&self.oplog, &all);
        vec![bytes]
    }

    /// Check the internal consistency of the CRDT.
    pub fn dbg_check(&self, deep: bool) {
        dt_dbg_check(&self.oplog, deep)
    }
}

/// Different operation counts give different versions: every edit that
/// records an operation gives the document a version it did not have.
pub proof fn lemma_versions_differ(agent: Seq<char>, n: nat, m: nat)
    requires
        n != m,
    ensures
        version_string(agent, n) != version_string(agent, m),
{
    crate::text::lemma_decimal_value(n);
    crate::text::lemma_decimal_value(m);
    let p = seq!['d', 'i', 'a', 'm', 'o', 'n', 'd', '-'] + agent + seq!['-'];
    assert(version_string(agent, n) =~= p + decimal(n));
    assert(version_string(agent, m) =~= p + decimal(m));
    if version_string(agent, n) == version_string(agent, m) {
        assert((p + decimal(n)).subrange(p.len() as int, (p + decimal(n)).len() as int) =~= decimal(n));
        assert((p + decimal(m)).subrange(p.len() as int, (p + decimal(m)).len() as int) =~= decimal(m));
        assert(decimal(n) == decimal(m));
    }
}

} // verus!
