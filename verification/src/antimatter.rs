//! Antimatter: the coordination layer that keeps a version DAG over a
//! pruneable CRDT, exchanges versions with peers, and prunes the history
//! every peer has acknowledged.
//!
//! Messages to peers are queued in `outbox`, for the caller to send; the
//! current time in milliseconds is passed in where it matters.
use vstd::prelude::*;
use crate::collections::{StrMap, StrSet, str_eq, string_views};
use crate::json_crdt::PatchContent;
use crate::server::BraidError;
use crate::text::{decimal, push_char, push_decimal, substring};

verus! {

/// A patch to a CRDT.
#[derive(Debug)]
pub struct Patch {
    pub range: String,
    pub content: PatchContent,
}

impl PatchContent {
    /// An equal copy.
    pub fn duplicate(&self) -> (r: Self)
        ensures
            r.chars() == self.chars(),
            (r is Text) == (self is Text),
    {
        match self {
            PatchContent::Text(s) => PatchContent::Text(String::from_str(s.as_str())),
            PatchContent::Json(s) => PatchContent::Json(String::from_str(s.as_str())),
        }
    }
}

impl Patch {
    /// An equal copy.
    pub fn duplicate(&self) -> (r: Self)
        ensures
            r.range@ == self.range@,
            r.content.chars() == self.content.chars(),
            (r.content is Text) == (self.content is Text),
    {
        Patch { range: String::from_str(self.range.as_str()), content: self.content.duplicate() }
    }
}

/// A record that two peers lost their connection while at some versions.
#[derive(Debug)]
pub struct Fissure {
    pub a: String,
    pub b: String,
    pub conn: String,
    pub versions: StrMap<bool>,
    pub time: u64,
    /// Connection count (logical time)
    pub t: Option<u64>,
}

/// A version with its parents and patches.
#[derive(Debug)]
pub struct Version {
    pub version: String,
    pub parents: StrMap<bool>,
    pub patches: Vec<Patch>,
    pub sort_keys: Option<StrMap<String>>,
}

/// A message between peers.
#[derive(Debug)]
#[allow(inconsistent_fields)]
pub enum Message {
    Subscribe { peer: String, conn: String, parents: StrMap<bool>, protocol_version: Option<u32> },
    Update { version: String, parents: StrMap<bool>, patches: Vec<Patch>, conn: String, ackme: Option<String> },
    Ack {
        seen: String,
        version: Option<String>,
        ackme: Option<String>,
        versions: Option<StrMap<bool>>,
        conn: String,
        unsubscribe: bool,
    },
    Fissure { fissure: Option<Fissure>, fissures: Option<Vec<Fissure>>, conn: String },
    Welcome { versions: Vec<Version>, fissures: Vec<Fissure>, parents: StrMap<bool>, peer: Option<String>, conn: String },
    Ackme { ackme: String, versions: StrMap<bool>, conn: String },
    Unsubscribe { conn: String },
}

/// A patch by its view: its range, the characters of its content, and
/// whether the content is a string.
pub open spec fn patch_view(p: Patch) -> (Seq<char>, Seq<char>, bool) {
    (p.range@, p.content.chars(), p.content is Text)
}

/// Whether `states` steps from one state to the next by applying the
/// patches (by their views), in order (see `PrunableCrdt::patch_applied`).
pub open spec fn patch_chain<T: PrunableCrdt>(states: Seq<T>, ps: Seq<(Seq<char>, Seq<char>, bool)>) -> bool {
    &&& states.len() == ps.len() + 1
    &&& forall|i: int| 0 <= i < ps.len() ==> #[trigger] T::patch_applied(states[i], states[i + 1], ps[i])
}

/// Whether `new` is what applying the patches (by their views), in order,
/// to `old` gives: a chain of states from `old` to `new`, each the previous
/// one with the next patch applied.
pub open spec fn patches_applied<T: PrunableCrdt>(old: T, new: T, ps: Seq<(Seq<char>, Seq<char>, bool)>) -> bool {
    exists|states: Seq<T>| #[trigger] patch_chain(states, ps) && states[0] == old && states.last() == new
}

/// The CRDT that Antimatter manages: it applies patches and forgets the
/// metadata of pruned versions.
pub trait PrunableCrdt: Sized {
    /// Whether `new` is what applying a patch (by its view, see
    /// `patch_view`) to `old` gives.  An implementation that states
    /// nothing of it admits every outcome.
    open spec fn patch_applied(old: Self, new: Self, patch: (Seq<char>, Seq<char>, bool)) -> bool {
        true
    }

    /// Whether `new` is what pruning `version` from `old` gives.  An
    /// implementation that states nothing of it admits every outcome.
    open spec fn version_pruned(old: Self, new: Self, version: Seq<char>) -> bool {
        true
    }

    /// Apply a patch to the CRDT.
    fn apply_patch(&mut self, patch: Patch)
        ensures
            Self::patch_applied(*old(self), *final(self), patch_view(patch));

    /// Prune metadata associated with a version.
    fn prune(&mut self, version: &str)
        ensures
            Self::version_pruned(*old(self), *final(self), version@);

    /// Get the current sequence number or internal state identifier.
    fn get_next_seq(&self) -> u64;

    /// The updates (version, parents, patches) a peer that knows
    /// `known_versions` needs.
    fn generate_braid(&self, known_versions: &StrMap<bool>) -> Vec<(String, StrMap<bool>, Vec<Patch>)>;
}

/// A CRDT that ignores everything.
#[derive(Debug)]
pub struct MockCrdt;

impl PrunableCrdt for MockCrdt {
    open spec fn patch_applied(old: Self, new: Self, patch: (Seq<char>, Seq<char>, bool)) -> bool {
        new == old
    }

    open spec fn version_pruned(old: Self, new: Self, version: Seq<char>) -> bool {
        new == old
    }

    fn apply_patch(&mut self, patch: Patch) {
    }

    fn prune(&mut self, version: &str) {
    }

    fn get_next_seq(&self) -> (n: u64)
        ensures
            n == 0,
    {
        0
    }

    fn generate_braid(&self, known_versions: &StrMap<bool>) -> (updates: Vec<(String, StrMap<bool>, Vec<Patch>)>)
        ensures
            updates@.len() == 0,
    {
        Vec::new()
    }
}

/// A connection to a peer.
#[derive(Debug)]
pub struct ConnectionState {
    pub peer: Option<String>,
    pub seq: u64,
}

/// An acknowledgement request in flight.
#[derive(Debug)]
pub struct AckmeState {
    pub id: String,
    /// The connection it came from, if it came from a peer.
    pub origin: Option<String>,
    /// Acknowledgements still awaited.
    pub count: usize,
    pub versions: StrMap<bool>,
    pub seq: u64,
    pub time: u64,
    pub time2: Option<u64>,
    pub orig_count: usize,
    pub real_ackme: bool,
    pub key: String,
    pub cancelled: bool,
}

/// A set of versions that are all parents of the frontier.
#[derive(Debug)]
pub struct ParentSet {
    pub members: StrMap<bool>,
    pub done: bool,
}

/// A set of versions that are the children of one version and share
/// their parents.
#[derive(Debug)]
pub struct ChildSet {
    pub members: StrMap<bool>,
}

/// The version DAG seen as a map from version to its set of parents.
pub open spec fn dag_view(t: StrMap<StrSet>) -> Map<Seq<char>, Set<Seq<char>>> {
    edges_of(t)
}

/// The version groups seen as a map from version to its group.
pub open spec fn groups_view(g: StrMap<Vec<String>>) -> Map<Seq<char>, Seq<Seq<char>>> {
    g@.map_values(|v: Vec<String>| string_views(v@))
}

/// The key of a fissure: `a:b:conn`.
pub open spec fn fissure_key_spec(a: Seq<char>, b: Seq<char>, conn: Seq<char>) -> Seq<char> {
    a + seq![':'] + b + seq![':'] + conn
}

/// The key of a fissure: `a:b:conn`.
pub fn fissure_key(a: &str, b: &str, conn: &str) -> (k: String)
    ensures
        k@ == fissure_key_spec(a@, b@, conn@),
{
    let mut k = String::from_str(a);
    push_char(&mut k, ':');
    k.append(b);
    push_char(&mut k, ':');
    k.append(conn);
    k
}

/// The version graph of a peer: the DAG, the frontier and the groups.
pub struct GraphModel {
    pub t: Map<Seq<char>, Set<Seq<char>>>,
    pub current: Map<Seq<char>, bool>,
    pub groups: Map<Seq<char>, Seq<Seq<char>>>,
}

/// The graph after adding `version` with `parents` (whose keys, in order,
/// are `parent_order`): nothing changes for a version already known;
/// otherwise the version enters the DAG, replaces its parents in the
/// frontier, and joins the group of its parent when it has exactly one
/// parent with a group, or starts a group of its own.
pub open spec fn add_graph(g: GraphModel, version: Seq<char>, parents: Map<Seq<char>, bool>, parent_order: Seq<Seq<char>>) -> GraphModel {
    if g.t.contains_key(version) {
        g
    } else {
        GraphModel {
            t: g.t.insert(version, parents.dom()),
            current: g.current.remove_keys(parents.dom()).insert(version, true),
            groups: if parent_order.len() == 1 && g.groups.contains_key(parent_order[0]) {
                g.groups.insert(version, g.groups[parent_order[0]].push(version))
            } else {
                g.groups.insert(version, seq![version])
            },
        }
    }
}

/// Whether a version of the DAG is a leaf: no version of the DAG names it
/// as a parent.
pub open spec fn is_leaf(t: Map<Seq<char>, Set<Seq<char>>>, v: Seq<char>) -> bool {
    t.contains_key(v) && forall|w: Seq<char>| #[trigger] t.contains_key(w) ==> !t[w].contains(v)
}

/// Whether the frontier is exactly the set of leaves of the DAG.
pub open spec fn frontier_is_leaves(g: GraphModel) -> bool {
    forall|v: Seq<char>| #[trigger] g.current.contains_key(v) <==> is_leaf(g.t, v)
}

/// Whether every parent named in the DAG is in the DAG.
pub open spec fn parents_closed(g: GraphModel) -> bool {
    forall|w: Seq<char>, p: Seq<char>| #[trigger] g.t.contains_key(w) && #[trigger] g.t[w].contains(p) ==> g.t.contains_key(p)
}

/// Versions added after their parents keep the frontier equal to the
/// leaves of the DAG: when every parent named is known, adding a version
/// whose parents are known keeps both facts.
pub proof fn lemma_frontier_stays_leaves(g: GraphModel, version: Seq<char>, parents: Map<Seq<char>, bool>, parent_order: Seq<Seq<char>>)
    requires
        frontier_is_leaves(g),
        parents_closed(g),
        forall|p: Seq<char>| #[trigger] parents.contains_key(p) ==> g.t.contains_key(p),
    ensures
        frontier_is_leaves(add_graph(g, version, parents, parent_order)),
        parents_closed(add_graph(g, version, parents, parent_order)),
{
    let g2 = add_graph(g, version, parents, parent_order);
    if !g.t.contains_key(version) {
        assert forall|v: Seq<char>| #[trigger] g2.current.contains_key(v) <==> is_leaf(g2.t, v) by {
            if v == version {
                assert forall|w: Seq<char>| #[trigger] g2.t.contains_key(w) implies !g2.t[w].contains(v) by {
                    if w != version && g.t[w].contains(v) {
                        assert(g.t.contains_key(v));
                    }
                }
            } else {
                if g2.current.contains_key(v) {
                    assert(g.current.contains_key(v) && !parents.dom().contains(v));
                    assert(is_leaf(g.t, v));
                    assert forall|w: Seq<char>| #[trigger] g2.t.contains_key(w) implies !g2.t[w].contains(v) by {
                        if w != version {
                            assert(g.t.contains_key(w));
                        }
                    }
                }
                if is_leaf(g2.t, v) {
                    assert(g.t.contains_key(v));
                    assert forall|w: Seq<char>| #[trigger] g.t.contains_key(w) implies !g.t[w].contains(v) by {
                        assert(g2.t.contains_key(w));
                        assert(w != version);
                    }
                    assert(g2.t.contains_key(version));
                    assert(!g2.t[version].contains(v));
                    assert(!parents.dom().contains(v));
                    assert(g.current.contains_key(v));
                }
            }
        }
        assert forall|w: Seq<char>, p: Seq<char>| #[trigger] g2.t.contains_key(w) && #[trigger] g2.t[w].contains(p)
            implies g2.t.contains_key(p) by {
            if w == version {
                assert(parents.contains_key(p));
            } else {
                assert(g.t.contains_key(w) && g.t[w].contains(p));
            }
        }
    }
}

/// The fissures after inserting each fissure of a list under its key.
pub open spec fn insert_fissures(m: Map<Seq<char>, Fissure>, fs: Seq<Fissure>) -> Map<Seq<char>, Fissure>
    decreases fs.len(),
{
    if fs.len() == 0 {
        m
    } else {
        let f = fs.last();
        insert_fissures(m, fs.drop_last()).insert(fissure_key_spec(f.a@, f.b@, f.conn@), f)
    }
}

/// The Antimatter state of one peer around its CRDT.
pub struct AntimatterCrdt<T: PrunableCrdt> {
    pub id: String,
    /// Core state
    pub crdt: T,
    /// Connections
    pub conns: StrMap<ConnectionState>,
    pub proto_conns: StrSet,
    pub conn_count: u64,
    /// The DAG: Version ID -> Set of Parent IDs
    pub t: StrMap<StrSet>,
    /// The current frontier versions (leaves of the DAG)
    pub current_version: StrMap<bool>,
    pub fissures: StrMap<Fissure>,
    pub acked_boundary: StrSet,
    pub ackmes: StrMap<AckmeState>,
    pub version_groups: StrMap<Vec<String>>,
    /// key -> ackme_id -> true
    pub ackme_map: StrMap<StrMap<bool>>,
    pub ackme_time_est_1: u64,
    pub ackme_time_est_2: u64,
    pub ackme_current_wait_time: u64,
    /// Messages waiting to be sent, oldest first.
    pub outbox: Vec<Message>,
    /// Round-trip times of acknowledgement requests, in milliseconds,
    /// measured since the caller last folded them into `ackme_time_est_1`.
    pub round_trips: Vec<u64>,
}

/// Whether a character can appear in a hyphenated UUID: a lowercase
/// hexadecimal digit or `-`.
pub open spec fn uuid_char(c: char) -> bool {
    ('0' <= c <= '9') || ('a' <= c <= 'f') || c == '-'
}

/// A random UUID (`uuid::Uuid::new_v4`) in its hyphenated lowercase form
/// (`Display`): 36 characters, each a lowercase hexadecimal digit or `-`.
#[verifier::external_body]
fn new_uuid_text() -> (s: String)
    ensures
        s@.len() == 36,
        forall|i: int| 0 <= i < 36 ==> uuid_char(#[trigger] s@[i]),
{
    uuid::Uuid::new_v4().to_string()
}

/// The first `n` characters of a random UUID.
pub(crate) fn random_uuid_prefix(n: usize) -> (s: String)
    requires
        n <= 36,
    ensures
        s@.len() == n,
        forall|i: int| 0 <= i < n ==> uuid_char(#[trigger] s@[i]),
{
    let u = new_uuid_text();
    substring(u.as_str(), 0, n)
}

/// A new random peer ID: the first 12 characters of a random UUID.
pub(crate) fn random_peer_id() -> (s: String)
    ensures
        s@.len() == 12,
        forall|i: int| 0 <= i < 12 ==> uuid_char(#[trigger] s@[i]),
{
    random_uuid_prefix(12)
}

/// A list of strings as a set of keys.
pub(crate) fn key_set(keys: &Vec<String>) -> (s: StrSet)
    ensures
        s@ == string_views(keys@).to_set(),
{
    let mut s = StrSet::new();
    let mut i: usize = 0;
    while i < keys.len()
        invariant
            i <= keys@.len(),
            s@ == string_views(keys@).subrange(0, i as int).to_set(),
        decreases keys@.len() - i,
    {
        s.insert(String::from_str(keys[i].as_str()));
        proof {
            let a = string_views(keys@).subrange(0, i as int);
            assert(string_views(keys@).subrange(0, i + 1) =~= a.push(keys@[i as int]@));
            a.lemma_push_to_set_commute(keys@[i as int]@);
        }
        i = i + 1;
    }
    proof {
        assert(string_views(keys@).subrange(0, keys@.len() as int) =~= string_views(keys@));
    }
    s
}

/// A copy of a list of strings.
fn copy_strings(v: &Vec<String>) -> (r: Vec<String>)
    ensures
        string_views(r@) == string_views(v@),
{
    let mut r: Vec<String> = Vec::new();
    let mut i: usize = 0;
    while i < v.len()
        invariant
            i <= v@.len(),
            string_views(r@) == string_views(v@).subrange(0, i as int),
        decreases v@.len() - i,
    {
        let ghost before = r@;
        let x = String::from_str(v[i].as_str());
        r.push(x);
        proof {
            assert(r@ == before.push(x));
            assert(string_views(r@) =~= string_views(before).push(x@));
            assert(string_views(r@) =~= string_views(v@).subrange(0, i + 1));
        }
        i = i + 1;
    }
    proof {
        assert(string_views(v@).subrange(0, v@.len() as int) =~= string_views(v@));
    }
    r
}

impl<T: PrunableCrdt> AntimatterCrdt<T> {
    /// The version graph.
    pub open spec fn graph(&self) -> GraphModel {
        GraphModel {
            t: dag_view(self.t),
            current: self.current_version@,
            groups: groups_view(self.version_groups),
        }
    }

    /// A new peer around `crdt`, with the given ID or a random one.
    pub fn new(id: Option<String>, crdt: T) -> (a: Self)
        ensures
            match id {
                Some(s) => a.id@ == s@,
                None => a.id@.len() == 12,
            },
            a.crdt == crdt,
            a.t@ == Map::<Seq<char>, StrSet>::empty(),
            a.current_version@ == Map::<Seq<char>, bool>::empty(),
            a.version_groups@ == Map::<Seq<char>, Vec<String>>::empty(),
            a.fissures@ == Map::<Seq<char>, Fissure>::empty(),
            a.conns@ == Map::<Seq<char>, ConnectionState>::empty(),
            a.proto_conns@ == Set::<Seq<char>>::empty(),
            a.acked_boundary@ == Set::<Seq<char>>::empty(),
            a.ackmes@ == Map::<Seq<char>, AckmeState>::empty(),
            a.conn_count == 0,
            a.ackme_time_est_1 == 1000,
            a.ackme_time_est_2 == 1000,
            a.ackme_current_wait_time == 2000,
            a.outbox@.len() == 0,
            a.round_trips@.len() == 0,
    {
        let id = match id {
            Some(s) => s,
            None => random_peer_id(),
        };
        AntimatterCrdt {
            id,
            crdt,
            conns: StrMap::new(),
            proto_conns: StrSet::new(),
            conn_count: 0,
            t: StrMap::new(),
            current_version: StrMap::new(),
            fissures: StrMap::new(),
            acked_boundary: StrSet::new(),
            ackmes: StrMap::new(),
            version_groups: StrMap::new(),
            ackme_map: StrMap::new(),
            ackme_time_est_1: 1000,
            ackme_time_est_2: 1000,
            ackme_current_wait_time: 2000,
            outbox: Vec::new(),
            round_trips: Vec::new(),
        }
    }

    /// The next sequence number.
    pub fn generate_seq(&mut self) -> (s: u64)
        requires
            old(self).conn_count < u64::MAX,
        ensures
            s == old(self).conn_count + 1,
            *final(self) == (AntimatterCrdt { conn_count: s, ..*old(self) }),
    {
        self.conn_count = self.conn_count + 1;
        self.conn_count
    }

    /// A new unique ID: `{id}-{seq}`.
    pub fn generate_random_id(&mut self) -> (r: String)
        requires
            old(self).conn_count < u64::MAX,
        ensures
            r@ == old(self).id@ + seq!['-'] + decimal((old(self).conn_count + 1) as nat),
            *final(self) == (AntimatterCrdt { conn_count: (old(self).conn_count + 1) as u64, ..*old(self) }),
    {
        let seq = self.generate_seq();
        let mut r = String::from_str(self.id.as_str());
        push_char(&mut r, '-');
        push_decimal(&mut r, seq as u128);
        r
    }

    /// A fissure between this peer and `peer` on `conn`, at the current
    /// versions.
    pub fn create_fissure(&self, peer: &str, conn: &str, now_ms: u64) -> (f: Option<Fissure>)
        ensures
            f matches Some(x) && x.a@ == self.id@ && x.b@ == peer@ && x.conn@ == conn@
                && x.versions@ == self.current_version@ && x.time == now_ms && x.t == Some(self.conn_count),
    {
        Some(Fissure {
            a: String::from_str(self.id.as_str()),
            b: String::from_str(peer),
            conn: String::from_str(conn),
            versions: self.current_version.copy(),
            time: now_ms,
            t: Some(self.conn_count),
        })
    }

    /// Add a version to the DAG and apply its patches to the CRDT; a
    /// version already known is ignored.  Returns the patches.
    pub fn add_version(&mut self, version: String, parents: StrMap<bool>, patches: Vec<Patch>) -> (r: Vec<Patch>)
        ensures
            final(self).graph() == add_graph(old(self).graph(), version@, parents@, parents.key_order()),
            old(self).t@.contains_key(version@) ==> r@.len() == 0 && final(self).crdt == old(self).crdt,
            !old(self).t@.contains_key(version@) ==> r@ == patches@
                && patches_applied(old(self).crdt, final(self).crdt, patches@.map_values(|p: Patch| patch_view(p))),
            *final(self) == (AntimatterCrdt { t: final(self).t, current_version: final(self).current_version,
                version_groups: final(self).version_groups, crdt: final(self).crdt, ..*old(self) }),
    {
        if self.t.contains_key(version.as_str()) {
            return Vec::new();
        }
        let n = parents.len();
        let ps = parents.keys();
        let parent_set = key_set(&ps);
        let ghost g0 = self.graph();
        proof {
            assert(string_views(ps@).to_set() =~= parents@.dom());
        }
        let ghost pset = parent_set@;
        self.t.insert(String::from_str(version.as_str()), parent_set);
        proof {
            assert(dag_view(self.t) =~= g0.t.insert(version@, pset));
        }
        let ghost t1 = self.t;
        let mut i: usize = 0;
        while i < ps.len()
            invariant
                i <= ps@.len(),
                string_views(ps@) == parents.key_order(),
                self.t == t1,
                self.version_groups == old(self).version_groups,
                self.crdt == old(self).crdt,
                self.id == old(self).id,
                self.conn_count == old(self).conn_count,
                self.fissures == old(self).fissures,
                self.conns == old(self).conns,
                self.proto_conns == old(self).proto_conns,
                self.acked_boundary == old(self).acked_boundary,
                self.ackmes == old(self).ackmes,
                self.outbox == old(self).outbox,
                self.ackme_map == old(self).ackme_map,
                self.ackme_time_est_1 == old(self).ackme_time_est_1,
                self.ackme_time_est_2 == old(self).ackme_time_est_2,
                self.ackme_current_wait_time == old(self).ackme_current_wait_time,
                self.round_trips == old(self).round_trips,
                self.current_version@ == g0.current.remove_keys(string_views(ps@).subrange(0, i as int).to_set()),
            decreases ps@.len() - i,
        {
            self.current_version.remove(ps[i].as_str());
            proof {
                let a = string_views(ps@).subrange(0, i as int);
                assert(string_views(ps@).subrange(0, i + 1) =~= a.push(ps@[i as int]@));
                a.lemma_push_to_set_commute(ps@[i as int]@);
                assert(self.current_version@ =~= g0.current.remove_keys(string_views(ps@).subrange(0, i + 1).to_set()));
            }
            i = i + 1;
        }
        proof {
            assert(string_views(ps@).subrange(0, ps@.len() as int) =~= string_views(ps@));
        }
        self.current_version.insert(String::from_str(version.as_str()), true);
        let group = if ps.len() == 1 {
            match self.version_groups.get(ps[0].as_str()) {
                Some(g) => {
                    let mut copy = copy_strings(g);
                    copy.push(String::from_str(version.as_str()));
                    proof {
                        assert(string_views(copy@) =~= groups_view(self.version_groups)[ps@[0]@].push(version@));
                    }
                    copy
                },
                None => {
                    let v = vec![String::from_str(version.as_str())];
                    proof {
                        assert(string_views(v@) =~= seq![version@]);
                    }
                    v
                },
            }
        } else {
            let v = vec![String::from_str(version.as_str())];
            proof {
                assert(string_views(v@) =~= seq![version@]);
            }
            v
        };
        let ghost gv = string_views(group@);
        self.version_groups.insert(version, group);
        proof {
            assert(dag_view(self.t) =~= g0.t.insert(version@, parents@.dom()));
            assert(groups_view(self.version_groups) =~= g0.groups.insert(version@, gv));
        }
        let ghost after = self.graph();
        let ghost pv = patches@.map_values(|p: Patch| patch_view(p));
        let ghost crdt0 = self.crdt;
        let ghost mut states: Seq<T> = seq![self.crdt];
        let mut k: usize = 0;
        proof {
            assert(pv.subrange(0, 0) =~= Seq::<(Seq<char>, Seq<char>, bool)>::empty());
            assert(patch_chain(states, pv.subrange(0, 0)));
        }
        while k < patches.len()
            invariant
                k <= patches@.len(),
                pv == patches@.map_values(|p: Patch| patch_view(p)),
                crdt0 == old(self).crdt,
                patch_chain(states, pv.subrange(0, k as int)),
                states[0] == crdt0,
                states.last() == self.crdt,
                self.graph() == after,
                self.id == old(self).id,
                self.conn_count == old(self).conn_count,
                self.fissures == old(self).fissures,
                self.conns == old(self).conns,
                self.proto_conns == old(self).proto_conns,
                self.acked_boundary == old(self).acked_boundary,
                self.ackmes == old(self).ackmes,
                self.outbox == old(self).outbox,
                self.ackme_map == old(self).ackme_map,
                self.ackme_time_est_1 == old(self).ackme_time_est_1,
                self.ackme_time_est_2 == old(self).ackme_time_est_2,
                self.ackme_current_wait_time == old(self).ackme_current_wait_time,
                self.round_trips == old(self).round_trips,
            decreases patches@.len() - k,
        {
            let ghost mid = self.crdt;
            let p = patches[k].duplicate();
            proof {
                assert(patch_view(p) == pv[k as int]);
            }
            self.crdt.apply_patch(p);
            proof {
                let pre = pv.subrange(0, k as int);
                let post = pv.subrange(0, k + 1);
                let old_states = states;
                states = states.push(self.crdt);
                assert forall|i: int| 0 <= i < post.len() implies #[trigger] T::patch_applied(states[i], states[i + 1], post[i]) by {
                    if i < k {
                        assert(post[i] == pre[i]);
                        assert(states[i] == old_states[i]);
                        assert(states[i + 1] == old_states[i + 1]);
                    } else {
                        assert(states[i] == mid);
                        assert(post[i] == pv[k as int]);
                    }
                }
            }
            k = k + 1;
        }
        proof {
            assert(pv.subrange(0, patches@.len() as int) =~= pv);
            assert(patch_chain(states, pv));
        }
        patches
    }
}


/// Whether `e` has an edge from `a` to `b`.
pub open spec fn edge(e: Map<Seq<char>, Set<Seq<char>>>, a: Seq<char>, b: Seq<char>) -> bool {
    e.contains_key(a) && e[a].contains(b)
}

/// Whether the path steps along an edge at `i`.
pub open spec fn walk_step(e: Map<Seq<char>, Set<Seq<char>>>, path: Seq<Seq<char>>, i: int) -> bool {
    edge(e, path[i], path[i + 1])
}

/// A walk from a start version along edges, every version on it in `d`.
pub open spec fn is_walk(d: Set<Seq<char>>, e: Map<Seq<char>, Set<Seq<char>>>, start: Set<Seq<char>>, path: Seq<Seq<char>>) -> bool {
    &&& path.len() > 0
    &&& start.contains(path[0])
    &&& forall|i: int| 0 <= i < path.len() ==> #[trigger] d.contains(path[i])
    &&& forall|i: int| 0 <= i < path.len() - 1 ==> #[trigger] walk_step(e, path, i)
}

/// Whether a walk from the start versions inside `d` ends at `v`.
pub open spec fn walk_reaches(d: Set<Seq<char>>, e: Map<Seq<char>, Set<Seq<char>>>, start: Set<Seq<char>>, v: Seq<char>) -> bool {
    exists|path: Seq<Seq<char>>| #[trigger] is_walk(d, e, start, path) && path.last() == v
}

/// Whether `x` is met by the walks but is not in `d`: a start version, or
/// the end of an edge from a version reached.
pub open spec fn walk_misses(d: Set<Seq<char>>, e: Map<Seq<char>, Set<Seq<char>>>, start: Set<Seq<char>>, x: Seq<char>) -> bool {
    !d.contains(x) && (start.contains(x) || exists|a: Seq<char>| walk_reaches(d, e, start, a) && #[trigger] edge(e, a, x))
}

/// The message of a missing version.
pub open spec fn missing_message(v: Seq<char>) -> Seq<char> {
    "The version "@ + v + " does not exist"@
}

proof fn lemma_walk_extend(d: Set<Seq<char>>, e: Map<Seq<char>, Set<Seq<char>>>, start: Set<Seq<char>>, path: Seq<Seq<char>>, v: Seq<char>)
    requires
        is_walk(d, e, start, path),
        edge(e, path.last(), v),
        d.contains(v),
    ensures
        is_walk(d, e, start, path.push(v)),
{
    let q = path.push(v);
    assert forall|i: int| 0 <= i < q.len() implies #[trigger] d.contains(q[i]) by {
        if i < path.len() {
            assert(q[i] == path[i]);
        }
    }
    assert forall|i: int| 0 <= i < q.len() - 1 implies #[trigger] walk_step(e, q, i) by {
        if i < path.len() - 1 {
            assert(walk_step(e, path, i));
        }
    }
}

proof fn lemma_walk_complete(
    d: Set<Seq<char>>,
    e: Map<Seq<char>, Set<Seq<char>>>,
    start: Set<Seq<char>>,
    found: Set<Seq<char>>,
    path: Seq<Seq<char>>,
    k: int,
)
    requires
        is_walk(d, e, start, path),
        0 <= k < path.len(),
        forall|x: Seq<char>| start.contains(x) && d.contains(x) ==> found.contains(x),
        forall|a: Seq<char>, b: Seq<char>| found.contains(a) && edge(e, a, b) && d.contains(b) ==> found.contains(b),
    ensures
        found.contains(path[k]),
    decreases k,
{
    if k > 0 {
        lemma_walk_complete(d, e, start, found, path, k - 1);
        assert(walk_step(e, path, k - 1));
        assert(d.contains(path[k]));
    } else {
        assert(d.contains(path[0]));
    }
}

/// The edges of a map of sets.
pub open spec fn edges_of(m: StrMap<StrSet>) -> Map<Seq<char>, Set<Seq<char>>> {
    m@.map_values(|s: StrSet| s@)
}

/// The versions met by walking from `start` along `edges` inside the
/// versions of `t`: with `ignore_nonexistent`, those reached; otherwise an
/// error naming a version met that is not in `t`, when there is one.
fn walk_closure(t: &StrMap<StrSet>, edges: &StrMap<StrSet>, start: &StrMap<bool>, ignore_nonexistent: bool)
    -> (r: Result<StrMap<bool>, BraidError>)
    ensures
        match r {
            Ok(found) => (forall|v: Seq<char>| found@.contains_key(v)
                    <==> walk_reaches(t@.dom(), edges_of(*edges), start@.dom(), v))
                && (forall|v: Seq<char>| #[trigger] found@.contains_key(v) ==> found@[v])
                && (!ignore_nonexistent ==> forall|x: Seq<char>| !walk_misses(t@.dom(), edges_of(*edges), start@.dom(), x)),
            Err(err) => !ignore_nonexistent && exists|x: Seq<char>|
                walk_misses(t@.dom(), edges_of(*edges), start@.dom(), x) && err == BraidError::Internal(err->Internal_0)
                && err->Internal_0@ == missing_message(x),
        },
{
    let ghost d = t@.dom();
    let ghost g = edges_of(*edges);
    let ghost kn = start@.dom();
    let _ = t.len();
    let _ = start.len();
    let mut found: StrMap<bool> = StrMap::new();
    let mut stack: Vec<String> = start.keys();
    proof {
        assert(found@.dom() =~= Set::<Seq<char>>::empty());
        assert forall|j: int| 0 <= j < stack@.len() implies kn.contains(#[trigger] stack@[j]@) by {
            assert(string_views(stack@)[j] == stack@[j]@);
            assert(start.key_order().contains(stack@[j]@));
        }
        assert forall|x: Seq<char>| kn.contains(x) implies (found@.contains_key(x) || string_views(stack@).contains(x)) by {
            assert(start.key_order().contains(x));
        }
    }
    while stack.len() > 0
        invariant
            d == t@.dom(),
            g == edges_of(*edges),
            kn == start@.dom(),
            d.finite(),
            found@.dom().subset_of(d),
            found@.dom().finite(),
            forall|v: Seq<char>| found@.contains_key(v) ==> walk_reaches(d, g, kn, v),
            forall|v: Seq<char>| #[trigger] found@.contains_key(v) ==> found@[v],
            forall|j: int| 0 <= j < stack@.len() ==> kn.contains(#[trigger] stack@[j]@)
                || exists|a: Seq<char>| found@.contains_key(a) && edge(g, a, stack@[j]@),
            forall|x: Seq<char>| kn.contains(x) ==> (found@.contains_key(x) || string_views(stack@).contains(x)
                || (ignore_nonexistent && !d.contains(x))),
            forall|a: Seq<char>, b: Seq<char>| found@.contains_key(a) && #[trigger] edge(g, a, b) ==>
                (found@.contains_key(b) || string_views(stack@).contains(b) || (ignore_nonexistent && !d.contains(b))),
        decreases d.len() - found@.dom().len(), stack@.len(),
    {
        proof {
            vstd::set_lib::lemma_len_subset(found@.dom(), d);
        }
        let ghost before = stack@;
        let v = stack.pop().unwrap();
        proof {
            assert(before =~= stack@.push(v));
            assert(string_views(before) =~= string_views(stack@).push(v@));
        }
        let ghost vi = before.len() - 1;
        proof {
            assert(before[vi] == v);
        }
        if found.contains_key(v.as_str()) {
            proof {
                assert forall|x: Seq<char>| string_views(before).contains(x) implies
                    string_views(stack@).contains(x) || found@.contains_key(x) by {
                    let j = choose|j: int| 0 <= j < string_views(before).len() && string_views(before)[j] == x;
                    if j < stack@.len() {
                        assert(string_views(stack@)[j] == x);
                    }
                }
                assert forall|j: int| 0 <= j < stack@.len() implies kn.contains(#[trigger] stack@[j]@)
                    || exists|a: Seq<char>| found@.contains_key(a) && edge(g, a, stack@[j]@) by {
                    assert(stack@[j] == before[j]);
                }
            }
        } else if !t.contains_key(v.as_str()) {
            if !ignore_nonexistent {
                let mut msg = String::from_str("The version ");
                msg.append(v.as_str());
                msg.append(" does not exist");
                proof {
                    assert(kn.contains(before[vi]@) || exists|a: Seq<char>| found@.contains_key(a) && edge(g, a, before[vi]@));
                    assert(walk_misses(d, g, kn, v@));
                    assert(msg@ =~= missing_message(v@));
                }
                return Err(BraidError::Internal(msg));
            }
            proof {
                assert forall|x: Seq<char>| string_views(before).contains(x) implies
                    string_views(stack@).contains(x) || !d.contains(x) by {
                    let j = choose|j: int| 0 <= j < string_views(before).len() && string_views(before)[j] == x;
                    if j < stack@.len() {
                        assert(string_views(stack@)[j] == x);
                    }
                }
                assert forall|j: int| 0 <= j < stack@.len() implies kn.contains(#[trigger] stack@[j]@)
                    || exists|a: Seq<char>| found@.contains_key(a) && edge(g, a, stack@[j]@) by {
                    assert(stack@[j] == before[j]);
                }
            }
        } else {
            let ghost found0 = found@;
            let ghost stack0 = stack@;
            proof {
                assert(kn.contains(before[vi]@) || exists|a: Seq<char>| found0.contains_key(a) && edge(g, a, before[vi]@));
                if kn.contains(v@) {
                    let path = seq![v@];
                    assert(is_walk(d, g, kn, path));
                } else {
                    let a = choose|a: Seq<char>| found0.contains_key(a) && edge(g, a, v@);
                    assert(walk_reaches(d, g, kn, a));
                    let pa = choose|path: Seq<Seq<char>>| #[trigger] is_walk(d, g, kn, path) && path.last() == a;
                    lemma_walk_extend(d, g, kn, pa, v@);
                    assert(is_walk(d, g, kn, pa.push(v@)) && pa.push(v@).last() == v@);
                }
            }
            found.insert(String::from_str(v.as_str()), true);
            match edges.get(v.as_str()) {
                Some(next) => {
                    let nkeys = next.to_vec();
                    let _ = next.len();
                    let mut i: usize = 0;
                    while i < nkeys.len()
                        invariant
                            i <= nkeys@.len(),
                            string_views(nkeys@) == next.member_order(),
                            forall|k: Seq<char>| next@.contains(k) <==> next.member_order().contains(k),
                            g.contains_key(v@) && g[v@] == next@,
                            stack@.len() == stack0.len() + i,
                            forall|j: int| 0 <= j < stack0.len() ==> #[trigger] stack@[j] == stack0[j],
                            forall|j: int| stack0.len() <= j < stack@.len() ==> #[trigger] stack@[j]@ == nkeys@[j - stack0.len()]@,
                        decreases nkeys@.len() - i,
                    {
                        stack.push(String::from_str(nkeys[i].as_str()));
                        i = i + 1;
                    }
                    proof {
                        assert forall|x: Seq<char>| next@.contains(x) implies string_views(stack@).contains(x) by {
                            assert(next.member_order().contains(x));
                            let j = choose|j: int| 0 <= j < next.member_order().len() && next.member_order()[j] == x;
                            assert(string_views(stack@)[stack0.len() + j] == x);
                        }
                        assert forall|j: int| 0 <= j < stack@.len() implies kn.contains(#[trigger] stack@[j]@)
                            || exists|a: Seq<char>| found@.contains_key(a) && edge(g, a, stack@[j]@) by {
                            if j < stack0.len() {
                                assert(stack@[j] == before[j]);
                                if !kn.contains(stack@[j]@) {
                                    let a = choose|a: Seq<char>| found0.contains_key(a) && edge(g, a, before[j]@);
                                    assert(found@.contains_key(a));
                                }
                            } else {
                                let q = j - stack0.len();
                                assert(string_views(nkeys@)[q] == nkeys@[q]@);
                                assert(next.member_order().contains(nkeys@[q]@));
                                assert(found@.contains_key(v@) && edge(g, v@, stack@[j]@));
                            }
                        }
                    }
                },
                None => {
                    proof {
                        assert forall|j: int| 0 <= j < stack@.len() implies kn.contains(#[trigger] stack@[j]@)
                            || exists|a: Seq<char>| found@.contains_key(a) && edge(g, a, stack@[j]@) by {
                            assert(stack@[j] == before[j]);
                            if !kn.contains(stack@[j]@) {
                                let a = choose|a: Seq<char>| found0.contains_key(a) && edge(g, a, before[j]@);
                                assert(found@.contains_key(a));
                            }
                        }
                    }
                },
            }
            proof {
                assert forall|x: Seq<char>| string_views(stack0).contains(x) implies string_views(stack@).contains(x) by {
                    let j = choose|j: int| 0 <= j < string_views(stack0).len() && string_views(stack0)[j] == x;
                    assert(string_views(stack@)[j] == x);
                }
                assert forall|x: Seq<char>| string_views(before).contains(x) implies
                    (found@.contains_key(x) || string_views(stack@).contains(x)) by {
                    let j = choose|j: int| 0 <= j < string_views(before).len() && string_views(before)[j] == x;
                    if j < stack0.len() {
                        assert(string_views(stack0)[j] == x);
                        assert(string_views(stack0).contains(x));
                    } else {
                        assert(x == v@);
                    }
                }
                assert(found@.dom() =~= found0.dom().insert(v@));
                assert(found@.dom().subset_of(d));
                assert(found@.dom().len() == found0.dom().len() + 1);
                vstd::set_lib::lemma_len_subset(found@.dom(), d);
            }
        }
    }
    proof {
        assert forall|v: Seq<char>| walk_reaches(d, g, kn, v) implies found@.contains_key(v) by {
            let path = choose|path: Seq<Seq<char>>| #[trigger] is_walk(d, g, kn, path) && path.last() == v;
            lemma_walk_complete(d, g, kn, found@.dom(), path, path.len() - 1);
        }
        if !ignore_nonexistent {
            assert forall|x: Seq<char>| !walk_misses(d, g, kn, x) by {
                if walk_misses(d, g, kn, x) {
                    if !kn.contains(x) {
                        let a = choose|a: Seq<char>| walk_reaches(d, g, kn, a) && #[trigger] edge(g, a, x);
                        let path = choose|path: Seq<Seq<char>>| #[trigger] is_walk(d, g, kn, path) && path.last() == a;
                        lemma_walk_complete(d, g, kn, found@.dom(), path, path.len() - 1);
                    }
                }
            }
        }
    }
    Ok(found)
}

/// The children of each version: a version is a child of each of its
/// parents.
pub open spec fn child_view(g: Map<Seq<char>, Set<Seq<char>>>) -> Map<Seq<char>, Set<Seq<char>>> {
    Map::new(
        |p: Seq<char>| exists|v: Seq<char>| g.contains_key(v) && #[trigger] g[v].contains(p),
        |p: Seq<char>| Set::new(|v: Seq<char>| g.contains_key(v) && g[v].contains(p)),
    )
}

/// The versions that are a parent of some version of `vs` in the DAG.
pub open spec fn parents_of_set(g: Map<Seq<char>, Set<Seq<char>>>, vs: Set<Seq<char>>) -> Set<Seq<char>> {
    Set::new(|p: Seq<char>| exists|v: Seq<char>| vs.contains(v) && g.contains_key(v) && #[trigger] g[v].contains(p))
}

/// Whether `p` is a parent of some version of the list in the DAG.
pub open spec fn parent_in_list(g: Map<Seq<char>, Set<Seq<char>>>, vs: Seq<Seq<char>>, p: Seq<char>) -> bool {
    exists|v: Seq<char>| vs.contains(v) && g.contains_key(v) && #[trigger] g[v].contains(p)
}

impl<T: PrunableCrdt> AntimatterCrdt<T> {
    /// The versions that have `p` as a parent.
    fn children_of_version(&self, p: &str) -> (c: StrSet)
        ensures
            forall|v: Seq<char>| c@.contains(v) <==> edge(dag_view(self.t), v, p@),
    {
        let n = self.t.len();
        let mut c = StrSet::new();
        let mut i: usize = 0;
        while i < n
            invariant
                i <= n,
                n == self.t.key_order().len(),
                forall|k: Seq<char>| self.t@.contains_key(k) <==> self.t.key_order().contains(k),
                forall|v: Seq<char>| c@.contains(v) <==> (self.t.key_order().subrange(0, i as int).contains(v) && edge(dag_view(self.t), v, p@)),
            decreases n - i,
        {
            let v = self.t.key_at(i);
            let ps = self.t.value_at(i);
            let ghost pre = self.t.key_order().subrange(0, i as int);
            let ghost post = self.t.key_order().subrange(0, i + 1);
            proof {
                assert(post =~= pre.push(v@));
            }
            if ps.contains(p) {
                c.insert(String::from_str(v.as_str()));
            }
            proof {
                assert forall|u: Seq<char>| c@.contains(u) <==> (post.contains(u) && edge(dag_view(self.t), u, p@)) by {
                    if post.contains(u) && u != v@ {
                        let r = choose|r: int| 0 <= r < post.len() && post[r] == u;
                        assert(pre[r] == u);
                    }
                    if pre.contains(u) {
                        let r = choose|r: int| 0 <= r < pre.len() && pre[r] == u;
                        assert(post[r] == u);
                    }
                    if u == v@ {
                        assert(post[i as int] == u);
                    }
                }
            }
            i = i + 1;
        }
        proof {
            assert(self.t.key_order().subrange(0, n as int) =~= self.t.key_order());
        }
        c
    }

    /// The children of each version.
    pub fn get_child_map(&self) -> (c: StrMap<StrSet>)
        ensures
            edges_of(c) == child_view(dag_view(self.t)),
    {
        let ghost g = dag_view(self.t);
        let n = self.t.len();
        let mut children: StrMap<StrSet> = StrMap::new();
        let mut i: usize = 0;
        while i < n
            invariant
                i <= n,
                n == self.t.key_order().len(),
                g == dag_view(self.t),
                forall|k: Seq<char>| self.t@.contains_key(k) <==> self.t.key_order().contains(k),
                forall|p: Seq<char>| #[trigger] children@.contains_key(p) ==>
                    (forall|v: Seq<char>| children@[p]@.contains(v) <==> edge(g, v, p)),
                forall|p: Seq<char>| #[trigger] children@.contains_key(p) ==> exists|v: Seq<char>| edge(g, v, p),
                forall|v: Seq<char>, p: Seq<char>| self.t.key_order().subrange(0, i as int).contains(v) && #[trigger] edge(g, v, p)
                    ==> children@.contains_key(p),
            decreases n - i,
        {
            let v = self.t.key_at(i);
            let ps = self.t.value_at(i);
            let pv = ps.to_vec();
            let _ = ps.len();
            let ghost pre = self.t.key_order().subrange(0, i as int);
            let ghost post = self.t.key_order().subrange(0, i + 1);
            proof {
                assert(post =~= pre.push(v@));
                assert(g[v@] == ps@);
            }
            let mut j: usize = 0;
            while j < pv.len()
                invariant
                    j <= pv@.len(),
                    string_views(pv@) == ps.member_order(),
                    forall|k: Seq<char>| ps@.contains(k) <==> ps.member_order().contains(k),
                    g == dag_view(self.t),
                    g.contains_key(v@) && g[v@] == ps@,
                    forall|p: Seq<char>| #[trigger] children@.contains_key(p) ==>
                        (forall|u: Seq<char>| children@[p]@.contains(u) <==> edge(g, u, p)),
                    forall|p: Seq<char>| #[trigger] children@.contains_key(p) ==> exists|u: Seq<char>| edge(g, u, p),
                    forall|u: Seq<char>, p: Seq<char>| pre.contains(u) && #[trigger] edge(g, u, p) ==> children@.contains_key(p),
                    forall|q: int| 0 <= q < j ==> children@.contains_key(#[trigger] pv@[q]@),
                decreases pv@.len() - j,
            {
                let p = &pv[j];
                if !children.contains_key(p.as_str()) {
                    let c = self.children_of_version(p.as_str());
                    proof {
                        assert(ps.member_order().contains(p@)) by {
                            assert(string_views(pv@)[j as int] == p@);
                        }
                        assert(edge(g, v@, p@));
                    }
                    children.insert(String::from_str(p.as_str()), c);
                }
                j = j + 1;
            }
            proof {
                assert forall|u: Seq<char>, p: Seq<char>| post.contains(u) && #[trigger] edge(g, u, p) implies children@.contains_key(p) by {
                    if u == v@ {
                        assert(ps.member_order().contains(p));
                        let q = choose|q: int| 0 <= q < ps.member_order().len() && ps.member_order()[q] == p;
                        assert(string_views(pv@)[q] == pv@[q]@);
                        assert(children@.contains_key(pv@[q]@));
                    } else {
                        let r = choose|r: int| 0 <= r < post.len() && post[r] == u;
                        assert(pre[r] == u);
                    }
                }
            }
            i = i + 1;
        }
        proof {
            assert(self.t.key_order().subrange(0, n as int) =~= self.t.key_order());
            let cv = child_view(g);
            assert forall|p: Seq<char>| edges_of(children).contains_key(p) <==> cv.contains_key(p) by {
                if children@.contains_key(p) {
                    let u = choose|u: Seq<char>| edge(g, u, p);
                    assert(g.contains_key(u) && g[u].contains(p));
                }
                if cv.contains_key(p) {
                    let u = choose|u: Seq<char>| g.contains_key(u) && #[trigger] g[u].contains(p);
                    assert(self.t.key_order().contains(u));
                    assert(edge(g, u, p));
                }
            }
            assert forall|p: Seq<char>| #[trigger] edges_of(children).contains_key(p) implies edges_of(children)[p] == cv[p] by {
                assert forall|u: Seq<char>| edges_of(children)[p].contains(u) <==> cv[p].contains(u) by {
                    assert(children@[p]@.contains(u) <==> edge(g, u, p));
                }
                assert(edges_of(children)[p] =~= cv[p]);
            }
            assert(edges_of(children) =~= cv);
        }
        children
    }

    /// The versions whose descendants include `versions` (them included):
    /// the walks from them along parents inside the DAG.  Without
    /// `ignore_nonexistent`, a version met that is not in the DAG is an
    /// error.
    pub fn ancestors(&self, versions: &StrMap<bool>, ignore_nonexistent: bool) -> (r: Result<StrMap<bool>, BraidError>)
        ensures
            match r {
                Ok(found) => (forall|v: Seq<char>| found@.contains_key(v)
                        <==> walk_reaches(self.t@.dom(), dag_view(self.t), versions@.dom(), v))
                    && (forall|v: Seq<char>| #[trigger] found@.contains_key(v) ==> found@[v])
                    && (!ignore_nonexistent ==> forall|x: Seq<char>| !walk_misses(self.t@.dom(), dag_view(self.t), versions@.dom(), x)),
                Err(err) => !ignore_nonexistent && exists|x: Seq<char>|
                    walk_misses(self.t@.dom(), dag_view(self.t), versions@.dom(), x) && err == BraidError::Internal(err->Internal_0)
                    && err->Internal_0@ == missing_message(x),
            },
    {
        walk_closure(&self.t, &self.t, versions, ignore_nonexistent)
    }

    /// The versions that descend from `versions` (them included): the
    /// walks from them along children inside the DAG.  Without
    /// `ignore_nonexistent`, a version met that is not in the DAG is an
    /// error.
    pub fn descendants(&self, versions: &StrMap<bool>, ignore_nonexistent: bool) -> (r: Result<StrMap<bool>, BraidError>)
        ensures
            match r {
                Ok(found) => (forall|v: Seq<char>| found@.contains_key(v)
                        <==> walk_reaches(self.t@.dom(), child_view(dag_view(self.t)), versions@.dom(), v))
                    && (forall|v: Seq<char>| #[trigger] found@.contains_key(v) ==> found@[v])
                    && (!ignore_nonexistent ==> forall|x: Seq<char>| !walk_misses(self.t@.dom(), child_view(dag_view(self.t)), versions@.dom(), x)),
                Err(err) => !ignore_nonexistent && exists|x: Seq<char>|
                    walk_misses(self.t@.dom(), child_view(dag_view(self.t)), versions@.dom(), x) && err == BraidError::Internal(err->Internal_0)
                    && err->Internal_0@ == missing_message(x),
            },
    {
        let children = self.get_child_map();
        walk_closure(&self.t, &children, versions, ignore_nonexistent)
    }

    /// The versions of `versions` that are not a parent of another of them.
    pub fn get_leaves(&self, versions: &StrMap<bool>) -> (leaves: StrMap<bool>)
        ensures
            leaves@ == versions@.remove_keys(parents_of_set(dag_view(self.t), versions@.dom())),
    {
        let ghost g = dag_view(self.t);
        let ghost vs = versions@.dom();
        let mut leaves = versions.copy();
        let n = versions.len();
        let keys = versions.keys();
        let mut i: usize = 0;
        while i < n
            invariant
                i <= n,
                n == keys@.len(),
                string_views(keys@) == versions.key_order(),
                forall|k: Seq<char>| versions@.contains_key(k) <==> versions.key_order().contains(k),
                g == dag_view(self.t),
                vs == versions@.dom(),
                leaves@ == versions@.remove_keys(Set::new(|p: Seq<char>| parent_in_list(g, string_views(keys@).subrange(0, i as int), p))),
            decreases n - i,
        {
            let ghost pre = string_views(keys@).subrange(0, i as int);
            let ghost post = string_views(keys@).subrange(0, i + 1);
            let ghost vv = keys@[i as int]@;
            proof {
                assert(post =~= pre.push(vv));
            }
            match self.t.get(keys[i].as_str()) {
                Some(parents) => {
                    let pv = parents.to_vec();
                    let _ = parents.len();
                    let mut j: usize = 0;
                    while j < pv.len()
                        invariant
                            j <= pv@.len(),
                            string_views(pv@) == parents.member_order(),
                            forall|k: Seq<char>| parents@.contains(k) <==> parents.member_order().contains(k),
                            g.contains_key(vv) && g[vv] == parents@,
                            leaves@ == versions@.remove_keys(Set::new(|p: Seq<char>| parent_in_list(g, pre, p)
                                || string_views(pv@).subrange(0, j as int).contains(p))),
                        decreases pv@.len() - j,
                    {
                        leaves.remove(pv[j].as_str());
                        proof {
                            let a = string_views(pv@).subrange(0, j as int);
                            let b = string_views(pv@).subrange(0, j + 1);
                            assert(b =~= a.push(pv@[j as int]@));
                            assert forall|k: Seq<char>| b.contains(k) == (a.contains(k) || k == pv@[j as int]@) by {
                                if b.contains(k) && k != pv@[j as int]@ {
                                    let r = choose|r: int| 0 <= r < b.len() && b[r] == k;
                                    assert(a[r] == k);
                                }
                                if k == pv@[j as int]@ {
                                    assert(b[j as int] == k);
                                }
                                if a.contains(k) {
                                    let r = choose|r: int| 0 <= r < a.len() && a[r] == k;
                                    assert(b[r] == k);
                                }
                            }
                            assert(leaves@ =~= versions@.remove_keys(Set::new(|p: Seq<char>| parent_in_list(g, pre, p)
                                || string_views(pv@).subrange(0, j + 1).contains(p))));
                        }
                        j = j + 1;
                    }
                    proof {
                        assert(string_views(pv@).subrange(0, pv@.len() as int) =~= string_views(pv@));
                        assert forall|p: Seq<char>| (parent_in_list(g, pre, p)
                            || string_views(pv@).contains(p)) == #[trigger] parent_in_list(g, post, p) by {
                            if string_views(pv@).contains(p) {
                                assert(post[i as int] == vv);
                                assert(parents.member_order().contains(p));
                                assert(post.contains(vv) && g[vv].contains(p));
                            }
                            if parent_in_list(g, post, p) {
                                let v = choose|v: Seq<char>| post.contains(v) && g.contains_key(v) && #[trigger] g[v].contains(p);
                                if v != vv {
                                    let r = choose|r: int| 0 <= r < post.len() && post[r] == v;
                                    assert(pre[r] == v);
                                } else {
                                    assert(parents.member_order().contains(p));
                                }
                            }
                        }
                        assert(leaves@ =~= versions@.remove_keys(Set::new(|p: Seq<char>| parent_in_list(g, post, p))));
                    }
                },
                None => {
                    proof {
                        assert forall|p: Seq<char>| parent_in_list(g, pre, p) == #[trigger] parent_in_list(g, post, p) by {
                            if parent_in_list(g, post, p) {
                                let v = choose|v: Seq<char>| post.contains(v) && g.contains_key(v) && #[trigger] g[v].contains(p);
                                if v != vv {
                                    let r = choose|r: int| 0 <= r < post.len() && post[r] == v;
                                    assert(pre[r] == v);
                                }
                            }
                        }
                        assert(leaves@ =~= versions@.remove_keys(Set::new(|p: Seq<char>| parent_in_list(g, post, p))));
                    }
                },
            }
            i = i + 1;
        }
        proof {
            assert(string_views(keys@).subrange(0, n as int) =~= string_views(keys@));
            assert forall|p: Seq<char>| parent_in_list(g, string_views(keys@), p)
                == #[trigger] parents_of_set(g, vs).contains(p) by {
                if parents_of_set(g, vs).contains(p) {
                    let v = choose|v: Seq<char>| vs.contains(v) && g.contains_key(v) && #[trigger] g[v].contains(p);
                    assert(versions.key_order().contains(v));
                }
            }
            assert(leaves@ =~= versions@.remove_keys(parents_of_set(g, vs)));
        }
        leaves
    }
}

/// The parents of a version in iteration order (none for a version that is
/// not in the DAG).
pub open spec fn parent_order(t: StrMap<StrSet>, v: Seq<char>) -> Seq<Seq<char>> {
    if t@.contains_key(v) { t@[v].member_order() } else { Seq::empty() }
}

/// Marking from a stack of versions to visit (the top is the last):
/// a version not yet marked is marked, and its parents are stacked so that
/// they are visited in their order; the result is the marked versions and
/// the order in which they were marked.
pub open spec fn mark_run(t: StrMap<StrSet>, marked: Set<Seq<char>>, order: Seq<Seq<char>>, stack: Seq<Seq<char>>) -> (Set<Seq<char>>, Seq<Seq<char>>)
    decreases t@.dom().difference(marked).len(), stack.len(),
    when t@.dom().finite()
{
    if stack.len() == 0 {
        (marked, order)
    } else {
        let v = stack.last();
        let rest = stack.drop_last();
        if marked.contains(v) {
            mark_run(t, marked, order, rest)
        } else {
            proof {
                lemma_difference_insert(t@.dom(), marked, v);
            }
            mark_run(t, marked.insert(v), order.push(v), rest + parent_order(t, v).reverse())
        }
    }
}

pub proof fn lemma_difference_insert(d: Set<Seq<char>>, s: Set<Seq<char>>, v: Seq<char>)
    requires
        d.finite(),
        !s.contains(v),
    ensures
        d.difference(s.insert(v)).len() <= d.difference(s).len(),
        d.contains(v) ==> d.difference(s.insert(v)).len() < d.difference(s).len(),
{
    if d.contains(v) {
        assert(d.difference(s.insert(v)) =~= d.difference(s).remove(v));
    } else {
        assert(d.difference(s.insert(v)) =~= d.difference(s));
    }
}

/// Whether a bubble entry holds the given pair.
pub open spec fn holds_pair(e: (String, String), b: (String, String)) -> bool {
    e.0@ == b.0@ && e.1@ == b.1@
}

/// Marks `v` and its ancestors, as far as they are not marked yet, as
/// belonging to `bubble`.
pub(crate) fn mark_bubble(v: &str, bubble: &(String, String), to_bubble: &mut StrMap<(String, String)>, t: &StrMap<StrSet>)
    ensures
        forall|k: Seq<char>| #[trigger] old(to_bubble)@.contains_key(k) ==> final(to_bubble)@.contains_key(k),
        forall|k: Seq<char>| final(to_bubble)@.contains_key(k)
            <==> mark_run(*t, old(to_bubble)@.dom(), old(to_bubble).key_order(), seq![v@]).0.contains(k),
        final(to_bubble).key_order() == mark_run(*t, old(to_bubble)@.dom(), old(to_bubble).key_order(), seq![v@]).1,
        forall|k: Seq<char>| #[trigger] old(to_bubble)@.contains_key(k) ==> final(to_bubble)@[k] == old(to_bubble)@[k],
        forall|k: Seq<char>| #[trigger] final(to_bubble)@.contains_key(k) && !old(to_bubble)@.contains_key(k)
            ==> holds_pair(final(to_bubble)@[k], *bubble),
{
    let _ = t.len();
    let _ = to_bubble.len();
    let ghost goal = mark_run(*t, old(to_bubble)@.dom(), old(to_bubble).key_order(), seq![v@]);
    let mut stack: Vec<String> = vec![String::from_str(v)];
    proof {
        assert(string_views(stack@) =~= seq![v@]);
    }
    while stack.len() > 0
        invariant
            t@.dom().finite(),
            mark_run(*t, to_bubble@.dom(), to_bubble.key_order(), string_views(stack@)) == goal,
            forall|k: Seq<char>| #[trigger] old(to_bubble)@.contains_key(k) ==> to_bubble@.contains_key(k) && to_bubble@[k] == old(to_bubble)@[k],
            forall|k: Seq<char>| #[trigger] to_bubble@.contains_key(k) && !old(to_bubble)@.contains_key(k)
                ==> holds_pair(to_bubble@[k], *bubble),
        decreases t@.dom().difference(to_bubble@.dom()).len(), stack@.len(),
    {
        let ghost before = string_views(stack@);
        let cur = stack.pop().unwrap();
        proof {
            assert(string_views(stack@) =~= before.drop_last());
            assert(before.last() == cur@);
        }
        if !to_bubble.contains_key(cur.as_str()) {
            let ghost dom0 = to_bubble@.dom();
            to_bubble.insert(String::from_str(cur.as_str()), (String::from_str(bubble.0.as_str()), String::from_str(bubble.1.as_str())));
            proof {
                assert(to_bubble@.dom() =~= dom0.insert(cur@));
                lemma_difference_insert(t@.dom(), dom0, cur@);
            }
            match t.get(cur.as_str()) {
                Some(parents) => {
                    let pv = parents.to_vec();
                    let ghost base = string_views(stack@);
                    let mut i: usize = pv.len();
                    while i > 0
                        invariant
                            i <= pv@.len(),
                            string_views(stack@) == base + string_views(pv@).subrange(i as int, pv@.len() as int).reverse(),
                        decreases i,
                    {
                        i = i - 1;
                        let ghost b2 = string_views(stack@);
                        stack.push(String::from_str(pv[i].as_str()));
                        proof {
                            assert(string_views(stack@) =~= b2.push(pv@[i as int]@));
                            assert(string_views(pv@).subrange(i as int, pv@.len() as int).reverse()
                                =~= string_views(pv@).subrange(i + 1, pv@.len() as int).reverse().push(pv@[i as int]@));
                        }
                    }
                    proof {
                        assert(string_views(pv@).subrange(0, pv@.len() as int) =~= string_views(pv@));
                        assert(parent_order(*t, cur@) == string_views(pv@));
                    }
                },
                None => {
                    proof {
                        assert(parent_order(*t, cur@) =~= Seq::<Seq<char>>::empty());
                        assert(string_views(stack@) =~= string_views(stack@) + parent_order(*t, cur@).reverse());
                    }
                },
            }
        }
    }
}

/// A bubble map with each pair of names taken by its view.
pub open spec fn pairs(tb: Map<Seq<char>, (String, String)>) -> Map<Seq<char>, (Seq<char>, Seq<char>)> {
    tb.map_values(|p: (String, String)| (p.0@, p.1@))
}

/// The bottom of a version's bubble, or the version itself.
pub open spec fn bottom_of(tb: Map<Seq<char>, (Seq<char>, Seq<char>)>, v: Seq<char>) -> Seq<char> {
    if tb.contains_key(v) { tb[v].0 } else { v }
}

/// The top of a version's bubble, or the version itself.
pub open spec fn top_of(tb: Map<Seq<char>, (Seq<char>, Seq<char>)>, v: Seq<char>) -> Seq<char> {
    if tb.contains_key(v) { tb[v].1 } else { v }
}

/// Whether a version of the list is in the DAG and bubbles to `w`.
pub open spec fn renamed_in(g: Map<Seq<char>, Set<Seq<char>>>, tb: Map<Seq<char>, (Seq<char>, Seq<char>)>, vs: Seq<Seq<char>>, w: Seq<char>) -> bool {
    exists|v: Seq<char>| vs.contains(v) && g.contains_key(v) && #[trigger] bottom_of(tb, v) == w
}

/// Whether a version of the list bubbles to `w` and has a parent whose
/// bubble's top is `q`.
pub open spec fn renamed_edge(g: Map<Seq<char>, Set<Seq<char>>>, tb: Map<Seq<char>, (Seq<char>, Seq<char>)>, vs: Seq<Seq<char>>, w: Seq<char>, q: Seq<char>) -> bool {
    exists|v: Seq<char>, p: Seq<char>| vs.contains(v) && g.contains_key(v) && bottom_of(tb, v) == w
        && #[trigger] g[v].contains(p) && #[trigger] top_of(tb, p) == q
}

/// The DAG with each bubble collapsed: a version becomes its bubble's
/// bottom, and its parents their bubbles' tops.
pub open spec fn bubbled_dag(g: Map<Seq<char>, Set<Seq<char>>>, tb: Map<Seq<char>, (Seq<char>, Seq<char>)>, order: Seq<Seq<char>>) -> Map<Seq<char>, Set<Seq<char>>> {
    Map::new(|w: Seq<char>| renamed_in(g, tb, order, w), |w: Seq<char>| Set::new(|q: Seq<char>| renamed_edge(g, tb, order, w, q)))
}

/// A set with each member replaced by its bubble's bottom.
pub open spec fn bottoms(s: Set<Seq<char>>, tb: Map<Seq<char>, (Seq<char>, Seq<char>)>) -> Set<Seq<char>> {
    Set::new(|w: Seq<char>| exists|v: Seq<char>| s.contains(v) && #[trigger] bottom_of(tb, v) == w)
}

/// The version groups after each renamed version, in the bubble map's
/// order, joins the group of its bottom.
pub open spec fn groups_fold(order: Seq<Seq<char>>, tb: Map<Seq<char>, (Seq<char>, Seq<char>)>, groups: Map<Seq<char>, Seq<Seq<char>>>) -> Map<Seq<char>, Seq<Seq<char>>>
    decreases order.len(),
{
    if order.len() == 0 {
        groups
    } else {
        let g1 = groups_fold(order.drop_last(), tb, groups);
        let v = order.last();
        let b = tb[v].0;
        if v != b {
            g1.insert(b, (if g1.contains_key(b) { g1[b] } else { Seq::empty() }).push(v))
        } else {
            g1
        }
    }
}

/// The bottom of a version's bubble, or the version itself.
fn bottom_name(tb: &StrMap<(String, String)>, v: &str) -> (r: String)
    ensures
        r@ == bottom_of(pairs(tb@), v@),
{
    match tb.get(v) {
        Some(pair) => String::from_str(pair.0.as_str()),
        None => String::from_str(v),
    }
}

/// The top of a version's bubble, or the version itself.
fn top_name(tb: &StrMap<(String, String)>, v: &str) -> (r: String)
    ensures
        r@ == top_of(pairs(tb@), v@),
{
    match tb.get(v) {
        Some(pair) => String::from_str(pair.1.as_str()),
        None => String::from_str(v),
    }
}

/// Adds every member of `src` to `dst`.
fn union_into(dst: &mut StrSet, src: &StrSet)
    ensures
        final(dst)@ == old(dst)@.union(src@),
{
    let items = src.to_vec();
    let _ = src.len();
    let mut i: usize = 0;
    while i < items.len()
        invariant
            i <= items@.len(),
            string_views(items@) == src.member_order(),
            forall|k: Seq<char>| src@.contains(k) <==> src.member_order().contains(k),
            dst@ == old(dst)@.union(string_views(items@).subrange(0, i as int).to_set()),
        decreases items@.len() - i,
    {
        dst.insert(String::from_str(items[i].as_str()));
        proof {
            let a = string_views(items@).subrange(0, i as int);
            assert(string_views(items@).subrange(0, i + 1) =~= a.push(items@[i as int]@));
            a.lemma_push_to_set_commute(items@[i as int]@);
            assert(dst@ =~= old(dst)@.union(string_views(items@).subrange(0, i + 1).to_set()));
        }
        i = i + 1;
    }
    proof {
        assert(string_views(items@).subrange(0, items@.len() as int) =~= string_views(items@));
        assert(string_views(items@).to_set() =~= src@);
    }
}

/// A set with each member replaced by the top of its bubble.
fn tops_of(ps: &StrSet, tb: &StrMap<(String, String)>) -> (r: StrSet)
    ensures
        forall|q: Seq<char>| r@.contains(q) <==> exists|p: Seq<char>| ps@.contains(p) && #[trigger] top_of(pairs(tb@), p) == q,
{
    let items = ps.to_vec();
    let _ = ps.len();
    let mut r = StrSet::new();
    let mut i: usize = 0;
    while i < items.len()
        invariant
            i <= items@.len(),
            string_views(items@) == ps.member_order(),
            forall|k: Seq<char>| ps@.contains(k) <==> ps.member_order().contains(k),
            forall|q: Seq<char>| r@.contains(q) <==> exists|p: Seq<char>|
                string_views(items@).subrange(0, i as int).contains(p) && #[trigger] top_of(pairs(tb@), p) == q,
        decreases items@.len() - i,
    {
        let top = top_name(tb, items[i].as_str());
        r.insert(top);
        proof {
            let a = string_views(items@).subrange(0, i as int);
            let b = string_views(items@).subrange(0, i + 1);
            let x = items@[i as int]@;
            assert(b =~= a.push(x));
            assert forall|q: Seq<char>| r@.contains(q) <==> exists|p: Seq<char>| b.contains(p) && #[trigger] top_of(pairs(tb@), p) == q by {
                if r@.contains(q) && q != top_of(pairs(tb@), x) {
                    let p = choose|p: Seq<char>| a.contains(p) && #[trigger] top_of(pairs(tb@), p) == q;
                    let k = choose|k: int| 0 <= k < a.len() && a[k] == p;
                    assert(b[k] == p);
                }
                if q == top_of(pairs(tb@), x) {
                    assert(b[i as int] == x);
                }
                if exists|p: Seq<char>| b.contains(p) && #[trigger] top_of(pairs(tb@), p) == q {
                    let p = choose|p: Seq<char>| b.contains(p) && #[trigger] top_of(pairs(tb@), p) == q;
                    if p != x {
                        let k = choose|k: int| 0 <= k < b.len() && b[k] == p;
                        assert(a[k] == p);
                    }
                }
            }
        }
        i = i + 1;
    }
    proof {
        assert(string_views(items@).subrange(0, items@.len() as int) =~= string_views(items@));
        assert forall|q: Seq<char>| r@.contains(q) <==> exists|p: Seq<char>| ps@.contains(p) && #[trigger] top_of(pairs(tb@), p) == q by {
            if exists|p: Seq<char>| ps@.contains(p) && #[trigger] top_of(pairs(tb@), p) == q {
                let p = choose|p: Seq<char>| ps@.contains(p) && #[trigger] top_of(pairs(tb@), p) == q;
                assert(ps.member_order().contains(p));
            }
        }
    }
    r
}

/// The DAG with each bubble collapsed.
fn bubble_dag(t: &StrMap<StrSet>, tb: &StrMap<(String, String)>) -> (r: StrMap<StrSet>)
    ensures
        edges_of(r) == bubbled_dag(dag_view(*t), pairs(tb@), t.key_order()),
{
    let ghost g = dag_view(*t);
    let n = t.len();
    let mut r: StrMap<StrSet> = StrMap::new();
    let mut i: usize = 0;
    while i < n
        invariant
            i <= n,
            n == t.key_order().len(),
            g == dag_view(*t),
            forall|k: Seq<char>| t@.contains_key(k) <==> t.key_order().contains(k),
            forall|w: Seq<char>| #[trigger] r@.contains_key(w) <==> renamed_in(g, pairs(tb@), t.key_order().subrange(0, i as int), w),
            forall|w: Seq<char>, q: Seq<char>| r@.contains_key(w) ==> (#[trigger] r@[w]@.contains(q)
                <==> renamed_edge(g, pairs(tb@), t.key_order().subrange(0, i as int), w, q)),
        decreases n - i,
    {
        let v = t.key_at(i);
        let ps = t.value_at(i);
        let ghost pre = t.key_order().subrange(0, i as int);
        let ghost post = t.key_order().subrange(0, i + 1);
        let ghost r0 = r@;
        proof {
            assert(post =~= pre.push(v@));
            assert(g.contains_key(v@) && g[v@] == ps@);
        }
        let b = bottom_name(tb, v.as_str());
        let tops = tops_of(ps, tb);
        let mut entry = match r.remove(b.as_str()) {
            Some(e) => e,
            None => StrSet::new(),
        };
        let ghost e0 = entry@;
        union_into(&mut entry, &tops);
        r.insert(b, entry);
        proof {
            let bw = bottom_of(pairs(tb@), v@);
            assert forall|u: Seq<char>| post.contains(u) == (pre.contains(u) || u == v@) by {
                if post.contains(u) && u != v@ {
                    let k = choose|k: int| 0 <= k < post.len() && post[k] == u;
                    assert(pre[k] == u);
                }
                if pre.contains(u) {
                    let k = choose|k: int| 0 <= k < pre.len() && pre[k] == u;
                    assert(post[k] == u);
                }
                if u == v@ {
                    assert(post[i as int] == u);
                }
            }
            assert forall|w: Seq<char>| #[trigger] r@.contains_key(w) <==> renamed_in(g, pairs(tb@), post, w) by {
                if w == bw {
                    assert(post.contains(v@) && g.contains_key(v@) && bottom_of(pairs(tb@), v@) == w);
                } else {
                    if renamed_in(g, pairs(tb@), post, w) {
                        let u = choose|u: Seq<char>| post.contains(u) && g.contains_key(u) && #[trigger] bottom_of(pairs(tb@), u) == w;
                        assert(pre.contains(u));
                        assert(renamed_in(g, pairs(tb@), pre, w));
                    }
                    if r0.contains_key(w) {
                        let u = choose|u: Seq<char>| pre.contains(u) && g.contains_key(u) && #[trigger] bottom_of(pairs(tb@), u) == w;
                        assert(post.contains(u));
                    }
                }
            }
            assert forall|w: Seq<char>, q: Seq<char>| r@.contains_key(w) implies (#[trigger] r@[w]@.contains(q)
                <==> renamed_edge(g, pairs(tb@), post, w, q)) by {
                if w == bw {
                    assert(r@[w]@ == e0.union(tops@));
                    if e0.contains(q) {
                        assert(r0.contains_key(w) && r0[w]@.contains(q));
                        assert(renamed_edge(g, pairs(tb@), pre, w, q));
                        let (u, p) = choose|u: Seq<char>, p: Seq<char>| pre.contains(u) && g.contains_key(u) && bottom_of(pairs(tb@), u) == w
                            && #[trigger] g[u].contains(p) && #[trigger] top_of(pairs(tb@), p) == q;
                        assert(post.contains(u));
                    }
                    if tops@.contains(q) {
                        let p = choose|p: Seq<char>| ps@.contains(p) && #[trigger] top_of(pairs(tb@), p) == q;
                        assert(g[v@].contains(p));
                        assert(post.contains(v@));
                    }
                    if renamed_edge(g, pairs(tb@), post, w, q) {
                        let (u, p) = choose|u: Seq<char>, p: Seq<char>| post.contains(u) && g.contains_key(u) && bottom_of(pairs(tb@), u) == w
                            && #[trigger] g[u].contains(p) && #[trigger] top_of(pairs(tb@), p) == q;
                        if u == v@ {
                            assert(tops@.contains(q));
                        } else {
                            assert(pre.contains(u));
                            assert(renamed_edge(g, pairs(tb@), pre, w, q));
                            assert(renamed_in(g, pairs(tb@), pre, w));
                            assert(r0.contains_key(w));
                            assert(e0 == r0[w]@);
                        }
                    }
                    if !r0.contains_key(w) {
                        assert(e0 =~= Set::<Seq<char>>::empty());
                    } else {
                        assert(e0 == r0[w]@);
                    }
                } else {
                    assert(r@[w] == r0[w]);
                    assert(r0.contains_key(w));
                    if renamed_edge(g, pairs(tb@), post, w, q) {
                        let (u, p) = choose|u: Seq<char>, p: Seq<char>| post.contains(u) && g.contains_key(u) && bottom_of(pairs(tb@), u) == w
                            && #[trigger] g[u].contains(p) && #[trigger] top_of(pairs(tb@), p) == q;
                        assert(pre.contains(u));
                        assert(renamed_edge(g, pairs(tb@), pre, w, q));
                    }
                    if renamed_edge(g, pairs(tb@), pre, w, q) {
                        let (u, p) = choose|u: Seq<char>, p: Seq<char>| pre.contains(u) && g.contains_key(u) && bottom_of(pairs(tb@), u) == w
                            && #[trigger] g[u].contains(p) && #[trigger] top_of(pairs(tb@), p) == q;
                        assert(post.contains(u));
                    }
                }
            }
        }
        i = i + 1;
    }
    proof {
        assert(t.key_order().subrange(0, n as int) =~= t.key_order());
        let bd = bubbled_dag(g, pairs(tb@), t.key_order());
        assert forall|w: Seq<char>| #[trigger] edges_of(r).contains_key(w) implies edges_of(r)[w] == bd[w] by {
            assert(edges_of(r)[w] =~= bd[w]);
        }
        assert(edges_of(r) =~= bd);
    }
    r
}

/// A set with each member replaced by its bubble's bottom.
fn bottoms_of(s: &StrSet, tb: &StrMap<(String, String)>) -> (r: StrSet)
    ensures
        r@ == bottoms(s@, pairs(tb@)),
{
    let items = s.to_vec();
    let _ = s.len();
    let mut r = StrSet::new();
    let mut i: usize = 0;
    while i < items.len()
        invariant
            i <= items@.len(),
            string_views(items@) == s.member_order(),
            forall|k: Seq<char>| s@.contains(k) <==> s.member_order().contains(k),
            forall|w: Seq<char>| r@.contains(w) <==> exists|v: Seq<char>|
                string_views(items@).subrange(0, i as int).contains(v) && #[trigger] bottom_of(pairs(tb@), v) == w,
        decreases items@.len() - i,
    {
        let b = bottom_name(tb, items[i].as_str());
        r.insert(b);
        proof {
            let a = string_views(items@).subrange(0, i as int);
            let c = string_views(items@).subrange(0, i + 1);
            let x = items@[i as int]@;
            assert(c =~= a.push(x));
            assert forall|w: Seq<char>| r@.contains(w) <==> exists|v: Seq<char>| c.contains(v) && #[trigger] bottom_of(pairs(tb@), v) == w by {
                if r@.contains(w) && w != bottom_of(pairs(tb@), x) {
                    let v = choose|v: Seq<char>| a.contains(v) && #[trigger] bottom_of(pairs(tb@), v) == w;
                    let k = choose|k: int| 0 <= k < a.len() && a[k] == v;
                    assert(c[k] == v);
                }
                if w == bottom_of(pairs(tb@), x) {
                    assert(c[i as int] == x);
                }
                if exists|v: Seq<char>| c.contains(v) && #[trigger] bottom_of(pairs(tb@), v) == w {
                    let v = choose|v: Seq<char>| c.contains(v) && #[trigger] bottom_of(pairs(tb@), v) == w;
                    if v != x {
                        let k = choose|k: int| 0 <= k < c.len() && c[k] == v;
                        assert(a[k] == v);
                    }
                }
            }
        }
        i = i + 1;
    }
    proof {
        assert(string_views(items@).subrange(0, items@.len() as int) =~= string_views(items@));
        assert forall|w: Seq<char>| r@.contains(w) <==> bottoms(s@, pairs(tb@)).contains(w) by {
            if bottoms(s@, pairs(tb@)).contains(w) {
                let v = choose|v: Seq<char>| s@.contains(v) && #[trigger] bottom_of(pairs(tb@), v) == w;
                assert(s.member_order().contains(v));
            }
        }
        assert(r@ =~= bottoms(s@, pairs(tb@)));
    }
    r
}

/// The versions a bubbling renames, in the given order: those whose
/// bubble bottom is another version.
pub open spec fn renamed_versions(order: Seq<Seq<char>>, tb: Map<Seq<char>, (Seq<char>, Seq<char>)>) -> Seq<Seq<char>>
    decreases order.len(),
{
    if order.len() == 0 {
        Seq::empty()
    } else {
        let rest = renamed_versions(order.drop_last(), tb);
        if tb[order.last()].0 != order.last() { rest.push(order.last()) } else { rest }
    }
}

/// Whether `states` steps from one state to the next by pruning the
/// versions, in order (see `PrunableCrdt::version_pruned`).
pub open spec fn prune_chain<T: PrunableCrdt>(states: Seq<T>, vs: Seq<Seq<char>>) -> bool {
    &&& states.len() == vs.len() + 1
    &&& forall|i: int| 0 <= i < vs.len() ==> #[trigger] T::version_pruned(states[i], states[i + 1], vs[i])
}

/// Whether `new` is what pruning the versions, each once and in order,
/// from `old` gives.
pub open spec fn versions_pruned<T: PrunableCrdt>(old: T, new: T, vs: Seq<Seq<char>>) -> bool {
    exists|states: Seq<T>| #[trigger] prune_chain(states, vs) && states[0] == old && states.last() == new
}

/// Whether `new` is `old` with the bubbles of `tb` collapsed, `order`
/// being the order of `tb`'s keys: every version in `tb` becomes its
/// bubble's bottom in the DAG, the frontier and the acknowledged boundary;
/// parents become their bubble's top; each renamed version joins its
/// bottom's group.  With no bubble, nothing changes.  Apart from the CRDT
/// and the fissures, nothing else changes.
pub open spec fn bubbles_applied<T: PrunableCrdt>(
    old: AntimatterCrdt<T>,
    new: AntimatterCrdt<T>,
    tb: Map<Seq<char>, (Seq<char>, Seq<char>)>,
    order: Seq<Seq<char>>,
) -> bool {
    &&& tb.dom() == Set::<Seq<char>>::empty() ==> new.graph() == old.graph() && new.acked_boundary@ == old.acked_boundary@
    &&& tb.dom() != Set::<Seq<char>>::empty() ==> {
        &&& dag_view(new.t) == bubbled_dag(dag_view(old.t), tb, old.t.key_order())
        &&& new.current_version@.dom() == bottoms(old.current_version@.dom(), tb)
        &&& forall|v: Seq<char>| #[trigger] new.current_version@.contains_key(v) ==> new.current_version@[v]
        &&& new.acked_boundary@ == bottoms(old.acked_boundary@, tb)
        &&& groups_view(new.version_groups) == groups_fold(order, tb, groups_view(old.version_groups))
    }
    &&& versions_pruned(old.crdt, new.crdt, renamed_versions(order, tb))
    &&& new == (AntimatterCrdt { t: new.t, current_version: new.current_version, acked_boundary: new.acked_boundary,
        version_groups: new.version_groups, crdt: new.crdt, fissures: new.fissures, ..old })
}

/// Collapse bubbles: every version in `to_bubble` becomes its bubble's
/// bottom in the DAG, the frontier and the acknowledged boundary; parents
/// become their bubble's top; each renamed version joins its bottom's
/// group, and the CRDT prunes it.
pub fn apply_bubbles<T: PrunableCrdt>(crdt_state: &mut AntimatterCrdt<T>, to_bubble: &StrMap<(String, String)>)
    ensures
        bubbles_applied(*old(crdt_state), *final(crdt_state), pairs(to_bubble@), to_bubble.key_order()),
        final(crdt_state).fissures == old(crdt_state).fissures,
{
    if to_bubble.is_empty() {
        proof {
            assert(pairs(to_bubble@).dom() =~= Set::<Seq<char>>::empty());
            let st = seq![crdt_state.crdt];
            assert(prune_chain(st, renamed_versions(to_bubble.key_order(), pairs(to_bubble@))));
        }
        return;
    }
    proof {
        assert(pairs(to_bubble@).dom() != Set::<Seq<char>>::empty()) by {
            if pairs(to_bubble@).dom() =~= Set::<Seq<char>>::empty() {
                assert forall|k: Seq<char>| !to_bubble@.contains_key(k) by {
                    if to_bubble@.contains_key(k) {
                        assert(pairs(to_bubble@).dom().contains(k));
                    }
                }
                assert(to_bubble@ =~= Map::<Seq<char>, (String, String)>::empty());
            }
        }
    }
    let n = to_bubble.len();
    let new_t = bubble_dag(&crdt_state.t, to_bubble);
    crdt_state.t = new_t;
    let cv_keys = crdt_state.current_version.keys();
    let _ = crdt_state.current_version.len();
    let ghost cv0 = crdt_state.current_version@;
    let mut cv_set = StrSet::new();
    let mut i: usize = 0;
    while i < cv_keys.len()
        invariant
            i <= cv_keys@.len(),
            string_views(cv_keys@).to_set() == cv0.dom(),
            cv_set@ == string_views(cv_keys@).subrange(0, i as int).to_set(),
        decreases cv_keys@.len() - i,
    {
        cv_set.insert(String::from_str(cv_keys[i].as_str()));
        proof {
            let a = string_views(cv_keys@).subrange(0, i as int);
            assert(string_views(cv_keys@).subrange(0, i + 1) =~= a.push(cv_keys@[i as int]@));
            a.lemma_push_to_set_commute(cv_keys@[i as int]@);
        }
        i = i + 1;
    }
    proof {
        assert(string_views(cv_keys@).subrange(0, cv_keys@.len() as int) =~= string_views(cv_keys@));
    }
    let new_cv_set = bottoms_of(&cv_set, to_bubble);
    let items = new_cv_set.to_vec();
    let _ = new_cv_set.len();
    let mut new_cv: StrMap<bool> = StrMap::new();
    let mut j: usize = 0;
    while j < items.len()
        invariant
            j <= items@.len(),
            string_views(items@) == new_cv_set.member_order(),
            new_cv@.dom() == string_views(items@).subrange(0, j as int).to_set(),
            forall|v: Seq<char>| #[trigger] new_cv@.contains_key(v) ==> new_cv@[v],
        decreases items@.len() - j,
    {
        new_cv.insert(String::from_str(items[j].as_str()), true);
        proof {
            let a = string_views(items@).subrange(0, j as int);
            assert(string_views(items@).subrange(0, j + 1) =~= a.push(items@[j as int]@));
            a.lemma_push_to_set_commute(items@[j as int]@);
            assert(new_cv@.dom() =~= string_views(items@).subrange(0, j + 1).to_set());
        }
        j = j + 1;
    }
    proof {
        assert(string_views(items@).subrange(0, items@.len() as int) =~= string_views(items@));
        assert(string_views(items@).to_set() =~= new_cv_set@);
    }
    crdt_state.current_version = new_cv;
    let new_ab = bottoms_of(&crdt_state.acked_boundary, to_bubble);
    crdt_state.acked_boundary = new_ab;
    let ghost order = to_bubble.key_order();
    let ghost g0 = groups_view(crdt_state.version_groups);
    let mut k: usize = 0;
    proof {
        assert(order.subrange(0, 0) =~= Seq::<Seq<char>>::empty());
    }
    while k < n
        invariant
            k <= n,
            n == order.len(),
            order == to_bubble.key_order(),
            forall|x: Seq<char>| to_bubble@.contains_key(x) <==> order.contains(x),
            groups_view(crdt_state.version_groups) == groups_fold(order.subrange(0, k as int), pairs(to_bubble@), g0),
            crdt_state.id == old(crdt_state).id,
            crdt_state.fissures == old(crdt_state).fissures,
            crdt_state.conns == old(crdt_state).conns,
            crdt_state.conn_count == old(crdt_state).conn_count,
            crdt_state.proto_conns == old(crdt_state).proto_conns,
            crdt_state.ackmes == old(crdt_state).ackmes,
            crdt_state.outbox == old(crdt_state).outbox,
            crdt_state.ackme_map == old(crdt_state).ackme_map,
            crdt_state.ackme_time_est_1 == old(crdt_state).ackme_time_est_1,
            crdt_state.ackme_time_est_2 == old(crdt_state).ackme_time_est_2,
            crdt_state.ackme_current_wait_time == old(crdt_state).ackme_current_wait_time,
            crdt_state.round_trips == old(crdt_state).round_trips,
            crdt_state.crdt == old(crdt_state).crdt,
            crdt_state.t == new_t,
            crdt_state.current_version == new_cv,
            crdt_state.acked_boundary == new_ab,
        decreases n - k,
    {
        let v = to_bubble.key_at(k);
        let pair = to_bubble.value_at(k);
        proof {
            assert(order.subrange(0, k + 1).drop_last() =~= order.subrange(0, k as int));
            assert(order.subrange(0, k + 1).last() == v@);
        }
        if !str_eq(v.as_str(), pair.0.as_str()) {
            let ghost g1 = groups_view(crdt_state.version_groups);
            let mut group = match crdt_state.version_groups.remove(pair.0.as_str()) {
                Some(gr) => gr,
                None => Vec::new(),
            };
            let ghost gv0 = string_views(group@);
            proof {
                if !g1.contains_key(pair.0@) {
                    assert(gv0 =~= Seq::<Seq<char>>::empty());
                }
            }
            let x = String::from_str(v.as_str());
            let ghost before = group@;
            group.push(x);
            proof {
                assert(string_views(group@) =~= gv0.push(v@));
            }
            crdt_state.version_groups.insert(String::from_str(pair.0.as_str()), group);
            proof {
                assert(groups_view(crdt_state.version_groups) =~= g1.insert(pair.0@,
                    (if g1.contains_key(pair.0@) { g1[pair.0@] } else { Seq::empty() }).push(v@)));
            }
        }
        k = k + 1;
    }
    proof {
        assert(order.subrange(0, n as int) =~= order);
    }
    let ghost tbp = pairs(to_bubble@);
    let ghost crdt0 = crdt_state.crdt;
    let ghost mut states: Seq<T> = seq![crdt_state.crdt];
    let mut q: usize = 0;
    proof {
        assert(order.subrange(0, 0) =~= Seq::<Seq<char>>::empty());
        assert(prune_chain(states, renamed_versions(order.subrange(0, 0), tbp)));
    }
    while q < n
        invariant
            q <= n,
            n == to_bubble.key_order().len(),
            order == to_bubble.key_order(),
            tbp == pairs(to_bubble@),
            crdt0 == old(crdt_state).crdt,
            prune_chain(states, renamed_versions(order.subrange(0, q as int), tbp)),
            states[0] == crdt0,
            states.last() == crdt_state.crdt,
            crdt_state.id == old(crdt_state).id,
            crdt_state.fissures == old(crdt_state).fissures,
            crdt_state.conns == old(crdt_state).conns,
            crdt_state.conn_count == old(crdt_state).conn_count,
            crdt_state.proto_conns == old(crdt_state).proto_conns,
            crdt_state.ackmes == old(crdt_state).ackmes,
            crdt_state.outbox == old(crdt_state).outbox,
            crdt_state.ackme_map == old(crdt_state).ackme_map,
            crdt_state.ackme_time_est_1 == old(crdt_state).ackme_time_est_1,
            crdt_state.ackme_time_est_2 == old(crdt_state).ackme_time_est_2,
            crdt_state.ackme_current_wait_time == old(crdt_state).ackme_current_wait_time,
            crdt_state.round_trips == old(crdt_state).round_trips,
            crdt_state.t == new_t,
            crdt_state.current_version == new_cv,
            crdt_state.acked_boundary == new_ab,
            groups_view(crdt_state.version_groups) == groups_fold(order, pairs(to_bubble@), g0),
        decreases n - q,
    {
        let v = to_bubble.key_at(q);
        let pair = to_bubble.value_at(q);
        let ghost pre = order.subrange(0, q as int);
        let ghost post = order.subrange(0, q + 1);
        let ghost rv = renamed_versions(pre, tbp);
        proof {
            assert(post.drop_last() =~= pre);
            assert(post.last() == v@);
            assert(tbp[v@].0 == pair.0@);
        }
        if !str_eq(v.as_str(), pair.0.as_str()) {
            let ghost mid = crdt_state.crdt;
            crdt_state.crdt.prune(v.as_str());
            proof {
                let old_states = states;
                states = states.push(crdt_state.crdt);
                assert(renamed_versions(post, tbp) == rv.push(v@));
                assert forall|i: int| 0 <= i < rv.push(v@).len() implies
                    #[trigger] T::version_pruned(states[i], states[i + 1], rv.push(v@)[i]) by {
                    if i < rv.len() {
                        assert(rv.push(v@)[i] == rv[i]);
                        assert(states[i] == old_states[i]);
                        assert(states[i + 1] == old_states[i + 1]);
                    } else {
                        assert(states[i] == mid);
                    }
                }
            }
        } else {
            proof {
                assert(renamed_versions(post, tbp) == rv);
            }
        }
        q = q + 1;
    }
    proof {
        assert(order.subrange(0, n as int) =~= order);
    }
}

/// Whether the children of `v` make a child set: there are at least two,
/// and all of them are in the DAG with the same parents.
pub open spec fn is_child_set(g: Map<Seq<char>, Set<Seq<char>>>, ch: Map<Seq<char>, Set<Seq<char>>>, v: Seq<char>) -> bool {
    &&& ch.contains_key(v)
    &&& ch[v].len() >= 2
    &&& forall|c1: Seq<char>, c2: Seq<char>| ch[v].contains(c1) && ch[v].contains(c2) ==> #[trigger] same_parents(g, c1, c2)
}

/// Whether two versions are in the DAG with the same parents.
pub open spec fn same_parents(g: Map<Seq<char>, Set<Seq<char>>>, c1: Seq<char>, c2: Seq<char>) -> bool {
    g.contains_key(c1) && g.contains_key(c2) && g[c1] == g[c2]
}

/// The child sets found going through `order`, skipping the versions in
/// `skip`: each child of a version whose children make a child set gets
/// that set (a later version overriding an earlier one).
pub open spec fn child_sets_fold(
    order: Seq<Seq<char>>,
    skip: Set<Seq<char>>,
    g: Map<Seq<char>, Set<Seq<char>>>,
    ch: Map<Seq<char>, Set<Seq<char>>>,
) -> Map<Seq<char>, Set<Seq<char>>>
    decreases order.len(),
{
    if order.len() == 0 {
        Map::empty()
    } else {
        let m = child_sets_fold(order.drop_last(), skip, g, ch);
        let v = order.last();
        if !skip.contains(v) && is_child_set(g, ch, v) {
            m.union_prefer_right(Map::new(|c: Seq<char>| ch[v].contains(c), |c: Seq<char>| ch[v]))
        } else {
            m
        }
    }
}

/// Whether every member of every child set maps to `true`.
pub open spec fn members_all_true(m: Map<Seq<char>, ChildSet>) -> bool {
    forall|c: Seq<char>, k: Seq<char>| m.contains_key(c) && #[trigger] m[c].members@.contains_key(k) ==> m[c].members@[k]
}

/// Whether the members of every child set are those of its key order.
pub open spec fn members_keyed(m: Map<Seq<char>, ChildSet>) -> bool {
    forall|c: Seq<char>| #[trigger] m.contains_key(c) ==> m[c].members@.dom() == m[c].members.key_order().to_set()
}

/// The members of each child set.
pub open spec fn child_sets_view(m: StrMap<ChildSet>) -> Map<Seq<char>, Set<Seq<char>>> {
    m@.map_values(|c: ChildSet| c.members@.dom())
}

/// The versions that `get_parent_and_child_sets` skips: the frontier, when
/// it has at least two versions.
pub open spec fn frontier_set(cv: Map<Seq<char>, bool>) -> Set<Seq<char>> {
    if cv.dom().len() >= 2 { cv.dom() } else { Set::empty() }
}

/// A map with the given keys, all `true`.
pub(crate) fn true_map(keys: &Vec<String>) -> (m: StrMap<bool>)
    ensures
        m@.dom() == string_views(keys@).to_set(),
        forall|k: Seq<char>| #[trigger] m@.contains_key(k) ==> m@[k],
{
    let mut m: StrMap<bool> = StrMap::new();
    let mut i: usize = 0;
    while i < keys.len()
        invariant
            i <= keys@.len(),
            m@.dom() == string_views(keys@).subrange(0, i as int).to_set(),
            forall|k: Seq<char>| #[trigger] m@.contains_key(k) ==> m@[k],
        decreases keys@.len() - i,
    {
        m.insert(String::from_str(keys[i].as_str()), true);
        proof {
            let a = string_views(keys@).subrange(0, i as int);
            assert(string_views(keys@).subrange(0, i + 1) =~= a.push(keys@[i as int]@));
            a.lemma_push_to_set_commute(keys@[i as int]@);
            assert(m@.dom() =~= string_views(keys@).subrange(0, i + 1).to_set());
        }
        i = i + 1;
    }
    proof {
        assert(string_views(keys@).subrange(0, keys@.len() as int) =~= string_views(keys@));
    }
    m
}

/// Whether the children of `v` make a child set.
fn check_child_set(t: &StrMap<StrSet>, kids: &StrSet, Ghost(v): Ghost<Seq<char>>, Ghost(ch): Ghost<Map<Seq<char>, Set<Seq<char>>>>) -> (b: bool)
    requires
        ch.contains_key(v),
        ch[v] == kids@,
    ensures
        b == is_child_set(dag_view(*t), ch, v),
{
    let ghost g = dag_view(*t);
    let n = kids.len();
    if n < 2 {
        return false;
    }
    let items = kids.to_vec();
    let first = &items[0];
    proof {
        assert(string_views(items@)[0] == first@);
        assert(kids.member_order().contains(first@));
    }
    let fp = match t.get(first.as_str()) {
        Some(p) => p,
        None => {
            proof {
                assert(!(g.contains_key(first@)));
                if is_child_set(g, ch, v) {
                    assert(same_parents(g, first@, first@));
                }
            }
            return false;
        },
    };
    let mut i: usize = 0;
    while i < items.len()
        invariant
            i <= items@.len(),
            string_views(items@) == kids.member_order(),
            forall|k: Seq<char>| kids@.contains(k) <==> kids.member_order().contains(k),
            g == dag_view(*t),
            g.contains_key(first@) && g[first@] == fp@,
            kids@.contains(first@),
            ch.contains_key(v),
            ch[v] == kids@,
            forall|j: int| 0 <= j < i ==> g.contains_key(#[trigger] string_views(items@)[j]) && g[string_views(items@)[j]] == fp@,
        decreases items@.len() - i,
    {
        let same = match t.get(items[i].as_str()) {
            Some(p) => crate::sequence_crdt::same_members(p, fp),
            None => false,
        };
        if !same {
            proof {
                let c = string_views(items@)[i as int];
                assert(kids@.contains(c));
                assert(!(g.contains_key(c) && g.contains_key(first@) && g[c] == g[first@]));
                if is_child_set(g, ch, v) {
                    assert(same_parents(g, c, first@));
                }
            }
            return false;
        }
        i = i + 1;
    }
    proof {
        assert forall|c1: Seq<char>, c2: Seq<char>| kids@.contains(c1) && kids@.contains(c2)
            implies #[trigger] same_parents(g, c1, c2) by {
            let j1 = choose|j: int| 0 <= j < kids.member_order().len() && kids.member_order()[j] == c1;
            let j2 = choose|j: int| 0 <= j < kids.member_order().len() && kids.member_order()[j] == c2;
            assert(g[string_views(items@)[j1]] == fp@);
            assert(g[string_views(items@)[j2]] == fp@);
        }
        assert(kids@.len() == n);
    }
    true
}

/// The parent sets (the frontier, when it has at least two versions, for
/// each of its versions) and the child sets of the DAG.
pub fn get_parent_and_child_sets<T: PrunableCrdt>(crdt_state: &AntimatterCrdt<T>, children: &StrMap<StrSet>)
    -> (r: (StrMap<ParentSet>, StrMap<ChildSet>))
    ensures
        forall|v: Seq<char>| r.0@.contains_key(v) <==> frontier_set(crdt_state.current_version@).contains(v),
        forall|v: Seq<char>| #[trigger] r.0@.contains_key(v) ==> r.0@[v].members@ == crdt_state.current_version@
            && r.0@[v].members.key_order() == crdt_state.current_version.key_order() && !r.0@[v].done,
        child_sets_view(r.1) == child_sets_fold(crdt_state.t.key_order(), frontier_set(crdt_state.current_version@),
            dag_view(crdt_state.t), edges_of(*children)),
        members_all_true(r.1@),
        members_keyed(r.1@),
{
    let ghost g = dag_view(crdt_state.t);
    let ghost ch = edges_of(*children);
    let ghost cv = crdt_state.current_version@;
    let ncv = crdt_state.current_version.len();
    let mut parent_sets: StrMap<ParentSet> = StrMap::new();
    let skip_frontier = ncv >= 2;
    if skip_frontier {
        let keys = crdt_state.current_version.keys();
        let mut i: usize = 0;
        while i < keys.len()
            invariant
                i <= keys@.len(),
                string_views(keys@) == crdt_state.current_version.key_order(),
                forall|v: Seq<char>| parent_sets@.contains_key(v) <==> string_views(keys@).subrange(0, i as int).contains(v),
                forall|v: Seq<char>| #[trigger] parent_sets@.contains_key(v) ==> parent_sets@[v].members@ == crdt_state.current_version@
                    && parent_sets@[v].members.key_order() == crdt_state.current_version.key_order() && !parent_sets@[v].done,
            decreases keys@.len() - i,
        {
            parent_sets.insert(String::from_str(keys[i].as_str()), ParentSet { members: crdt_state.current_version.copy(), done: false });
            proof {
                let a = string_views(keys@).subrange(0, i as int);
                let b = string_views(keys@).subrange(0, i + 1);
                assert(b =~= a.push(keys@[i as int]@));
                assert forall|v: Seq<char>| parent_sets@.contains_key(v) <==> b.contains(v) by {
                    if b.contains(v) && v != keys@[i as int]@ {
                        let k = choose|k: int| 0 <= k < b.len() && b[k] == v;
                        assert(a[k] == v);
                    }
                    if a.contains(v) {
                        let k = choose|k: int| 0 <= k < a.len() && a[k] == v;
                        assert(b[k] == v);
                    }
                    if v == keys@[i as int]@ {
                        assert(b[i as int] == v);
                    }
                }
            }
            i = i + 1;
        }
        proof {
            assert(string_views(keys@).subrange(0, keys@.len() as int) =~= string_views(keys@));
        }
    }
    proof {
        assert forall|v: Seq<char>| parent_sets@.contains_key(v) <==> frontier_set(cv).contains(v) by {
            if !skip_frontier {
                assert(parent_sets@.dom() =~= Set::<Seq<char>>::empty());
            }
        }
    }
    let n = crdt_state.t.len();
    let mut child_sets: StrMap<ChildSet> = StrMap::new();
    let ghost order = crdt_state.t.key_order();
    let ghost skip = frontier_set(cv);
    let mut i: usize = 0;
    proof {
        assert(order.subrange(0, 0) =~= Seq::<Seq<char>>::empty());
        assert(child_sets_view(child_sets) =~= Map::<Seq<char>, Set<Seq<char>>>::empty());
    }
    while i < n
        invariant
            i <= n,
            n == order.len(),
            order == crdt_state.t.key_order(),
            g == dag_view(crdt_state.t),
            ch == edges_of(*children),
            cv == crdt_state.current_version@,
            skip == frontier_set(cv),
            skip_frontier == (cv.dom().len() >= 2),
            child_sets_view(child_sets) == child_sets_fold(order.subrange(0, i as int), skip, g, ch),
            members_all_true(child_sets@),
            members_keyed(child_sets@),
        decreases n - i,
    {
        let v = crdt_state.t.key_at(i);
        let ghost pre = order.subrange(0, i as int);
        proof {
            assert(order.subrange(0, i + 1).drop_last() =~= pre);
            assert(order.subrange(0, i + 1).last() == v@);
        }
        let skipped = skip_frontier && crdt_state.current_version.contains_key(v.as_str());
        if !skipped {
            match children.get(v.as_str()) {
                Some(kids) => {
                    if check_child_set(&crdt_state.t, kids, Ghost(v@), Ghost(ch)) {
                        let kid_list = kids.to_vec();
                        let _ = kids.len();
                        let members = true_map(&kid_list);
                        let _ = members.len();
                        let ghost m0 = child_sets_view(child_sets);
                        proof {
                            assert(string_views(kid_list@).to_set() =~= kids@);
                            assert(members@.dom() =~= members.key_order().to_set());
                        }
                        let mut j: usize = 0;
                        while j < kid_list.len()
                            invariant
                                j <= kid_list@.len(),
                                string_views(kid_list@).to_set() == kids@,
                                members@.dom() == kids@,
                                forall|k: Seq<char>| #[trigger] members@.contains_key(k) ==> members@[k],
                                child_sets_view(child_sets) == m0.union_prefer_right(Map::new(
                                    |c: Seq<char>| string_views(kid_list@).subrange(0, j as int).contains(c), |c: Seq<char>| kids@)),
                                members_all_true(child_sets@),
                                members_keyed(child_sets@),
                                members@.dom() == members.key_order().to_set(),
                            decreases kid_list@.len() - j,
                        {
                            let ghost before = child_sets_view(child_sets);
                            let ghost raw0 = child_sets@;
                            proof {
                                assert(members_all_true(raw0));
                            }
                            let cset = ChildSet { members: members.copy() };
                            let ghost cs_val = cset;
                            child_sets.insert(String::from_str(kid_list[j].as_str()), cset);
                            proof {
                                assert(child_sets@ == raw0.insert(kid_list@[j as int]@, cs_val));
                                assert(cs_val.members@ == members@);
                                assert(child_sets_view(child_sets) =~= before.insert(kid_list@[j as int]@, kids@));
                                assert(cs_val.members.key_order() == members.key_order());
                                assert forall|c: Seq<char>| #[trigger] child_sets@.contains_key(c) implies
                                    child_sets@[c].members@.dom() == child_sets@[c].members.key_order().to_set() by {
                                    if c != kid_list@[j as int]@ {
                                        assert(child_sets@[c] == raw0[c]);
                                        assert(raw0.contains_key(c));
                                    }
                                }
                                assert forall|c: Seq<char>, k: Seq<char>| child_sets@.contains_key(c) && #[trigger] child_sets@[c].members@.contains_key(k)
                                    implies child_sets@[c].members@[k] by {
                                    assert(members_all_true(raw0));
                                    if c != kid_list@[j as int]@ {
                                        assert(child_sets@[c] == raw0[c]);
                                        assert(raw0.contains_key(c) && raw0[c].members@.contains_key(k));
                                    } else {
                                        assert(child_sets@[c].members@ == members@);
                                        assert(members@.contains_key(k));
                                    }
                                }
                                let a = string_views(kid_list@).subrange(0, j as int);
                                let b = string_views(kid_list@).subrange(0, j + 1);
                                assert(b =~= a.push(kid_list@[j as int]@));
                                assert forall|c: Seq<char>| b.contains(c) == (a.contains(c) || c == kid_list@[j as int]@) by {
                                    if b.contains(c) && c != kid_list@[j as int]@ {
                                        let k = choose|k: int| 0 <= k < b.len() && b[k] == c;
                                        assert(a[k] == c);
                                    }
                                    if a.contains(c) {
                                        let k = choose|k: int| 0 <= k < a.len() && a[k] == c;
                                        assert(b[k] == c);
                                    }
                                    if c == kid_list@[j as int]@ {
                                        assert(b[j as int] == c);
                                    }
                                }
                                assert(child_sets_view(child_sets) =~= m0.union_prefer_right(Map::new(
                                    |c: Seq<char>| b.contains(c), |c: Seq<char>| kids@)));
                            }
                            j = j + 1;
                        }
                        proof {
                            assert(string_views(kid_list@).subrange(0, kid_list@.len() as int) =~= string_views(kid_list@));
                            assert(Map::new(|c: Seq<char>| string_views(kid_list@).contains(c), |c: Seq<char>| kids@)
                                =~= Map::new(|c: Seq<char>| ch[v@].contains(c), |c: Seq<char>| ch[v@]));
                            assert(!skip.contains(v@));
                        }
                    } else {
                        proof {
                            assert(!is_child_set(g, ch, v@));
                        }
                    }
                },
                None => {
                    proof {
                        assert(!ch.contains_key(v@));
                    }
                },
            }
        } else {
            proof {
                assert(skip.contains(v@));
            }
        }
        i = i + 1;
    }
    proof {
        assert(order.subrange(0, n as int) =~= order);
    }
    (parent_sets, child_sets)
}

/// The search for a bubble's top from a state of the search: versions
/// still expected, versions seen, the queue (top last) and the last top
/// found.  Each version taken from the queue stops the search if it is
/// unknown or restricted, is passed over if seen or if one of its children
/// is not seen yet, and is otherwise seen: when nothing more is expected
/// it is a top; its parents become expected and queued; and when it has a
/// child set, all seen, whose common parents are exactly what is expected,
/// that child set is a top.  Without restriction the first top ends the
/// search.
pub open spec fn bubble_run(
    t: StrMap<StrSet>,
    ch: Map<Seq<char>, Set<Seq<char>>>,
    cs: Map<Seq<char>, Set<Seq<char>>>,
    cso: Map<Seq<char>, Seq<Seq<char>>>,
    r: Option<Set<Seq<char>>>,
    expecting: Set<Seq<char>>,
    seen: Set<Seq<char>>,
    queue: Seq<Seq<char>>,
    last: Option<Seq<Seq<char>>>,
) -> Option<Seq<Seq<char>>>
    decreases t@.dom().difference(seen).len(), queue.len(),
    when t@.dom().finite()
{
    if queue.len() == 0 {
        last
    } else {
        let cur = queue.last();
        let q = queue.drop_last();
        if !t@.contains_key(cur) {
            if r is None { None } else { last }
        } else if r is Some && r->0.contains(cur) {
            last
        } else if seen.contains(cur) {
            bubble_run(t, ch, cs, cso, r, expecting, seen, q, last)
        } else if ch.contains_key(cur) && !ch[cur].subset_of(seen) {
            bubble_run(t, ch, cs, cso, r, expecting, seen, q, last)
        } else {
            let seen2 = seen.insert(cur);
            let exp2 = expecting.remove(cur);
            let last2 = if exp2 == Set::<Seq<char>>::empty() { Some(seq![cur]) } else { last };
            if exp2 == Set::<Seq<char>>::empty() && r is None {
                last2
            } else {
                let ps = t@[cur]@;
                let exp3 = exp2.union(ps);
                let q3 = q + parent_order(t, cur);
                let hit = cs.contains_key(cur) && cs[cur].subset_of(seen2) && exp3 == ps;
                let last3 = if hit { Some(cso[cur]) } else { last2 };
                if hit && r is None {
                    last3
                } else {
                    proof {
                        lemma_difference_insert(t@.dom(), seen, cur);
                    }
                    bubble_run(t, ch, cs, cso, r, exp3, seen2, q3, last3)
                }
            }
        }
    }
}

/// The children of the bottom versions: they count as seen from the start.
pub open spec fn initial_seen(ch: Map<Seq<char>, Set<Seq<char>>>, bottom: Set<Seq<char>>) -> Set<Seq<char>> {
    Set::new(|k: Seq<char>| exists|v: Seq<char>| bottom.contains(v) && #[trigger] edge(ch, v, k))
}

/// The restriction as a set, if any.
pub open spec fn restriction(r: Option<&StrMap<bool>>) -> Option<Set<Seq<char>>> {
    match r {
        Some(m) => Some(m@.dom()),
        None => None,
    }
}

/// The key order of an optional map.
pub open spec fn opt_order(o: Option<StrMap<bool>>) -> Option<Seq<Seq<char>>> {
    match o {
        Some(m) => Some(m.key_order()),
        None => None,
    }
}

/// Whether an optional map's keys are those of its key order.
pub open spec fn opt_keyed(o: Option<StrMap<bool>>) -> bool {
    match o {
        Some(m) => m@.dom() == m.key_order().to_set(),
        None => true,
    }
}

/// The member order of each child set.
pub open spec fn child_set_orders(m: StrMap<ChildSet>) -> Map<Seq<char>, Seq<Seq<char>>> {
    m@.map_values(|c: ChildSet| c.members.key_order())
}

/// Whether an optional map has only `true` values.
pub open spec fn opt_all_true(o: Option<StrMap<bool>>) -> bool {
    match o {
        Some(m) => all_true(m@),
        None => true,
    }
}

/// Whether every key of the map maps to `true`.
pub open spec fn all_true(m: Map<Seq<char>, bool>) -> bool {
    forall|k: Seq<char>| #[trigger] m.contains_key(k) ==> m[k]
}

/// Search for the top of a bubble whose bottom is `bottom`, going down
/// from the bottom through parents.
pub fn find_one_bubble<T: PrunableCrdt>(
    crdt_state: &AntimatterCrdt<T>,
    bottom: &StrMap<bool>,
    children: &StrMap<StrSet>,
    child_sets: &StrMap<ChildSet>,
    restricted: Option<&StrMap<bool>>,
) -> (top: Option<StrMap<bool>>)
    requires
        members_all_true(child_sets@),
    ensures
        match top {
            Some(m) => bubble_run(crdt_state.t, edges_of(*children), child_sets_view(*child_sets), child_set_orders(*child_sets),
                restriction(restricted), bottom@.dom(), initial_seen(edges_of(*children), bottom@.dom()), bottom.key_order(), None)
                == Some(m.key_order()) && m@.dom() == m.key_order().to_set() && all_true(m@),
            None => bubble_run(crdt_state.t, edges_of(*children), child_sets_view(*child_sets), child_set_orders(*child_sets),
                restriction(restricted), bottom@.dom(), initial_seen(edges_of(*children), bottom@.dom()), bottom.key_order(), None) is None,
        },
{
    let t = &crdt_state.t;
    let _ = t.len();
    let ghost ch = edges_of(*children);
    let ghost cs = child_sets_view(*child_sets);
    let ghost cso = child_set_orders(*child_sets);
    let ghost r = restriction(restricted);
    let ghost goal = bubble_run(*t, ch, cs, cso, r, bottom@.dom(), initial_seen(ch, bottom@.dom()), bottom.key_order(), None);
    let mut expecting = bottom.copy();
    let nb = bottom.len();
    let bkeys = bottom.keys();
    let mut seen = StrSet::new();
    let mut i: usize = 0;
    while i < bkeys.len()
        invariant
            i <= bkeys@.len(),
            string_views(bkeys@) == bottom.key_order(),
            ch == edges_of(*children),
            forall|k: Seq<char>| seen@.contains(k) <==> exists|v: Seq<char>|
                string_views(bkeys@).subrange(0, i as int).contains(v) && #[trigger] edge(ch, v, k),
        decreases bkeys@.len() - i,
    {
        let ghost s0 = seen@;
        let ghost pre = string_views(bkeys@).subrange(0, i as int);
        let ghost post = string_views(bkeys@).subrange(0, i + 1);
        let ghost x = bkeys@[i as int]@;
        proof {
            assert(post =~= pre.push(x));
            assert forall|u: Seq<char>| post.contains(u) == (pre.contains(u) || u == x) by {
                if post.contains(u) && u != x {
                    let k = choose|k: int| 0 <= k < post.len() && post[k] == u;
                    assert(pre[k] == u);
                }
                if pre.contains(u) {
                    let k = choose|k: int| 0 <= k < pre.len() && pre[k] == u;
                    assert(post[k] == u);
                }
                if u == x {
                    assert(post[i as int] == u);
                }
            }
        }
        match children.get(bkeys[i].as_str()) {
            Some(kids) => {
                union_into(&mut seen, kids);
                proof {
                    assert forall|k: Seq<char>| seen@.contains(k) <==> exists|v: Seq<char>| post.contains(v) && #[trigger] edge(ch, v, k) by {
                        if s0.contains(k) {
                            let v = choose|v: Seq<char>| pre.contains(v) && #[trigger] edge(ch, v, k);
                            assert(post.contains(v));
                        }
                        if kids@.contains(k) {
                            assert(edge(ch, x, k));
                        }
                        if exists|v: Seq<char>| post.contains(v) && #[trigger] edge(ch, v, k) {
                            let v = choose|v: Seq<char>| post.contains(v) && #[trigger] edge(ch, v, k);
                            if v != x {
                                assert(pre.contains(v));
                            }
                        }
                    }
                }
            },
            None => {
                proof {
                    assert forall|k: Seq<char>| seen@.contains(k) <==> exists|v: Seq<char>| post.contains(v) && #[trigger] edge(ch, v, k) by {
                        if s0.contains(k) {
                            let v = choose|v: Seq<char>| pre.contains(v) && #[trigger] edge(ch, v, k);
                            assert(post.contains(v));
                        }
                        if exists|v: Seq<char>| post.contains(v) && #[trigger] edge(ch, v, k) {
                            let v = choose|v: Seq<char>| post.contains(v) && #[trigger] edge(ch, v, k);
                            if v != x {
                                assert(pre.contains(v));
                            }
                        }
                    }
                }
            },
        }
        i = i + 1;
    }
    proof {
        assert(string_views(bkeys@).subrange(0, bkeys@.len() as int) =~= string_views(bkeys@));
        assert forall|k: Seq<char>| seen@.contains(k) <==> initial_seen(ch, bottom@.dom()).contains(k) by {
            if initial_seen(ch, bottom@.dom()).contains(k) {
                let v = choose|v: Seq<char>| bottom@.dom().contains(v) && #[trigger] edge(ch, v, k);
                assert(bottom.key_order().contains(v));
            }
        }
        assert(seen@ =~= initial_seen(ch, bottom@.dom()));
    }
    let mut queue: Vec<String> = bkeys;
    let mut last_top: Option<StrMap<bool>> = None;
    loop
        invariant
            t@.dom().finite(),
            *t == crdt_state.t,
            goal == bubble_run(crdt_state.t, ch, cs, cso, r, bottom@.dom(), initial_seen(ch, bottom@.dom()), bottom.key_order(), None),
            ch == edges_of(*children),
            cs == child_sets_view(*child_sets),
            cso == child_set_orders(*child_sets),
            r == restriction(restricted),
            members_all_true(child_sets@),
            bubble_run(*t, ch, cs, cso, r, expecting@.dom(), seen@, string_views(queue@),
                opt_order(last_top)) == goal,
            opt_all_true(last_top),
            opt_keyed(last_top),
        decreases t@.dom().difference(seen@).len(), queue@.len(),
    {
        let ghost q0 = string_views(queue@);
        if queue.len() == 0 {
            proof {
                assert(q0.len() == 0);
                assert(bubble_run(*t, ch, cs, cso, r, expecting@.dom(), seen@, q0, opt_order(last_top)) == opt_order(last_top));
            }
            return last_top;
        }
        let cur = queue.pop().unwrap();
        proof {
            assert(string_views(queue@) =~= q0.drop_last());
            assert(q0.last() == cur@);
        }
        if !t.contains_key(cur.as_str()) {
            proof {
                assert(bubble_run(*t, ch, cs, cso, r, expecting@.dom(), seen@, q0, opt_order(last_top))
                    == (if r is None { None } else { opt_order(last_top) }));
            }
            if restricted.is_none() {
                return None;
            }
            return last_top;
        }
        if let Some(rm) = restricted {
            if rm.contains_key(cur.as_str()) {
                proof {
                    assert(bubble_run(*t, ch, cs, cso, r, expecting@.dom(), seen@, q0, opt_order(last_top)) == opt_order(last_top));
                }
                return last_top;
            }
        }
        if seen.contains(cur.as_str()) {
            continue;
        }
        let unseen_kid = match children.get(cur.as_str()) {
            Some(kids) => {
                let items = kids.to_vec();
                let _ = kids.len();
                let mut all_seen = true;
                let mut k: usize = 0;
                while k < items.len()
                    invariant
                        k <= items@.len(),
                        string_views(items@) == kids.member_order(),
                        forall|x: Seq<char>| kids@.contains(x) <==> kids.member_order().contains(x),
                        all_seen == forall|j: int| 0 <= j < k ==> seen@.contains(#[trigger] string_views(items@)[j]),
                    decreases items@.len() - k,
                {
                    proof {
                        assert(string_views(items@)[k as int] == items@[k as int]@);
                    }
                    if !seen.contains(items[k].as_str()) {
                        all_seen = false;
                    }
                    k = k + 1;
                }
                proof {
                    assert(all_seen == kids@.subset_of(seen@)) by {
                        if all_seen {
                            assert forall|x: Seq<char>| kids@.contains(x) implies seen@.contains(x) by {
                                let j = choose|j: int| 0 <= j < kids.member_order().len() && kids.member_order()[j] == x;
                                assert(seen@.contains(string_views(items@)[j]));
                            }
                        } else {
                            let j = choose|j: int| 0 <= j < k && !seen@.contains(#[trigger] string_views(items@)[j]);
                            assert(kids@.contains(string_views(items@)[j]));
                        }
                    }
                }
                !all_seen
            },
            None => false,
        };
        if unseen_kid {
            continue;
        }
        let ghost seen0 = seen@;
        let ghost exp0 = expecting@.dom();
        seen.insert(String::from_str(cur.as_str()));
        expecting.remove(cur.as_str());
        proof {
            assert(expecting@.dom() =~= exp0.remove(cur@));
            lemma_difference_insert(t@.dom(), seen0, cur@);
        }
        if expecting.is_empty() {
            let mut m: StrMap<bool> = StrMap::new();
            m.insert(String::from_str(cur.as_str()), true);
            proof {
                assert(m@.dom() =~= set![cur@]);
                assert(m.key_order() =~= seq![cur@]);
                assert(seq![cur@].to_set() =~= set![cur@]) by {
                    assert(seq![cur@][0] == cur@);
                    assert forall|x: Seq<char>| seq![cur@].contains(x) implies x == cur@ by {
                        let j = choose|j: int| 0 <= j < 1 && seq![cur@][j] == x;
                    }
                }
                assert(expecting@.dom() =~= Set::<Seq<char>>::empty());
            }
            last_top = Some(m);
            if restricted.is_none() {
                return last_top;
            }
        } else {
            proof {
                assert(expecting@.dom() != Set::<Seq<char>>::empty()) by {
                    if expecting@.dom() =~= Set::<Seq<char>>::empty() {
                        assert(expecting@ =~= Map::<Seq<char>, bool>::empty());
                    }
                }
            }
        }
        let ghost exp2 = expecting@.dom();
        let ghost qa = string_views(queue@);
        let parents = t.get(cur.as_str()).unwrap();
        let pv = parents.to_vec();
        let _ = parents.len();
        let mut j: usize = 0;
        while j < pv.len()
            invariant
                j <= pv@.len(),
                string_views(pv@) == parents.member_order(),
                expecting@.dom() == exp2.union(string_views(pv@).subrange(0, j as int).to_set()),
                string_views(queue@) == qa + string_views(pv@).subrange(0, j as int),
            decreases pv@.len() - j,
        {
            expecting.insert(String::from_str(pv[j].as_str()), true);
            let ghost qb = queue@;
            let x = String::from_str(pv[j].as_str());
            queue.push(x);
            proof {
                assert(queue@ == qb.push(x));
                assert(string_views(queue@) =~= string_views(qb).push(x@));
                let a = string_views(pv@).subrange(0, j as int);
                assert(string_views(pv@).subrange(0, j + 1) =~= a.push(pv@[j as int]@));
                a.lemma_push_to_set_commute(pv@[j as int]@);
                assert(expecting@.dom() =~= exp2.union(string_views(pv@).subrange(0, j + 1).to_set()));
                assert(string_views(queue@) =~= qa + string_views(pv@).subrange(0, j + 1));
            }
            j = j + 1;
        }
        proof {
            assert(string_views(pv@).subrange(0, pv@.len() as int) =~= string_views(pv@));
            assert(string_views(pv@).to_set() =~= parents@);
            assert(parent_order(*t, cur@) == string_views(pv@));
        }
        match child_sets.get(cur.as_str()) {
            Some(cset) => {
                let members = cset.members.keys();
                let _ = cset.members.len();
                let mut all_seen = true;
                let mut k: usize = 0;
                while k < members.len()
                    invariant
                        k <= members@.len(),
                        string_views(members@) == cset.members.key_order(),
                        forall|x: Seq<char>| cset.members@.contains_key(x) <==> cset.members.key_order().contains(x),
                        all_seen == forall|q: int| 0 <= q < k ==> seen@.contains(#[trigger] string_views(members@)[q]),
                    decreases members@.len() - k,
                {
                    proof {
                        assert(string_views(members@)[k as int] == members@[k as int]@);
                    }
                    if !seen.contains(members[k].as_str()) {
                        all_seen = false;
                    }
                    k = k + 1;
                }
                let same = all_seen && {
                    let ev = expecting.keys();
                    let _ = expecting.len();
                    let ek = key_set(&ev);
                    proof {
                        assert(string_views(ev@).to_set() =~= expecting@.dom());
                    }
                    crate::sequence_crdt::same_members(&ek, parents)
                };
                proof {
                    assert(all_seen == cs[cur@].subset_of(seen@)) by {
                        assert(cs[cur@] == cset.members@.dom());
                        if all_seen {
                            assert forall|x: Seq<char>| cs[cur@].contains(x) implies seen@.contains(x) by {
                                assert(cset.members@.contains_key(x));
                                assert(cset.members.key_order().contains(x));
                                let q = choose|q: int| 0 <= q < cset.members.key_order().len() && cset.members.key_order()[q] == x;
                                assert(string_views(members@)[q] == x);
                                assert(seen@.contains(string_views(members@)[q]));
                            }
                        } else {
                            let q = choose|q: int| 0 <= q < k && !seen@.contains(#[trigger] string_views(members@)[q]);
                            assert(cset.members.key_order()[q] == string_views(members@)[q]);
                            assert(cset.members.key_order().contains(string_views(members@)[q]));
                            assert(cset.members@.contains_key(string_views(members@)[q]));
                            assert(cs[cur@].contains(string_views(members@)[q]));
                        }
                    }
                }
                if same {
                    last_top = Some(cset.members.copy());
                    proof {
                        assert(cset.members.key_order().to_set() =~= cset.members@.dom());
                        assert(cso[cur@] == cset.members.key_order());
                        assert(members_all_true(child_sets@));
                        assert forall|x: Seq<char>| #[trigger] cset.members@.contains_key(x) implies cset.members@[x] by {
                            assert(child_sets@[cur@] == *cset);
                        }
                    }
                    if restricted.is_none() {
                        return last_top;
                    }
                }
            },
            None => {},
        }
    }
}
} // verus!
