//! Antimatter's exchanges with peers: subscriptions, disconnections, local
//! updates, acknowledgement requests, and what a received message does.
use vstd::prelude::*;
use crate::collections::{StrMap, StrSet, str_eq, string_views};
use crate::antimatter::{
    AntimatterCrdt, PrunableCrdt, Fissure, Message, Patch, ConnectionState, AckmeState, Version,
    fissure_key, fissure_key_spec, add_graph, mark_run, parent_order, lemma_difference_insert,
    GraphModel, insert_fissures, patches_applied, patch_view,
};
use crate::prune::pruned;
use crate::server::BraidError;
use crate::text::{decimal, push_char};

verus! {

/// Whether two fissures hold the same values.
pub open spec fn same_fissure(x: Fissure, y: Fissure) -> bool {
    &&& x.a@ == y.a@
    &&& x.b@ == y.b@
    &&& x.conn@ == y.conn@
    &&& x.versions@ == y.versions@
    &&& x.time == y.time
    &&& x.t == y.t
}

impl Fissure {
    /// An equal copy.
    pub fn duplicate(&self) -> (r: Fissure)
        ensures
            same_fissure(r, *self),
    {
        Fissure {
            a: String::from_str(self.a.as_str()),
            b: String::from_str(self.b.as_str()),
            conn: String::from_str(self.conn.as_str()),
            versions: self.versions.copy(),
            time: self.time,
            t: self.t,
        }
    }
}

/// Whether `m` is an update of `version` with `parents`, no patches, the
/// acknowledgement request `ackme`, for `conn`.
pub open spec fn is_update(m: Message, version: Seq<char>, parents: Map<Seq<char>, bool>, ackme: Seq<char>, conn: Seq<char>) -> bool {
    match m {
        Message::Update { version: v, parents: p, patches, conn: c, ackme: a } =>
            v@ == version && p@ == parents && patches@.len() == 0 && c@ == conn && a is Some && a->0@ == ackme,
        _ => false,
    }
}

/// Whether `m` says, for `conn`, that the acknowledgement request `ackme`
/// for `versions` was seen (`seen` is `local` or `global`).
pub open spec fn is_ack(m: Message, seen: Seq<char>, ackme: Seq<char>, versions: Map<Seq<char>, bool>, conn: Seq<char>) -> bool {
    match m {
        Message::Ack { seen: s, version, ackme: a, versions: vs, conn: c, unsubscribe } =>
            s@ == seen && version is None && a is Some && a->0@ == ackme && vs is Some && vs->0@ == versions
                && c@ == conn && !unsubscribe,
        _ => false,
    }
}

/// Whether the outbox went from `old` to `new` by one update per
/// connection of `conns`, in order (see `is_update`).
pub open spec fn updates_sent(
    old: Seq<Message>,
    new: Seq<Message>,
    version: Seq<char>,
    parents: Map<Seq<char>, bool>,
    ackme: Seq<char>,
    conns: Seq<Seq<char>>,
) -> bool {
    &&& new.len() == old.len() + conns.len()
    &&& new.subrange(0, old.len() as int) == old
    &&& forall|j: int| 0 <= j < conns.len() ==> is_update(#[trigger] new[old.len() + j], version, parents, ackme, conns[j])
}

/// Queues an update for every connection.
fn send_updates(outbox: &mut Vec<Message>, conns: &StrMap<ConnectionState>, version: &str, parents: &StrMap<bool>, ackme: &str)
    ensures
        updates_sent(old(outbox)@, final(outbox)@, version@, parents@, ackme@, conns.key_order()),
{
    let n = conns.len();
    let ghost base = outbox@;
    let mut i: usize = 0;
    proof {
        assert(base.subrange(0, base.len() as int) =~= base);
    }
    while i < n
        invariant
            i <= n,
            n == conns.key_order().len(),
            base == old(outbox)@,
            updates_sent(base, outbox@, version@, parents@, ackme@, conns.key_order().subrange(0, i as int)),
        decreases n - i,
    {
        let c = conns.key_at(i);
        let ghost before = outbox@;
        outbox.push(Message::Update {
            version: String::from_str(version),
            parents: parents.copy(),
            patches: Vec::new(),
            conn: String::from_str(c.as_str()),
            ackme: Some(String::from_str(ackme)),
        });
        proof {
            let cs = conns.key_order().subrange(0, i + 1);
            assert(outbox@.subrange(0, base.len() as int) =~= before.subrange(0, base.len() as int));
            assert forall|j: int| 0 <= j < cs.len() implies is_update(#[trigger] outbox@[base.len() + j], version@, parents@, ackme@, cs[j]) by {
                if j < i {
                    assert(outbox@[base.len() + j] == before[base.len() + j]);
                    assert(cs[j] == conns.key_order().subrange(0, i as int)[j]);
                }
            }
        }
        i = i + 1;
    }
    proof {
        assert(conns.key_order().subrange(0, n as int) =~= conns.key_order());
    }
}

/// Whether `m` is a fresh acknowledgement request `id` under `key`, from
/// `origin`, awaiting `count` acknowledgements for `versions`, numbered
/// `seq`, made at `time` for `conns` connections.
pub open spec fn fresh_ackme(
    m: AckmeState,
    id: Seq<char>,
    origin: Option<Seq<char>>,
    count: nat,
    versions: Map<Seq<char>, bool>,
    seq: u64,
    time: u64,
    conns: nat,
    real_ackme: bool,
    key: Seq<char>,
) -> bool {
    &&& m.id@ == id
    &&& match origin {
        Some(o) => m.origin is Some && m.origin->0@ == o,
        None => m.origin is None,
    }
    &&& m.count == count
    &&& m.versions@ == versions
    &&& m.seq == seq
    &&& m.time == time
    &&& m.time2 is None
    &&& m.orig_count == conns
    &&& m.real_ackme == real_ackme
    &&& m.key@ == key
    &&& !m.cancelled
}

/// What `subscribe` does: `conn` is being set up, and a subscription
/// naming this peer and its frontier is queued for it.
pub open spec fn subscribed<T: PrunableCrdt>(old: AntimatterCrdt<T>, new: AntimatterCrdt<T>, conn: Seq<char>) -> bool {
    &&& new.proto_conns@ == old.proto_conns@.insert(conn)
    &&& new.outbox@.len() == old.outbox@.len() + 1
    &&& new.outbox@.subrange(0, old.outbox@.len() as int) == old.outbox@
    &&& new.outbox@.last() matches Message::Subscribe { peer, conn: c, parents, protocol_version }
        && peer@ == old.id@ && c@ == conn && parents@ == old.current_version@ && protocol_version == Some(1u32)
    &&& new == (AntimatterCrdt { proto_conns: new.proto_conns, outbox: new.outbox, ..old })
}

/// What `disconnect` does: the connection goes; if it was open with a
/// known peer and a fissure is wanted, a fissure between this peer and
/// that one at the current versions is recorded under `id:peer:conn`.
pub open spec fn disconnected<T: PrunableCrdt>(old: AntimatterCrdt<T>, new: AntimatterCrdt<T>, conn: Seq<char>, with_fissure: bool, now_ms: u64) -> bool {
    &&& new.conns@ == old.conns@.remove(conn)
    &&& if with_fissure && old.conns@.contains_key(conn) && old.conns@[conn].peer is Some {
        let peer = old.conns@[conn].peer->0@;
        let key = fissure_key_spec(old.id@, peer, conn);
        &&& new.fissures@.dom() == old.fissures@.dom().insert(key)
        &&& forall|k: Seq<char>| k != key && #[trigger] old.fissures@.contains_key(k) ==> new.fissures@[k] == old.fissures@[k]
        &&& new.fissures@[key].a@ == old.id@
        &&& new.fissures@[key].b@ == peer
        &&& new.fissures@[key].conn@ == conn
        &&& new.fissures@[key].versions@ == old.current_version@
        &&& new.fissures@[key].time == now_ms
        &&& new.fissures@[key].t == Some(old.conn_count)
    } else {
        new.fissures == old.fissures
    }
    &&& new == (AntimatterCrdt { conns: new.conns, fissures: new.fissures, ..old })
}

/// What `ackme` does: a new acknowledgement request `id` (`{id}-{n}` for
/// the next number) is recorded, numbered with the number after, awaiting
/// one acknowledgement per connection for the current versions, and an
/// update without version carrying it is queued for every connection.
pub open spec fn ackme_sent<T: PrunableCrdt>(old: AntimatterCrdt<T>, new: AntimatterCrdt<T>, id: Seq<char>, now_ms: u64) -> bool {
    &&& id == old.id@ + seq!['-'] + decimal((old.conn_count + 1) as nat)
    &&& new.conn_count == old.conn_count + 2
    &&& new.ackmes@ == old.ackmes@.insert(id, new.ackmes@[id])
    &&& fresh_ackme(new.ackmes@[id], id, None, old.conns@.dom().len(), old.current_version@, (old.conn_count + 2) as u64,
        now_ms, old.conns@.dom().len(), true, old.id@ + seq![':'] + id)
    &&& updates_sent(old.outbox@, new.outbox@, Seq::empty(), old.current_version@, id, old.conns.key_order())
    &&& new == (AntimatterCrdt { conn_count: new.conn_count, ackmes: new.ackmes, outbox: new.outbox, ..old })
}

/// What `update` does: a new version `version` (`{id}-{n}` for the next
/// number) is added on top of the frontier with the patches (state `s1`);
/// then, when there are connections, an acknowledgement request is sent
/// (state `s2`) and every connection gets an update of the version with
/// the new frontier and that request.
pub open spec fn updated<T: PrunableCrdt>(old: AntimatterCrdt<T>, new: AntimatterCrdt<T>, version: Seq<char>, now_ms: u64) -> bool {
    &&& version == old.id@ + seq!['-'] + decimal((old.conn_count + 1) as nat)
    &&& exists|s1: AntimatterCrdt<T>| {
        &&& #[trigger] s1.graph() == add_graph(old.graph(), version, old.current_version@, old.current_version.key_order())
        &&& s1 == (AntimatterCrdt { conn_count: (old.conn_count + 1) as u64, t: s1.t, current_version: s1.current_version,
            version_groups: s1.version_groups, crdt: s1.crdt, ..old })
        &&& old.conns@.dom().len() == 0 ==> new == s1
        &&& old.conns@.dom().len() > 0 ==> exists|s2: AntimatterCrdt<T>, a: Seq<char>| {
            &&& #[trigger] ackme_sent(s1, s2, a, now_ms)
            &&& updates_sent(s2.outbox@, new.outbox@, version, s2.current_version@, a, s2.conns.key_order())
            &&& new == (AntimatterCrdt { outbox: new.outbox, ..s2 })
        }
    }
}

/// The word for an acknowledgement seen by every peer.
pub open spec fn global_word() -> Seq<char> {
    seq!['g', 'l', 'o', 'b', 'a', 'l']
}

/// The word for an acknowledgement seen by the peers behind a connection.
pub open spec fn local_word() -> Seq<char> {
    seq!['l', 'o', 'c', 'a', 'l']
}

/// A borrowed optional name by its view.
pub open spec fn opt_name(o: Option<&str>) -> Option<Seq<char>> {
    match o {
        Some(s) => Some(s@),
        None => None,
    }
}

/// The connections of `order`, in order, that get a global
/// acknowledgement: all but `ignoring`, among those numbered no later
/// than the request (`seq`).
pub open spec fn global_targets(order: Seq<Seq<char>>, conns: Map<Seq<char>, ConnectionState>, ignoring: Option<Seq<char>>, seq: u64) -> Seq<Seq<char>>
    decreases order.len(),
{
    if order.len() == 0 {
        Seq::empty()
    } else {
        let rest = global_targets(order.drop_last(), conns, ignoring, seq);
        let c = order.last();
        if ignoring != Some(c) && conns[c].seq <= seq { rest.push(c) } else { rest }
    }
}

/// Whether the outbox went from `old` to `new` by one acknowledgement per
/// connection of `targets`, in order (see `is_ack`).
pub open spec fn acks_sent(
    old: Seq<Message>,
    new: Seq<Message>,
    seen: Seq<char>,
    ackme: Seq<char>,
    versions: Map<Seq<char>, bool>,
    targets: Seq<Seq<char>>,
) -> bool {
    &&& new.len() == old.len() + targets.len()
    &&& new.subrange(0, old.len() as int) == old
    &&& forall|j: int| 0 <= j < targets.len() ==> is_ack(#[trigger] new[old.len() + j], seen, ackme, versions, targets[j])
}

/// The acknowledged boundary after acknowledging each version of `vs` in
/// order: a version of the DAG replaces itself and all its ancestors.
pub open spec fn boundary_after(t: StrMap<StrSet>, ab: Set<Seq<char>>, vs: Seq<Seq<char>>) -> Set<Seq<char>>
    decreases vs.len(),
{
    if vs.len() == 0 {
        ab
    } else {
        let ab1 = boundary_after(t, ab, vs.drop_last());
        let v = vs.last();
        if t@.contains_key(v) {
            ab1.difference(mark_run(t, Set::empty(), Seq::empty(), seq![v]).0).insert(v)
        } else {
            ab1
        }
    }
}

/// Whether no acknowledgement request was made after `now_ms`.
pub open spec fn clock_ok(ackmes: Map<Seq<char>, AckmeState>, now_ms: u64) -> bool {
    forall|k: Seq<char>| #[trigger] ackmes.contains_key(k) ==> ackmes[k].time <= now_ms
}

/// What `add_full_ack_leaves` does: an unknown or cancelled request
/// changes nothing.  Otherwise the request is cancelled, a global
/// acknowledgement goes to every connection but `ignoring` numbered no
/// later than the request, its versions join the acknowledged boundary
/// (state `mid`), and a pruning pass follows.
pub open spec fn fully_acked<T: PrunableCrdt>(old: AntimatterCrdt<T>, new: AntimatterCrdt<T>, ackme: Seq<char>, ignoring: Option<Seq<char>>) -> bool {
    if !old.ackmes@.contains_key(ackme) || old.ackmes@[ackme].cancelled {
        new == old
    } else {
        let m = old.ackmes@[ackme];
        exists|mid: AntimatterCrdt<T>| {
            &&& #[trigger] pruned(mid, new, false, false)
            &&& mid.ackmes@ == old.ackmes@.insert(ackme, AckmeState { cancelled: true, ..m })
            &&& acks_sent(old.outbox@, mid.outbox@, global_word(), ackme, m.versions@,
                global_targets(old.conns.key_order(), old.conns@, ignoring, m.seq))
            &&& mid.acked_boundary@ == boundary_after(old.t, old.acked_boundary@, m.versions.key_order())
            &&& mid == (AntimatterCrdt { ackmes: mid.ackmes, outbox: mid.outbox, acked_boundary: mid.acked_boundary, ..old })
        }
    }
}

/// What `check_ackme_count` does: when the request `ackme` awaits no more
/// acknowledgements and is not cancelled, its completion time is recorded,
/// with its round trip when it was sent to some connection (state `s1`);
/// then a request from a connection still open is acknowledged locally to
/// it, and a request of this peer is fully acknowledged.  Otherwise
/// nothing changes.
pub open spec fn ackme_counted<T: PrunableCrdt>(old: AntimatterCrdt<T>, new: AntimatterCrdt<T>, ackme: Seq<char>, now_ms: u64) -> bool {
    if !(old.ackmes@.contains_key(ackme) && old.ackmes@[ackme].count == 0 && !old.ackmes@[ackme].cancelled) {
        new == old
    } else {
        let m = old.ackmes@[ackme];
        exists|s1: AntimatterCrdt<T>| {
            &&& #[trigger] s1.ackmes@ == old.ackmes@.insert(ackme, AckmeState { time2: Some(now_ms), ..m })
            &&& s1.round_trips@ == (if m.orig_count > 0 { old.round_trips@.push((now_ms - m.time) as u64) } else { old.round_trips@ })
            &&& s1 == (AntimatterCrdt { ackmes: s1.ackmes, round_trips: s1.round_trips, ..old })
            &&& match m.origin {
                Some(o) => if old.conns@.contains_key(o@) {
                    &&& acks_sent(s1.outbox@, new.outbox@, local_word(), ackme, m.versions@, seq![o@])
                    &&& new == (AntimatterCrdt { outbox: new.outbox, ..s1 })
                } else {
                    new == s1
                },
                None => fully_acked(s1, new, ackme, None),
            }
        }
    }
}

/// What `process_ackme` does: for a known request still awaiting
/// acknowledgements, one fewer is awaited; a new request (from `conn`, or
/// from this peer) is recorded, numbered with the next number, awaiting one
/// acknowledgement per connection but one; either way the count is then
/// checked (see `ackme_counted`).  A known request awaiting nothing is left
/// alone.
pub open spec fn ackme_processed<T: PrunableCrdt>(
    old: AntimatterCrdt<T>,
    new: AntimatterCrdt<T>,
    ackme: Seq<char>,
    versions: Map<Seq<char>, bool>,
    conn: Option<Seq<char>>,
    now_ms: u64,
) -> bool {
    if old.ackmes@.contains_key(ackme) {
        let m = old.ackmes@[ackme];
        if m.count > 0 {
            exists|s1: AntimatterCrdt<T>| {
                &&& #[trigger] s1.ackmes@ == old.ackmes@.insert(ackme, AckmeState { count: (m.count - 1) as usize, ..m })
                &&& s1 == (AntimatterCrdt { ackmes: s1.ackmes, ..old })
                &&& ackme_counted(s1, new, ackme, now_ms)
            }
        } else {
            new == old
        }
    } else {
        let n = old.conns@.dom().len();
        exists|s1: AntimatterCrdt<T>| {
            &&& #[trigger] s1.ackmes@ == old.ackmes@.insert(ackme, s1.ackmes@[ackme])
            &&& fresh_ackme(s1.ackmes@[ackme], ackme, conn, if n > 0 { (n - 1) as nat } else { 0 }, versions,
                (old.conn_count + 1) as u64, now_ms, n, false, ackme)
            &&& s1 == (AntimatterCrdt { ackmes: s1.ackmes, conn_count: (old.conn_count + 1) as u64, ..old })
            &&& ackme_counted(s1, new, ackme, now_ms)
        }
    }
}

/// What `ackme_timeout` does: a request not cancelled that still awaits
/// acknowledgements and was made longer ago than the current wait time is
/// cancelled (state `s1`), and a pruning pass follows.  Otherwise nothing
/// changes.
pub open spec fn timed_out<T: PrunableCrdt>(old: AntimatterCrdt<T>, new: AntimatterCrdt<T>, ackme: Seq<char>, now_ms: u64) -> bool {
    if old.ackmes@.contains_key(ackme) && !old.ackmes@[ackme].cancelled && old.ackmes@[ackme].count > 0
        && now_ms - old.ackmes@[ackme].time > old.ackme_current_wait_time {
        exists|s1: AntimatterCrdt<T>| {
            &&& #[trigger] pruned(s1, new, false, false)
            &&& s1.ackmes@ == old.ackmes@.insert(ackme, AckmeState { cancelled: true, ..old.ackmes@[ackme] })
            &&& s1 == (AntimatterCrdt { ackmes: s1.ackmes, ..old })
        }
    } else {
        new == old
    }
}

/// The graph after adding each version of `vs` in order.
pub open spec fn add_all(g: GraphModel, vs: Seq<Version>) -> GraphModel
    decreases vs.len(),
{
    if vs.len() == 0 {
        g
    } else {
        let v = vs.last();
        add_graph(add_all(g, vs.drop_last()), v.version@, v.parents@, v.parents.key_order())
    }
}

/// The fissures of a map in its order, as copies.
pub open spec fn fissures_listed(fs: Seq<Fissure>, m: StrMap<Fissure>) -> bool {
    &&& fs.len() == m.key_order().len()
    &&& forall|j: int| 0 <= j < fs.len() ==> same_fissure(#[trigger] fs[j], m@[m.key_order()[j]])
}

/// What a received message does, and the patches `receive` answers with.
/// A subscription is answered with a welcome naming this peer, its
/// frontier and copies of its fissures.  A welcome opens the connection
/// with the next number, records the fissures it carries and adds its
/// versions.  An update adds its version (answering with its patches when
/// the version is new) and processes its acknowledgement request, if any,
/// as made here.  A local acknowledgement with versions is processed as a
/// request from its connection; a global one fully acknowledges.  Fissures
/// are recorded.  Anything else changes nothing.
pub open spec fn received<T: PrunableCrdt>(old: AntimatterCrdt<T>, new: AntimatterCrdt<T>, msg: Message, now_ms: u64, r: Seq<Patch>) -> bool {
    match msg {
        Message::Subscribe { conn, .. } => {
            &&& r.len() == 0
            &&& new.proto_conns@ == old.proto_conns@.insert(conn@)
            &&& new.outbox@.len() == old.outbox@.len() + 1
            &&& new.outbox@.subrange(0, old.outbox@.len() as int) == old.outbox@
            &&& new.outbox@.last() matches Message::Welcome { versions, fissures, parents, peer, conn: c }
                && versions@.len() == 0 && fissures_listed(fissures@, old.fissures) && parents@ == old.current_version@
                && peer is Some && peer->0@ == old.id@ && c@ == conn@
            &&& new == (AntimatterCrdt { proto_conns: new.proto_conns, outbox: new.outbox, ..old })
        },
        Message::Welcome { conn, versions, fissures, .. } => {
            &&& r.len() == 0
            &&& new.proto_conns@ == old.proto_conns@.remove(conn@)
            &&& new.conn_count == old.conn_count + 1
            &&& new.conns@ == old.conns@.insert(conn@, new.conns@[conn@])
            &&& new.conns@[conn@].peer is None
            &&& new.conns@[conn@].seq == old.conn_count + 1
            &&& new.fissures@ == insert_fissures(old.fissures@, fissures@)
            &&& new.graph() == add_all(old.graph(), versions@)
            &&& new == (AntimatterCrdt { proto_conns: new.proto_conns, conn_count: new.conn_count, conns: new.conns,
                fissures: new.fissures, t: new.t, current_version: new.current_version, version_groups: new.version_groups,
                crdt: new.crdt, ..old })
        },
        Message::Update { version, parents, patches, ackme, .. } => {
            &&& r == (if old.t@.contains_key(version@) { Seq::empty() } else { patches@ })
            &&& exists|s1: AntimatterCrdt<T>| {
                &&& #[trigger] s1.graph() == add_graph(old.graph(), version@, parents@, parents.key_order())
                &&& s1 == (AntimatterCrdt { t: s1.t, current_version: s1.current_version, version_groups: s1.version_groups,
                    crdt: s1.crdt, ..old })
                &&& old.t@.contains_key(version@) ==> s1.crdt == old.crdt
                &&& !old.t@.contains_key(version@) ==>
                    patches_applied(old.crdt, s1.crdt, patches@.map_values(|p: Patch| patch_view(p)))
                &&& match ackme {
                    Some(a) => ackme_processed(s1, new, a@, parents@, None, now_ms),
                    None => new == s1,
                }
            }
        },
        Message::Ack { seen, ackme, versions, conn, .. } => {
            &&& r.len() == 0
            &&& if ackme is Some && versions is Some && seen@ == local_word() {
                ackme_processed(old, new, ackme->0@, versions->0@, Some(conn@), now_ms)
            } else if ackme is Some && versions is Some && seen@ == global_word() {
                fully_acked(old, new, ackme->0@, Some(conn@))
            } else {
                new == old
            }
        },
        Message::Fissure { fissure, fissures, .. } => {
            let m1 = match fissure {
                Some(f) => old.fissures@.insert(fissure_key_spec(f.a@, f.b@, f.conn@), f),
                None => old.fissures@,
            };
            &&& r.len() == 0
            &&& new.fissures@ == (match fissures {
                Some(fs) => insert_fissures(m1, fs@),
                None => m1,
            })
            &&& new == (AntimatterCrdt { fissures: new.fissures, ..old })
        },
        _ => r.len() == 0 && new == old,
    }
}

/// Records each fissure of `fs`, in order, under its key.
fn record_fissures(fissures: &mut StrMap<Fissure>, fs: Vec<Fissure>)
    ensures
        final(fissures)@ == insert_fissures(old(fissures)@, fs@),
{
    let mut rest = fs;
    let total = rest.len();
    let ghost all = rest@;
    let mut i: usize = 0;
    proof {
        assert(all.subrange(0, 0) =~= Seq::<Fissure>::empty());
        assert(rest@ =~= all.subrange(0, all.len() as int));
    }
    while rest.len() > 0
        invariant
            i + rest@.len() == all.len(),
            all.len() <= usize::MAX,
            rest@ == all.subrange(i as int, all.len() as int),
            fissures@ == insert_fissures(old(fissures)@, all.subrange(0, i as int)),
        decreases rest@.len(),
    {
        let f = rest.remove(0);
        proof {
            assert(f == all[i as int]);
            assert(all.subrange(0, i + 1).drop_last() =~= all.subrange(0, i as int));
            assert(all.subrange(0, i + 1).last() == f);
            assert(rest@ =~= all.subrange(i + 1, all.len() as int));
        }
        let key = fissure_key(f.a.as_str(), f.b.as_str(), f.conn.as_str());
        fissures.insert(key, f);
        i = i + 1;
    }
    proof {
        assert(all.subrange(0, i as int) =~= all);
    }
}

/// The versions `mark_run` reaches from `v`: `v` and its ancestors.
fn ancestry(v: &str, t: &StrMap<StrSet>) -> (r: StrSet)
    ensures
        r@ == mark_run(*t, Set::empty(), Seq::empty(), seq![v@]).0,
{
    let _ = t.len();
    let ghost goal = mark_run(*t, Set::empty(), Seq::empty(), seq![v@]);
    let mut visited = StrSet::new();
    let ghost mut order: Seq<Seq<char>> = Seq::empty();
    let mut stack: Vec<String> = vec![String::from_str(v)];
    proof {
        assert(string_views(stack@) =~= seq![v@]);
    }
    while stack.len() > 0
        invariant
            t@.dom().finite(),
            mark_run(*t, visited@, order, string_views(stack@)) == goal,
        decreases t@.dom().difference(visited@).len(), stack@.len(),
    {
        let ghost before = string_views(stack@);
        let cur = stack.pop().unwrap();
        proof {
            assert(string_views(stack@) =~= before.drop_last());
            assert(before.last() == cur@);
        }
        if !visited.contains(cur.as_str()) {
            let ghost dom0 = visited@;
            visited.insert(String::from_str(cur.as_str()));
            proof {
                order = order.push(cur@);
                lemma_difference_insert(t@.dom(), dom0, cur@);
            }
            match t.get(cur.as_str()) {
                Some(parents) => {
                    let pv = parents.to_vec();
                    let ghost base = string_views(stack@);
                    let mut i: usize = pv.len();
                    while i > 0
                        invariant
                            i <= pv@.len(),
                            string_views(stack@) == base + string_views(pv@).subrange(i as int, pv@.len() as int).reverse(),
                        decreases i,
                    {
                        i = i - 1;
                        let ghost b2 = string_views(stack@);
                        stack.push(String::from_str(pv[i].as_str()));
                        proof {
                            assert(string_views(stack@) =~= b2.push(pv@[i as int]@));
                            assert(string_views(pv@).subrange(i as int, pv@.len() as int).reverse()
                                =~= string_views(pv@).subrange(i + 1, pv@.len() as int).reverse().push(pv@[i as int]@));
                        }
                    }
                    proof {
                        assert(string_views(pv@).subrange(0, pv@.len() as int) =~= string_views(pv@));
                        assert(parent_order(*t, cur@) == string_views(pv@));
                    }
                },
                None => {
                    proof {
                        assert(parent_order(*t, cur@) =~= Seq::<Seq<char>>::empty());
                        assert(string_views(stack@) =~= string_views(stack@) + parent_order(*t, cur@).reverse());
                    }
                },
            }
        }
    }
    visited
}

/// Queues a global acknowledgement of `ackme` for `versions` for every
/// connection but `ignoring` numbered no later than `seq`.
fn send_global_acks(outbox: &mut Vec<Message>, conns: &StrMap<ConnectionState>, ackme: &str, versions: &StrMap<bool>,
    ignoring: Option<&str>, seq: u64)
    ensures
        acks_sent(old(outbox)@, final(outbox)@, global_word(), ackme@, versions@,
            global_targets(conns.key_order(), conns@, opt_name(ignoring), seq)),
{
    let n = conns.len();
    let ghost base = outbox@;
    let mut i: usize = 0;
    proof {
        assert(base.subrange(0, base.len() as int) =~= base);
        assert(conns.key_order().subrange(0, 0) =~= Seq::<Seq<char>>::empty());
        reveal_strlit("global");
    }
    while i < n
        invariant
            i <= n,
            n == conns.key_order().len(),
            base == old(outbox)@,
            "global"@ == global_word(),
            acks_sent(base, outbox@, global_word(), ackme@, versions@,
                global_targets(conns.key_order().subrange(0, i as int), conns@, opt_name(ignoring), seq)),
        decreases n - i,
    {
        let c = conns.key_at(i);
        let cc = conns.value_at(i);
        let ghost prev = global_targets(conns.key_order().subrange(0, i as int), conns@, opt_name(ignoring), seq);
        let ghost before = outbox@;
        proof {
            assert(conns.key_order().subrange(0, i + 1).drop_last() =~= conns.key_order().subrange(0, i as int));
            assert(conns.key_order().subrange(0, i + 1).last() == c@);
        }
        let skip = match ignoring {
            Some(ig) => str_eq(ig, c.as_str()),
            None => false,
        };
        if !skip && cc.seq <= seq {
            outbox.push(Message::Ack {
                seen: String::from_str("global"),
                version: None,
                ackme: Some(String::from_str(ackme)),
                versions: Some(versions.copy()),
                conn: String::from_str(c.as_str()),
                unsubscribe: false,
            });
            proof {
                let ts = prev.push(c@);
                assert(outbox@.subrange(0, base.len() as int) =~= before.subrange(0, base.len() as int));
                assert forall|j: int| 0 <= j < ts.len() implies is_ack(#[trigger] outbox@[base.len() + j], global_word(), ackme@, versions@, ts[j]) by {
                    if j < prev.len() {
                        assert(outbox@[base.len() + j] == before[base.len() + j]);
                    }
                }
            }
        }
        i = i + 1;
    }
    proof {
        assert(conns.key_order().subrange(0, n as int) =~= conns.key_order());
    }
}

impl<T: PrunableCrdt> AntimatterCrdt<T> {
    /// Every peer has seen the acknowledgement request `ackme`: cancel it,
    /// pass the news on to the connections that need it, move the
    /// acknowledged boundary up to its versions, and prune.
    pub fn add_full_ack_leaves(&mut self, ackme: &str, ignoring_conn: Option<&str>)
        ensures
            fully_acked(*old(self), *final(self), ackme@, opt_name(ignoring_conn)),
    {
        match self.ackmes.get(ackme) {
            Some(m) => {
                if m.cancelled {
                    return;
                }
            },
            None => {
                return;
            },
        }
        let mut m = self.ackmes.remove(ackme).unwrap();
        m.cancelled = true;
        let m_seq = m.seq;
        let versions = m.versions.copy();
        self.ackmes.insert(String::from_str(ackme), m);
        send_global_acks(&mut self.outbox, &self.conns, ackme, &versions, ignoring_conn, m_seq);
        let vkeys = versions.keys();
        let ghost ab0 = self.acked_boundary@;
        let ghost s0 = *self;
        let mut j: usize = 0;
        proof {
            assert(string_views(vkeys@).subrange(0, 0) =~= Seq::<Seq<char>>::empty());
        }
        while j < vkeys.len()
            invariant
                j <= vkeys@.len(),
                self.acked_boundary@ == boundary_after(self.t, ab0, string_views(vkeys@).subrange(0, j as int)),
                *self == (AntimatterCrdt { acked_boundary: self.acked_boundary, ..s0 }),
            decreases vkeys@.len() - j,
        {
            let v = &vkeys[j];
            let ghost ab1 = self.acked_boundary@;
            proof {
                assert(string_views(vkeys@).subrange(0, j + 1).drop_last() =~= string_views(vkeys@).subrange(0, j as int));
                assert(string_views(vkeys@).subrange(0, j + 1).last() == v@);
            }
            if self.t.contains_key(v.as_str()) {
                let anc = ancestry(v.as_str(), &self.t);
                let items = anc.to_vec();
                let _ = anc.len();
                let mut k: usize = 0;
                while k < items.len()
                    invariant
                        k <= items@.len(),
                        string_views(items@) == anc.member_order(),
                        forall|x: Seq<char>| anc@.contains(x) <==> anc.member_order().contains(x),
                        self.acked_boundary@ == ab1.difference(string_views(items@).subrange(0, k as int).to_set()),
                        *self == (AntimatterCrdt { acked_boundary: self.acked_boundary, ..s0 }),
                    decreases items@.len() - k,
                {
                    self.acked_boundary.remove(items[k].as_str());
                    proof {
                        let a = string_views(items@).subrange(0, k as int);
                        assert(string_views(items@).subrange(0, k + 1) =~= a.push(items@[k as int]@));
                        a.lemma_push_to_set_commute(items@[k as int]@);
                        assert(self.acked_boundary@ =~= ab1.difference(string_views(items@).subrange(0, k + 1).to_set()));
                    }
                    k = k + 1;
                }
                proof {
                    assert(string_views(items@).subrange(0, items@.len() as int) =~= string_views(items@));
                    assert(string_views(items@).to_set() =~= anc@);
                }
                self.acked_boundary.insert(String::from_str(v.as_str()));
            }
            j = j + 1;
        }
        proof {
            assert(string_views(vkeys@).subrange(0, vkeys@.len() as int) =~= string_views(vkeys@));
        }
        let ghost mid = *self;
        let _ = self.prune(false);
        proof {
            let m0 = old(self).ackmes@[ackme@];
            assert(pruned(mid, *self, false, false));
            assert(mid.ackmes@ == old(self).ackmes@.insert(ackme@, AckmeState { cancelled: true, ..m0 }));
            assert(acks_sent(old(self).outbox@, mid.outbox@, global_word(), ackme@, m0.versions@,
                global_targets(old(self).conns.key_order(), old(self).conns@, opt_name(ignoring_conn), m0.seq)));
            assert(mid.acked_boundary@ == boundary_after(old(self).t, old(self).acked_boundary@, m0.versions.key_order()));
            assert(mid == (AntimatterCrdt { ackmes: mid.ackmes, outbox: mid.outbox, acked_boundary: mid.acked_boundary, ..*old(self) }));
        }
    }

    /// Check whether the acknowledgement request `ackme` has all its
    /// acknowledgements, and pass the news on if so.
    pub fn check_ackme_count(&mut self, ackme: &str, now_ms: u64)
        requires
            clock_ok(old(self).ackmes@, now_ms),
        ensures
            ackme_counted(*old(self), *final(self), ackme@, now_ms),
    {
        let ready = match self.ackmes.get(ackme) {
            Some(m) => m.count == 0 && !m.cancelled,
            None => false,
        };
        if !ready {
            return;
        }
        let mut m = self.ackmes.remove(ackme).unwrap();
        let orig_count = m.orig_count;
        let time = m.time;
        let origin = match &m.origin {
            Some(o) => Some(String::from_str(o.as_str())),
            None => None,
        };
        let versions = m.versions.copy();
        m.time2 = Some(now_ms);
        self.ackmes.insert(String::from_str(ackme), m);
        proof {
            assert(time <= now_ms);
        }
        if orig_count > 0 {
            self.round_trips.push(now_ms - time);
        }
        let ghost s1 = *self;
        let ghost m0 = old(self).ackmes@[ackme@];
        proof {
            assert(s1.ackmes@ == old(self).ackmes@.insert(ackme@, AckmeState { time2: Some(now_ms), ..m0 }));
            assert(s1.round_trips@ == (if m0.orig_count > 0 { old(self).round_trips@.push((now_ms - m0.time) as u64) } else { old(self).round_trips@ }));
            assert(s1 == (AntimatterCrdt { ackmes: s1.ackmes, round_trips: s1.round_trips, ..*old(self) }));
        }
        match origin {
            Some(origin_conn) => {
                if self.conns.contains_key(origin_conn.as_str()) {
                    let ghost before = self.outbox@;
                    let ghost vv = versions@;
                    let ghost oc = origin_conn@;
                    self.outbox.push(Message::Ack {
                        seen: String::from_str("local"),
                        version: None,
                        ackme: Some(String::from_str(ackme)),
                        versions: Some(versions),
                        conn: origin_conn,
                        unsubscribe: false,
                    });
                    proof {
                        reveal_strlit("local");
                        assert("local"@ == local_word());
                        assert(self.outbox@.subrange(0, before.len() as int) =~= before);
                        assert(is_ack(self.outbox@[before.len() as int], local_word(), ackme@, vv, seq![oc][0]));
                        assert(acks_sent(s1.outbox@, self.outbox@, local_word(), ackme@, m0.versions@, seq![m0.origin->0@]));
                        assert(*self == (AntimatterCrdt { outbox: self.outbox, ..s1 }));
                    }
                }
            },
            None => {
                self.add_full_ack_leaves(ackme, None);
                proof {
                    assert(fully_acked(s1, *self, ackme@, None));
                }
            },
        }
    }

    /// Take note of the acknowledgement request `ackme` for `versions`,
    /// received from `conn` (or made here).
    pub fn process_ackme(&mut self, ackme: String, versions: StrMap<bool>, conn: Option<String>, now_ms: u64)
        requires
            old(self).conn_count < u64::MAX,
            clock_ok(old(self).ackmes@, now_ms),
        ensures
            ackme_processed(*old(self), *final(self), ackme@,
                versions@, match conn { Some(c) => Some(c@), None => None }, now_ms),
    {
        let count = match self.ackmes.get(ackme.as_str()) {
            Some(m) => Some(m.count),
            None => None,
        };
        match count {
            Some(c) => {
                if c > 0 {
                    let mut m = self.ackmes.remove(ackme.as_str()).unwrap();
                    m.count = m.count - 1;
                    self.ackmes.insert(String::from_str(ackme.as_str()), m);
                    let ghost s1 = *self;
                    proof {
                        let m0 = old(self).ackmes@[ackme@];
                        assert(s1.ackmes@ == old(self).ackmes@.insert(ackme@, AckmeState { count: (m0.count - 1) as usize, ..m0 }));
                        assert(s1 == (AntimatterCrdt { ackmes: s1.ackmes, ..*old(self) }));
                        assert(clock_ok(s1.ackmes@, now_ms));
                    }
                    self.check_ackme_count(ackme.as_str(), now_ms);
                    proof {
                        assert(ackme_counted(s1, *self, ackme@, now_ms));
                    }
                }
            },
            None => {
                let n = self.conns.len();
                let seq = self.generate_seq();
                let m = AckmeState {
                    id: String::from_str(ackme.as_str()),
                    origin: conn,
                    count: if n > 0 { n - 1 } else { 0 },
                    versions,
                    seq,
                    time: now_ms,
                    time2: None,
                    orig_count: n,
                    real_ackme: false,
                    key: String::from_str(ackme.as_str()),
                    cancelled: false,
                };
                self.ackmes.insert(String::from_str(ackme.as_str()), m);
                let ghost s1 = *self;
                proof {
                    assert(s1.ackmes@ == old(self).ackmes@.insert(ackme@, s1.ackmes@[ackme@]));
                    assert(s1 == (AntimatterCrdt { ackmes: s1.ackmes, conn_count: (old(self).conn_count + 1) as u64, ..*old(self) }));
                    assert(clock_ok(s1.ackmes@, now_ms));
                }
                self.check_ackme_count(ackme.as_str(), now_ms);
                proof {
                    assert(ackme_counted(s1, *self, ackme@, now_ms));
                }
            },
        }
    }

    /// Give up waiting for the acknowledgement request `ackme_id` when it
    /// has waited too long, and prune.
    pub fn ackme_timeout(&mut self, ackme_id: &str, now_ms: u64)
        requires
            clock_ok(old(self).ackmes@, now_ms),
        ensures
            timed_out(*old(self), *final(self), ackme_id@, now_ms),
    {
        let due = match self.ackmes.get(ackme_id) {
            Some(m) => !m.cancelled && m.count > 0 && now_ms - m.time > self.ackme_current_wait_time,
            None => false,
        };
        if due {
            let mut m = self.ackmes.remove(ackme_id).unwrap();
            m.cancelled = true;
            self.ackmes.insert(String::from_str(ackme_id), m);
            let ghost s1 = *self;
            proof {
                assert(s1.ackmes@ == old(self).ackmes@.insert(ackme_id@, AckmeState { cancelled: true, ..old(self).ackmes@[ackme_id@] }));
                assert(s1 == (AntimatterCrdt { ackmes: s1.ackmes, ..*old(self) }));
            }
            let _ = self.prune(false);
            proof {
                assert(pruned(s1, *self, false, false));
            }
        }
    }

    /// Whether no acknowledgement request was made after `now_ms` (see
    /// `clock_ok`), as `receive` asks of the time it is given.
    pub fn clock_allows(&self, now_ms: u64) -> (b: bool)
        ensures
            b == clock_ok(self.ackmes@, now_ms),
    {
        let n = self.ackmes.len();
        let mut i: usize = 0;
        while i < n
            invariant
                i <= n,
                n == self.ackmes.key_order().len(),
                forall|k: Seq<char>| self.ackmes@.contains_key(k) <==> self.ackmes.key_order().contains(k),
                forall|j: int| 0 <= j < i ==> (#[trigger] self.ackmes@[self.ackmes.key_order()[j]]).time <= now_ms,
            decreases n - i,
        {
            if self.ackmes.value_at(i).time > now_ms {
                proof {
                    assert(self.ackmes.key_order().contains(self.ackmes.key_order()[i as int]));
                }
                return false;
            }
            i = i + 1;
        }
        proof {
            assert forall|k: Seq<char>| #[trigger] self.ackmes@.contains_key(k) implies self.ackmes@[k].time <= now_ms by {
                assert(self.ackmes.key_order().contains(k));
                let j = choose|j: int| 0 <= j < self.ackmes.key_order().len() && self.ackmes.key_order()[j] == k;
                assert(self.ackmes@[self.ackmes.key_order()[j]].time <= now_ms);
            }
        }
        true
    }

    /// Handle a message from a peer; returns the patches of a new version
    /// it brought.
    pub fn receive(&mut self, msg: Message, now_ms: u64) -> (r: Result<Vec<Patch>, BraidError>)
        requires
            old(self).conn_count < u64::MAX,
            clock_ok(old(self).ackmes@, now_ms),
        ensures
            r is Ok && received(*old(self), *final(self), msg, now_ms, r->Ok_0@),
    {
        let ghost m0 = msg;
        let mut rebased: Vec<Patch> = Vec::new();
        match msg {
            Message::Subscribe { conn, .. } => {
                self.proto_conns.insert(String::from_str(conn.as_str()));
                let n = self.fissures.len();
                let mut fs: Vec<Fissure> = Vec::new();
                let mut i: usize = 0;
                while i < n
                    invariant
                        i <= n,
                        n == self.fissures.key_order().len(),
                        fs@.len() == i,
                        forall|j: int| 0 <= j < i ==> same_fissure(#[trigger] fs@[j], self.fissures@[self.fissures.key_order()[j]]),
                    decreases n - i,
                {
                    fs.push(self.fissures.value_at(i).duplicate());
                    i = i + 1;
                }
                let ghost before = self.outbox@;
                self.outbox.push(Message::Welcome {
                    versions: Vec::new(),
                    fissures: fs,
                    parents: self.current_version.copy(),
                    peer: Some(String::from_str(self.id.as_str())),
                    conn,
                });
                proof {
                    assert(self.outbox@.subrange(0, before.len() as int) =~= before);
                    assert(fissures_listed(fs@, old(self).fissures));
                    assert(received(*old(self), *self, m0, now_ms, rebased@));
                }
            },
            Message::Welcome { conn, versions, fissures, .. } => {
                self.proto_conns.remove(conn.as_str());
                let seq = self.generate_seq();
                self.conns.insert(conn, ConnectionState { peer: None, seq });
                record_fissures(&mut self.fissures, fissures);
                let ghost s1 = *self;
                let mut rest = versions;
                let total = rest.len();
                let ghost all = rest@;
                let mut i: usize = 0;
                proof {
                    assert(all.subrange(0, 0) =~= Seq::<Version>::empty());
                    assert(rest@ =~= all.subrange(0, all.len() as int));
                }
                while rest.len() > 0
                    invariant
                        i + rest@.len() == all.len(),
                        all.len() <= usize::MAX,
                        rest@ == all.subrange(i as int, all.len() as int),
                        self.graph() == add_all(s1.graph(), all.subrange(0, i as int)),
                        *self == (AntimatterCrdt { t: self.t, current_version: self.current_version,
                            version_groups: self.version_groups, crdt: self.crdt, ..s1 }),
                    decreases rest@.len(),
                {
                    let v = rest.remove(0);
                    proof {
                        assert(v == all[i as int]);
                        assert(all.subrange(0, i + 1).drop_last() =~= all.subrange(0, i as int));
                        assert(all.subrange(0, i + 1).last() == v);
                        assert(rest@ =~= all.subrange(i + 1, all.len() as int));
                    }
                    let Version { version, parents, patches, .. } = v;
                    let _ = self.add_version(version, parents, patches);
                    i = i + 1;
                }
                proof {
                    assert(all.subrange(0, i as int) =~= all);
                    assert(s1.graph() == old(self).graph());
                    assert(received(*old(self), *self, m0, now_ms, rebased@));
                }
            },
            Message::Update { version, parents, patches, ackme, .. } => {
                let pcopy = parents.copy();
                let ghost vv = version@;
                let ghost pv = parents@;
                let ghost po = parents.key_order();
                let ghost pp = patches@;
                rebased = self.add_version(version, parents, patches);
                let ghost s1 = *self;
                proof {
                    if old(self).t@.contains_key(vv) {
                        assert(rebased@ =~= Seq::<Patch>::empty());
                    }
                    assert(s1.graph() == add_graph(old(self).graph(), vv, pv, po));
                }
                match ackme {
                    Some(ackme_id) => {
                        self.process_ackme(ackme_id, pcopy, None, now_ms);
                    },
                    None => {},
                }
                proof {
                    assert(received(*old(self), *self, m0, now_ms, rebased@));
                }
            },
            Message::Ack { seen, ackme, versions, conn, .. } => {
                match ackme {
                    Some(ackme_id) => {
                        match versions {
                            Some(vs) => {
                                proof {
                                    reveal_strlit("local");
                                    reveal_strlit("global");
                                }
                                proof {
                                    assert("local"@ =~= local_word());
                                    assert("global"@ =~= global_word());
                                }
                                if str_eq(seen.as_str(), "local") {
                                    self.process_ackme(ackme_id, vs, Some(conn), now_ms);
                                } else if str_eq(seen.as_str(), "global") {
                                    self.add_full_ack_leaves(ackme_id.as_str(), Some(conn.as_str()));
                                }
                                proof {
                                    assert(local_word() != global_word());
                                    assert(received(*old(self), *self, m0, now_ms, rebased@));
                                }
                            },
                            None => {},
                        }
                    },
                    None => {},
                }
            },
            Message::Fissure { fissure, fissures, .. } => {
                match fissure {
                    Some(f) => {
                        let key = fissure_key(f.a.as_str(), f.b.as_str(), f.conn.as_str());
                        self.fissures.insert(key, f);
                    },
                    None => {},
                }
                match fissures {
                    Some(fs) => {
                        record_fissures(&mut self.fissures, fs);
                    },
                    None => {},
                }
            },
            _ => {},
        }
        Ok(rebased)
    }

    /// Make a local version with `patches` on top of the frontier and
    /// announce it to every connection; returns the version.
    pub fn update(&mut self, patches: Vec<Patch>, now_ms: u64) -> (version: String)
        requires
            old(self).conn_count < u64::MAX - 2,
        ensures
            updated(*old(self), *final(self), version@, now_ms),
            old(self).t@.contains_key(version@) ==> final(self).crdt == old(self).crdt,
            !old(self).t@.contains_key(version@) ==>
                patches_applied(old(self).crdt, final(self).crdt, patches@.map_values(|p: Patch| patch_view(p))),
    {
        let version = self.generate_random_id();
        let parents = self.current_version.copy();
        let ghost g0 = self.graph();
        self.add_version(String::from_str(version.as_str()), parents, patches);
        let ghost s1 = *self;
        proof {
            assert(s1.graph() == add_graph(old(self).graph(), version@, old(self).current_version@, old(self).current_version.key_order()));
        }
        if self.conns.len() > 0 {
            let ackme = self.ackme(now_ms);
            let ghost s2 = *self;
            send_updates(&mut self.outbox, &self.conns, version.as_str(), &self.current_version, ackme.as_str());
            proof {
                assert(ackme_sent(s1, s2, ackme@, now_ms));
                assert(*self == (AntimatterCrdt { outbox: self.outbox, ..s2 }));
            }
        }
        version
    }

    /// Start a subscription on `conn`.
    pub fn subscribe(&mut self, conn: String)
        ensures
            subscribed(*old(self), *final(self), conn@),
    {
        self.proto_conns.insert(String::from_str(conn.as_str()));
        let msg = Message::Subscribe {
            peer: String::from_str(self.id.as_str()),
            conn,
            parents: self.current_version.copy(),
            protocol_version: Some(1),
        };
        let ghost before = self.outbox@;
        self.outbox.push(msg);
        proof {
            assert(self.outbox@.subrange(0, before.len() as int) =~= before);
        }
    }

    /// Drop the connection `conn`, recording a fissure with its peer when
    /// `create_fissure` holds.
    pub fn disconnect(&mut self, conn: String, create_fissure: bool, now_ms: u64)
        ensures
            disconnected(*old(self), *final(self), conn@, create_fissure, now_ms),
    {
        match self.conns.remove(conn.as_str()) {
            Some(state) => {
                if create_fissure {
                    match state.peer {
                        Some(peer) => {
                            match self.create_fissure(peer.as_str(), conn.as_str(), now_ms) {
                                Some(f) => {
                                    let key = fissure_key(self.id.as_str(), peer.as_str(), conn.as_str());
                                    self.fissures.insert(key, f);
                                },
                                None => {},
                            }
                        },
                        None => {},
                    }
                }
            },
            None => {},
        }
    }

    /// Send a new acknowledgement request for the current versions to
    /// every connection; returns its ID.
    pub fn ackme(&mut self, now_ms: u64) -> (id: String)
        requires
            old(self).conn_count < u64::MAX - 1,
        ensures
            ackme_sent(*old(self), *final(self), id@, now_ms),
    {
        let id = self.generate_random_id();
        let count = self.conns.len();
        let seq = self.generate_seq();
        let mut key = String::from_str(self.id.as_str());
        push_char(&mut key, ':');
        key.append(id.as_str());
        proof {
            assert(key@ =~= self.id@ + seq![':'] + id@);
        }
        let m = AckmeState {
            id: String::from_str(id.as_str()),
            origin: None,
            count,
            versions: self.current_version.copy(),
            seq,
            time: now_ms,
            time2: None,
            orig_count: count,
            real_ackme: true,
            key,
            cancelled: false,
        };
        self.ackmes.insert(String::from_str(id.as_str()), m);
        let ghost mid = *self;
        send_updates(&mut self.outbox, &self.conns, "", &self.current_version, id.as_str());
        proof {
            reveal_strlit("");
            assert(""@ =~= Seq::<char>::empty());
            assert(id@ == old(self).id@ + seq!['-'] + decimal((old(self).conn_count + 1) as nat));
            assert(self.conn_count == old(self).conn_count + 2);
            assert(self.ackmes@ == old(self).ackmes@.insert(id@, self.ackmes@[id@]));
            assert(fresh_ackme(self.ackmes@[id@], id@, None, old(self).conns@.dom().len(), old(self).current_version@,
                (old(self).conn_count + 2) as u64, now_ms, old(self).conns@.dom().len(), true, old(self).id@ + seq![':'] + id@));
            assert(updates_sent(old(self).outbox@, self.outbox@, Seq::empty(), old(self).current_version@, id@, old(self).conns.key_order()));
        }
        id
    }
}

} // verus!
