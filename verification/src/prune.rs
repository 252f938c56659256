//! Pruning: fissures that both sides recorded are dropped, and the parts of
//! the version DAG that every peer has acknowledged collapse into bubbles.
use vstd::prelude::*;
use crate::collections::{StrMap, StrSet, string_views};
use crate::antimatter::{
    AntimatterCrdt, PrunableCrdt, Fissure, fissure_key, fissure_key_spec, walk_reaches, dag_view,
    true_map, pairs, mark_run, mark_bubble, holds_pair, bubble_run, initial_seen, child_view, child_sets_fold,
    frontier_set, edges_of, child_sets_view, child_set_orders, bubbles_applied, find_one_bubble,
    get_parent_and_child_sets, apply_bubbles, walk_misses, members_all_true,
};

verus! {

/// The key a fissure's mirror (the same fissure recorded by the other
/// side) is kept under: `b:a:conn`.
pub open spec fn mirror_key(f: Fissure) -> Seq<char> {
    fissure_key_spec(f.b@, f.a@, f.conn@)
}

/// Whether the fissure under `k` has its mirror beside it.
pub open spec fn matched(m: Map<Seq<char>, Fissure>, k: Seq<char>) -> bool {
    m.contains_key(k) && m.contains_key(mirror_key(m[k]))
}

/// The keys of the fissures among `ks` whose mirror is there, with the
/// keys of those mirrors.
pub open spec fn paired_among(m: Map<Seq<char>, Fissure>, ks: Seq<Seq<char>>) -> Set<Seq<char>> {
    Set::new(|k: Seq<char>| exists|j: Seq<char>| ks.contains(j) && #[trigger] matched(m, j) && (k == j || k == mirror_key(m[j])))
}

/// The keys of the fissures whose mirror is there, with the keys of those
/// mirrors: both sides recorded them, so they can go.
pub open spec fn paired_keys(m: Map<Seq<char>, Fissure>) -> Set<Seq<char>> {
    Set::new(|k: Seq<char>| exists|j: Seq<char>| #[trigger] matched(m, j) && (k == j || k == mirror_key(m[j])))
}

/// The versions named by some fissure.
pub open spec fn fissure_versions(m: Map<Seq<char>, Fissure>) -> Set<Seq<char>> {
    Set::new(|v: Seq<char>| exists|k: Seq<char>| m.contains_key(k) && #[trigger] m[k].versions@.contains_key(v))
}

/// The versions of the DAG that no walk from the acknowledged boundary
/// along parents reaches.
pub open spec fn unacked(t: StrMap<StrSet>, boundary: Set<Seq<char>>) -> Set<Seq<char>> {
    Set::new(|v: Seq<char>| t@.contains_key(v) && !walk_reaches(t@.dom(), dag_view(t), boundary, v))
}

/// Membership in a list after a push.
pub proof fn lemma_push_contains(s: Seq<Seq<char>>, x: Seq<char>)
    ensures
        forall|u: Seq<char>| #[trigger] s.push(x).contains(u) == (s.contains(u) || u == x),
{
    assert forall|u: Seq<char>| #[trigger] s.push(x).contains(u) == (s.contains(u) || u == x) by {
        if s.push(x).contains(u) && u != x {
            let k = choose|k: int| 0 <= k < s.push(x).len() && s.push(x)[k] == u;
            assert(s[k] == u);
        }
        if s.contains(u) {
            let k = choose|k: int| 0 <= k < s.len() && s[k] == u;
            assert(s.push(x)[k] == u);
        }
        if u == x {
            assert(s.push(x)[s.len() as int] == u);
        }
    }
}

/// The keys of the fissures both sides recorded, and of their mirrors.
fn paired_fissures(fissures: &StrMap<Fissure>) -> (r: StrSet)
    ensures
        r@ == paired_keys(fissures@),
{
    let n = fissures.len();
    let ghost m = fissures@;
    let ghost order = fissures.key_order();
    let mut r = StrSet::new();
    let mut i: usize = 0;
    proof {
        assert(r@ =~= paired_among(m, order.subrange(0, 0)));
    }
    while i < n
        invariant
            i <= n,
            n == order.len(),
            m == fissures@,
            order == fissures.key_order(),
            forall|k: Seq<char>| m.contains_key(k) <==> order.contains(k),
            r@ == paired_among(m, order.subrange(0, i as int)),
        decreases n - i,
    {
        let key = fissures.key_at(i);
        let f = fissures.value_at(i);
        let other = fissure_key(f.b.as_str(), f.a.as_str(), f.conn.as_str());
        let ghost r0 = r@;
        let ghost pre = order.subrange(0, i as int);
        let ghost post = order.subrange(0, i + 1);
        proof {
            assert(post =~= pre.push(key@));
            lemma_push_contains(pre, key@);
            assert(other@ == mirror_key(m[key@]));
        }
        if fissures.contains_key(other.as_str()) {
            r.insert(String::from_str(key.as_str()));
            r.insert(other);
            proof {
                assert(matched(m, key@));
                assert forall|k: Seq<char>| r@.contains(k) <==> paired_among(m, post).contains(k) by {
                    if r0.contains(k) {
                        let j = choose|j: Seq<char>| pre.contains(j) && #[trigger] matched(m, j) && (k == j || k == mirror_key(m[j]));
                        assert(post.contains(j));
                    }
                    if paired_among(m, post).contains(k) {
                        let j = choose|j: Seq<char>| post.contains(j) && #[trigger] matched(m, j) && (k == j || k == mirror_key(m[j]));
                        if j != key@ {
                            assert(pre.contains(j));
                            assert(r0.contains(k));
                        }
                    }
                }
                assert(r@ =~= paired_among(m, post));
            }
        } else {
            proof {
                assert(!matched(m, key@));
                assert forall|k: Seq<char>| r@.contains(k) <==> paired_among(m, post).contains(k) by {
                    if r0.contains(k) {
                        let j = choose|j: Seq<char>| pre.contains(j) && #[trigger] matched(m, j) && (k == j || k == mirror_key(m[j]));
                        assert(post.contains(j));
                    }
                    if paired_among(m, post).contains(k) {
                        let j = choose|j: Seq<char>| post.contains(j) && #[trigger] matched(m, j) && (k == j || k == mirror_key(m[j]));
                        assert(j != key@);
                        assert(pre.contains(j));
                    }
                }
                assert(r@ =~= paired_among(m, post));
            }
        }
        i = i + 1;
    }
    proof {
        assert(order.subrange(0, n as int) =~= order);
        assert forall|k: Seq<char>| r@.contains(k) <==> paired_keys(m).contains(k) by {
            if paired_keys(m).contains(k) {
                let j = choose|j: Seq<char>| #[trigger] matched(m, j) && (k == j || k == mirror_key(m[j]));
                assert(order.contains(j));
            }
        }
        assert(r@ =~= paired_keys(m));
    }
    r
}

/// The versions named by the fissures, each mapped to `true`.
fn versions_of_fissures(fissures: &StrMap<Fissure>) -> (r: StrMap<bool>)
    ensures
        r@.dom() == fissure_versions(fissures@),
        forall|v: Seq<char>| #[trigger] r@.contains_key(v) ==> r@[v],
{
    let n = fissures.len();
    let ghost m = fissures@;
    let ghost order = fissures.key_order();
    let mut r: StrMap<bool> = StrMap::new();
    let mut i: usize = 0;
    while i < n
        invariant
            i <= n,
            n == order.len(),
            m == fissures@,
            order == fissures.key_order(),
            forall|k: Seq<char>| m.contains_key(k) <==> order.contains(k),
            forall|v: Seq<char>| r@.contains_key(v) <==> exists|k: Seq<char>|
                order.subrange(0, i as int).contains(k) && m.contains_key(k) && #[trigger] m[k].versions@.contains_key(v),
            forall|v: Seq<char>| #[trigger] r@.contains_key(v) ==> r@[v],
        decreases n - i,
    {
        let key = fissures.key_at(i);
        let f = fissures.value_at(i);
        let ghost pre = order.subrange(0, i as int);
        let ghost post = order.subrange(0, i + 1);
        let ghost r0 = r@;
        proof {
            assert(post =~= pre.push(key@));
            lemma_push_contains(pre, key@);
        }
        let vs = f.versions.keys();
        let _ = f.versions.len();
        let mut j: usize = 0;
        while j < vs.len()
            invariant
                j <= vs@.len(),
                string_views(vs@) == f.versions.key_order(),
                forall|v: Seq<char>| f.versions@.contains_key(v) <==> f.versions.key_order().contains(v),
                r@.dom() == r0.dom().union(string_views(vs@).subrange(0, j as int).to_set()),
                forall|v: Seq<char>| #[trigger] r@.contains_key(v) ==> r@[v],
            decreases vs@.len() - j,
        {
            r.insert(String::from_str(vs[j].as_str()), true);
            proof {
                let a = string_views(vs@).subrange(0, j as int);
                assert(string_views(vs@).subrange(0, j + 1) =~= a.push(vs@[j as int]@));
                a.lemma_push_to_set_commute(vs@[j as int]@);
                assert(r@.dom() =~= r0.dom().union(string_views(vs@).subrange(0, j + 1).to_set()));
            }
            j = j + 1;
        }
        proof {
            assert(string_views(vs@).subrange(0, vs@.len() as int) =~= string_views(vs@));
            assert(*f == m[key@]);
            assert forall|v: Seq<char>| r@.contains_key(v) <==> (r0.contains_key(v) || string_views(vs@).contains(v)) by {
                assert(r@.dom().contains(v) == (r0.dom().contains(v) || string_views(vs@).to_set().contains(v)));
            }
            assert forall|v: Seq<char>| r@.contains_key(v) <==> exists|k: Seq<char>|
                post.contains(k) && m.contains_key(k) && #[trigger] m[k].versions@.contains_key(v) by {
                if r0.contains_key(v) {
                    let k = choose|k: Seq<char>| pre.contains(k) && m.contains_key(k) && #[trigger] m[k].versions@.contains_key(v);
                    assert(post.contains(k));
                }
                if string_views(vs@).contains(v) {
                    assert(m[key@].versions@.contains_key(v));
                    assert(post.contains(key@));
                }
                if exists|k: Seq<char>| post.contains(k) && m.contains_key(k) && #[trigger] m[k].versions@.contains_key(v) {
                    let k = choose|k: Seq<char>| post.contains(k) && m.contains_key(k) && #[trigger] m[k].versions@.contains_key(v);
                    if k != key@ {
                        assert(pre.contains(k));
                    } else {
                        assert(f.versions.key_order().contains(v));
                    }
                }
            }
        }
        i = i + 1;
    }
    proof {
        assert(order.subrange(0, n as int) =~= order);
        assert forall|v: Seq<char>| r@.contains_key(v) <==> fissure_versions(m).contains(v) by {
            if fissure_versions(m).contains(v) {
                let k = choose|k: Seq<char>| m.contains_key(k) && #[trigger] m[k].versions@.contains_key(v);
                assert(order.contains(k));
            }
        }
        assert(r@.dom() =~= fissure_versions(m));
    }
    r
}

/// What a pruning pass collapses: for each version, the names of its
/// bubble's bottom and top, and the order in which the versions were added.
pub struct BubblePlan {
    pub pairs: Map<Seq<char>, (Seq<char>, Seq<char>)>,
    pub order: Seq<Seq<char>>,
}

/// A bubble map as a plan.
pub open spec fn plan_of(m: StrMap<(String, String)>) -> BubblePlan {
    BubblePlan { pairs: pairs(m@), order: m.key_order() }
}

/// The plan with `k` set to the bubble `b`.
pub open spec fn plan_put(p: BubblePlan, k: Seq<char>, b: (Seq<char>, Seq<char>)) -> BubblePlan {
    BubblePlan {
        pairs: p.pairs.insert(k, b),
        order: if p.pairs.contains_key(k) { p.order } else { p.order.push(k) },
    }
}

/// The plan with each of `ks`, in order, set to the bubble `b`.
pub open spec fn plan_put_all(p: BubblePlan, ks: Seq<Seq<char>>, b: (Seq<char>, Seq<char>)) -> BubblePlan
    decreases ks.len(),
{
    if ks.len() == 0 {
        p
    } else {
        plan_put(plan_put_all(p, ks.drop_last(), b), ks.last(), b)
    }
}

/// The plan with `v` and its ancestors, as far as they are not in the plan
/// yet, set to the bubble `b`.
pub open spec fn plan_mark(t: StrMap<StrSet>, p: BubblePlan, v: Seq<char>, b: (Seq<char>, Seq<char>)) -> BubblePlan {
    let run = mark_run(t, p.pairs.dom(), p.order, seq![v]);
    BubblePlan {
        pairs: Map::new(|k: Seq<char>| run.0.contains(k), |k: Seq<char>| if p.pairs.contains_key(k) { p.pairs[k] } else { b }),
        order: run.1,
    }
}

/// `plan_mark` for each of `vs` in order.
pub open spec fn plan_mark_all(t: StrMap<StrSet>, p: BubblePlan, vs: Seq<Seq<char>>, b: (Seq<char>, Seq<char>)) -> BubblePlan
    decreases vs.len(),
{
    if vs.len() == 0 {
        p
    } else {
        plan_mark(t, plan_mark_all(t, p, vs.drop_last(), b), vs.last(), b)
    }
}

/// The first name of a list, or the empty name.
pub open spec fn first_name(s: Seq<Seq<char>>) -> Seq<char> {
    if s.len() > 0 { s[0] } else { Seq::empty() }
}

/// A copy of the first string of a list, or an empty string.
fn first_string(v: &Vec<String>) -> (r: String)
    ensures
        r@ == first_name(string_views(v@)),
{
    if v.len() > 0 {
        String::from_str(v[0].as_str())
    } else {
        String::new()
    }
}

/// Sets each of `keys`, in order, to a copy of `bubble`.
fn put_all(to_bubble: &mut StrMap<(String, String)>, keys: &Vec<String>, bubble: &(String, String))
    ensures
        plan_of(*final(to_bubble)) == plan_put_all(plan_of(*old(to_bubble)), string_views(keys@), (bubble.0@, bubble.1@)),
{
    let ghost b = (bubble.0@, bubble.1@);
    let mut j: usize = 0;
    proof {
        assert(string_views(keys@).subrange(0, 0) =~= Seq::<Seq<char>>::empty());
    }
    while j < keys.len()
        invariant
            j <= keys@.len(),
            b == (bubble.0@, bubble.1@),
            plan_of(*to_bubble) == plan_put_all(plan_of(*old(to_bubble)), string_views(keys@).subrange(0, j as int), b),
        decreases keys@.len() - j,
    {
        let ghost p0 = plan_of(*to_bubble);
        let ghost m0 = to_bubble@;
        to_bubble.insert(String::from_str(keys[j].as_str()), (String::from_str(bubble.0.as_str()), String::from_str(bubble.1.as_str())));
        proof {
            let ks = string_views(keys@).subrange(0, j + 1);
            assert(ks.drop_last() =~= string_views(keys@).subrange(0, j as int));
            assert(ks.last() == keys@[j as int]@);
            assert(pairs(to_bubble@) =~= pairs(m0).insert(keys@[j as int]@, b));
            assert(pairs(m0).contains_key(keys@[j as int]@) == m0.contains_key(keys@[j as int]@));
        }
        j = j + 1;
    }
    proof {
        assert(string_views(keys@).subrange(0, keys@.len() as int) =~= string_views(keys@));
    }
}

/// Marks each of `keys`, in order, and its unmarked ancestors with a copy
/// of `bubble`.
fn mark_all(to_bubble: &mut StrMap<(String, String)>, keys: &Vec<String>, bubble: &(String, String), t: &StrMap<StrSet>)
    ensures
        plan_of(*final(to_bubble)) == plan_mark_all(*t, plan_of(*old(to_bubble)), string_views(keys@), (bubble.0@, bubble.1@)),
{
    let ghost b = (bubble.0@, bubble.1@);
    let _ = t.len();
    let mut j: usize = 0;
    proof {
        assert(string_views(keys@).subrange(0, 0) =~= Seq::<Seq<char>>::empty());
    }
    while j < keys.len()
        invariant
            j <= keys@.len(),
            t@.dom().finite(),
            b == (bubble.0@, bubble.1@),
            plan_of(*to_bubble) == plan_mark_all(*t, plan_of(*old(to_bubble)), string_views(keys@).subrange(0, j as int), b),
        decreases keys@.len() - j,
    {
        let ghost p0 = plan_of(*to_bubble);
        let ghost m0 = *to_bubble;
        mark_bubble(keys[j].as_str(), bubble, to_bubble, t);
        proof {
            let ks = string_views(keys@).subrange(0, j + 1);
            assert(ks.drop_last() =~= string_views(keys@).subrange(0, j as int));
            assert(ks.last() == keys@[j as int]@);
            assert(pairs(m0@).dom() =~= m0@.dom());
            let run = mark_run(*t, m0@.dom(), m0.key_order(), seq![keys@[j as int]@]);
            assert(pairs(to_bubble@) =~= Map::new(|k: Seq<char>| run.0.contains(k),
                |k: Seq<char>| if pairs(m0@).contains_key(k) { pairs(m0@)[k] } else { b })) by {
                assert forall|k: Seq<char>| #[trigger] to_bubble@.contains_key(k) && !m0@.contains_key(k) implies
                    pairs(to_bubble@)[k] == b by {
                    assert(holds_pair(to_bubble@[k], *bubble));
                }
                assert forall|k: Seq<char>| #[trigger] m0@.contains_key(k) implies
                    pairs(to_bubble@)[k] == pairs(m0@)[k] by {
                    assert(to_bubble@[k] == m0@[k]);
                }
            }
            assert(p0.pairs.dom() == m0@.dom());
            assert(plan_of(*to_bubble).order == plan_mark(*t, p0, keys@[j as int]@, b).order);
            assert(plan_of(*to_bubble).pairs == plan_mark(*t, p0, keys@[j as int]@, b).pairs);
            assert(plan_of(*to_bubble) == plan_mark(*t, p0, keys@[j as int]@, b));
        }
        j = j + 1;
    }
    proof {
        assert(string_views(keys@).subrange(0, keys@.len() as int) =~= string_views(keys@));
    }
}

/// What the search for bubbles looks at: the DAG, its children, its child
/// sets (with the order each lists its members in), the restricted
/// versions and the frontier (with its order).
pub struct ScanInput {
    pub t: StrMap<StrSet>,
    pub ch: Map<Seq<char>, Set<Seq<char>>>,
    pub cs: Map<Seq<char>, Set<Seq<char>>>,
    pub cso: Map<Seq<char>, Seq<Seq<char>>>,
    pub restricted: Set<Seq<char>>,
    pub cv: Map<Seq<char>, bool>,
    pub cvo: Seq<Seq<char>>,
}

/// The top found above `bottom` (listed as `bo`), as the list of its
/// versions.
pub open spec fn top_from(c: ScanInput, bottom: Set<Seq<char>>, bo: Seq<Seq<char>>) -> Option<Seq<Seq<char>>> {
    bubble_run(c.t, c.ch, c.cs, c.cso, Some(c.restricted), bottom, initial_seen(c.ch, bottom), bo, None)
}

/// The search for bubbles from each frontier version of `vs` in turn:
/// whether one was found (only looked for when `just_checking`), and the
/// plan.  A frontier of two versions or more is one bottom for each of its
/// versions: its top, and the frontier's versions with their unmarked
/// ancestors, take the bubble named by the frontier's first version and
/// the top's first.  Otherwise the version alone is the bottom, and a top
/// that does not hold it, with the version and its unmarked ancestors,
/// takes the bubble named by the version and the top's first.
pub open spec fn prune_scan(c: ScanInput, vs: Seq<Seq<char>>, just_checking: bool) -> (bool, BubblePlan)
    decreases vs.len(),
{
    if vs.len() == 0 {
        (false, BubblePlan { pairs: Map::empty(), order: Seq::empty() })
    } else {
        let prev = prune_scan(c, vs.drop_last(), just_checking);
        let v = vs.last();
        if prev.0 {
            prev
        } else if frontier_set(c.cv).contains(v) {
            match top_from(c, c.cv.dom(), c.cvo) {
                Some(top) => if just_checking {
                    (true, prev.1)
                } else {
                    let b = (first_name(c.cvo), first_name(top));
                    (false, plan_mark_all(c.t, plan_put_all(prev.1, top, b), c.cvo, b))
                },
                None => prev,
            }
        } else {
            match top_from(c, set![v], seq![v]) {
                Some(top) => if top.contains(v) {
                    prev
                } else if just_checking {
                    (true, prev.1)
                } else {
                    let b = (v, first_name(top));
                    (false, plan_mark(c.t, plan_put_all(prev.1, top, b), v, b))
                },
                None => prev,
            }
        }
    }
}

/// A bubble found in a prefix of the frontier stays found.
proof fn lemma_scan_found(c: ScanInput, vs: Seq<Seq<char>>, n: int)
    requires
        0 <= n <= vs.len(),
        prune_scan(c, vs.subrange(0, n), true).0,
    ensures
        prune_scan(c, vs, true).0,
    decreases vs.len() - n,
{
    if n == vs.len() {
        assert(vs.subrange(0, n) =~= vs);
    } else {
        assert(vs.subrange(0, n + 1).drop_last() =~= vs.subrange(0, n));
        lemma_scan_found(c, vs, n + 1);
    }
}

/// The child sets of a peer's DAG.
pub open spec fn child_sets_of<T: PrunableCrdt>(s: AntimatterCrdt<T>) -> Map<Seq<char>, Set<Seq<char>>> {
    child_sets_fold(s.t.key_order(), frontier_set(s.current_version@), dag_view(s.t), child_view(dag_view(s.t)))
}

/// Whether `cso` lists the members of each child set of `cs`.
pub open spec fn lists_members(cso: Map<Seq<char>, Seq<Seq<char>>>, cs: Map<Seq<char>, Set<Seq<char>>>) -> bool {
    &&& cso.dom() == cs.dom()
    &&& forall|c: Seq<char>| #[trigger] cs.contains_key(c) ==> cso[c].to_set() == cs[c]
}

/// What the search for bubbles in a peer's state looks at.
pub open spec fn scan_input<T: PrunableCrdt>(s: AntimatterCrdt<T>, restricted: Set<Seq<char>>, cso: Map<Seq<char>, Seq<Seq<char>>>) -> ScanInput {
    ScanInput {
        t: s.t,
        ch: child_view(dag_view(s.t)),
        cs: child_sets_of(s),
        cso,
        restricted,
        cv: s.current_version@,
        cvo: s.current_version.key_order(),
    }
}

/// One pass of pruning from `old` to `new`, answering `r`.  Fissures that
/// both sides recorded go (with `just_checking`, finding one is enough to
/// answer `true`).  The versions named by the remaining fissures are
/// restricted, and so are, unless `just_checking`, the versions no walk
/// from the acknowledged boundary reaches.  Then bubbles are searched from
/// the frontier (see `prune_scan`): with `just_checking` the answer is
/// whether one is found and nothing changes; otherwise they are collapsed
/// and the answer is `false`.  Which member names a bubble's top follows
/// the order in which its child set lists its members.
pub open spec fn pruned<T: PrunableCrdt>(old: AntimatterCrdt<T>, new: AntimatterCrdt<T>, just_checking: bool, r: bool) -> bool {
    let dead = paired_keys(old.fissures@);
    &&& just_checking && dead != Set::<Seq<char>>::empty() ==> r && new == old
    &&& just_checking && dead == Set::<Seq<char>>::empty() ==> new == old
        && exists|cso: Map<Seq<char>, Seq<Seq<char>>>| #[trigger] lists_members(cso, child_sets_of(old))
            && r == prune_scan(scan_input(old, fissure_versions(old.fissures@), cso), old.current_version.key_order(), true).0
    &&& !just_checking ==> !r
        && new.fissures@ == old.fissures@.remove_keys(dead)
        && exists|cso: Map<Seq<char>, Seq<Seq<char>>>| #[trigger] lists_members(cso, child_sets_of(old))
            && bubbles_applied(old, new,
                prune_scan(scan_input(old, fissure_versions(new.fissures@).union(unacked(old.t, old.acked_boundary@)), cso),
                    old.current_version.key_order(), false).1.pairs,
                prune_scan(scan_input(old, fissure_versions(new.fissures@).union(unacked(old.t, old.acked_boundary@)), cso),
                    old.current_version.key_order(), false).1.order)
}

/// One pass of pruning (see `pruned`); the CRDT prunes each renamed
/// version.  The time argument is not used.
pub fn prune_with_time<T: PrunableCrdt>(crdt_state: &mut AntimatterCrdt<T>, just_checking: bool, t: u64) -> (r: bool)
    ensures
        pruned(*old(crdt_state), *final(crdt_state), just_checking, r),
{
    let dead = paired_fissures(&crdt_state.fissures);
    if just_checking && !dead.is_empty() {
        return true;
    }
    if !just_checking {
        let dv = dead.to_vec();
        let _ = dead.len();
        let ghost f0 = crdt_state.fissures@;
        let mut k: usize = 0;
        while k < dv.len()
            invariant
                k <= dv@.len(),
                string_views(dv@) == dead.member_order(),
                forall|x: Seq<char>| dead@.contains(x) <==> dead.member_order().contains(x),
                crdt_state.fissures@ == f0.remove_keys(string_views(dv@).subrange(0, k as int).to_set()),
                crdt_state.t == old(crdt_state).t,
                crdt_state.current_version == old(crdt_state).current_version,
                crdt_state.acked_boundary == old(crdt_state).acked_boundary,
                crdt_state.version_groups == old(crdt_state).version_groups,
                crdt_state.id == old(crdt_state).id,
                crdt_state.conns == old(crdt_state).conns,
                crdt_state.conn_count == old(crdt_state).conn_count,
                crdt_state.proto_conns == old(crdt_state).proto_conns,
                crdt_state.ackmes == old(crdt_state).ackmes,
                crdt_state.outbox == old(crdt_state).outbox,
                crdt_state.crdt == old(crdt_state).crdt,
                crdt_state.ackme_map == old(crdt_state).ackme_map,
                crdt_state.ackme_time_est_1 == old(crdt_state).ackme_time_est_1,
                crdt_state.ackme_time_est_2 == old(crdt_state).ackme_time_est_2,
                crdt_state.ackme_current_wait_time == old(crdt_state).ackme_current_wait_time,
                crdt_state.round_trips == old(crdt_state).round_trips,
            decreases dv@.len() - k,
        {
            crdt_state.fissures.remove(dv[k].as_str());
            proof {
                let a = string_views(dv@).subrange(0, k as int);
                assert(string_views(dv@).subrange(0, k + 1) =~= a.push(dv@[k as int]@));
                a.lemma_push_to_set_commute(dv@[k as int]@);
                assert(crdt_state.fissures@ =~= f0.remove_keys(string_views(dv@).subrange(0, k + 1).to_set()));
            }
            k = k + 1;
        }
        proof {
            assert(string_views(dv@).subrange(0, dv@.len() as int) =~= string_views(dv@));
            assert(string_views(dv@).to_set() =~= dead@);
        }
    }
    let ghost mid = *crdt_state;
    proof {
        assert(mid == (AntimatterCrdt { fissures: mid.fissures, ..*old(crdt_state) }));
    }
    let mut restricted = versions_of_fissures(&crdt_state.fissures);
    if !just_checking {
        let ab = crdt_state.acked_boundary.to_vec();
        let _ = crdt_state.acked_boundary.len();
        let abm = true_map(&ab);
        proof {
            assert(string_views(ab@).to_set() =~= crdt_state.acked_boundary@);
        }
        match crdt_state.ancestors(&abm, true) {
            Ok(acked) => {
                let tk = crdt_state.t.keys();
                let _ = crdt_state.t.len();
                let ghost r0 = restricted@.dom();
                let mut i: usize = 0;
                while i < tk.len()
                    invariant
                        i <= tk@.len(),
                        string_views(tk@) == crdt_state.t.key_order(),
                        restricted@.dom() == r0.union(Set::new(|v: Seq<char>|
                            string_views(tk@).subrange(0, i as int).contains(v) && !acked@.contains_key(v))),
                    decreases tk@.len() - i,
                {
                    if !acked.contains_key(tk[i].as_str()) {
                        restricted.insert(String::from_str(tk[i].as_str()), true);
                    }
                    proof {
                        let a = string_views(tk@).subrange(0, i as int);
                        assert(string_views(tk@).subrange(0, i + 1) =~= a.push(tk@[i as int]@));
                        lemma_push_contains(a, tk@[i as int]@);
                        assert(restricted@.dom() =~= r0.union(Set::new(|v: Seq<char>|
                            string_views(tk@).subrange(0, i + 1).contains(v) && !acked@.contains_key(v))));
                    }
                    i = i + 1;
                }
                proof {
                    assert(string_views(tk@).subrange(0, tk@.len() as int) =~= string_views(tk@));
                    assert(restricted@.dom() =~= r0.union(unacked(crdt_state.t, crdt_state.acked_boundary@)));
                }
            },
            Err(_) => {},
        }
    }
    let ghost rset = if just_checking {
        fissure_versions(mid.fissures@)
    } else {
        fissure_versions(mid.fissures@).union(unacked(mid.t, mid.acked_boundary@))
    };
    proof {
        assert(restricted@.dom() == rset);
        assert(just_checking ==> mid == *old(crdt_state));
    }
    let children = crdt_state.get_child_map();
    let (parent_sets, child_sets) = get_parent_and_child_sets(&*crdt_state, &children);
    let ghost cso = child_set_orders(child_sets);
    let ghost c = scan_input(mid, rset, cso);
    proof {
        assert(child_sets_view(child_sets) == child_sets_of(mid));
        assert forall|x: Seq<char>| #[trigger] child_sets_of(mid).contains_key(x) implies cso[x].to_set() == child_sets_of(mid)[x] by {
            assert(child_sets@.contains_key(x));
            assert(child_sets@[x].members@.dom() == child_sets@[x].members.key_order().to_set());
        }
        assert(cso.dom() =~= child_sets_of(mid).dom());
        assert(lists_members(cso, child_sets_of(mid)));
    }
    let cv_keys = crdt_state.current_version.keys();
    let _ = crdt_state.t.len();
    let mut to_bubble: StrMap<(String, String)> = StrMap::new();
    proof {
        assert(c.cvo.subrange(0, 0) =~= Seq::<Seq<char>>::empty());
        assert(pairs(to_bubble@) =~= Map::<Seq<char>, (Seq<char>, Seq<char>)>::empty());
    }
    let mut i: usize = 0;
    while i < cv_keys.len()
        invariant
            i <= cv_keys@.len(),
            *crdt_state == mid,
            string_views(cv_keys@) == mid.current_version.key_order(),
            c == scan_input(mid, rset, cso),
            rset == (if just_checking {
                fissure_versions(mid.fissures@)
            } else {
                fissure_versions(mid.fissures@).union(unacked(mid.t, mid.acked_boundary@))
            }),
            mid.t@.dom().finite(),
            restricted@.dom() == rset,
            edges_of(children) == child_view(dag_view(mid.t)),
            child_sets_view(child_sets) == child_sets_of(mid),
            cso == child_set_orders(child_sets),
            members_all_true(child_sets@),
            forall|v: Seq<char>| parent_sets@.contains_key(v) <==> frontier_set(mid.current_version@).contains(v),
            forall|v: Seq<char>| #[trigger] parent_sets@.contains_key(v) ==> parent_sets@[v].members@ == mid.current_version@
                && parent_sets@[v].members.key_order() == mid.current_version.key_order() && !parent_sets@[v].done,
            prune_scan(c, c.cvo.subrange(0, i as int), just_checking) == (false, plan_of(to_bubble)),
            just_checking ==> mid == *old(crdt_state),
            lists_members(cso, child_sets_of(mid)),
        decreases cv_keys@.len() - i,
    {
        let v = &cv_keys[i];
        let ghost prev = plan_of(to_bubble);
        let ghost vs1 = c.cvo.subrange(0, i + 1);
        proof {
            assert(vs1.drop_last() =~= c.cvo.subrange(0, i as int));
            assert(vs1.last() == v@);
            assert(prune_scan(c, vs1.drop_last(), just_checking) == (false, prev));
        }
        match parent_sets.get(v.as_str()) {
            Some(ps) => {
                if !ps.done {
                    let bottom = ps.members.copy();
                    match find_one_bubble(&*crdt_state, &bottom, &children, &child_sets, Some(&restricted)) {
                        Some(top) => {
                            proof {
                                assert(frontier_set(c.cv).contains(v@));
                                assert(top_from(c, c.cv.dom(), c.cvo) == Some(top.key_order()));
                            }
                            if just_checking {
                                proof {
                                    assert(prune_scan(c, vs1, true).0);
                                    lemma_scan_found(c, c.cvo, i + 1);
                                    assert(lists_members(cso, child_sets_of(*old(crdt_state))));
                                }
                                return true;
                            }
                            let bkeys = bottom.keys();
                            let tkeys = top.keys();
                            let bubble = (first_string(&bkeys), first_string(&tkeys));
                            put_all(&mut to_bubble, &tkeys, &bubble);
                            mark_all(&mut to_bubble, &bkeys, &bubble, &crdt_state.t);
                            proof {
                                let b = (first_name(c.cvo), first_name(top.key_order()));
                                assert(bubble.0@ == b.0 && bubble.1@ == b.1);
                                assert(plan_of(to_bubble) == plan_mark_all(c.t, plan_put_all(prev, top.key_order(), b), c.cvo, b));
                                assert(prune_scan(c, vs1, just_checking) == (false, plan_of(to_bubble)));
                            }
                        },
                        None => {
                            proof {
                                assert(frontier_set(c.cv).contains(v@));
                                assert(top_from(c, c.cv.dom(), c.cvo) is None);
                                assert(prune_scan(c, vs1, just_checking) == (false, plan_of(to_bubble)));
                            }
                        },
                    }
                }
            },
            None => {
                let mut bottom: StrMap<bool> = StrMap::new();
                bottom.insert(String::from_str(v.as_str()), true);
                proof {
                    assert(bottom@.dom() =~= set![v@]);
                    assert(bottom.key_order() =~= seq![v@]);
                }
                match find_one_bubble(&*crdt_state, &bottom, &children, &child_sets, Some(&restricted)) {
                    Some(top) => {
                        proof {
                            assert(top_from(c, set![v@], seq![v@]) == Some(top.key_order()));
                            assert(top.key_order().to_set().contains(v@) == top.key_order().contains(v@));
                        }
                        if !top.contains_key(v.as_str()) {
                            if just_checking {
                                proof {
                                    assert(prune_scan(c, vs1, true).0);
                                    lemma_scan_found(c, c.cvo, i + 1);
                                    assert(lists_members(cso, child_sets_of(*old(crdt_state))));
                                }
                                return true;
                            }
                            let tkeys = top.keys();
                            let bubble = (String::from_str(v.as_str()), first_string(&tkeys));
                            put_all(&mut to_bubble, &tkeys, &bubble);
                            let ghost m1 = to_bubble;
                            mark_bubble(v.as_str(), &bubble, &mut to_bubble, &crdt_state.t);
                            proof {
                                let b = (v@, first_name(top.key_order()));
                                assert(bubble.0@ == b.0 && bubble.1@ == b.1);
                                let p1 = plan_of(m1);
                                assert(p1 == plan_put_all(prev, top.key_order(), b));
                                assert(pairs(m1@).dom() =~= m1@.dom());
                                let run = mark_run(c.t, m1@.dom(), m1.key_order(), seq![v@]);
                                assert(pairs(to_bubble@) =~= Map::new(|k: Seq<char>| run.0.contains(k),
                                    |k: Seq<char>| if pairs(m1@).contains_key(k) { pairs(m1@)[k] } else { b })) by {
                                    assert forall|k: Seq<char>| #[trigger] to_bubble@.contains_key(k) && !m1@.contains_key(k) implies
                                        pairs(to_bubble@)[k] == b by {
                                        assert(holds_pair(to_bubble@[k], bubble));
                                    }
                                    assert forall|k: Seq<char>| #[trigger] m1@.contains_key(k) implies
                                        pairs(to_bubble@)[k] == pairs(m1@)[k] by {
                                        assert(to_bubble@[k] == m1@[k]);
                                    }
                                }
                                assert(plan_of(to_bubble).pairs == plan_mark(c.t, p1, v@, b).pairs);
                                assert(plan_of(to_bubble) == plan_mark(c.t, p1, v@, b));
                                assert(prune_scan(c, vs1, just_checking) == (false, plan_of(to_bubble)));
                            }
                        } else {
                            proof {
                                assert(prune_scan(c, vs1, just_checking) == (false, plan_of(to_bubble)));
                            }
                        }
                    },
                    None => {
                        proof {
                            assert(top_from(c, set![v@], seq![v@]) is None);
                            assert(prune_scan(c, vs1, just_checking) == (false, plan_of(to_bubble)));
                        }
                    },
                }
            },
        }
        i = i + 1;
    }
    proof {
        assert(c.cvo.subrange(0, cv_keys@.len() as int) =~= c.cvo);
        assert(lists_members(cso, child_sets_of(*old(crdt_state))));
    }
    if just_checking {
        return false;
    }
    apply_bubbles(crdt_state, &to_bubble);
    false
}

/// One pass of pruning (see `pruned`).
pub fn prune<T: PrunableCrdt>(crdt_state: &mut AntimatterCrdt<T>, just_checking: bool) -> (r: bool)
    ensures
        pruned(*old(crdt_state), *final(crdt_state), just_checking, r),
{
    prune_with_time(crdt_state, just_checking, u64::MAX)
}

impl<T: PrunableCrdt> AntimatterCrdt<T> {
    /// One pass of pruning (see `pruned`).
    pub fn prune(&mut self, just_checking: bool) -> (r: bool)
        ensures
            pruned(*old(self), *final(self), just_checking, r),
    {
        prune(self, just_checking)
    }

    /// One pass of pruning (see `pruned`); the time argument is not used.
    pub fn prune_with_time(&mut self, just_checking: bool, t: u64) -> (r: bool)
        ensures
            pruned(*old(self), *final(self), just_checking, r),
    {
        prune_with_time(self, just_checking, t)
    }
}

} // verus!
