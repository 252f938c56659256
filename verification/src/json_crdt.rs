//! JSON CRDT - a pruneable CRDT around a text sequence.
//!
//! A `JsonCrdt` holds a sequence CRDT, the version graph (each version with
//! its parents) and the current frontier.  A version is read by the sequence
//! when it is in the graph or is the root version.
use vstd::prelude::*;
use crate::collections::{StrMap, str_eq, string_views};
use crate::antimatter::{Patch, PrunableCrdt};
use crate::sequence_crdt::{
    AncestorSet, ElemsModel, add_version, added_tree, lemma_added_text, lemma_text_length, adds_fit, apply_splices, fresh_in, with_version, apply_bubbles, merge_model, rename_node, uniform_kind, NodeModel, SequenceElems, SequenceNode, Splice, SpliceModel, braid_walk,
    braid_width, braid_width_checked, chars_of, content, elements, generate_braid, length, splice_views,
};
use crate::text::{decimal, decimal_string, push_decimal, find_char_from, parse_usize, parse_usize_spec, push_char, substring};

verus! {

/// The content of a patch: a string, or the JSON text of any other value.
#[derive(Debug)]
pub enum PatchContent {
    /// A JSON string value.
    Text(String),
    /// The JSON text of a value that is not a string.
    Json(String),
}

impl PatchContent {
    /// The characters a patch inserts: the string itself, or the JSON text.
    pub open spec fn chars(&self) -> Seq<char> {
        match self {
            PatchContent::Text(s) => s@,
            PatchContent::Json(s) => s@,
        }
    }
}

/// A patch operation for modifying JSON.
#[derive(Debug)]
pub struct JsonPatch {
    /// The range of the patch: "5" inserts at 5, "5:10" replaces 5..10
    pub range: String,
    /// The content to insert/replace
    pub content: PatchContent,
}

/// Whether the only `:` of `r` is at `i`.
pub open spec fn single_colon_at(r: Seq<char>, i: int) -> bool {
    0 <= i < r.len() && r[i] == ':' && forall|j: int| 0 <= j < r.len() && j != i ==> r[j] != ':'
}

/// The number `s` reads as, or `d` where it reads as none.
pub open spec fn parse_or(s: Seq<char>, d: nat) -> nat {
    match parse_usize_spec(s) {
        Some(v) => v,
        None => d,
    }
}

/// The position and delete count of a range "start:end" (a single colon)
/// or "pos"; a number that does not parse counts as 0 (a missing end as
/// the start), and an end before the start deletes nothing.
pub open spec fn parse_range_spec(r: Seq<char>) -> (nat, nat) {
    if exists|i: int| single_colon_at(r, i) {
        let i = choose|i: int| single_colon_at(r, i);
        let start = parse_or(r.subrange(0, i), 0);
        let end = parse_or(r.subrange(i + 1, r.len() as int), start);
        (start, if end >= start { (end - start) as nat } else { 0 })
    } else {
        (parse_or(r, 0), 0)
    }
}

fn parse_or_exec(s: &str, d: usize) -> (v: usize)
    ensures
        v == parse_or(s@, d as nat),
{
    match parse_usize(s) {
        Some(v) => v,
        None => d,
    }
}

/// Parse a range string like "5" or "5:10" into (position, delete_count).
pub fn parse_range(range: &str) -> (r: (usize, usize))
    ensures
        (r.0 as nat, r.1 as nat) == parse_range_spec(range@),
{
    let n = range.unicode_len();
    match find_char_from(range, ':', 0) {
        Some(i) => match find_char_from(range, ':', i + 1) {
            None => {
                proof {
                    assert(single_colon_at(range@, i as int));
                    let k = choose|k: int| single_colon_at(range@, k);
                    assert(k == i);
                }
                let a = substring(range, 0, i);
                let b = substring(range, i + 1, n);
                let start = parse_or_exec(a.as_str(), 0);
                let end = parse_or_exec(b.as_str(), start);
                (start, if end >= start { end - start } else { 0 })
            },
            Some(k) => {
                proof {
                    if exists|j: int| single_colon_at(range@, j) {
                        let j = choose|j: int| single_colon_at(range@, j);
                        if j == i {
                            assert(range@[k as int] == ':');
                        } else {
                            assert(range@[i as int] == ':');
                        }
                    }
                }
                (parse_or_exec(range, 0), 0)
            },
        },
        None => {
            proof {
                if exists|j: int| single_colon_at(range@, j) {
                    let j = choose|j: int| single_colon_at(range@, j);
                    assert(range@[j] == ':');
                }
            }
            (parse_or_exec(range, 0), 0)
        },
    }
}

/// The splice a patch stands for.
pub open spec fn patch_splice(p: JsonPatch) -> SpliceModel {
    let (pos, dc) = parse_range_spec(p.range@);
    SpliceModel {
        pos: pos as int,
        delete_count: dc as int,
        insert: ElemsModel::Text(p.content.chars()),
        sort_key: None,
        op_type: if dc > 0 { 'r' } else { 'i' },
    }
}

/// The splices a list of patches stands for.
pub open spec fn patch_splices(ps: Seq<JsonPatch>) -> Seq<SpliceModel> {
    ps.map_values(|p: JsonPatch| patch_splice(p))
}

impl JsonPatch {
    /// Create a new JSON patch.
    pub fn new(range: &str, content: PatchContent) -> (p: Self)
        ensures
            p.range@ == range@,
            p.content == content,
    {
        JsonPatch { range: String::from_str(range), content }
    }

    /// Convert to a Splice for sequence operations.
    pub fn to_splice(&self) -> (s: Splice)
        ensures
            s@ == patch_splice(*self),
    {
        let (pos, delete_count) = parse_range(self.range.as_str());
        let insert_str = match &self.content {
            PatchContent::Text(s) => String::from_str(s.as_str()),
            PatchContent::Json(s) => String::from_str(s.as_str()),
        };
        Splice {
            pos,
            delete_count,
            insert: SequenceElems::String(insert_str),
            sort_key: None,
            op_type: if delete_count > 0 { 'r' } else { 'i' },
        }
    }
}

/// The name of the root version.
pub open spec fn root_version() -> Seq<char> {
    seq!['r', 'o', 'o', 't']
}

/// The version graph as a map from version to the map of its parents.
pub open spec fn graph_view(t: StrMap<StrMap<bool>>) -> Map<Seq<char>, Map<Seq<char>, bool>> {
    t@.map_values(|m: StrMap<bool>| m@)
}

/// The versions a `JsonCrdt` reads: those of its graph and the root.
pub open spec fn ancestors_of(t: StrMap<StrMap<bool>>) -> spec_fn(Seq<char>) -> bool {
    |v: Seq<char>| t@.contains_key(v) || v == root_version()
}

/// Whether every parent is in the graph or is the root.
pub open spec fn parents_known(t: StrMap<StrMap<bool>>, parents: Map<Seq<char>, bool>) -> bool {
    forall|p: Seq<char>| parents.contains_key(p) ==> t@.contains_key(p) || p == root_version()
}

/// A JSON CRDT for conflict-free JSON editing.
///
/// This wraps arbitrary JSON values with CRDT metadata for
/// versioned, mergeable JSON structures.
#[derive(Debug)]
pub struct JsonCrdt {
    /// The root sequence node for this value
    pub sequence: SequenceNode,
    /// Version graph: version -> set of parent versions
    pub t: StrMap<StrMap<bool>>,
    /// Current frontier versions
    pub current_version: StrMap<bool>,
    /// Next sequence number for generating unique versions
    pub next_seq: u64,
    /// Node ID for this peer
    pub id: String,
}

fn root_string() -> (s: String)
    ensures
        s@ == root_version(),
{
    let s = String::from_str("root");
    proof {
        reveal_strlit("root");
        assert(s@ =~= root_version());
    }
    s
}

/// The set of versions of a graph together with the root.
fn ancestor_set(t: &StrMap<StrMap<bool>>) -> (a: AncestorSet)
    ensures
        a.pred() == ancestors_of(*t),
{
    let n = t.len();
    let mut keys = t.keys();
    let ghost ks = string_views(keys@);
    keys.push(root_string());
    let a = AncestorSet::Listed(keys);
    proof {
        assert(string_views(keys@) =~= ks.push(root_version()));
        assert forall|v: Seq<char>| #[trigger] a.pred()(v) == ancestors_of(*t)(v) by {
            if ks.contains(v) {
                let j = choose|j: int| 0 <= j < ks.len() && ks[j] == v;
                assert(string_views(keys@)[j] == v);
            }
            if string_views(keys@).contains(v) && v != root_version() {
                let j = choose|j: int| 0 <= j < string_views(keys@).len() && string_views(keys@)[j] == v;
                assert(ks[j] == v);
            }
            assert(string_views(keys@)[ks.len() as int] == root_version());
        }
        assert(a.pred() =~= ancestors_of(*t));
    }
    a
}

impl JsonCrdt {
    /// Create a new empty JSON CRDT.
    pub fn new(id: &str) -> (c: Self)
        ensures
            c.sequence@ == (NodeModel {
                version: Some(root_version()),
                sort_key: None,
                elems: ElemsModel::Text(Seq::empty()),
                end_cap: false,
                deleted_by: Set::empty(),
                nexts: Seq::empty(),
                next: None,
            }),
            c.t@ == Map::<Seq<char>, StrMap<bool>>::empty(),
            c.current_version@ == Map::<Seq<char>, bool>::empty(),
            c.next_seq == 0,
            c.id@ == id@,
    {
        JsonCrdt {
            sequence: SequenceNode::new(Some(root_string()), SequenceElems::String(String::new()), false, None),
            t: StrMap::new(),
            current_version: StrMap::new(),
            next_seq: 0,
            id: String::from_str(id),
        }
    }

    /// Create a JSON CRDT with initial content.
    ///
    /// The content is the first version, `0@id`, whose parents are empty.
    pub fn with_content(id: &str, content: &str) -> (c: Self)
        ensures
            c.sequence@ == (NodeModel {
                version: Some(seq!['0', '@'] + id@),
                sort_key: None,
                elems: ElemsModel::Text(content@),
                end_cap: false,
                deleted_by: Set::empty(),
                nexts: Seq::empty(),
                next: None,
            }),
            graph_view(c.t) == map![seq!['0', '@'] + id@ => Map::<Seq<char>, bool>::empty()],
            c.current_version@ == map![seq!['0', '@'] + id@ => true],
            c.next_seq == 1,
            c.id@ == id@,
    {
        let mut version = String::from_str("0@");
        proof {
            reveal_strlit("0@");
            assert(version@ =~= seq!['0', '@']);
        }
        version.append(id);
        let mut crdt = Self::new(id);
        crdt.sequence = SequenceNode::text(version.as_str(), content);
        crdt.t.insert(String::from_str(version.as_str()), StrMap::new());
        crdt.current_version.insert(version, true);
        crdt.next_seq = 1;
        proof {
            assert(graph_view(crdt.t) =~= map![seq!['0', '@'] + id@ => Map::<Seq<char>, bool>::empty()]);
            assert(crdt.current_version@ =~= map![seq!['0', '@'] + id@ => true]);
        }
        crdt
    }

    /// Generate a new unique version ID: the next sequence number, `@`,
    /// and the peer's ID.
    pub fn generate_version(&mut self) -> (v: String)
        requires
            old(self).next_seq < u64::MAX,
        ensures
            v@ == decimal(old(self).next_seq as nat) + seq!['@'] + old(self).id@,
            final(self).next_seq == old(self).next_seq + 1,
            final(self).id == old(self).id,
            final(self).sequence == old(self).sequence,
            final(self).t == old(self).t,
            final(self).current_version == old(self).current_version,
    {
        let mut version = decimal_string(self.next_seq as u128);
        push_char(&mut version, '@');
        version.append(self.id.as_str());
        self.next_seq = self.next_seq + 1;
        version
    }

    /// Get the current content as a string.
    pub fn get_content(&self) -> (s: String)
        ensures
            s@ == chars_of(elements(self.sequence@, ancestors_of(self.t))),
    {
        let anc = ancestor_set(&self.t);
        content(&self.sequence, &anc)
    }

    /// Get the current length.
    pub fn get_length(&self) -> (n: usize)
        requires
            elements(self.sequence@, ancestors_of(self.t)).len() <= usize::MAX,
        ensures
            n == elements(self.sequence@, ancestors_of(self.t)).len(),
    {
        let anc = ancestor_set(&self.t);
        length(&self.sequence, &anc)
    }

    /// Check if ancestors relationship exists.
    pub fn is_ancestor(&self, version: &str) -> (b: bool)
        ensures
            b == ancestors_of(self.t)(version@),
    {
        let root = root_string();
        self.t.contains_key(version) || str_eq(version, root.as_str())
    }

    /// Get the version graph.
    pub fn get_version_graph(&self) -> (g: &StrMap<StrMap<bool>>)
        ensures
            *g == self.t,
    {
        &self.t
    }

    /// Get the current frontier versions.
    pub fn get_frontier(&self) -> (vs: Vec<String>)
        ensures
            string_views(vs@) == self.current_version.key_order(),
            string_views(vs@).no_duplicates(),
            forall|v: Seq<char>| self.current_version@.contains_key(v) <==> string_views(vs@).contains(v),
    {
        let _ = self.current_version.len();
        self.current_version.keys()
    }

    /// Generate braid messages for a specific version.
    /// This is an internal helper that returns splices.
    pub fn generate_version_splices(&self, version: &str) -> (r: Vec<Splice>)
        requires
            braid_width(self.sequence@, ancestors_of(self.t)) <= usize::MAX,
        ensures
            splice_views(r@) == braid_walk(self.sequence@, version@, ancestors_of(self.t), 0, false),
    {
        let anc = ancestor_set(&self.t);
        generate_braid(&self.sequence, version, &anc)
    }
}


/// The splices of a list of patches.
fn to_splices(patches: &Vec<JsonPatch>) -> (r: Vec<Splice>)
    ensures
        splice_views(r@) == patch_splices(patches@),
{
    let mut r: Vec<Splice> = Vec::new();
    let mut i: usize = 0;
    while i < patches.len()
        invariant
            i <= patches@.len(),
            splice_views(r@) == patch_splices(patches@.subrange(0, i as int)),
        decreases patches@.len() - i,
    {
        let sp = patches[i].to_splice();
        let ghost before = r@;
        r.push(sp);
        proof {
            assert(patches@.subrange(0, i + 1) =~= patches@.subrange(0, i as int).push(patches@[i as int]));
            assert(splice_views(r@) =~= splice_views(before).push(sp@));
            assert(patch_splices(patches@.subrange(0, i + 1)) =~= patch_splices(patches@.subrange(0, i as int)).push(patch_splice(patches@[i as int])));
        }
        i = i + 1;
    }
    proof {
        assert(patches@.subrange(0, patches@.len() as int) =~= patches@);
    }
    r
}

/// What adding a version's splices does to the sequence (see
/// `sequence_crdt::add_version`): when they fit, the sequence read with
/// the new version taken into account is the old one with every splice
/// applied (read with the versions alone when the new version occurs
/// nowhere in it); otherwise nothing changes.  A reading that leaves the
/// new version out reads the same sequence after as before.  The new tree
/// is the one `added_tree` describes.
pub open spec fn sequence_added(old: NodeModel, new: NodeModel, version: Seq<char>, ss: Seq<SpliceModel>, anc: spec_fn(Seq<char>) -> bool) -> bool {
    &&& adds_fit(old, version, ss, anc) ==>
        elements(new, with_version(anc, version)) == apply_splices(elements(old, with_version(anc, version)), ss)
    &&& adds_fit(old, version, ss, anc) && fresh_in(old, version) ==>
        elements(new, with_version(anc, version)) == apply_splices(elements(old, anc), ss)
    &&& !adds_fit(old, version, ss, anc) ==> new == old
    &&& forall|w: spec_fn(Seq<char>) -> bool| !w(version) ==> #[trigger] elements(new, w) == elements(old, w)
    &&& new == added_tree(old, version, ss, anc)
}

impl JsonCrdt {
    /// Add a new version with the given patches.
    ///
    /// When a parent is neither in the graph nor the root, nothing changes.
    /// Otherwise the version enters the graph with its parents, replaces
    /// its parents in the frontier, and its patches are applied to the
    /// sequence, which then reads the graph's versions.
    ///
    /// # Returns
    /// Rebased patches that can be used to update other views
    pub fn add_version(&mut self, version: &str, parents: StrMap<bool>, patches: Vec<JsonPatch>) -> (r: Vec<Splice>)
        ensures
            r@.len() == 0,
            final(self).next_seq == old(self).next_seq,
            final(self).id == old(self).id,
            parents_known(old(self).t, parents@) ==> {
                &&& graph_view(final(self).t) == graph_view(old(self).t).insert(version@, parents@)
                &&& final(self).current_version@ == old(self).current_version@.remove_keys(parents@.dom()).insert(version@, true)
                &&& sequence_added(old(self).sequence@, final(self).sequence@, version@, patch_splices(patches@), ancestors_of(final(self).t))
            },
            !parents_known(old(self).t, parents@) ==> {
                &&& final(self).t == old(self).t
                &&& final(self).current_version == old(self).current_version
                &&& final(self).sequence == old(self).sequence
            },
            uniform_kind(old(self).sequence@, true) ==> uniform_kind(final(self).sequence@, true),
    {
        let n = parents.len();
        let keys = parents.keys();
        let root = root_string();
        let mut i: usize = 0;
        while i < keys.len()
            invariant
                i <= keys@.len(),
                string_views(keys@) == parents.key_order(),
                n == keys@.len(),
                root@ == root_version(),
                forall|k: Seq<char>| parents@.contains_key(k) <==> parents.key_order().contains(k),
                forall|j: int| 0 <= j < i ==> self.t@.contains_key(#[trigger] keys@[j]@) || keys@[j]@ == root_version(),
            decreases keys@.len() - i,
        {
            if !self.t.contains_key(keys[i].as_str()) && !str_eq(keys[i].as_str(), root.as_str()) {
                proof {
                    assert(parents.key_order()[i as int] == keys@[i as int]@);
                    assert(parents.key_order().contains(keys@[i as int]@));
                    assert(parents@.contains_key(keys@[i as int]@));
                }
                return Vec::new();
            }
            i = i + 1;
        }
        proof {
            assert forall|p: Seq<char>| parents@.contains_key(p) implies self.t@.contains_key(p) || p == root_version() by {
                assert(parents.key_order().contains(p));
                let j = choose|j: int| 0 <= j < parents.key_order().len() && parents.key_order()[j] == p;
                assert(keys@[j]@ == p);
            }
        }
        let ghost old_t = self.t;
        let ghost old_cv = self.current_version@;
        let ghost seq0 = self.sequence;
        let ghost ns0 = self.next_seq;
        let ghost id0 = self.id;
        self.t.insert(String::from_str(version), parents.copy());
        proof {
            assert(graph_view(self.t) =~= graph_view(old_t).insert(version@, parents@));
        }
        let ghost t1 = self.t;
        let mut i: usize = 0;
        while i < keys.len()
            invariant
                i <= keys@.len(),
                string_views(keys@) == parents.key_order(),
                self.t == t1,
                self.sequence == seq0,
                self.next_seq == ns0,
                self.id == id0,
                self.current_version@ == old_cv.remove_keys(string_views(keys@).subrange(0, i as int).to_set()),
            decreases keys@.len() - i,
        {
            let ghost before = self.current_version@;
            self.current_version.remove(keys[i].as_str());
            proof {
                let a = string_views(keys@).subrange(0, i as int).to_set();
                let b = string_views(keys@).subrange(0, i + 1).to_set();
                assert(string_views(keys@).subrange(0, i + 1) =~= string_views(keys@).subrange(0, i as int).push(keys@[i as int]@));
                string_views(keys@).subrange(0, i as int).lemma_push_to_set_commute(keys@[i as int]@);
                assert(b =~= a.insert(keys@[i as int]@));
                assert(self.current_version@ =~= old_cv.remove_keys(b));
            }
            i = i + 1;
        }
        proof {
            assert(string_views(keys@).subrange(0, keys@.len() as int) =~= string_views(keys@));
            assert(string_views(keys@).to_set() =~= parents@.dom());
        }
        self.current_version.insert(String::from_str(version), true);
        let splices = to_splices(&patches);
        let anc = ancestor_set(&self.t);
        let r = add_version(&mut self.sequence, version, splices, &anc);
        proof {
            let ss = patch_splices(patches@);
            assert forall|i: int| 0 <= i < ss.len() implies #[trigger] ss[i].insert is Text by {}
            if uniform_kind(seq0@, true) {
                lemma_added_text(seq0@, version@, ss, ancestors_of(self.t));
            }
        }
        r
    }
}

/// Whether the path steps from `path[i]` to one of its parents.
pub open spec fn step_ok(g: Map<Seq<char>, Map<Seq<char>, bool>>, path: Seq<Seq<char>>, i: int) -> bool {
    g[path[i]].contains_key(path[i + 1])
}

/// A path that starts at a known version and goes from version to parent,
/// every version on it being in the graph.
pub open spec fn is_parent_path(g: Map<Seq<char>, Map<Seq<char>, bool>>, known: Set<Seq<char>>, path: Seq<Seq<char>>) -> bool {
    &&& path.len() > 0
    &&& known.contains(path[0])
    &&& forall|i: int| 0 <= i < path.len() ==> #[trigger] g.contains_key(path[i])
    &&& forall|i: int| 0 <= i < path.len() - 1 ==> #[trigger] step_ok(g, path, i)
}

/// Whether `v` is an ancestor of a known version: the end of a parent path.
pub open spec fn reaches(g: Map<Seq<char>, Map<Seq<char>, bool>>, known: Set<Seq<char>>, v: Seq<char>) -> bool {
    exists|path: Seq<Seq<char>>| #[trigger] is_parent_path(g, known, path) && path.last() == v
}

/// Whether the search has dealt with `x`: found it, still has it to visit,
/// or it is not in the graph.
pub open spec fn covered(g: Map<Seq<char>, Map<Seq<char>, bool>>, found: Map<Seq<char>, bool>, stack: Seq<String>, x: Seq<char>) -> bool {
    found.contains_key(x) || string_views(stack).contains(x) || !g.contains_key(x)
}

proof fn lemma_path_extend(g: Map<Seq<char>, Map<Seq<char>, bool>>, known: Set<Seq<char>>, path: Seq<Seq<char>>, v: Seq<char>)
    requires
        is_parent_path(g, known, path),
        g[path.last()].contains_key(v),
        g.contains_key(v),
    ensures
        is_parent_path(g, known, path.push(v)),
        path.push(v).last() == v,
{
    let q = path.push(v);
    assert forall|i: int| 0 <= i < q.len() implies #[trigger] g.contains_key(q[i]) by {
        if i < path.len() {
            assert(q[i] == path[i]);
        }
    }
    assert forall|i: int| 0 <= i < q.len() - 1 implies #[trigger] step_ok(g, q, i) by {
        if i < path.len() - 1 {
            assert(step_ok(g, path, i));
        }
    }
}

/// At the end of the search, every ancestor of a known version was found.
proof fn lemma_search_complete(
    g: Map<Seq<char>, Map<Seq<char>, bool>>,
    known: Set<Seq<char>>,
    found: Map<Seq<char>, bool>,
    path: Seq<Seq<char>>,
    k: int,
)
    requires
        is_parent_path(g, known, path),
        0 <= k < path.len(),
        forall|x: Seq<char>| known.contains(x) && g.contains_key(x) ==> found.contains_key(x),
        forall|a: Seq<char>, p: Seq<char>| found.contains_key(a) && g[a].contains_key(p) && g.contains_key(p) ==> found.contains_key(p),
    ensures
        found.contains_key(path[k]),
    decreases k,
{
    if k > 0 {
        lemma_search_complete(g, known, found, path, k - 1);
        assert(step_ok(g, path, k - 1));
        assert(g.contains_key(path[k]));
    } else {
        assert(g.contains_key(path[0]));
    }
}

/// The ancestors of the known versions in the graph (the known versions
/// included, when they are in the graph).
fn known_ancestors(t: &StrMap<StrMap<bool>>, known: &StrMap<bool>) -> (found: StrMap<bool>)
    ensures
        forall|v: Seq<char>| found@.contains_key(v) <==> reaches(graph_view(*t), known@.dom(), v),
{
    let ghost g = graph_view(*t);
    let ghost kn = known@.dom();
    let _ = t.len();
    let _ = known.len();
    let mut found: StrMap<bool> = StrMap::new();
    let mut stack: Vec<String> = known.keys();
    proof {
        assert forall|x: Seq<char>| kn.contains(x) implies covered(g, found@, stack@, x) by {
            assert(known.key_order().contains(x));
        }
        assert(found@.dom() =~= Set::<Seq<char>>::empty());
        assert(g.dom() =~= t@.dom());
        assert forall|j: int| 0 <= j < stack@.len() implies kn.contains(#[trigger] stack@[j]@) by {
            assert(string_views(stack@)[j] == stack@[j]@);
            assert(known.key_order().contains(stack@[j]@));
        }
    }
    while stack.len() > 0
        invariant
            g == graph_view(*t),
            kn == known@.dom(),
            g.dom().finite(),
            found@.dom().subset_of(g.dom()),
            found@.dom().finite(),
            forall|v: Seq<char>| found@.contains_key(v) ==> reaches(g, kn, v),
            forall|j: int| 0 <= j < stack@.len() ==> kn.contains(#[trigger] stack@[j]@)
                || exists|a: Seq<char>| found@.contains_key(a) && g[a].contains_key(stack@[j]@),
            forall|x: Seq<char>| kn.contains(x) ==> covered(g, found@, stack@, x),
            forall|a: Seq<char>, p: Seq<char>| found@.contains_key(a) && #[trigger] g[a].contains_key(p) ==> covered(g, found@, stack@, p),
        decreases g.dom().len() - found@.dom().len(), stack@.len(),
    {
        proof {
            vstd::set_lib::lemma_len_subset(found@.dom(), g.dom());
        }
        let ghost before = stack@;
        let v = stack.pop().unwrap();
        proof {
            assert(before =~= stack@.push(v));
            assert(string_views(before) =~= string_views(stack@).push(v@));
        }
        let ghost vi = before.len() - 1;
        if found.contains_key(v.as_str()) {
            proof {
                assert forall|x: Seq<char>| string_views(before).contains(x) implies
                    string_views(stack@).contains(x) || found@.contains_key(x) by {
                    let j = choose|j: int| 0 <= j < string_views(before).len() && string_views(before)[j] == x;
                    if j < stack@.len() {
                        assert(string_views(stack@)[j] == x);
                    }
                }
                assert forall|j: int| 0 <= j < stack@.len() implies kn.contains(#[trigger] stack@[j]@)
                    || exists|a: Seq<char>| found@.contains_key(a) && g[a].contains_key(stack@[j]@) by {
                    assert(stack@[j] == before[j]);
                }
            }
        } else {
            match t.get(v.as_str()) {
                None => {
                    proof {
                        assert forall|x: Seq<char>| string_views(before).contains(x) implies
                            string_views(stack@).contains(x) || !g.contains_key(x) by {
                            let j = choose|j: int| 0 <= j < string_views(before).len() && string_views(before)[j] == x;
                            if j < stack@.len() {
                                assert(string_views(stack@)[j] == x);
                            }
                        }
                        assert forall|j: int| 0 <= j < stack@.len() implies kn.contains(#[trigger] stack@[j]@)
                            || exists|a: Seq<char>| found@.contains_key(a) && g[a].contains_key(stack@[j]@) by {
                            assert(stack@[j] == before[j]);
                        }
                    }
                },
                Some(parents) => {
                    let ghost found0 = found@;
                    let ghost stack0 = stack@;
                    proof {
                        assert(g.contains_key(v@));
                        assert(g[v@] == parents@);
                        // v is reached: it is known, or a parent of a found version.
                        assert(kn.contains(before[vi]@) || exists|a: Seq<char>| found0.contains_key(a) && g[a].contains_key(before[vi]@));
                        if kn.contains(v@) {
                            let path = seq![v@];
                            assert(is_parent_path(g, kn, path));
                        } else {
                            let a = choose|a: Seq<char>| found0.contains_key(a) && g[a].contains_key(v@);
                            assert(reaches(g, kn, a));
                            let pa = choose|path: Seq<Seq<char>>| #[trigger] is_parent_path(g, kn, path) && path.last() == a;
                            lemma_path_extend(g, kn, pa, v@);
                        }
                    }
                    found.insert(String::from_str(v.as_str()), true);
                    let pkeys = parents.keys();
                    let _ = parents.len();
                    let mut i: usize = 0;
                    while i < pkeys.len()
                        invariant
                            i <= pkeys@.len(),
                            string_views(pkeys@) == parents.key_order(),
                            forall|k: Seq<char>| parents@.contains_key(k) <==> parents.key_order().contains(k),
                            g[v@] == parents@,
                            stack@.len() == stack0.len() + i,
                            forall|j: int| 0 <= j < stack0.len() ==> #[trigger] stack@[j] == stack0[j],
                            forall|j: int| stack0.len() <= j < stack@.len() ==> #[trigger] stack@[j]@ == pkeys@[j - stack0.len()]@,
                        decreases pkeys@.len() - i,
                    {
                        stack.push(String::from_str(pkeys[i].as_str()));
                        i = i + 1;
                    }
                    proof {
                        assert(found@ == found0.insert(v@, true));
                        assert forall|x: Seq<char>| string_views(stack0).contains(x) implies string_views(stack@).contains(x) by {
                            let j = choose|j: int| 0 <= j < string_views(stack0).len() && string_views(stack0)[j] == x;
                            assert(string_views(stack@)[j] == x);
                        }
                        assert forall|x: Seq<char>| string_views(before).contains(x) implies covered(g, found@, stack@, x) by {
                            let j = choose|j: int| 0 <= j < string_views(before).len() && string_views(before)[j] == x;
                            if j < stack0.len() {
                                assert(string_views(stack0)[j] == x);
                                assert(string_views(stack0).contains(x));
                                assert(string_views(stack@).contains(x));
                            } else {
                                assert(x == v@);
                            }
                        }
                        assert forall|p: Seq<char>| parents@.contains_key(p) implies string_views(stack@).contains(p) by {
                            assert(parents.key_order().contains(p));
                            let j = choose|j: int| 0 <= j < parents.key_order().len() && parents.key_order()[j] == p;
                            assert(string_views(stack@)[stack0.len() + j] == p);
                        }
                        assert forall|j: int| 0 <= j < stack@.len() implies kn.contains(#[trigger] stack@[j]@)
                            || exists|a: Seq<char>| found@.contains_key(a) && g[a].contains_key(stack@[j]@) by {
                            if j < stack0.len() {
                                assert(stack@[j] == before[j]);
                                if !kn.contains(stack@[j]@) {
                                    let a = choose|a: Seq<char>| found0.contains_key(a) && g[a].contains_key(before[j]@);
                                    assert(found@.contains_key(a));
                                }
                            } else {
                                let q = j - stack0.len();
                                assert(string_views(pkeys@)[q] == pkeys@[q]@);
                                assert(parents.key_order().contains(pkeys@[q]@));
                                assert(found@.contains_key(v@) && g[v@].contains_key(stack@[j]@));
                            }
                        }
                        assert(found@.dom() =~= found0.dom().insert(v@));
                        assert(found@.dom().subset_of(g.dom()));
                        assert(found@.dom().len() == found0.dom().len() + 1);
                        vstd::set_lib::lemma_len_subset(found@.dom(), g.dom());
                    }
                },
            }
        }
    }
    proof {
        assert forall|v: Seq<char>| reaches(g, kn, v) implies found@.contains_key(v) by {
            let path = choose|path: Seq<Seq<char>>| #[trigger] is_parent_path(g, kn, path) && path.last() == v;
            assert forall|x: Seq<char>| kn.contains(x) && g.contains_key(x) implies found@.contains_key(x) by {
                assert(covered(g, found@, stack@, x));
            }
            assert forall|a: Seq<char>, p: Seq<char>| found@.contains_key(a) && g[a].contains_key(p) && g.contains_key(p)
                implies found@.contains_key(p) by {
                assert(covered(g, found@, stack@, p));
            }
            lemma_search_complete(g, kn, found@, path, path.len() - 1);
        }
    }
    found
}

/// The versions of `order` that are not ancestors of the known versions,
/// in order.
pub open spec fn unknown_versions(order: Seq<Seq<char>>, g: Map<Seq<char>, Map<Seq<char>, bool>>, known: Set<Seq<char>>) -> Seq<Seq<char>>
    decreases order.len(),
{
    if order.len() == 0 {
        Seq::empty()
    } else {
        let rest = unknown_versions(order.drop_last(), g, known);
        if reaches(g, known, order.last()) { rest } else { rest.push(order.last()) }
    }
}

/// The range of a splice as a patch writes it: "pos:end".
pub open spec fn splice_range(s: SpliceModel) -> Seq<char> {
    decimal(s.pos as nat) + seq![':'] + decimal((s.pos + s.delete_count) as nat)
}

/// Whether a patch is the one a splice gives: its range, and its inserted
/// text (or JSON `null` for elements that are indices).
pub open spec fn patch_of_splice(p: JsonPatch, s: SpliceModel) -> bool {
    &&& p.range@ == splice_range(s)
    &&& match s.insert {
        ElemsModel::Text(c) => p.content is Text && p.content.chars() == c,
        ElemsModel::Indices(_) => p.content is Json && p.content.chars() == seq!['n', 'u', 'l', 'l'],
    }
}

/// Whether a list of patches is the one a list of splices gives.
pub open spec fn patches_of_splices(ps: Seq<JsonPatch>, ss: Seq<SpliceModel>) -> bool {
    ps.len() == ss.len() && forall|j: int| 0 <= j < ps.len() ==> #[trigger] patch_of_splice(ps[j], ss[j])
}

/// The patch a splice gives.
fn splice_to_patch(sp: &Splice) -> (p: JsonPatch)
    ensures
        patch_of_splice(p, sp@),
{
    let mut range = decimal_string(sp.pos as u128);
    push_char(&mut range, ':');
    push_decimal(&mut range, sp.pos as u128 + sp.delete_count as u128);
    proof {
        assert(range@ =~= splice_range(sp@));
    }
    let content = match &sp.insert {
        SequenceElems::String(text) => PatchContent::Text(String::from_str(text.as_str())),
        SequenceElems::Indices(_) => {
            let null = String::from_str("null");
            proof {
                reveal_strlit("null");
                assert(null@ =~= seq!['n', 'u', 'l', 'l']);
            }
            PatchContent::Json(null)
        },
    };
    JsonPatch { range, content }
}

/// The patches a list of splices gives.
fn splices_to_patches(ss: &Vec<Splice>) -> (ps: Vec<JsonPatch>)
    ensures
        patches_of_splices(ps@, splice_views(ss@)),
{
    let mut ps: Vec<JsonPatch> = Vec::new();
    let mut i: usize = 0;
    while i < ss.len()
        invariant
            i <= ss@.len(),
            ps@.len() == i,
            forall|j: int| 0 <= j < i ==> #[trigger] patch_of_splice(ps@[j], splice_views(ss@)[j]),
        decreases ss@.len() - i,
    {
        let p = splice_to_patch(&ss[i]);
        ps.push(p);
        i = i + 1;
    }
    ps
}

/// Whether an update lists `v`, its parents in the graph and the patches of
/// its braid.
pub open spec fn update_of(e: (String, StrMap<bool>, Vec<JsonPatch>), v: Seq<char>, crdt: JsonCrdt) -> bool {
    &&& e.0@ == v
    &&& e.1@ == graph_view(crdt.t)[v]
    &&& patches_of_splices(e.2@, braid_walk(crdt.sequence@, v, ancestors_of(crdt.t), 0, false))
}

impl JsonCrdt {
    /// Generate a full braid (list of updates) to sync a peer.
    ///
    /// Lists, in the graph's order, each version that is not an ancestor of
    /// the known versions, with its parents and the patches of its braid.
    pub fn generate_braid(&self, known_versions: &StrMap<bool>) -> (updates: Vec<(String, StrMap<bool>, Vec<JsonPatch>)>)
        requires
            braid_width(self.sequence@, ancestors_of(self.t)) <= usize::MAX,
        ensures
            updates@.len() == unknown_versions(self.t.key_order(), graph_view(self.t), known_versions@.dom()).len(),
            forall|i: int| 0 <= i < updates@.len() ==> #[trigger] update_of(updates@[i],
                unknown_versions(self.t.key_order(), graph_view(self.t), known_versions@.dom())[i], *self),
    {
        let ghost g = graph_view(self.t);
        let ghost kn = known_versions@.dom();
        let found = known_ancestors(&self.t, known_versions);
        let all_versions = self.t.keys();
        let _ = self.t.len();
        let ghost order = self.t.key_order();
        let mut updates: Vec<(String, StrMap<bool>, Vec<JsonPatch>)> = Vec::new();
        let mut i: usize = 0;
        proof {
            assert(order.subrange(0, 0) =~= Seq::<Seq<char>>::empty());
        }
        while i < all_versions.len()
            invariant
                i <= all_versions@.len(),
                string_views(all_versions@) == order,
                order == self.t.key_order(),
                g == graph_view(self.t),
                kn == known_versions@.dom(),
                forall|k: Seq<char>| self.t@.contains_key(k) <==> order.contains(k),
                forall|v: Seq<char>| found@.contains_key(v) <==> reaches(g, kn, v),
                braid_width(self.sequence@, ancestors_of(self.t)) <= usize::MAX,
                updates@.len() == unknown_versions(order.subrange(0, i as int), g, kn).len(),
                forall|j: int| 0 <= j < updates@.len() ==> #[trigger] update_of(updates@[j],
                    unknown_versions(order.subrange(0, i as int), g, kn)[j], *self),
            decreases all_versions@.len() - i,
        {
            let version = &all_versions[i];
            let ghost pre = order.subrange(0, i as int);
            let ghost post = order.subrange(0, i + 1);
            proof {
                assert(post.drop_last() =~= pre);
                assert(post.last() == version@);
                assert(string_views(all_versions@)[i as int] == version@);
            }
            if !found.contains_key(version.as_str()) {
                let splices = self.generate_version_splices(version.as_str());
                let patches = splices_to_patches(&splices);
                proof {
                    assert(order.contains(version@));
                }
                let parents = match self.t.get(version.as_str()) {
                    Some(p) => p.copy(),
                    None => StrMap::new(),
                };
                let ghost before = updates@;
                updates.push((String::from_str(version.as_str()), parents, patches));
                proof {
                    assert(unknown_versions(post, g, kn) == unknown_versions(pre, g, kn).push(version@));
                    assert(g[version@] == self.t@[version@]@);
                    assert forall|j: int| 0 <= j < updates@.len() implies #[trigger] update_of(updates@[j],
                        unknown_versions(post, g, kn)[j], *self) by {
                        if j < before.len() {
                            assert(updates@[j] == before[j]);
                        }
                    }
                }
            } else {
                proof {
                    assert(unknown_versions(post, g, kn) == unknown_versions(pre, g, kn));
                }
            }
            i = i + 1;
        }
        proof {
            assert(order.subrange(0, all_versions@.len() as int) =~= order);
        }
        updates
    }
}

/// The version graph and frontier after renaming, in `order`, each
/// version of the bubble map to its bottom: a renamed version's parents
/// join those of its bottom, and a renamed frontier version is replaced by
/// its bottom.
pub open spec fn bubble_graph(
    order: Seq<Seq<char>>,
    tb: Map<Seq<char>, (String, String)>,
    g: Map<Seq<char>, Map<Seq<char>, bool>>,
    cv: Map<Seq<char>, bool>,
) -> (Map<Seq<char>, Map<Seq<char>, bool>>, Map<Seq<char>, bool>)
    decreases order.len(),
{
    if order.len() == 0 {
        (g, cv)
    } else {
        let (g1, cv1) = bubble_graph(order.drop_last(), tb, g, cv);
        let old_v = order.last();
        let new_v = tb[old_v].0@;
        if old_v == new_v {
            (g1, cv1)
        } else {
            let g2 = if g1.contains_key(old_v) {
                let base = if g1.contains_key(new_v) { g1[new_v] } else { Map::empty() };
                g1.remove(old_v).insert(new_v, base.union_prefer_right(g1[old_v]))
            } else {
                g1
            };
            let cv2 = if cv1.contains_key(old_v) { cv1.remove(old_v).insert(new_v, true) } else { cv1 };
            (g2, cv2)
        }
    }
}

/// Adds every entry of `add` to `base`.
fn extend_map(base: &mut StrMap<bool>, add: &StrMap<bool>)
    ensures
        final(base)@ == old(base)@.union_prefer_right(add@),
{
    let n = add.len();
    let mut i: usize = 0;
    while i < n
        invariant
            i <= n,
            n == add.key_order().len(),
            add.key_order().no_duplicates(),
            forall|k: Seq<char>| add@.contains_key(k) <==> add.key_order().contains(k),
            base@ == old(base)@.union_prefer_right(add@.restrict(add.key_order().subrange(0, i as int).to_set())),
        decreases n - i,
    {
        let k = add.key_at(i);
        let v = *add.value_at(i);
        let ghost before = base@;
        base.insert(String::from_str(k.as_str()), v);
        proof {
            let a = add.key_order().subrange(0, i as int);
            let b = add.key_order().subrange(0, i + 1);
            assert(b =~= a.push(add.key_order()[i as int]));
            a.lemma_push_to_set_commute(add.key_order()[i as int]);
            assert(base@ =~= old(base)@.union_prefer_right(add@.restrict(b.to_set())));
        }
        i = i + 1;
    }
    proof {
        assert(add.key_order().subrange(0, n as int) =~= add.key_order());
        assert(add@.restrict(add.key_order().to_set()) =~= add@);
    }
}

/// A CRDT whose sequence holds text (as one made by `new` or
/// `with_content` and changed by `add_version` does) reads as many
/// characters as its length: `get_content` gives `get_length` characters.
pub proof fn lemma_content_has_length(c: JsonCrdt)
    requires
        uniform_kind(c.sequence@, true),
    ensures
        chars_of(elements(c.sequence@, ancestors_of(c.t))).len() == elements(c.sequence@, ancestors_of(c.t)).len(),
{
    lemma_text_length(c.sequence@, ancestors_of(c.t));
}

impl JsonCrdt {
    /// Apply bubble compression for pruning.
    ///
    /// The sequence is bubbled; then each version of the map, in the map's
    /// order, that is renamed to another bottom has its parents merged into
    /// its bottom's and is replaced by its bottom in the frontier.
    pub fn apply_bubbles(&mut self, to_bubble: &StrMap<(String, String)>)
        requires
            uniform_kind(old(self).sequence@, old(self).sequence@.elems is Text),
        ensures
            final(self).sequence@ == merge_model(rename_node(old(self).sequence, to_bubble@)),
            uniform_kind(final(self).sequence@, old(self).sequence@.elems is Text),
            (graph_view(final(self).t), final(self).current_version@) == bubble_graph(
                to_bubble.key_order(), to_bubble@, graph_view(old(self).t), old(self).current_version@),
            final(self).next_seq == old(self).next_seq,
            final(self).id == old(self).id,
    {
        apply_bubbles(&mut self.sequence, to_bubble);
        let n = to_bubble.len();
        let ghost order = to_bubble.key_order();
        let ghost g0 = graph_view(self.t);
        let ghost cv0 = self.current_version@;
        let ghost seq1 = self.sequence;
        let ghost ns0 = self.next_seq;
        let ghost id0 = self.id;
        let mut i: usize = 0;
        proof {
            assert(order.subrange(0, 0) =~= Seq::<Seq<char>>::empty());
        }
        while i < n
            invariant
                i <= n,
                n == order.len(),
                order == to_bubble.key_order(),
                forall|k: Seq<char>| to_bubble@.contains_key(k) <==> order.contains(k),
                (graph_view(self.t), self.current_version@) == bubble_graph(order.subrange(0, i as int), to_bubble@, g0, cv0),
                self.sequence == seq1,
                self.next_seq == ns0,
                self.id == id0,
            decreases n - i,
        {
            let old_v = to_bubble.key_at(i);
            let pair = to_bubble.value_at(i);
            let new_v = &pair.0;
            let ghost pre = order.subrange(0, i as int);
            proof {
                assert(order.subrange(0, i + 1).drop_last() =~= pre);
                assert(order.subrange(0, i + 1).last() == old_v@);
            }
            if !str_eq(old_v.as_str(), new_v.as_str()) {
                let ghost g1 = graph_view(self.t);
                match self.t.remove(old_v.as_str()) {
                    Some(parents) => {
                        let mut base = match self.t.remove(new_v.as_str()) {
                            Some(b) => b,
                            None => StrMap::new(),
                        };
                        extend_map(&mut base, &parents);
                        self.t.insert(String::from_str(new_v.as_str()), base);
                        proof {
                            let b0 = if g1.contains_key(new_v@) { g1[new_v@] } else { Map::<Seq<char>, bool>::empty() };
                            assert(graph_view(self.t) =~= g1.remove(old_v@).insert(new_v@, b0.union_prefer_right(g1[old_v@])));
                        }
                    },
                    None => {
                        proof {
                            assert(graph_view(self.t) =~= g1);
                        }
                    },
                }
                if self.current_version.remove(old_v.as_str()).is_some() {
                    self.current_version.insert(String::from_str(new_v.as_str()), true);
                }
            }
            i = i + 1;
        }
        proof {
            assert(order.subrange(0, n as int) =~= order);
        }
    }
}
/// A range parses to a position and delete count whose sum fits in a
/// `usize`.
proof fn lemma_range_fits(r: Seq<char>)
    ensures
        parse_range_spec(r).0 + parse_range_spec(r).1 <= usize::MAX,
{
    if exists|i: int| single_colon_at(r, i) {
        let i = choose|i: int| single_colon_at(r, i);
        let start = parse_or(r.subrange(0, i), 0);
        let end = parse_or(r.subrange(i + 1, r.len() as int), start);
        assert(start <= usize::MAX);
        assert(end <= usize::MAX);
    } else {
        assert(parse_or(r, 0) <= usize::MAX);
    }
}

/// Whether an Antimatter update lists `v`, its parents in the graph and
/// the patches of its braid.
pub open spec fn antimatter_update_of(e: (String, StrMap<bool>, Vec<Patch>), v: Seq<char>, crdt: JsonCrdt) -> bool {
    let ss = braid_walk(crdt.sequence@, v, ancestors_of(crdt.t), 0, false);
    &&& e.0@ == v
    &&& e.1@ == graph_view(crdt.t)[v]
    &&& e.2@.len() == ss.len()
    &&& forall|j: int| 0 <= j < e.2@.len() ==>
        patch_of_splice(JsonPatch { range: (#[trigger] e.2@[j]).range, content: e.2@[j].content }, ss[j])
}

/// The patches of a JSON update as Antimatter patches.
fn to_antimatter_patches(ps: Vec<JsonPatch>) -> (r: Vec<Patch>)
    ensures
        r@.len() == ps@.len(),
        forall|j: int| 0 <= j < r@.len() ==> (#[trigger] r@[j]).range == ps@[j].range && r@[j].content == ps@[j].content,
{
    let ghost all = ps@;
    let mut rest = ps;
    let mut r: Vec<Patch> = Vec::new();
    proof {
        assert(rest@ =~= all.subrange(0, all.len() as int));
    }
    while rest.len() > 0
        invariant
            r@.len() + rest@.len() == all.len(),
            rest@ == all.subrange(r@.len() as int, all.len() as int),
            forall|j: int| 0 <= j < r@.len() ==> (#[trigger] r@[j]).range == all[j].range && r@[j].content == all[j].content,
        decreases rest@.len(),
    {
        let ghost k = r@.len();
        let p = rest.remove(0);
        proof {
            assert(p == all[k as int]);
            assert(rest@ =~= all.subrange(k as int + 1, all.len() as int));
        }
        r.push(Patch { range: p.range, content: p.content });
    }
    r
}

impl JsonCrdt {
    /// The updates a peer that knows `known_versions` needs, as Antimatter
    /// patches (see `JsonCrdt::generate_braid`); none when the braid's positions do not
    /// fit in a `usize`.
    pub fn antimatter_braid(&self, known_versions: &StrMap<bool>) -> (updates: Vec<(String, StrMap<bool>, Vec<Patch>)>)
        ensures
            braid_width(self.sequence@, ancestors_of(self.t)) > usize::MAX ==> updates@.len() == 0,
            braid_width(self.sequence@, ancestors_of(self.t)) <= usize::MAX ==> {
                &&& updates@.len() == unknown_versions(self.t.key_order(), graph_view(self.t), known_versions@.dom()).len()
                &&& forall|i: int| 0 <= i < updates@.len() ==> #[trigger] antimatter_update_of(updates@[i],
                    unknown_versions(self.t.key_order(), graph_view(self.t), known_versions@.dom())[i], *self)
            },
    {
        let anc = ancestor_set(&self.t);
        match braid_width_checked(&self.sequence, &anc) {
            None => Vec::new(),
            Some(_) => {
                let json_updates = JsonCrdt::generate_braid(self, known_versions);
                let ghost unk = unknown_versions(self.t.key_order(), graph_view(self.t), known_versions@.dom());
                let ghost all = json_updates@;
                let mut rest = json_updates;
                let mut out: Vec<(String, StrMap<bool>, Vec<Patch>)> = Vec::new();
                proof {
                    assert(rest@ =~= all.subrange(0, all.len() as int));
                }
                while rest.len() > 0
                    invariant
                        out@.len() + rest@.len() == all.len(),
                        all.len() == unk.len(),
                        rest@ == all.subrange(out@.len() as int, all.len() as int),
                        forall|i: int| 0 <= i < all.len() ==> #[trigger] update_of(all[i], unk[i], *self),
                        forall|i: int| 0 <= i < out@.len() ==> #[trigger] antimatter_update_of(out@[i], unk[i], *self),
                    decreases rest@.len(),
                {
                    let ghost k = out@.len();
                    let (v, p, ps) = rest.remove(0);
                    proof {
                        assert((v, p, ps) == all[k as int]);
                        assert(rest@ =~= all.subrange(k as int + 1, all.len() as int));
                        assert(update_of(all[k as int], unk[k as int], *self));
                    }
                    let ghost jps = ps@;
                    let aps = to_antimatter_patches(ps);
                    let ghost before = out@;
                    out.push((v, p, aps));
                    proof {
                        let ss = braid_walk(self.sequence@, unk[k as int], ancestors_of(self.t), 0, false);
                        assert forall|j: int| 0 <= j < aps@.len() implies
                            patch_of_splice(JsonPatch { range: (#[trigger] aps@[j]).range, content: aps@[j].content }, ss[j]) by {
                            assert(patch_of_splice(jps[j], ss[j]));
                            assert(JsonPatch { range: aps@[j].range, content: aps@[j].content } == jps[j]);
                        }
                        assert(antimatter_update_of(out@[k as int], unk[k as int], *self));
                        assert forall|i: int| 0 <= i < out@.len() implies #[trigger] antimatter_update_of(out@[i], unk[i], *self) by {
                            if i < k {
                                assert(out@[i] == before[i]);
                            }
                        }
                    }
                }
                out
            },
        }
    }
}

/// The splice a patch stands for, by the patch's range and characters
/// (see `patch_splice`).
pub open spec fn view_splice(range: Seq<char>, chars: Seq<char>) -> SpliceModel {
    let (pos, dc) = parse_range_spec(range);
    SpliceModel {
        pos: pos as int,
        delete_count: dc as int,
        insert: ElemsModel::Text(chars),
        sort_key: None,
        op_type: if dc > 0 { 'r' } else { 'i' },
    }
}

impl PrunableCrdt for JsonCrdt {
    /// The patch is added to the sequence as a change of no version, read
    /// with the versions of the graph; nothing else changes.
    open spec fn patch_applied(old: Self, new: Self, patch: (Seq<char>, Seq<char>, bool)) -> bool {
        &&& sequence_added(old.sequence@, new.sequence@, Seq::empty(), seq![view_splice(patch.0, patch.1)], ancestors_of(old.t))
        &&& uniform_kind(old.sequence@, true) ==> uniform_kind(new.sequence@, true)
        &&& new.t == old.t
        &&& new.current_version == old.current_version
        &&& new.next_seq == old.next_seq
        &&& new.id == old.id
    }

    /// The version leaves the graph and the frontier; nothing else changes.
    open spec fn version_pruned(old: Self, new: Self, version: Seq<char>) -> bool {
        &&& new.t@ == old.t@.remove(version)
        &&& new.current_version@ == old.current_version@.remove(version)
        &&& new.sequence == old.sequence
        &&& new.next_seq == old.next_seq
        &&& new.id == old.id
    }

    /// Apply a patch as a change of no version, reading the versions of
    /// the graph and the root.
    fn apply_patch(&mut self, patch: Patch)
        ensures
            sequence_added(old(self).sequence@, final(self).sequence@, Seq::empty(),
                seq![patch_splice(JsonPatch { range: patch.range, content: patch.content })], ancestors_of(old(self).t)),
            uniform_kind(old(self).sequence@, true) ==> uniform_kind(final(self).sequence@, true),
            final(self).t == old(self).t,
            final(self).current_version == old(self).current_version,
            final(self).next_seq == old(self).next_seq,
            final(self).id == old(self).id,
    {
        let jp = JsonPatch { range: patch.range, content: patch.content };
        let ghost jm = jp;
        let sp = jp.to_splice();
        let mut splices: Vec<Splice> = Vec::new();
        splices.push(sp);
        let anc = ancestor_set(&self.t);
        proof {
            lemma_range_fits(jm.range@);
            assert(splice_views(splices@) =~= seq![patch_splice(jm)]);
        }
        let ghost before = self.sequence@;
        let _ = add_version(&mut self.sequence, "", splices, &anc);
        proof {
            reveal_strlit("");
            assert(""@ =~= Seq::<char>::empty());
            let ss = seq![patch_splice(jm)];
            assert forall|i: int| 0 <= i < ss.len() implies #[trigger] ss[i].insert is Text by {}
            if uniform_kind(before, true) {
                lemma_added_text(before, Seq::empty(), ss, ancestors_of(self.t));
            }
        }
    }

    /// Forget a version: it leaves the graph and the frontier.
    fn prune(&mut self, version: &str)
        ensures
            final(self).t@ == old(self).t@.remove(version@),
            final(self).current_version@ == old(self).current_version@.remove(version@),
            final(self).sequence == old(self).sequence,
            final(self).next_seq == old(self).next_seq,
            final(self).id == old(self).id,
    {
        self.t.remove(version);
        self.current_version.remove(version);
    }

    /// The next sequence number.
    fn get_next_seq(&self) -> (n: u64)
        ensures
            n == self.next_seq,
    {
        self.next_seq
    }

    /// The updates a peer that knows `known_versions` needs (see
    /// `JsonCrdt::antimatter_braid`).
    fn generate_braid(&self, known_versions: &StrMap<bool>) -> Vec<(String, StrMap<bool>, Vec<Patch>)> {
        self.antimatter_braid(known_versions)
    }
}

} // verus!
