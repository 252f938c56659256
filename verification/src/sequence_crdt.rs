//! Sequence CRDT - a pruneable sequence CRDT for strings and arrays.
//!
//! The sequence is a tree of `SequenceNode`s.  Each node holds a slice of the
//! sequence, the version that created it and the versions that deleted it.
//! Reading the sequence walks the tree in order: a node, then those of its
//! `nexts` whose version is an ancestor, then its `next`.
use vstd::prelude::*;
use crate::collections::{StrMap, StrSet, str_eq, string_views};

verus! {

/// Elements in a sequence node - either a string or indices to values.
#[derive(Debug, Clone)]
pub enum SequenceElems {
    /// String elements (for text sequences)
    String(String),
    /// Indices into a separate value array (for JSON arrays/objects)
    Indices(Vec<usize>),
}

/// The mathematical model of a node's elements.
pub enum ElemsModel {
    Text(Seq<char>),
    Indices(Seq<usize>),
}

impl View for SequenceElems {
    type V = ElemsModel;

    open spec fn view(&self) -> ElemsModel {
        match self {
            SequenceElems::String(s) => ElemsModel::Text(s@),
            SequenceElems::Indices(v) => ElemsModel::Indices(v@),
        }
    }
}

impl ElemsModel {
    /// Number of elements.
    pub open spec fn len(self) -> nat {
        match self {
            ElemsModel::Text(s) => s.len(),
            ElemsModel::Indices(v) => v.len(),
        }
    }

    /// Whether both are of the same kind.
    pub open spec fn same_kind(self, other: ElemsModel) -> bool {
        (self is Text) == (other is Text)
    }

    /// Elements `start..end`, clamped to the available elements.
    pub open spec fn slice(self, start: int, end: int) -> ElemsModel {
        match self {
            ElemsModel::Text(s) => {
                let n = s.len() as int;
                let a = if start < n { start } else { n };
                let b = if end < n { end } else { n };
                ElemsModel::Text(s.subrange(a, b))
            },
            ElemsModel::Indices(v) => ElemsModel::Indices(v.subrange(start, end)),
        }
    }

    /// Concatenation of elements of the same kind.
    pub open spec fn concat(self, other: ElemsModel) -> ElemsModel {
        match (self, other) {
            (ElemsModel::Text(a), ElemsModel::Text(b)) => ElemsModel::Text(a + b),
            (ElemsModel::Indices(a), ElemsModel::Indices(b)) => ElemsModel::Indices(a + b),
            _ => self,
        }
    }

    /// Empty elements of the same kind.
    pub open spec fn empty_like(self) -> ElemsModel {
        match self {
            ElemsModel::Text(_) => ElemsModel::Text(Seq::empty()),
            ElemsModel::Indices(_) => ElemsModel::Indices(Seq::empty()),
        }
    }

    /// The elements as read positions: a character, or `None` for an index.
    pub open spec fn positions(self) -> Seq<Option<char>> {
        match self {
            ElemsModel::Text(s) => Seq::new(s.len(), |i: int| Some(s[i])),
            ElemsModel::Indices(v) => Seq::new(v.len(), |i: int| None::<char>),
        }
    }
}

/// Copy of a vector of indices, elements `start..end`.
fn copy_indices(v: &Vec<usize>, start: usize, end: usize) -> (r: Vec<usize>)
    requires
        start <= end <= v@.len(),
    ensures
        r@ == v@.subrange(start as int, end as int),
{
    let mut r: Vec<usize> = Vec::new();
    let mut i = start;
    while i < end
        invariant
            start <= i <= end <= v@.len(),
            r@ == v@.subrange(start as int, i as int),
        decreases end - i,
    {
        r.push(v[i]);
        proof {
            assert(r@ =~= v@.subrange(start as int, i + 1));
        }
        i = i + 1;
    }
    r
}

impl SequenceElems {
    /// Get the length of the elements.
    pub fn len(&self) -> (n: usize)
        ensures
            n == self@.len(),
    {
        match self {
            SequenceElems::String(s) => s.as_str().unicode_len(),
            SequenceElems::Indices(v) => v.len(),
        }
    }

    /// Check if empty.
    pub fn is_empty(&self) -> (b: bool)
        ensures
            b == (self@.len() == 0),
    {
        self.len() == 0
    }

    /// Slice the elements from start to end.
    pub fn slice(&self, start: usize, end: usize) -> (r: Self)
        requires
            start <= end,
            self@ is Indices ==> end <= self@.len(),
        ensures
            r@ == self@.slice(start as int, end as int),
    {
        match self {
            SequenceElems::String(s) => {
                let n = s.as_str().unicode_len();
                let a = if start < n { start } else { n };
                let b = if end < n { end } else { n };
                let part = s.as_str().substring_char(a, b);
                SequenceElems::String(String::from_str(part))
            },
            SequenceElems::Indices(v) => SequenceElems::Indices(copy_indices(v, start, end)),
        }
    }

    /// Concatenate with another SequenceElems.
    pub fn concat(&self, other: &Self) -> (r: Self)
        requires
            self@.same_kind(other@),
        ensures
            r@ == self@.concat(other@),
    {
        match (self, other) {
            (SequenceElems::String(a), SequenceElems::String(b)) => {
                let mut s = a.clone();
                s.append(b.as_str());
                SequenceElems::String(s)
            },
            (SequenceElems::Indices(a), SequenceElems::Indices(b)) => {
                let mut result = copy_indices(a, 0, a.len());
                let mut i: usize = 0;
                while i < b.len()
                    invariant
                        i <= b@.len(),
                        result@ == a@ + b@.subrange(0, i as int),
                    decreases b@.len() - i,
                {
                    result.push(b[i]);
                    proof {
                        assert(result@ =~= a@ + b@.subrange(0, i + 1));
                    }
                    i = i + 1;
                }
                proof {
                    assert(b@.subrange(0, b@.len() as int) =~= b@);
                    assert(a@.subrange(0, a@.len() as int) =~= a@);
                }
                SequenceElems::Indices(result)
            },
            _ => {
                proof {
                    assert(false);
                }
                SequenceElems::Indices(Vec::new())
            },
        }
    }

    /// Create empty elements of the same type.
    pub fn empty_like(&self) -> (r: Self)
        ensures
            r@ == self@.empty_like(),
    {
        match self {
            SequenceElems::String(_) => SequenceElems::String(String::new()),
            SequenceElems::Indices(_) => SequenceElems::Indices(Vec::new()),
        }
    }

    /// An equal copy of the elements.
    pub fn duplicate(&self) -> (r: Self)
        ensures
            r@ == self@,
    {
        match self {
            SequenceElems::String(s) => SequenceElems::String(String::from_str(s.as_str())),
            SequenceElems::Indices(v) => {
                let r = copy_indices(v, 0, v.len());
                proof {
                    assert(v@.subrange(0, v@.len() as int) =~= v@);
                }
                SequenceElems::Indices(r)
            },
        }
    }
}


/// A node in the sequence CRDT tree.
///
/// Each node represents a contiguous slice of the sequence, with metadata
/// for version tracking and deletion.
#[derive(Debug)]
pub struct SequenceNode {
    /// Globally unique version string identifying when this node was created
    pub version: Option<String>,
    /// Version to use for sorting (if different from version)
    pub sort_key: Option<String>,
    /// The actual elements (string for text, or indices into separate array)
    pub elems: SequenceElems,
    /// If true, this marks the end of a replacement operation
    pub end_cap: bool,
    /// Set of versions that have deleted this node
    pub deleted_by: StrSet,
    /// Array of nodes that branch from after this node
    pub nexts: Vec<Box<SequenceNode>>,
    /// The next node in the linear sequence (after nexts)
    pub next: Option<Box<SequenceNode>>,
}

/// The mathematical model of a node and the tree below it.
pub struct NodeModel {
    pub version: Option<Seq<char>>,
    pub sort_key: Option<Seq<char>>,
    pub elems: ElemsModel,
    pub end_cap: bool,
    pub deleted_by: Set<Seq<char>>,
    pub nexts: Seq<NodeModel>,
    pub next: Option<Box<NodeModel>>,
}

/// The view of an optional string.
pub open spec fn opt_view(o: Option<String>) -> Option<Seq<char>> {
    match o {
        Some(s) => Some(s@),
        None => None,
    }
}

/// The model of a node.
pub open spec fn node_model(n: SequenceNode) -> NodeModel
    decreases n,
{
    NodeModel {
        version: opt_view(n.version),
        sort_key: opt_view(n.sort_key),
        elems: n.elems@,
        end_cap: n.end_cap,
        deleted_by: n.deleted_by@,
        nexts: nodes_model(n.nexts@),
        next: match n.next {
            Some(b) => Some(Box::new(node_model(*b))),
            None => None,
        },
    }
}

/// The models of a list of nodes.
pub open spec fn nodes_model(ns: Seq<Box<SequenceNode>>) -> Seq<NodeModel>
    decreases ns,
{
    if ns.len() == 0 {
        Seq::empty()
    } else {
        nodes_model(ns.subrange(0, ns.len() - 1)).push(node_model(*ns[ns.len() - 1]))
    }
}

pub proof fn lemma_nodes_model(ns: Seq<Box<SequenceNode>>)
    ensures
        nodes_model(ns).len() == ns.len(),
        forall|i: int| 0 <= i < ns.len() ==> #[trigger] nodes_model(ns)[i] == node_model(*ns[i]),
    decreases ns.len(),
{
    if ns.len() > 0 {
        lemma_nodes_model(ns.subrange(0, ns.len() - 1));
    }
}

impl View for SequenceNode {
    type V = NodeModel;

    open spec fn view(&self) -> NodeModel {
        node_model(*self)
    }
}

/// Which versions a reading of the sequence takes into account.
pub enum AncestorSet {
    /// Every version.
    All,
    /// Exactly the listed versions.
    Listed(Vec<String>),
}

impl AncestorSet {
    /// Whether `v` is taken into account.
    pub open spec fn admits(&self, v: Seq<char>) -> bool {
        match self {
            AncestorSet::All => true,
            AncestorSet::Listed(vs) => string_views(vs@).contains(v),
        }
    }

    /// The versions taken into account, as a predicate.
    pub open spec fn pred(&self) -> spec_fn(Seq<char>) -> bool {
        |v: Seq<char>| self.admits(v)
    }

    /// Whether `v` is taken into account.
    pub fn is_anc(&self, v: &str) -> (b: bool)
        ensures
            b == self.admits(v@),
    {
        match self {
            AncestorSet::All => true,
            AncestorSet::Listed(vs) => {
                let mut i: usize = 0;
                while i < vs.len()
                    invariant
                        i <= vs@.len(),
                        forall|j: int| 0 <= j < i ==> vs@[j]@ != v@,
                        self.admits(v@) == string_views(vs@).contains(v@),
                    decreases vs@.len() - i,
                {
                    if str_eq(vs[i].as_str(), v) {
                        proof {
                            assert(string_views(vs@)[i as int] == v@);
                            assert(string_views(vs@).contains(v@));
                        }
                        return true;
                    }
                    i = i + 1;
                }
                proof {
                    if string_views(vs@).contains(v@) {
                        let j = choose|j: int| 0 <= j < string_views(vs@).len() && string_views(vs@)[j] == v@;
                        assert(vs@[j]@ == v@);
                    }
                }
                false
            },
        }
    }
}

/// Whether an ancestor version has deleted the node.
pub open spec fn is_deleted(m: NodeModel, anc: spec_fn(Seq<char>) -> bool) -> bool {
    exists|v: Seq<char>| #[trigger] m.deleted_by.contains(v) && anc(v)
}

/// Nodes with the same deleting versions are deleted alike.
proof fn lemma_is_deleted_same(a: NodeModel, b: NodeModel, anc: spec_fn(Seq<char>) -> bool)
    requires
        a.deleted_by == b.deleted_by,
    ensures
        is_deleted(a, anc) == is_deleted(b, anc),
{
    if is_deleted(a, anc) {
        let v = choose|v: Seq<char>| #[trigger] a.deleted_by.contains(v) && anc(v);
        assert(b.deleted_by.contains(v));
    }
    if is_deleted(b, anc) {
        let v = choose|v: Seq<char>| #[trigger] b.deleted_by.contains(v) && anc(v);
        assert(a.deleted_by.contains(v));
    }
}

/// Whether a branch node is read: its version must be an ancestor.
pub open spec fn branch_visible(m: NodeModel, anc: spec_fn(Seq<char>) -> bool) -> bool {
    match m.version {
        Some(v) => anc(v),
        None => false,
    }
}

/// The read positions of the sequence rooted at `m`.
pub open spec fn elements(m: NodeModel, anc: spec_fn(Seq<char>) -> bool) -> Seq<Option<char>>
    decreases m,
{
    let own = if is_deleted(m, anc) { Seq::empty() } else { m.elems.positions() };
    let rest = match m.next {
        Some(b) => elements(*b, anc),
        None => Seq::empty(),
    };
    own + branch_elements(m.nexts, anc) + rest
}

/// The read positions of the visible branches in a list.
pub open spec fn branch_elements(ms: Seq<NodeModel>, anc: spec_fn(Seq<char>) -> bool) -> Seq<Option<char>>
    decreases ms,
{
    if ms.len() == 0 {
        Seq::empty()
    } else {
        let last = ms[ms.len() - 1];
        let here = if branch_visible(last, anc) { elements(last, anc) } else { Seq::empty() };
        branch_elements(ms.subrange(0, ms.len() - 1), anc) + here
    }
}

/// The characters among read positions.
pub open spec fn chars_of(s: Seq<Option<char>>) -> Seq<char>
    decreases s.len(),
{
    if s.len() == 0 {
        Seq::empty()
    } else {
        let last = s[s.len() - 1];
        let here = match last {
            Some(c) => seq![c],
            None => Seq::empty(),
        };
        chars_of(s.subrange(0, s.len() - 1)) + here
    }
}

pub proof fn lemma_chars_of_add(a: Seq<Option<char>>, b: Seq<Option<char>>)
    ensures
        chars_of(a + b) == chars_of(a) + chars_of(b),
    decreases b.len(),
{
    if b.len() == 0 {
        assert(a + b =~= a);
        assert(chars_of(a) + chars_of(b) =~= chars_of(a));
    } else {
        let bl = b.subrange(0, b.len() - 1);
        lemma_chars_of_add(a, bl);
        assert((a + b).subrange(0, (a + b).len() - 1) =~= a + bl);
        assert(chars_of(a + b) =~= chars_of(a) + chars_of(bl) + chars_of(b).subrange(chars_of(bl).len() as int, chars_of(b).len() as int));
    }
}

pub proof fn lemma_chars_of_text(s: Seq<char>)
    ensures
        chars_of(ElemsModel::Text(s).positions()) == s,
    decreases s.len(),
{
    let p = ElemsModel::Text(s).positions();
    if s.len() > 0 {
        let sl = s.subrange(0, s.len() - 1);
        lemma_chars_of_text(sl);
        assert(p.subrange(0, p.len() - 1) =~= ElemsModel::Text(sl).positions());
        assert(chars_of(p) =~= sl.push(s[s.len() - 1]));
        assert(sl.push(s[s.len() - 1]) =~= s);
    } else {
        assert(p =~= Seq::<Option<char>>::empty());
    }
}

impl SequenceNode {
    /// Create a new sequence node.
    ///
    /// # Arguments
    /// * `version` - Globally unique version string
    /// * `elems` - The elements this node contains
    /// * `end_cap` - Whether this marks end of a replacement
    /// * `sort_key` - Optional sort key for ordering
    pub fn new(
        version: Option<String>,
        elems: SequenceElems,
        end_cap: bool,
        sort_key: Option<String>,
    ) -> (n: Self)
        ensures
            n@ == (NodeModel {
                version: opt_view(version),
                sort_key: opt_view(sort_key),
                elems: elems@,
                end_cap: end_cap,
                deleted_by: Set::empty(),
                nexts: Seq::empty(),
                next: None,
            }),
    {
        let n = Self {
            version,
            sort_key,
            elems,
            end_cap,
            deleted_by: StrSet::new(),
            nexts: Vec::new(),
            next: None,
        };
        proof {
            assert(nodes_model(n.nexts@) =~= Seq::<NodeModel>::empty());
        }
        n
    }

    /// Create a text node from a string.
    pub fn text(version: &str, text: &str) -> (n: Self)
        ensures
            n@ == (NodeModel {
                version: Some(version@),
                sort_key: None,
                elems: ElemsModel::Text(text@),
                end_cap: false,
                deleted_by: Set::empty(),
                nexts: Seq::empty(),
                next: None,
            }),
    {
        Self::new(
            Some(String::from_str(version)),
            SequenceElems::String(String::from_str(text)),
            false,
            None,
        )
    }

    /// Get the effective sort key for this node.
    pub fn effective_sort_key(&self) -> (k: Option<&str>)
        ensures
            match k {
                Some(s) => s@ == (match self@.sort_key {
                    Some(sk) => sk,
                    None => self@.version->0,
                }) && (self@.sort_key is Some || self@.version is Some),
                None => self@.sort_key is None && self@.version is None,
            },
    {
        match &self.sort_key {
            Some(s) => Some(s.as_str()),
            None => match &self.version {
                Some(v) => Some(v.as_str()),
                None => None,
            },
        }
    }
}

/// Whether an ancestor version has deleted the node.
fn node_deleted(node: &SequenceNode, anc: &AncestorSet) -> (b: bool)
    ensures
        b == is_deleted(node@, anc.pred()),
{
    let n = node.deleted_by.len();
    let mut i: usize = 0;
    while i < n
        invariant
            n == node.deleted_by.member_order().len(),
            forall|k: Seq<char>| node.deleted_by@.contains(k) <==> node.deleted_by.member_order().contains(k),
            i <= n,
            forall|j: int| 0 <= j < i ==> !anc.admits(#[trigger] node.deleted_by.member_order()[j]),
        decreases n - i,
    {
        let v = node.deleted_by.item_at(i);
        if anc.is_anc(v.as_str()) {
            proof {
                assert(node@.deleted_by.contains(v@) && anc.pred()(v@));
            }
            return true;
        }
        i = i + 1;
    }
    proof {
        if is_deleted(node@, anc.pred()) {
            let v = choose|v: Seq<char>| node@.deleted_by.contains(v) && anc.admits(v);
            assert(node.deleted_by.member_order().contains(v));
            let j = choose|j: int| 0 <= j < node.deleted_by.member_order().len() && node.deleted_by.member_order()[j] == v;
            assert(!anc.admits(node.deleted_by.member_order()[j]));
        }
    }
    false
}

/// Whether a branch node's version is an ancestor.
fn branch_is_visible(node: &SequenceNode, anc: &AncestorSet) -> (b: bool)
    ensures
        b == branch_visible(node@, anc.pred()),
{
    match &node.version {
        Some(v) => anc.is_anc(v.as_str()),
        None => false,
    }
}

/// Number of read positions of the tree rooted at `node`.
fn count_elements(node: &SequenceNode, anc: &AncestorSet) -> (n: usize)
    requires
        elements(node@, anc.pred()).len() <= usize::MAX,
    ensures
        n == elements(node@, anc.pred()).len(),
    decreases node,
{
    let ghost m = node@;
    let mut total: usize = if node_deleted(node, anc) { 0 } else { node.elems.len() };
    let ghost own = if is_deleted(m, anc.pred()) { Seq::<Option<char>>::empty() } else { m.elems.positions() };
    proof {
        lemma_nodes_model(node.nexts@);
    }
    let mut i: usize = 0;
    while i < node.nexts.len()
        invariant
            m == node@,
            i <= node.nexts@.len(),
            nodes_model(node.nexts@).len() == node.nexts@.len(),
            forall|j: int| 0 <= j < node.nexts@.len() ==> #[trigger] nodes_model(node.nexts@)[j] == node.nexts@[j]@,
            m.nexts == nodes_model(node.nexts@),
            elements(m, anc.pred()).len() <= usize::MAX,
            total == own.len() + branch_elements(m.nexts.subrange(0, i as int), anc.pred()).len(),
            own == (if is_deleted(m, anc.pred()) { Seq::<Option<char>>::empty() } else { m.elems.positions() }),
        decreases node.nexts@.len() - i,
    {
        let child: &SequenceNode = &node.nexts[i];
        proof {
            let pre = m.nexts.subrange(0, i as int);
            let post = m.nexts.subrange(0, i + 1);
            assert(post.subrange(0, post.len() - 1) =~= pre);
            lemma_branch_prefix_le(m.nexts, i + 1, anc.pred());
        }
        if branch_is_visible(child, anc) {
            let c = count_elements(child, anc);
            total = total + c;
        }
        i = i + 1;
    }
    proof {
        assert(m.nexts.subrange(0, node.nexts@.len() as int) =~= m.nexts);
    }
    match &node.next {
        Some(b) => {
            let c = count_elements(b, anc);
            total + c
        },
        None => total,
    }
}

/// A prefix of the branches has no more read positions than all of them.
proof fn lemma_branch_prefix_le(ms: Seq<NodeModel>, k: int, anc: spec_fn(Seq<char>) -> bool)
    requires
        0 <= k <= ms.len(),
    ensures
        branch_elements(ms.subrange(0, k), anc).len() <= branch_elements(ms, anc).len(),
    decreases ms.len() - k,
{
    if k < ms.len() {
        lemma_branch_prefix_le(ms, k + 1, anc);
        let post = ms.subrange(0, k + 1);
        assert(post.subrange(0, post.len() - 1) =~= ms.subrange(0, k));
    } else {
        assert(ms.subrange(0, k) =~= ms);
    }
}


/// The characters of a node's own elements.
proof fn lemma_chars_of_own(e: ElemsModel)
    ensures
        chars_of(e.positions()) == (match e {
            ElemsModel::Text(s) => s,
            ElemsModel::Indices(_) => Seq::<char>::empty(),
        }),
    decreases e.len(),
{
    match e {
        ElemsModel::Text(s) => lemma_chars_of_text(s),
        ElemsModel::Indices(v) => lemma_chars_of_nones(v.len()),
    }
}

proof fn lemma_chars_of_nones(n: nat)
    ensures
        chars_of(Seq::new(n, |i: int| None::<char>)) == Seq::<char>::empty(),
    decreases n,
{
    if n > 0 {
        lemma_chars_of_nones((n - 1) as nat);
        let p = Seq::new(n, |i: int| None::<char>);
        assert(p.subrange(0, p.len() - 1) =~= Seq::new((n - 1) as nat, |i: int| None::<char>));
    }
}

/// Get the length of the sequence rooted at this node.
pub fn length(root: &SequenceNode, is_anc: &AncestorSet) -> (n: usize)
    requires
        elements(root@, is_anc.pred()).len() <= usize::MAX,
    ensures
        n == elements(root@, is_anc.pred()).len(),
{
    count_elements(root, is_anc)
}

/// Appends the characters of the tree rooted at `node` to `out`.
fn collect_text(node: &SequenceNode, anc: &AncestorSet, out: &mut String)
    ensures
        final(out)@ == old(out)@ + chars_of(elements(node@, anc.pred())),
    decreases node,
{
    let ghost m = node@;
    let ghost start = out@;
    let ghost own = if is_deleted(m, anc.pred()) { Seq::<Option<char>>::empty() } else { m.elems.positions() };
    if !node_deleted(node, anc) {
        if let SequenceElems::String(text) = &node.elems {
            out.append(text.as_str());
        }
    }
    proof {
        lemma_chars_of_own(m.elems);
        assert(chars_of(Seq::<Option<char>>::empty()) =~= Seq::<char>::empty());
        assert(out@ =~= start + chars_of(own));
        lemma_nodes_model(node.nexts@);
    }
    let mut i: usize = 0;
    while i < node.nexts.len()
        invariant
            m == node@,
            i <= node.nexts@.len(),
            nodes_model(node.nexts@).len() == node.nexts@.len(),
            forall|j: int| 0 <= j < node.nexts@.len() ==> #[trigger] nodes_model(node.nexts@)[j] == node.nexts@[j]@,
            m.nexts == nodes_model(node.nexts@),
            out@ == start + chars_of(own) + chars_of(branch_elements(m.nexts.subrange(0, i as int), anc.pred())),
        decreases node.nexts@.len() - i,
    {
        let child: &SequenceNode = &node.nexts[i];
        let ghost before = out@;
        proof {
            let pre = m.nexts.subrange(0, i as int);
            let post = m.nexts.subrange(0, i + 1);
            assert(post.subrange(0, post.len() - 1) =~= pre);
        }
        if branch_is_visible(child, anc) {
            collect_text(child, anc, out);
        }
        proof {
            let pre = m.nexts.subrange(0, i as int);
            let post = m.nexts.subrange(0, i + 1);
            let here = if branch_visible(m.nexts[i as int], anc.pred()) { elements(m.nexts[i as int], anc.pred()) } else { Seq::empty() };
            assert(branch_elements(post, anc.pred()) == branch_elements(pre, anc.pred()) + here);
            lemma_chars_of_add(branch_elements(pre, anc.pred()), here);
            assert(chars_of(Seq::<Option<char>>::empty()) =~= Seq::<char>::empty());
            assert(out@ =~= start + chars_of(own) + chars_of(branch_elements(post, anc.pred())));
        }
        i = i + 1;
    }
    proof {
        assert(m.nexts.subrange(0, node.nexts@.len() as int) =~= m.nexts);
    }
    match &node.next {
        Some(b) => {
            collect_text(b, anc, out);
        },
        None => {},
    }
    proof {
        let rest = match m.next {
            Some(b) => elements(*b, anc.pred()),
            None => Seq::empty(),
        };
        lemma_chars_of_add(own, branch_elements(m.nexts, anc.pred()));
        lemma_chars_of_add(own + branch_elements(m.nexts, anc.pred()), rest);
        assert(chars_of(Seq::<Option<char>>::empty()) =~= Seq::<char>::empty());
        assert(out@ =~= start + chars_of(elements(m, anc.pred())));
    }
}

/// Get the content of the sequence as a string.
pub fn content(root: &SequenceNode, is_anc: &AncestorSet) -> (s: String)
    ensures
        s@ == chars_of(elements(root@, is_anc.pred())),
{
    let mut out = String::new();
    collect_text(root, is_anc, &mut out);
    proof {
        assert(out@ =~= chars_of(elements(root@, is_anc.pred())));
    }
    out
}

/// Finds read position `i` in the tree rooted at `node`: `Ok` with the
/// element when it lies there, `Err` with the number of positions otherwise.
fn find_position(node: &SequenceNode, i: usize, anc: &AncestorSet) -> (r: Result<Option<char>, usize>)
    requires
        elements(node@, anc.pred()).len() <= usize::MAX,
    ensures
        match r {
            Ok(c) => i < elements(node@, anc.pred()).len() && c == elements(node@, anc.pred())[i as int],
            Err(n) => i >= elements(node@, anc.pred()).len() && n == elements(node@, anc.pred()).len(),
        },
    decreases node,
{
    let ghost m = node@;
    let ghost own = if is_deleted(m, anc.pred()) { Seq::<Option<char>>::empty() } else { m.elems.positions() };
    let mut seen: usize = 0;
    if !node_deleted(node, anc) {
        let n = node.elems.len();
        if i < n {
            return match &node.elems {
                SequenceElems::String(text) => Ok(Some(text.as_str().get_char(i))),
                SequenceElems::Indices(_) => Ok(None),
            };
        }
        seen = n;
    }
    proof {
        lemma_nodes_model(node.nexts@);
    }
    let mut k: usize = 0;
    while k < node.nexts.len()
        invariant
            m == node@,
            k <= node.nexts@.len(),
            nodes_model(node.nexts@).len() == node.nexts@.len(),
            forall|j: int| 0 <= j < node.nexts@.len() ==> #[trigger] nodes_model(node.nexts@)[j] == node.nexts@[j]@,
            m.nexts == nodes_model(node.nexts@),
            elements(m, anc.pred()).len() <= usize::MAX,
            own == (if is_deleted(m, anc.pred()) { Seq::<Option<char>>::empty() } else { m.elems.positions() }),
            seen == own.len() + branch_elements(m.nexts.subrange(0, k as int), anc.pred()).len(),
            seen <= i,
        decreases node.nexts@.len() - k,
    {
        let child: &SequenceNode = &node.nexts[k];
        proof {
            let pre = m.nexts.subrange(0, k as int);
            let post = m.nexts.subrange(0, k + 1);
            assert(post.subrange(0, post.len() - 1) =~= pre);
            lemma_branch_prefix_le(m.nexts, k + 1, anc.pred());
        }
        if branch_is_visible(child, anc) {
            match find_position(child, i - seen, anc) {
                Ok(c) => {
                    proof {
                        let pre = m.nexts.subrange(0, k as int);
                        let post = m.nexts.subrange(0, k + 1);
                        lemma_branch_prefix_le(m.nexts, k + 1, anc.pred());
                        assert(branch_elements(post, anc.pred()) == branch_elements(pre, anc.pred()) + elements(m.nexts[k as int], anc.pred()));
                        lemma_branch_prefix_index(m.nexts, k + 1, anc.pred(), i - own.len());
                        assert((own + branch_elements(m.nexts, anc.pred()))[i as int] == branch_elements(m.nexts, anc.pred())[i - own.len()]);
                    }
                    return Ok(c);
                },
                Err(c) => {
                    seen = seen + c;
                },
            }
        }
        k = k + 1;
    }
    proof {
        assert(m.nexts.subrange(0, node.nexts@.len() as int) =~= m.nexts);
    }
    match &node.next {
        Some(b) => {
            match find_position(b, i - seen, anc) {
                Ok(c) => {
                    proof {
                        let front = own + branch_elements(m.nexts, anc.pred());
                        assert(elements(m, anc.pred()) == front + elements(*m.next->0, anc.pred()));
                    }
                    Ok(c)
                },
                Err(c) => Err(seen + c),
            }
        },
        None => Err(seen),
    }
}

/// An element of a prefix of the branches is the same element in all branches.
proof fn lemma_branch_prefix_index(ms: Seq<NodeModel>, k: int, anc: spec_fn(Seq<char>) -> bool, j: int)
    requires
        0 <= k <= ms.len(),
        0 <= j < branch_elements(ms.subrange(0, k), anc).len(),
    ensures
        branch_elements(ms, anc)[j] == branch_elements(ms.subrange(0, k), anc)[j],
        branch_elements(ms.subrange(0, k), anc).len() <= branch_elements(ms, anc).len(),
    decreases ms.len() - k,
{
    lemma_branch_prefix_le(ms, k, anc);
    if k < ms.len() {
        let post = ms.subrange(0, k + 1);
        assert(post.subrange(0, post.len() - 1) =~= ms.subrange(0, k));
        assert(post[post.len() - 1] == ms[k]);
        let here = if branch_visible(ms[k], anc) { elements(ms[k], anc) } else { Seq::empty() };
        assert(branch_elements(post, anc) == branch_elements(ms.subrange(0, k), anc) + here);
        lemma_branch_prefix_index(ms, k + 1, anc, j);
    } else {
        assert(ms.subrange(0, k) =~= ms);
    }
}

/// Get the element at position i in the sequence.
pub fn get(root: &SequenceNode, i: usize, is_anc: &AncestorSet) -> (c: Option<char>)
    requires
        elements(root@, is_anc.pred()).len() <= usize::MAX,
    ensures
        c == (if i < elements(root@, is_anc.pred()).len() { elements(root@, is_anc.pred())[i as int] } else { None }),
{
    match find_position(root, i, is_anc) {
        Ok(c) => c,
        Err(_) => None,
    }
}

/// An equal copy of an optional string.
fn copy_opt_string(o: &Option<String>) -> (r: Option<String>)
    ensures
        opt_view(r) == opt_view(*o),
{
    match o {
        Some(s) => Some(String::from_str(s.as_str())),
        None => None,
    }
}

impl SequenceNode {
    /// A deep copy of the node and of the tree below it.
    pub fn duplicate(&self) -> (r: Self)
        ensures
            r@ == self@,
        decreases self,
    {
        let mut nexts: Vec<Box<SequenceNode>> = Vec::new();
        let mut i: usize = 0;
        while i < self.nexts.len()
            invariant
                i <= self.nexts@.len(),
                nexts@.len() == i,
                forall|j: int| 0 <= j < i ==> node_model(*#[trigger] nexts@[j]) == node_model(*self.nexts@[j]),
            decreases self.nexts@.len() - i,
        {
            let c = self.nexts[i].duplicate();
            nexts.push(Box::new(c));
            i = i + 1;
        }
        proof {
            lemma_nodes_model(nexts@);
            lemma_nodes_model(self.nexts@);
            assert(nodes_model(nexts@) =~= nodes_model(self.nexts@));
        }
        let next = match &self.next {
            Some(b) => Some(Box::new(b.duplicate())),
            None => None,
        };
        SequenceNode {
            version: copy_opt_string(&self.version),
            sort_key: copy_opt_string(&self.sort_key),
            elems: self.elems.duplicate(),
            end_cap: self.end_cap,
            deleted_by: self.deleted_by.copy(),
            nexts,
            next,
        }
    }
}

/// The node that holds the elements from `x` on after a break at `x`.
pub open spec fn tail_model(m: NodeModel, x: int) -> NodeModel {
    NodeModel {
        version: None,
        sort_key: None,
        elems: m.elems.slice(x, m.elems.len() as int),
        end_cap: m.end_cap,
        deleted_by: m.deleted_by,
        nexts: m.nexts,
        next: m.next,
    }
}

/// A node broken at `x`: it keeps the elements before `x`, takes `new_next`
/// as its only branch, and is followed by the tail.
pub open spec fn break_model(m: NodeModel, x: int, end_cap: bool, new_next: Option<NodeModel>) -> NodeModel {
    NodeModel {
        version: m.version,
        sort_key: m.sort_key,
        elems: m.elems.slice(0, x),
        end_cap: end_cap,
        deleted_by: m.deleted_by,
        nexts: match new_next {
            Some(n) => seq![n],
            None => Seq::empty(),
        },
        next: Some(Box::new(tail_model(m, x))),
    }
}

/// The model of an optional boxed node.
pub open spec fn opt_node_model(o: Option<Box<SequenceNode>>) -> Option<NodeModel> {
    match o {
        Some(b) => Some(node_model(*b)),
        None => None,
    }
}

/// Break a node at position x, returning the tail node.
///
/// The node itself is modified to contain elements before x,
/// and a new node is returned containing elements from x onwards.
pub fn break_node(
    node: &mut SequenceNode,
    x: usize,
    end_cap: bool,
    new_next: Option<Box<SequenceNode>>,
) -> (tail: Box<SequenceNode>)
    requires
        x <= old(node).elems@.len(),
    ensures
        final(node)@ == break_model(old(node)@, x as int, end_cap, opt_node_model(new_next)),
        node_model(*tail) == tail_model(old(node)@, x as int),
{
    let ghost m = node@;
    let n = node.elems.len();
    let tail_elems = node.elems.slice(x, n);
    let mut nexts: Vec<Box<SequenceNode>> = Vec::new();
    std::mem::swap(&mut nexts, &mut node.nexts);
    let next = node.next.take();
    let tail = SequenceNode {
        version: None,
        sort_key: None,
        elems: tail_elems,
        end_cap: node.end_cap,
        deleted_by: node.deleted_by.copy(),
        nexts,
        next,
    };
    node.elems = node.elems.slice(0, x);
    node.end_cap = end_cap;
    node.nexts = match new_next {
        Some(b) => vec![b],
        None => Vec::new(),
    };
    let copy = tail.duplicate();
    node.next = Some(Box::new(tail));
    proof {
        lemma_nodes_model(node.nexts@);
        let expect: Seq<NodeModel> = match opt_node_model(new_next) {
            Some(nm) => seq![nm],
            None => Seq::empty(),
        };
        assert(nodes_model(node.nexts@) =~= expect);
        assert(node@ == break_model(m, x as int, end_cap, opt_node_model(new_next)));
    }
    Box::new(copy)
}


/// A splice operation for modifying the sequence.
#[derive(Debug)]
pub struct Splice {
    /// Position in the sequence
    pub pos: usize,
    /// Number of elements to delete
    pub delete_count: usize,
    /// Elements to insert
    pub insert: SequenceElems,
    /// Optional sort key
    pub sort_key: Option<String>,
    /// Operation type: 'i' for insert, 'd' for delete, 'r' for replace
    pub op_type: char,
}

/// The mathematical model of a splice.
pub struct SpliceModel {
    pub pos: int,
    pub delete_count: int,
    pub insert: ElemsModel,
    pub sort_key: Option<Seq<char>>,
    pub op_type: char,
}

impl View for Splice {
    type V = SpliceModel;

    open spec fn view(&self) -> SpliceModel {
        SpliceModel {
            pos: self.pos as int,
            delete_count: self.delete_count as int,
            insert: self.insert@,
            sort_key: opt_view(self.sort_key),
            op_type: self.op_type,
        }
    }
}

/// The node that a splice inserts, created by `version`.
pub open spec fn fresh_node(version: Seq<char>, s: SpliceModel) -> NodeModel {
    NodeModel {
        version: Some(version),
        sort_key: s.sort_key,
        elems: s.insert,
        end_cap: false,
        deleted_by: Set::empty(),
        nexts: Seq::empty(),
        next: None,
    }
}



/// The views of a list of splices.
pub open spec fn splice_views(v: Seq<Splice>) -> Seq<SpliceModel> {
    v.map_values(|s: Splice| s@)
}

/// A new node made by a splice.
fn make_fresh(version: &str, s: &Splice) -> (n: Box<SequenceNode>)
    ensures
        node_model(*n) == fresh_node(version@, s@),
{
    Box::new(SequenceNode::new(
        Some(String::from_str(version)),
        s.insert.duplicate(),
        false,
        copy_opt_string(&s.sort_key),
    ))
}


/// The read positions `a..b` of elements are those of the slice `a..b`.
proof fn lemma_positions_slice(e: ElemsModel, a: int, b: int)
    requires
        0 <= a <= b <= e.len(),
    ensures
        e.slice(a, b).positions() == e.positions().subrange(a, b),
{
    match e {
        ElemsModel::Text(t) => {
            assert(e.slice(a, b).positions() =~= e.positions().subrange(a, b));
        },
        ElemsModel::Indices(v) => {
            assert(e.slice(a, b).positions() =~= e.positions().subrange(a, b));
        },
    }
}

/// The tree rooted at `m` with the branch `f` placed at read position `p`
/// (read under `anc`): within the node's own elements the node is broken
/// there and `f` becomes its only branch; otherwise `f` goes into the
/// branch or the successor that holds position `p`.
pub open spec fn insert_model(m: NodeModel, p: int, f: NodeModel, anc: spec_fn(Seq<char>) -> bool) -> NodeModel
    decreases tree_size(m), 0int, 0int,
{
    let own = own_elements(m, m.elems, anc).len() as int;
    if p <= own {
        break_model(m, p, false, Some(f))
    } else {
        let q = p - own;
        let bl = branch_elements(m.nexts, anc).len() as int;
        if q <= bl {
            NodeModel { nexts: insert_branches(m.nexts, 0, q, f, anc), ..m }
        } else {
            match m.next {
                Some(b) => NodeModel { next: Some(Box::new(insert_model(*b, q - bl, f, anc))), ..m },
                None => m,
            }
        }
    }
}

/// The branches `ms` with `f` placed at read position `q` of the visible
/// branches from index `i` on: it goes into the first visible branch that
/// reaches that position.
pub open spec fn insert_branches(ms: Seq<NodeModel>, i: int, q: int, f: NodeModel, anc: spec_fn(Seq<char>) -> bool) -> Seq<NodeModel>
    decreases nexts_size(ms), 1int, ms.len() - i,
{
    if i < 0 || i >= ms.len() {
        ms
    } else {
        let b = ms[i];
        let l = if branch_visible(b, anc) { elements(b, anc).len() as int } else { 0 };
        if branch_visible(b, anc) && q <= l {
            proof {
                lemma_nexts_size_elem(ms, i);
            }
            ms.update(i, insert_model(b, q, f, anc))
        } else {
            insert_branches(ms, i + 1, q - l, f, anc)
        }
    }
}

/// The tree rooted at `m` with read position `p` (read under `anc`)
/// deleted by `version`: the node holding it is broken so that the
/// element stands alone, and `version` is added to its deleting versions.
pub open spec fn delete_model(m: NodeModel, p: int, version: Seq<char>, anc: spec_fn(Seq<char>) -> bool) -> NodeModel
    decreases tree_size(m), 0int, p,
{
    let own = own_elements(m, m.elems, anc).len() as int;
    if p < own {
        if p > 0 {
            let h = break_model(m, p, false, None);
            proof {
                assert(tree_size(tail_model(m, p)) == tree_size(m));
            }
            NodeModel { next: Some(Box::new(delete_model(tail_model(m, p), 0, version, anc))), ..h }
        } else {
            let h = if m.elems.len() > 1 { break_model(m, 1, false, None) } else { m };
            NodeModel { deleted_by: h.deleted_by.insert(version), ..h }
        }
    } else {
        let q = p - own;
        let bl = branch_elements(m.nexts, anc).len() as int;
        if q < bl {
            NodeModel { nexts: delete_branches(m.nexts, 0, q, version, anc), ..m }
        } else {
            match m.next {
                Some(b) => NodeModel { next: Some(Box::new(delete_model(*b, q - bl, version, anc))), ..m },
                None => m,
            }
        }
    }
}

/// The branches `ms` with read position `q` of the visible branches from
/// index `i` on deleted by `version`.
pub open spec fn delete_branches(ms: Seq<NodeModel>, i: int, q: int, version: Seq<char>, anc: spec_fn(Seq<char>) -> bool) -> Seq<NodeModel>
    decreases nexts_size(ms), 1int, ms.len() - i,
{
    if i < 0 || i >= ms.len() {
        ms
    } else {
        let b = ms[i];
        let l = if branch_visible(b, anc) { elements(b, anc).len() as int } else { 0 };
        if branch_visible(b, anc) && q < l {
            proof {
                lemma_nexts_size_elem(ms, i);
            }
            ms.update(i, delete_model(b, q, version, anc))
        } else {
            delete_branches(ms, i + 1, q - l, version, anc)
        }
    }
}

/// The tree rooted at `m` with read position `p` deleted `n` times over.
pub open spec fn delete_n(m: NodeModel, p: int, n: nat, version: Seq<char>, anc: spec_fn(Seq<char>) -> bool) -> NodeModel
    decreases n,
{
    if n == 0 {
        m
    } else {
        delete_model(delete_n(m, p, (n - 1) as nat, version, anc), p, version, anc)
    }
}

/// The tree rooted at `m` with one splice applied by `version`: its
/// range is deleted, then its elements, if any, are placed at its
/// position as a node created by `version`.
pub open spec fn splice_model(m: NodeModel, s: SpliceModel, version: Seq<char>, anc: spec_fn(Seq<char>) -> bool) -> NodeModel {
    let cut = delete_n(m, s.pos, s.delete_count as nat, version, anc);
    if s.insert.len() > 0 {
        insert_model(cut, s.pos, fresh_node(version, s), anc)
    } else {
        cut
    }
}

/// The tree rooted at `m` with splices applied by `version`, the last
/// splice first.
pub open spec fn splices_model(m: NodeModel, ss: Seq<SpliceModel>, version: Seq<char>, anc: spec_fn(Seq<char>) -> bool) -> NodeModel
    decreases ss.len(),
{
    if ss.len() == 0 {
        m
    } else {
        splices_model(splice_model(m, ss.last(), version, anc), ss.drop_last(), version, anc)
    }
}

/// The tree that adding `version` with splices `ss` to the tree rooted at
/// `m` leaves: the splices applied under the reading of `anc` and
/// `version` when they fit (see `adds_fit`), else the tree unchanged.
pub open spec fn added_tree(m: NodeModel, version: Seq<char>, ss: Seq<SpliceModel>, anc: spec_fn(Seq<char>) -> bool) -> NodeModel {
    if adds_fit(m, version, ss, anc) {
        splices_model(m, ss, version, with_version(anc, version))
    } else {
        m
    }
}

/// Inserts the branch `f` at read position `p` of the tree rooted at
/// `node`: the tree then reads as before with `f`'s positions at `p`.
#[verifier::rlimit(60)]
fn insert_in(node: &mut SequenceNode, p: usize, f: Box<SequenceNode>, anc: &AncestorSet)
    requires
        p <= elements(old(node)@, anc.pred()).len(),
        elements(old(node)@, anc.pred()).len() <= usize::MAX,
        branch_visible(node_model(*f), anc.pred()),
    ensures
        final(node)@.version == old(node)@.version,
        elements(final(node)@, anc.pred()) == elements(old(node)@, anc.pred()).subrange(0, p as int)
            + elements(node_model(*f), anc.pred())
            + elements(old(node)@, anc.pred()).subrange(p as int, elements(old(node)@, anc.pred()).len() as int),
        forall|w: spec_fn(Seq<char>) -> bool| !branch_visible(node_model(*f), w)
            ==> #[trigger] elements(final(node)@, w) == elements(old(node)@, w),
        final(node)@ == insert_model(old(node)@, p as int, node_model(*f), anc.pred()),
    decreases tree_size(old(node)@),
{
    let ghost m = node@;
    let ghost v = anc.pred();
    let ghost e = elements(m, v);
    let ghost fm = node_model(*f);
    let ghost ef = elements(fm, v);
    let ghost own_s = own_elements(m, m.elems, v);
    let ghost b_s = branch_elements(m.nexts, v);
    let ghost r_s = next_elements(m, v);
    proof {
        lemma_nodes_model(node.nexts@);
        assert(e == own_s + b_s + r_s);
    }
    let del = node_deleted(node, anc);
    let own: usize = if del { 0 } else { node.elems.len() };
    if p <= own {
        let _ = break_node(node, p, false, Some(f));
        proof {
            lemma_break_elements(m, p as int, false, Some(fm), v);
            lemma_positions_split(m.elems, p as int);
            lemma_positions_slice(m.elems, 0, p as int);
            lemma_positions_slice(m.elems, p as int, m.elems.len() as int);
            assert(opt_branch_elements(Some(fm), v) == ef);
            assert(elements(node@, v) =~= e.subrange(0, p as int) + ef + e.subrange(p as int, e.len() as int));
            assert forall|w: spec_fn(Seq<char>) -> bool| !branch_visible(fm, w)
                implies #[trigger] elements(node@, w) == elements(m, w) by {
                lemma_break_elements(m, p as int, false, Some(fm), w);
                assert(opt_branch_elements(Some(fm), w) =~= Seq::<Option<char>>::empty());
                assert(own_elements(m, m.elems.slice(0, p as int), w) + own_elements(m, m.elems.slice(p as int, m.elems.len() as int), w)
                    =~= own_elements(m, m.elems, w));
                assert(elements(node@, w) =~= elements(m, w));
            }
        }
        return;
    }
    let q: usize = p - own;
    let mut rest: Vec<Box<SequenceNode>> = Vec::new();
    std::mem::swap(&mut rest, &mut node.nexts);
    let ghost orig = rest@;
    let ghost ms = m.nexts;
    proof {
        lemma_nodes_model(node.nexts@);
        assert(nodes_model(node.nexts@) =~= Seq::<NodeModel>::empty());
        assert(node@ == (NodeModel { nexts: Seq::empty(), ..m }));
        lemma_nodes_model(orig);
    }
    let mut kept: Vec<Box<SequenceNode>> = Vec::new();
    let mut c: usize = 0;
    let mut pending: Option<Box<SequenceNode>> = Some(f);
    let ghost mut k: int = 0;
    proof {
        assert(orig.subrange(0, orig.len() as int) =~= orig);
        assert(ms.subrange(0, 0) =~= Seq::<NodeModel>::empty());
        lemma_nodes_model(kept@);
        assert(nodes_model(kept@) =~= ms.subrange(0, 0));
        lemma_branch_prefix_le(ms, 0, v);
    }
    while rest.len() > 0
        invariant
            0 <= k <= orig.len(),
            rest@ == orig.subrange(k, orig.len() as int),
            ms == nodes_model(orig),
            ms.len() == orig.len(),
            forall|j: int| 0 <= j < orig.len() ==> #[trigger] ms[j] == node_model(*orig[j]),
            b_s == branch_elements(ms, v),
            v == anc.pred(),
            e == own_s + b_s + r_s,
            own_s.len() == own,
            q == p - own,
            p <= e.len(),
            e.len() <= usize::MAX,
            tree_size(m) == 1 + nexts_size(ms) + match m.next { Some(b) => tree_size(*b), None => 0nat },
            match pending {
                Some(x) => node_model(*x) == fm && nodes_model(kept@) == ms.subrange(0, k)
                    && c == branch_elements(ms.subrange(0, k), v).len() && c < q
                    && insert_branches(ms, 0, q as int, fm, v) == insert_branches(ms, k, q - c, fm, v),
                None => branch_elements(nodes_model(kept@), v)
                    == branch_elements(ms.subrange(0, k), v).subrange(0, q as int) + ef
                        + branch_elements(ms.subrange(0, k), v).subrange(q as int, branch_elements(ms.subrange(0, k), v).len() as int)
                    && q <= branch_elements(ms.subrange(0, k), v).len()
                    && insert_branches(ms, 0, q as int, fm, v) == nodes_model(kept@) + ms.subrange(k, ms.len() as int),
            },
            fm == node_model(*f),
            ef == elements(fm, v),
            m == old(node)@,
            node@ == (NodeModel { nexts: Seq::empty(), ..m }),
            branch_visible(fm, v),
            forall|w: spec_fn(Seq<char>) -> bool| !branch_visible(fm, w)
                ==> #[trigger] branch_elements(nodes_model(kept@), w) == branch_elements(ms.subrange(0, k), w),
        decreases orig.len() - k,
    {
        let mut b = rest.remove(0);
        let ghost bm = node_model(*b);
        let ghost pre = ms.subrange(0, k);
        let ghost post = ms.subrange(0, k + 1);
        let ghost kept0 = nodes_model(kept@);
        proof {
            assert(b == orig[k]);
            assert(bm == ms[k]);
            assert(post.subrange(0, post.len() - 1) =~= pre);
            assert(post[post.len() - 1] == bm);
            lemma_branch_elements_push(pre, bm, v);
            assert(post =~= pre.push(bm));
            lemma_branch_prefix_le(ms, k + 1, v);
            lemma_nexts_size_elem(ms, k);
        }
        let mut placed = false;
        let ghost c0 = c;
        if pending.is_some() {
            if branch_is_visible(&b, anc) {
                let len_b = count_elements(&b, anc);
                if q <= c + len_b {
                    let x = pending.take().unwrap();
                    let ghost eb = elements(bm, v);
                    insert_in(&mut *b, q - c, x, anc);
                    placed = true;
                    proof {
                        assert(insert_branches(ms, k, q - c, fm, v) == ms.update(k, node_model(*b)));
                        assert(branch_visible(node_model(*b), v));
                        let bk = branch_elements(pre, v);
                        assert(opt_branch_elements(Some(node_model(*b)), v) == elements(node_model(*b), v));
                        assert(opt_branch_elements(Some(bm), v) == eb);
                        assert(branch_elements(post, v) == bk + eb);
                        let qq = (q - c) as int;
                        assert(elements(node_model(*b), v) == eb.subrange(0, qq) + ef + eb.subrange(qq, eb.len() as int));
                        assert(bk + eb.subrange(0, qq) + ef + eb.subrange(qq, eb.len() as int)
                            =~= (bk + eb).subrange(0, q as int) + ef + (bk + eb).subrange(q as int, (bk + eb).len() as int));
                    }
                } else {
                    c = c + len_b;
                }
            }
        }
        let ghost bm2 = node_model(*b);
        proof {
            lemma_nodes_model(kept@);
        }
        kept.push(b);
        proof {
            lemma_nodes_model(kept@);
            assert(nodes_model(kept@) =~= kept0.push(bm2));
            lemma_branch_elements_push(kept0, bm2, v);
            assert forall|w: spec_fn(Seq<char>) -> bool| !branch_visible(fm, w)
                implies #[trigger] branch_elements(nodes_model(kept@), w) == branch_elements(post, w) by {
                lemma_branch_elements_push(kept0, bm2, w);
                lemma_branch_elements_push(pre, bm, w);
                assert(elements(bm2, w) == elements(bm, w));
                assert(bm2.version == bm.version);
                assert(opt_branch_elements(Some(bm2), w) == opt_branch_elements(Some(bm), w));
            }
            if placed {
                assert(ms.update(k, bm2) =~= nodes_model(kept@) + ms.subrange(k + 1, ms.len() as int));
            }
            if !placed {
                assert(bm2 == bm);
                if pending is Some {
                    assert(insert_branches(ms, k, q - c0, fm, v) == insert_branches(ms, k + 1, q - c, fm, v));
                    assert(nodes_model(kept@) =~= post);
                    if !branch_visible(bm, v) {
                        assert(opt_branch_elements(Some(bm), v) =~= Seq::<Option<char>>::empty());
                    }
                } else {
                    let bk = branch_elements(pre, v);
                    let ob = opt_branch_elements(Some(bm), v);
                    assert(branch_elements(post, v) == bk + ob);
                    assert(bk.subrange(0, q as int) + ef + bk.subrange(q as int, bk.len() as int) + ob
                        =~= (bk + ob).subrange(0, q as int) + ef + (bk + ob).subrange(q as int, (bk + ob).len() as int));
                    assert(kept0 + ms.subrange(k, ms.len() as int) =~= nodes_model(kept@) + ms.subrange(k + 1, ms.len() as int));
                }
            }
            k = k + 1;
            assert(rest@ =~= orig.subrange(k, orig.len() as int));
        }
    }
    proof {
        assert(ms.subrange(0, orig.len() as int) =~= ms);
    }
    let ghost kept_m = nodes_model(kept@);
    node.nexts = kept;
    proof {
        lemma_nodes_model(node.nexts@);
        assert(node@ == (NodeModel { nexts: kept_m, ..m }));
    }
    match pending {
        None => {
            proof {
                assert(node@.nexts == kept_m);
                assert(kept_m + ms.subrange(orig.len() as int, orig.len() as int) =~= kept_m);
                assert(node@ == insert_model(m, p as int, fm, v));
                lemma_is_deleted_same(node@, m, v);
                assert(next_elements(node@, v) == r_s);
                assert(elements(node@, v) == own_s + branch_elements(kept_m, v) + r_s);
                assert(elements(node@, v) =~= e.subrange(0, p as int) + ef + e.subrange(p as int, e.len() as int));
                assert forall|w: spec_fn(Seq<char>) -> bool| !branch_visible(fm, w)
                    implies #[trigger] elements(node@, w) == elements(m, w) by {
                    lemma_is_deleted_same(node@, m, w);
                    assert(branch_elements(kept_m, w) == branch_elements(ms, w));
                    assert(next_elements(node@, w) == next_elements(m, w));
                }
            }
        },
        Some(x) => {
            proof {
                assert(node@ == m);
                assert(c == b_s.len());
            }
            match node.next.take() {
                Some(mut nx) => {
                    let ghost nm = node_model(*nx);
                    proof {
                        assert(m.next == Some(Box::new(nm)));
                        assert(r_s == elements(nm, v));
                    }
                    insert_in(&mut *nx, q - c, x, anc);
                    node.next = Some(nx);
                    proof {
                        assert(node@ == insert_model(m, p as int, fm, v));
                        let qq = (q - c) as int;
                        assert(node@ == (NodeModel { next: Some(Box::new(node_model(*nx))), ..m }));
                        lemma_is_deleted_same(node@, m, v);
                        assert(elements(node@, v) == own_s + b_s + elements(node_model(*nx), v));
                        assert(elements(node@, v) =~= e.subrange(0, p as int) + ef + e.subrange(p as int, e.len() as int));
                        assert forall|w: spec_fn(Seq<char>) -> bool| !branch_visible(fm, w)
                            implies #[trigger] elements(node@, w) == elements(m, w) by {
                            lemma_is_deleted_same(node@, m, w);
                            assert(elements(node_model(*nx), w) == elements(nm, w));
                            assert(next_elements(node@, w) == next_elements(m, w));
                        }
                    }
                },
                None => {
                    proof {
                        assert(r_s =~= Seq::<Option<char>>::empty());
                        assert(false);
                    }
                },
            }
        },
    }
}

/// Deletes read position `p` of the tree rooted at `node` on behalf of
/// `version`: the element there is marked deleted by `version`, after
/// breaking its node around it, and the tree reads as before without it.
#[verifier::rlimit(60)]
fn delete_in(node: &mut SequenceNode, p: usize, version: &str, anc: &AncestorSet)
    requires
        p < elements(old(node)@, anc.pred()).len(),
        elements(old(node)@, anc.pred()).len() <= usize::MAX,
        anc.admits(version@),
    ensures
        final(node)@.version == old(node)@.version,
        elements(final(node)@, anc.pred()) == elements(old(node)@, anc.pred()).subrange(0, p as int)
            + elements(old(node)@, anc.pred()).subrange(p + 1, elements(old(node)@, anc.pred()).len() as int),
        forall|w: spec_fn(Seq<char>) -> bool| !w(version@) ==> #[trigger] elements(final(node)@, w) == elements(old(node)@, w),
        final(node)@ == delete_model(old(node)@, p as int, version@, anc.pred()),
    decreases tree_size(old(node)@), p,
{
    let ghost m = node@;
    let ghost v = anc.pred();
    let ghost e = elements(m, v);
    let ghost own_s = own_elements(m, m.elems, v);
    let ghost b_s = branch_elements(m.nexts, v);
    let ghost r_s = next_elements(m, v);
    proof {
        lemma_nodes_model(node.nexts@);
        assert(e == own_s + b_s + r_s);
    }
    let del = node_deleted(node, anc);
    let own: usize = if del { 0 } else { node.elems.len() };
    if p < own {
        if p > 0 {
            let _ = break_node(node, p, false, None);
            let ghost h = node@;
            let ghost t = tail_model(m, p as int);
            proof {
                assert(h == break_model(m, p as int, false, None));
                assert(t.elems.len() == m.elems.len() - p);
                assert(tree_size(t) == tree_size(m));
                lemma_is_deleted_same(t, m, v);
                lemma_is_deleted_same(h, m, v);
                lemma_positions_slice(m.elems, p as int, m.elems.len() as int);
                lemma_positions_slice(m.elems, 0, p as int);
                assert(elements(t, v) == own_s.subrange(p as int, own_s.len() as int) + b_s + r_s);
            }
            match node.next.take() {
                Some(mut tb) => {
                    proof {
                        assert(node_model(*tb) == t);
                    }
                    delete_in(&mut *tb, 0, version, anc);
                    node.next = Some(tb);
                    proof {
                        let t2 = node_model(*tb);
                        assert(node@ == (NodeModel { next: Some(Box::new(t2)), ..h }));
                        lemma_is_deleted_same(node@, m, v);
                        assert(branch_elements(node@.nexts, v) =~= Seq::<Option<char>>::empty());
                        assert(elements(node@, v) == own_s.subrange(0, p as int) + elements(t2, v));
                        assert(elements(node@, v) =~= e.subrange(0, p as int) + e.subrange(p + 1, e.len() as int));
                        assert forall|w: spec_fn(Seq<char>) -> bool| !w(version@)
                            implies #[trigger] elements(node@, w) == elements(m, w) by {
                            lemma_is_deleted_same(node@, m, w);
                            lemma_is_deleted_same(t, m, w);
                            assert(branch_elements(node@.nexts, w) =~= Seq::<Option<char>>::empty());
                            assert(elements(t2, w) == elements(t, w));
                            lemma_break_elements(m, p as int, false, None, w);
                            assert(opt_branch_elements(None, w) =~= Seq::<Option<char>>::empty());
                            assert(own_elements(m, m.elems.slice(0, p as int), w) + own_elements(m, m.elems.slice(p as int, m.elems.len() as int), w)
                                =~= own_elements(m, m.elems, w));
                            assert(elements(t, w) == own_elements(m, m.elems.slice(p as int, m.elems.len() as int), w)
                                + branch_elements(m.nexts, w) + next_elements(m, w));
                            assert(elements(node@, w) =~= elements(m, w));
                        }
                    }
                },
                None => {
                    proof {
                        assert(false);
                    }
                },
            }
        } else {
            if node.elems.len() > 1 {
                let _ = break_node(node, 1, false, None);
            }
            let ghost h = node@;
            node.deleted_by.insert(String::from_str(version));
            proof {
                assert(node@ == (NodeModel { deleted_by: h.deleted_by.insert(version@), ..h }));
                assert(node@.deleted_by.contains(version@) && v(version@));
                assert(is_deleted(node@, v));
                if m.elems.len() > 1 {
                    let t = tail_model(m, 1);
                    assert(h == break_model(m, 1, false, None));
                    lemma_is_deleted_same(t, m, v);
                    lemma_positions_slice(m.elems, 1, m.elems.len() as int);
                    assert(branch_elements(node@.nexts, v) =~= Seq::<Option<char>>::empty());
                    assert(elements(t, v) == own_s.subrange(1, own_s.len() as int) + b_s + r_s);
                    assert(elements(node@, v) == elements(t, v));
                } else {
                    assert(h == m);
                    assert(elements(node@, v) == b_s + r_s);
                }
                assert(elements(node@, v) =~= e.subrange(0, p as int) + e.subrange(p + 1, e.len() as int));
                assert forall|w: spec_fn(Seq<char>) -> bool| !w(version@)
                    implies #[trigger] elements(node@, w) == elements(m, w) by {
                    assert(is_deleted(node@, w) == is_deleted(h, w)) by {
                        if is_deleted(node@, w) {
                            let y = choose|y: Seq<char>| #[trigger] node@.deleted_by.contains(y) && w(y);
                            assert(y != version@);
                            assert(h.deleted_by.contains(y));
                        }
                        if is_deleted(h, w) {
                            let y = choose|y: Seq<char>| #[trigger] h.deleted_by.contains(y) && w(y);
                            assert(node@.deleted_by.contains(y));
                        }
                    }
                    assert(elements(node@, w) == elements(h, w));
                    if m.elems.len() > 1 {
                        lemma_break_keeps_elements(m, 1, false, w);
                    }
                }
            }
        }
        return;
    }
    let q: usize = p - own;
    let mut rest: Vec<Box<SequenceNode>> = Vec::new();
    std::mem::swap(&mut rest, &mut node.nexts);
    let ghost orig = rest@;
    let ghost ms = m.nexts;
    proof {
        lemma_nodes_model(node.nexts@);
        assert(nodes_model(node.nexts@) =~= Seq::<NodeModel>::empty());
        assert(node@ == (NodeModel { nexts: Seq::empty(), ..m }));
        lemma_nodes_model(orig);
    }
    let mut kept: Vec<Box<SequenceNode>> = Vec::new();
    let mut c: usize = 0;
    let mut done = false;
    let ghost mut k: int = 0;
    proof {
        assert(orig.subrange(0, orig.len() as int) =~= orig);
        assert(ms.subrange(0, 0) =~= Seq::<NodeModel>::empty());
        lemma_nodes_model(kept@);
        assert(nodes_model(kept@) =~= ms.subrange(0, 0));
        lemma_branch_prefix_le(ms, 0, v);
    }
    while rest.len() > 0
        invariant
            0 <= k <= orig.len(),
            rest@ == orig.subrange(k, orig.len() as int),
            ms == nodes_model(orig),
            ms.len() == orig.len(),
            forall|j: int| 0 <= j < orig.len() ==> #[trigger] ms[j] == node_model(*orig[j]),
            b_s == branch_elements(ms, v),
            v == anc.pred(),
            anc.admits(version@),
            e == own_s + b_s + r_s,
            own_s.len() == own,
            q == p - own,
            p < e.len(),
            e.len() <= usize::MAX,
            tree_size(m) == 1 + nexts_size(ms) + match m.next { Some(b) => tree_size(*b), None => 0nat },
            !done ==> nodes_model(kept@) == ms.subrange(0, k)
                && c == branch_elements(ms.subrange(0, k), v).len() && c <= q
                && delete_branches(ms, 0, q as int, version@, v) == delete_branches(ms, k, q - c, version@, v),
            done ==> branch_elements(nodes_model(kept@), v)
                    == branch_elements(ms.subrange(0, k), v).subrange(0, q as int)
                        + branch_elements(ms.subrange(0, k), v).subrange(q + 1, branch_elements(ms.subrange(0, k), v).len() as int)
                    && q < branch_elements(ms.subrange(0, k), v).len()
                    && delete_branches(ms, 0, q as int, version@, v) == nodes_model(kept@) + ms.subrange(k, ms.len() as int),
            m == old(node)@,
            node@ == (NodeModel { nexts: Seq::empty(), ..m }),
            forall|w: spec_fn(Seq<char>) -> bool| !w(version@)
                ==> #[trigger] branch_elements(nodes_model(kept@), w) == branch_elements(ms.subrange(0, k), w),
        decreases orig.len() - k,
    {
        let mut b = rest.remove(0);
        let ghost bm = node_model(*b);
        let ghost pre = ms.subrange(0, k);
        let ghost post = ms.subrange(0, k + 1);
        let ghost kept0 = nodes_model(kept@);
        proof {
            assert(b == orig[k]);
            assert(bm == ms[k]);
            assert(post.subrange(0, post.len() - 1) =~= pre);
            assert(post[post.len() - 1] == bm);
            lemma_branch_elements_push(pre, bm, v);
            assert(post =~= pre.push(bm));
            lemma_branch_prefix_le(ms, k + 1, v);
            lemma_nexts_size_elem(ms, k);
        }
        let mut placed = false;
        let ghost c0 = c;
        if !done {
            if branch_is_visible(&b, anc) {
                let len_b = count_elements(&b, anc);
                if q < c + len_b {
                    let ghost eb = elements(bm, v);
                    delete_in(&mut *b, q - c, version, anc);
                    placed = true;
                    done = true;
                    proof {
                        assert(delete_branches(ms, k, q - c, version@, v) == ms.update(k, node_model(*b)));
                        assert(branch_visible(node_model(*b), v));
                        let bk = branch_elements(pre, v);
                        assert(opt_branch_elements(Some(node_model(*b)), v) == elements(node_model(*b), v));
                        assert(opt_branch_elements(Some(bm), v) == eb);
                        assert(branch_elements(post, v) == bk + eb);
                        let qq = (q - c) as int;
                        assert(elements(node_model(*b), v) == eb.subrange(0, qq) + eb.subrange(qq + 1, eb.len() as int));
                        assert(bk + eb.subrange(0, qq) + eb.subrange(qq + 1, eb.len() as int)
                            =~= (bk + eb).subrange(0, q as int) + (bk + eb).subrange(q + 1, (bk + eb).len() as int));
                    }
                } else {
                    c = c + len_b;
                }
            }
        }
        let ghost bm2 = node_model(*b);
        proof {
            lemma_nodes_model(kept@);
        }
        kept.push(b);
        proof {
            lemma_nodes_model(kept@);
            assert(nodes_model(kept@) =~= kept0.push(bm2));
            lemma_branch_elements_push(kept0, bm2, v);
            assert forall|w: spec_fn(Seq<char>) -> bool| !w(version@)
                implies #[trigger] branch_elements(nodes_model(kept@), w) == branch_elements(post, w) by {
                lemma_branch_elements_push(kept0, bm2, w);
                lemma_branch_elements_push(pre, bm, w);
                assert(elements(bm2, w) == elements(bm, w));
                assert(bm2.version == bm.version);
                assert(opt_branch_elements(Some(bm2), w) == opt_branch_elements(Some(bm), w));
            }
            if placed {
                assert(ms.update(k, bm2) =~= nodes_model(kept@) + ms.subrange(k + 1, ms.len() as int));
            }
            if !placed {
                assert(bm2 == bm);
                if !done {
                    assert(delete_branches(ms, k, q - c0, version@, v) == delete_branches(ms, k + 1, q - c, version@, v));
                    assert(nodes_model(kept@) =~= post);
                    if !branch_visible(bm, v) {
                        assert(opt_branch_elements(Some(bm), v) =~= Seq::<Option<char>>::empty());
                    }
                } else {
                    let bk = branch_elements(pre, v);
                    let ob = opt_branch_elements(Some(bm), v);
                    assert(branch_elements(post, v) == bk + ob);
                    assert(bk.subrange(0, q as int) + bk.subrange(q + 1, bk.len() as int) + ob
                        =~= (bk + ob).subrange(0, q as int) + (bk + ob).subrange(q + 1, (bk + ob).len() as int));
                    assert(kept0 + ms.subrange(k, ms.len() as int) =~= nodes_model(kept@) + ms.subrange(k + 1, ms.len() as int));
                }
            }
            k = k + 1;
            assert(rest@ =~= orig.subrange(k, orig.len() as int));
        }
    }
    proof {
        assert(ms.subrange(0, orig.len() as int) =~= ms);
    }
    let ghost kept_m = nodes_model(kept@);
    node.nexts = kept;
    proof {
        lemma_nodes_model(node.nexts@);
        assert(node@ == (NodeModel { nexts: kept_m, ..m }));
    }
    if done {
        proof {
            assert(kept_m + ms.subrange(orig.len() as int, orig.len() as int) =~= kept_m);
            assert(node@ == delete_model(m, p as int, version@, v));
            lemma_is_deleted_same(node@, m, v);
            assert(next_elements(node@, v) == r_s);
            assert(elements(node@, v) == own_s + branch_elements(kept_m, v) + r_s);
            assert(elements(node@, v) =~= e.subrange(0, p as int) + e.subrange(p + 1, e.len() as int));
            assert forall|w: spec_fn(Seq<char>) -> bool| !w(version@)
                implies #[trigger] elements(node@, w) == elements(m, w) by {
                lemma_is_deleted_same(node@, m, w);
                assert(branch_elements(kept_m, w) == branch_elements(ms, w));
                assert(next_elements(node@, w) == next_elements(m, w));
            }
        }
    } else {
        proof {
            assert(node@ == m);
            assert(c == b_s.len());
        }
        match node.next.take() {
            Some(mut nx) => {
                let ghost nm = node_model(*nx);
                proof {
                    assert(m.next == Some(Box::new(nm)));
                    assert(r_s == elements(nm, v));
                }
                delete_in(&mut *nx, q - c, version, anc);
                node.next = Some(nx);
                proof {
                    assert(node@ == delete_model(m, p as int, version@, v));
                    assert(node@ == (NodeModel { next: Some(Box::new(node_model(*nx))), ..m }));
                    lemma_is_deleted_same(node@, m, v);
                    assert(elements(node@, v) == own_s + b_s + elements(node_model(*nx), v));
                    assert(elements(node@, v) =~= e.subrange(0, p as int) + e.subrange(p + 1, e.len() as int));
                    assert forall|w: spec_fn(Seq<char>) -> bool| !w(version@)
                        implies #[trigger] elements(node@, w) == elements(m, w) by {
                        lemma_is_deleted_same(node@, m, w);
                        assert(elements(node_model(*nx), w) == elements(nm, w));
                        assert(next_elements(node@, w) == next_elements(m, w));
                    }
                }
            },
            None => {
                proof {
                    assert(r_s =~= Seq::<Option<char>>::empty());
                    assert(false);
                }
            },
        }
    }
}

/// The versions `anc` takes into account, and `version`.
pub open spec fn with_version(anc: spec_fn(Seq<char>) -> bool, version: Seq<char>) -> spec_fn(Seq<char>) -> bool {
    |v: Seq<char>| anc(v) || v == version
}

/// The set of `anc` with `version` added.
fn add_to_set(anc: &AncestorSet, version: &str) -> (r: AncestorSet)
    ensures
        r.pred() == with_version(anc.pred(), version@),
{
    match anc {
        AncestorSet::All => {
            let r = AncestorSet::All;
            proof {
                assert(r.pred() =~= with_version(anc.pred(), version@));
            }
            r
        },
        AncestorSet::Listed(vs) => {
            let mut ws: Vec<String> = Vec::new();
            let mut i: usize = 0;
            while i < vs.len()
                invariant
                    i <= vs@.len(),
                    string_views(ws@) == string_views(vs@).subrange(0, i as int),
                decreases vs@.len() - i,
            {
                let item = String::from_str(vs[i].as_str());
                let ghost before = string_views(ws@);
                let ghost iv = item@;
                ws.push(item);
                proof {
                    assert(iv == string_views(vs@)[i as int]);
                    assert(string_views(ws@) =~= before.push(iv));
                    assert(string_views(ws@) =~= string_views(vs@).subrange(0, i + 1));
                }
                i = i + 1;
            }
            let ghost before = string_views(ws@);
            ws.push(String::from_str(version));
            proof {
                assert(before =~= string_views(vs@));
                assert(string_views(ws@) =~= string_views(vs@).push(version@));
            }
            let r = AncestorSet::Listed(ws);
            proof {
                assert forall|x: Seq<char>| #[trigger] r.admits(x) == (anc.admits(x) || x == version@) by {
                    let sv = string_views(vs@);
                    if sv.push(version@).contains(x) && x != version@ {
                        let j = choose|j: int| 0 <= j < sv.push(version@).len() && sv.push(version@)[j] == x;
                        assert(sv[j] == x);
                    }
                    if sv.contains(x) {
                        let j = choose|j: int| 0 <= j < sv.len() && sv[j] == x;
                        assert(sv.push(version@)[j] == x);
                    }
                    if x == version@ {
                        assert(sv.push(version@)[sv.len() as int] == x);
                    }
                }
                assert(r.pred() =~= with_version(anc.pred(), version@));
            }
            r
        },
    }
}

/// Number of read positions of the tree rooted at `node`, or `None` when
/// it does not fit in a `usize`.
fn count_checked(node: &SequenceNode, anc: &AncestorSet) -> (r: Option<usize>)
    ensures
        match r {
            Some(n) => n == elements(node@, anc.pred()).len(),
            None => elements(node@, anc.pred()).len() > usize::MAX,
        },
    decreases node,
{
    let ghost m = node@;
    let ghost v = anc.pred();
    let mut total: usize = if node_deleted(node, anc) { 0 } else { node.elems.len() };
    let ghost own = own_elements(m, m.elems, v);
    proof {
        lemma_nodes_model(node.nexts@);
    }
    let mut i: usize = 0;
    while i < node.nexts.len()
        invariant
            m == node@,
            v == anc.pred(),
            i <= node.nexts@.len(),
            nodes_model(node.nexts@).len() == node.nexts@.len(),
            forall|j: int| 0 <= j < node.nexts@.len() ==> #[trigger] nodes_model(node.nexts@)[j] == node.nexts@[j]@,
            m.nexts == nodes_model(node.nexts@),
            total == own.len() + branch_elements(m.nexts.subrange(0, i as int), v).len(),
            own == own_elements(m, m.elems, v),
        decreases node.nexts@.len() - i,
    {
        let child: &SequenceNode = &node.nexts[i];
        proof {
            let pre = m.nexts.subrange(0, i as int);
            let post = m.nexts.subrange(0, i + 1);
            assert(post.subrange(0, post.len() - 1) =~= pre);
            lemma_branch_prefix_le(m.nexts, i + 1, v);
        }
        if branch_is_visible(child, anc) {
            match count_checked(child, anc) {
                Some(c) => {
                    match total.checked_add(c) {
                        Some(t) => {
                            total = t;
                        },
                        None => {
                            proof {
                                assert(elements(m, v) == own + branch_elements(m.nexts, v) + next_elements(m, v));
                            }
                            return None;
                        },
                    }
                },
                None => {
                    proof {
                        lemma_branch_prefix_le(m.nexts, i + 1, v);
                        assert(elements(m, v) == own + branch_elements(m.nexts, v) + next_elements(m, v));
                    }
                    return None;
                },
            }
        }
        i = i + 1;
    }
    proof {
        assert(m.nexts.subrange(0, node.nexts@.len() as int) =~= m.nexts);
        assert(elements(m, v) == own + branch_elements(m.nexts, v) + next_elements(m, v));
    }
    match &node.next {
        Some(b) => {
            match count_checked(b, anc) {
                Some(c) => total.checked_add(c),
                None => None,
            }
        },
        None => Some(total),
    }
}

/// Whether splices fit a sequence of `n` read positions: each replaces a
/// range within it, and each ends no later than the next one starts.
pub open spec fn splices_fit(ss: Seq<SpliceModel>, n: int) -> bool {
    &&& forall|i: int| 0 <= i < ss.len() ==> 0 <= #[trigger] ss[i].pos && 0 <= ss[i].delete_count
        && ss[i].pos + ss[i].delete_count <= n
    &&& forall|i: int| 0 <= i < ss.len() - 1 ==> #[trigger] ss[i].pos + ss[i].delete_count <= ss[i + 1].pos
}

/// The number of elements the splices insert.
pub open spec fn inserted_total(ss: Seq<SpliceModel>) -> nat
    decreases ss.len(),
{
    if ss.len() == 0 { 0 } else { inserted_total(ss.drop_last()) + ss.last().insert.len() }
}

/// Read positions with every splice applied, each at its position in the
/// original positions: the deleted range is replaced by the inserted
/// elements.
pub open spec fn apply_splices(e: Seq<Option<char>>, ss: Seq<SpliceModel>) -> Seq<Option<char>>
    decreases ss.len(),
{
    if ss.len() == 0 {
        e
    } else {
        let l = ss.last();
        apply_splices(e.subrange(0, l.pos), ss.drop_last()) + l.insert.positions()
            + e.subrange(l.pos + l.delete_count, e.len() as int)
    }
}

/// Whether `version` occurs nowhere in the tree: no node was made or
/// deleted by it.
pub open spec fn fresh_in(m: NodeModel, version: Seq<char>) -> bool
    decreases m,
{
    &&& m.version != Some(version)
    &&& !m.deleted_by.contains(version)
    &&& forall|i: int| 0 <= i < m.nexts.len() ==> fresh_in(#[trigger] m.nexts[i], version)
    &&& match m.next {
        Some(b) => fresh_in(*b, version),
        None => true,
    }
}

/// Two readings that differ only on a version the tree does not hold read
/// it alike.
pub proof fn lemma_fresh_view(m: NodeModel, version: Seq<char>, a: spec_fn(Seq<char>) -> bool, b: spec_fn(Seq<char>) -> bool)
    requires
        fresh_in(m, version),
        forall|x: Seq<char>| x != version ==> #[trigger] a(x) == b(x),
    ensures
        elements(m, a) == elements(m, b),
    decreases tree_size(m), 0nat,
{
    assert(is_deleted(m, a) == is_deleted(m, b)) by {
        if is_deleted(m, a) {
            let x = choose|x: Seq<char>| #[trigger] m.deleted_by.contains(x) && a(x);
            assert(x != version);
        }
        if is_deleted(m, b) {
            let x = choose|x: Seq<char>| #[trigger] m.deleted_by.contains(x) && b(x);
            assert(x != version);
        }
    }
    lemma_fresh_branches(m.nexts, version, a, b);
    match m.next {
        Some(n) => {
            lemma_fresh_view(*n, version, a, b);
        },
        None => {},
    }
}

proof fn lemma_fresh_branches(ms: Seq<NodeModel>, version: Seq<char>, a: spec_fn(Seq<char>) -> bool, b: spec_fn(Seq<char>) -> bool)
    requires
        forall|i: int| 0 <= i < ms.len() ==> fresh_in(#[trigger] ms[i], version),
        forall|x: Seq<char>| x != version ==> #[trigger] a(x) == b(x),
    ensures
        branch_elements(ms, a) == branch_elements(ms, b),
    decreases nexts_size(ms), 1nat,
{
    if ms.len() > 0 {
        let pre = ms.subrange(0, ms.len() - 1);
        let last = ms[ms.len() - 1];
        assert(tree_size(last) >= 1);
        assert forall|i: int| 0 <= i < pre.len() implies fresh_in(#[trigger] pre[i], version) by {
            assert(pre[i] == ms[i]);
        }
        lemma_fresh_branches(pre, version, a, b);
        lemma_fresh_view(last, version, a, b);
        assert(branch_visible(last, a) == branch_visible(last, b));
    }
}

/// Whether splices can be added to a tree: they fit its read positions
/// under a reading that takes the new version into account (see
/// `splices_fit`), and the positions after the insertions can be counted
/// in a `usize`.
pub open spec fn adds_fit(m: NodeModel, version: Seq<char>, ss: Seq<SpliceModel>, anc: spec_fn(Seq<char>) -> bool) -> bool {
    let n = elements(m, with_version(anc, version)).len();
    splices_fit(ss, n as int) && n + inserted_total(ss) <= usize::MAX
}

proof fn lemma_inserted_prefix(ss: Seq<SpliceModel>, k: int)
    requires
        0 <= k <= ss.len(),
    ensures
        inserted_total(ss.subrange(0, k)) <= inserted_total(ss),
    decreases ss.len() - k,
{
    if k < ss.len() {
        lemma_inserted_prefix(ss, k + 1);
        assert(ss.subrange(0, k + 1).drop_last() =~= ss.subrange(0, k));
    } else {
        assert(ss.subrange(0, k) =~= ss);
    }
}

/// Whether splices fit `n` read positions and their insertions keep the
/// count within a `usize`.
fn splices_fit_exec(splices: &Vec<Splice>, n0: usize) -> (ok: bool)
    ensures
        ok == (splices_fit(splice_views(splices@), n0 as int) && n0 + inserted_total(splice_views(splices@)) <= usize::MAX),
{
    let ghost ss = splice_views(splices@);
    let ns = splices.len();
    let mut total: usize = 0;
    let mut i: usize = 0;
    proof {
        assert(ss.subrange(0, 0) =~= Seq::<SpliceModel>::empty());
    }
    while i < ns
        invariant
            i <= ns,
            ns == splices@.len(),
            ss == splice_views(splices@),
            ss.len() == ns,
            total == inserted_total(ss.subrange(0, i as int)),
            total <= usize::MAX - n0,
            forall|j: int| 0 <= j < i ==> 0 <= #[trigger] ss[j].pos && 0 <= ss[j].delete_count
                && ss[j].pos + ss[j].delete_count <= n0,
            forall|j: int| 0 <= j < i && j + 1 < ns ==> #[trigger] ss[j].pos + ss[j].delete_count <= ss[j + 1].pos,
        decreases ns - i,
    {
        let s = &splices[i];
        proof {
            assert(ss[i as int] == s@);
        }
        if s.pos > n0 || s.delete_count > n0 - s.pos {
            proof {
                assert(!(ss[i as int].pos + ss[i as int].delete_count <= n0));
            }
            return false;
        }
        if i + 1 < ns && splices[i + 1].pos < s.pos + s.delete_count {
            proof {
                assert(ss[i + 1] == splices@[i + 1]@);
                assert(!(ss[i as int].pos + ss[i as int].delete_count <= ss[i + 1].pos));
            }
            return false;
        }
        let il = s.insert.len();
        proof {
            assert(ss.subrange(0, i + 1).drop_last() =~= ss.subrange(0, i as int));
            assert(ss.subrange(0, i + 1).last() == ss[i as int]);
            lemma_inserted_prefix(ss, i + 1);
        }
        if il > (usize::MAX - n0) - total {
            return false;
        }
        total = total + il;
        i = i + 1;
    }
    proof {
        assert(ss.subrange(0, ns as int) =~= ss);
    }
    true
}

/// Applies one splice at read position `p`: `d` elements are deleted by
/// `version`, and the splice's elements inserted there as a node created
/// by `version`.
fn apply_splice(root: &mut SequenceNode, s: &Splice, version: &str, anc: &AncestorSet)
    requires
        anc.admits(version@),
        s.pos + s.delete_count <= elements(old(root)@, anc.pred()).len(),
        elements(old(root)@, anc.pred()).len() + s@.insert.len() <= usize::MAX,
    ensures
        elements(final(root)@, anc.pred()) == elements(old(root)@, anc.pred()).subrange(0, s.pos as int)
            + s@.insert.positions()
            + elements(old(root)@, anc.pred()).subrange(s.pos + s.delete_count, elements(old(root)@, anc.pred()).len() as int),
        forall|w: spec_fn(Seq<char>) -> bool| !w(version@) ==> #[trigger] elements(final(root)@, w) == elements(old(root)@, w),
        final(root)@ == splice_model(old(root)@, s@, version@, anc.pred()),
{
    let ghost v = anc.pred();
    let ghost cur = elements(root@, v);
    let p = s.pos;
    let d = s.delete_count;
    let mut j: usize = 0;
    proof {
        assert(cur.subrange(0, p as int) + cur.subrange(p as int, cur.len() as int) =~= cur);
    }
    while j < d
        invariant
            j <= d,
            p + d <= cur.len(),
            cur.len() <= usize::MAX,
            v == anc.pred(),
            anc.admits(version@),
            elements(root@, v) == cur.subrange(0, p as int) + cur.subrange(p + j, cur.len() as int),
            forall|w: spec_fn(Seq<char>) -> bool| !w(version@) ==> #[trigger] elements(root@, w) == elements(old(root)@, w),
            root@ == delete_n(old(root)@, p as int, j as nat, version@, v),
            s@.pos == p && s@.delete_count == d,
        decreases d - j,
    {
        delete_in(root, p, version, anc);
        proof {
            let c2 = cur.subrange(0, p as int) + cur.subrange(p + j, cur.len() as int);
            assert(c2.subrange(0, p as int) + c2.subrange(p + 1, c2.len() as int)
                =~= cur.subrange(0, p as int) + cur.subrange(p + j + 1, cur.len() as int));
        }
        j = j + 1;
    }
    let ghost ins = s@.insert.positions();
    if s.insert.len() > 0 {
        let f = make_fresh(version, s);
        proof {
            lemma_fresh_elements(version@, s@, v);
            assert(branch_visible(node_model(*f), v));
            assert(elements(node_model(*f), v) == ins);
            assert forall|w: spec_fn(Seq<char>) -> bool| !w(version@) implies !branch_visible(#[trigger] node_model(*f), w) by {}
        }
        let ghost mid = elements(root@, v);
        insert_in(root, p, f, anc);
        proof {
            assert(mid.subrange(0, p as int) =~= cur.subrange(0, p as int));
            assert(mid.subrange(p as int, mid.len() as int) =~= cur.subrange(p + d, cur.len() as int));
        }
    } else {
        proof {
            assert(ins =~= Seq::<Option<char>>::empty());
            assert(elements(root@, v) =~= cur.subrange(0, p as int) + ins + cur.subrange(p + d, cur.len() as int));
        }
    }
}

/// Add a version to the sequence CRDT.
///
/// Every splice is applied, each at its position in the sequence as read
/// with the new version taken into account: the elements it deletes are
/// marked deleted by `version` (nodes are broken around them), and the
/// elements it inserts become a new node created by `version`, placed at
/// the splice's position wherever in the tree that falls.  When the
/// splices do not fit the sequence (see `adds_fit`) nothing changes.
/// When `version` occurs nowhere in the tree, the sequence read before is
/// the one read with `is_anc` alone.  A reading that leaves `version` out
/// reads the same sequence after as before.  The tree left is the one
/// `added_tree` describes: the splices are applied last first, each
/// deletion breaking the node around the deleted element, each insertion
/// breaking the node at its position and hanging the new node there as the
/// node's only branch.
///
/// # Arguments
/// * `root` - Root node of the sequence
/// * `version` - Unique version string for this modification
/// * `splices` - Array of splice operations
/// * `is_anc` - The versions to consider
///
/// # Returns
/// Rebased splices that can be used to update other views
#[verifier::rlimit(40)]
pub fn add_version(
    root: &mut SequenceNode,
    version: &str,
    splices: Vec<Splice>,
    is_anc: &AncestorSet,
) -> (rebased: Vec<Splice>)
    ensures
        rebased@.len() == 0,
        adds_fit(old(root)@, version@, splice_views(splices@), is_anc.pred()) ==>
            elements(final(root)@, with_version(is_anc.pred(), version@))
                == apply_splices(elements(old(root)@, with_version(is_anc.pred(), version@)), splice_views(splices@)),
        forall|w: spec_fn(Seq<char>) -> bool| !w(version@) ==> #[trigger] elements(final(root)@, w) == elements(old(root)@, w),
        adds_fit(old(root)@, version@, splice_views(splices@), is_anc.pred()) && fresh_in(old(root)@, version@) ==>
            elements(final(root)@, with_version(is_anc.pred(), version@))
                == apply_splices(elements(old(root)@, is_anc.pred()), splice_views(splices@)),
        !adds_fit(old(root)@, version@, splice_views(splices@), is_anc.pred()) ==> final(root)@ == old(root)@,
        final(root)@ == added_tree(old(root)@, version@, splice_views(splices@), is_anc.pred()),
{
    let ghost m0 = root@;
    let ghost ss = splice_views(splices@);
    let anc2 = add_to_set(is_anc, version);
    let ghost v = anc2.pred();
    let ghost e0 = elements(m0, v);
    proof {
        if fresh_in(m0, version@) {
            lemma_fresh_view(m0, version@, with_version(is_anc.pred(), version@), is_anc.pred());
        }
        assert(v(version@));
    }
    let n0 = match count_checked(root, &anc2) {
        Some(n) => n,
        None => {
            return Vec::new();
        },
    };
    if !splices_fit_exec(&splices, n0) {
        return Vec::new();
    }
    let ns = splices.len();
    let ghost mut x: Seq<Option<char>> = Seq::empty();
    let ghost mut q: int = n0 as int;
    let mut idx: usize = ns;
    proof {
        assert(e0.subrange(0, n0 as int) =~= e0);
        assert(ss.subrange(0, ns as int) =~= ss);
        assert(e0.subrange(0, q) + x =~= e0);
        assert(apply_splices(e0.subrange(0, q), ss.subrange(0, idx as int)) + x =~= apply_splices(e0, ss));
    }
    while idx > 0
        invariant
            idx <= ns,
            ns == splices@.len(),
            ss == splice_views(splices@),
            ss.len() == ns,
            n0 == e0.len(),
            v == anc2.pred(),
            anc2.admits(version@),
            splices_fit(ss, n0 as int),
            n0 + inserted_total(ss) <= usize::MAX,
            q == (if idx < ns { ss[idx as int].pos } else { n0 as int }),
            0 <= q <= n0,
            elements(root@, v) == e0.subrange(0, q) + x,
            apply_splices(e0, ss) == apply_splices(e0.subrange(0, q), ss.subrange(0, idx as int)) + x,
            q + x.len() + inserted_total(ss.subrange(0, idx as int)) <= n0 + inserted_total(ss),
            forall|w: spec_fn(Seq<char>) -> bool| !w(version@) ==> #[trigger] elements(root@, w) == elements(m0, w),
            m0 == old(root)@,
            splices_model(m0, ss, version@, v) == splices_model(root@, ss.subrange(0, idx as int), version@, v),
        decreases idx,
    {
        let s = &splices[idx - 1];
        let ghost k = idx - 1;
        let ghost ins = s@.insert.positions();
        let ghost p = s.pos as int;
        let ghost d = s.delete_count as int;
        proof {
            assert(ss[k] == s@);
            assert(p + d <= q) by {
                if idx < ns {
                    assert(ss[k].pos + ss[k].delete_count <= ss[k + 1].pos);
                }
            }
            let pre = ss.subrange(0, k);
            let post = ss.subrange(0, idx as int);
            assert(post.drop_last() =~= pre);
            assert(post.last() == s@);
            assert(inserted_total(post) == inserted_total(pre) + s@.insert.len());
        }
        let ghost before = root@;
        apply_splice(root, s, version, &anc2);
        proof {
            let pre = ss.subrange(0, k);
            let post = ss.subrange(0, idx as int);
            assert(splices_model(before, post, version@, v) == splices_model(root@, pre, version@, v));
            let cur = e0.subrange(0, q) + x;
            let x2 = ins + e0.subrange(p + d, q) + x;
            assert(cur.subrange(0, p) =~= e0.subrange(0, p));
            assert(cur.subrange(p + d, cur.len() as int) =~= e0.subrange(p + d, q) + x);
            assert(elements(root@, v) =~= e0.subrange(0, p) + x2);
            let eq = e0.subrange(0, q);
            assert(eq.subrange(0, p) =~= e0.subrange(0, p));
            assert(eq.subrange(p + d, eq.len() as int) =~= e0.subrange(p + d, q));
            assert(apply_splices(eq, post) == apply_splices(eq.subrange(0, p), pre) + ins + eq.subrange(p + d, eq.len() as int));
            assert(apply_splices(e0, ss) =~= apply_splices(e0.subrange(0, p), pre) + x2);
            x = x2;
            q = p;
        }
        idx = idx - 1;
    }
    proof {
        assert(ss.subrange(0, 0) =~= Seq::<SpliceModel>::empty());
        assert(elements(root@, v) == apply_splices(e0, ss));
        assert(root@ == splices_model(m0, ss, version@, v));
    }
    Vec::new()
}


/// The read positions after a node's own elements and branches.
pub open spec fn next_elements(m: NodeModel, anc: spec_fn(Seq<char>) -> bool) -> Seq<Option<char>> {
    match m.next {
        Some(b) => elements(*b, anc),
        None => Seq::empty(),
    }
}

/// The read positions of some elements of a node, unless the node is deleted.
pub open spec fn own_elements(m: NodeModel, e: ElemsModel, anc: spec_fn(Seq<char>) -> bool) -> Seq<Option<char>> {
    if is_deleted(m, anc) { Seq::empty() } else { e.positions() }
}

/// The read positions of an optional branch.
pub open spec fn opt_branch_elements(o: Option<NodeModel>, anc: spec_fn(Seq<char>) -> bool) -> Seq<Option<char>> {
    match o {
        Some(n) => if branch_visible(n, anc) { elements(n, anc) } else { Seq::empty() },
        None => Seq::empty(),
    }
}

proof fn lemma_branch_elements_single(n: NodeModel, anc: spec_fn(Seq<char>) -> bool)
    ensures
        branch_elements(seq![n], anc) == opt_branch_elements(Some(n), anc),
{
    let ms = seq![n];
    assert(ms.subrange(0, 0) =~= Seq::<NodeModel>::empty());
    assert(branch_elements(Seq::<NodeModel>::empty(), anc) =~= Seq::<Option<char>>::empty());
    assert(branch_elements(ms, anc) =~= opt_branch_elements(Some(n), anc));
}

proof fn lemma_branch_elements_push(ms: Seq<NodeModel>, n: NodeModel, anc: spec_fn(Seq<char>) -> bool)
    ensures
        branch_elements(ms.push(n), anc) == branch_elements(ms, anc) + opt_branch_elements(Some(n), anc),
{
    let p = ms.push(n);
    assert(p.subrange(0, p.len() - 1) =~= ms);
}

/// The positions of elements split at `x` are those of the elements.
proof fn lemma_positions_split(e: ElemsModel, x: int)
    requires
        0 <= x <= e.len(),
    ensures
        e.slice(0, x).positions() + e.slice(x, e.len() as int).positions() == e.positions(),
        e.slice(0, e.len() as int).positions() == e.positions(),
        e.slice(e.len() as int, e.len() as int).positions() == Seq::<Option<char>>::empty(),
{
    match e {
        ElemsModel::Text(t) => {
            assert(t.subrange(0, t.len() as int) =~= t);
            assert(e.slice(0, x).positions() + e.slice(x, e.len() as int).positions() =~= e.positions());
            assert(e.slice(0, e.len() as int).positions() =~= e.positions());
            assert(e.slice(e.len() as int, e.len() as int).positions() =~= Seq::<Option<char>>::empty());
        },
        ElemsModel::Indices(v) => {
            assert(v.subrange(0, v.len() as int) =~= v);
            assert(e.slice(0, x).positions() + e.slice(x, e.len() as int).positions() =~= e.positions());
            assert(e.slice(0, e.len() as int).positions() =~= e.positions());
            assert(e.slice(e.len() as int, e.len() as int).positions() =~= Seq::<Option<char>>::empty());
        },
    }
}

/// The read positions of a broken node: its head, the new branch, then the
/// tail followed by the old branches and the rest.
pub proof fn lemma_break_elements(m: NodeModel, x: int, end_cap: bool, new_next: Option<NodeModel>, anc: spec_fn(Seq<char>) -> bool)
    requires
        0 <= x <= m.elems.len(),
    ensures
        elements(break_model(m, x, end_cap, new_next), anc)
            == own_elements(m, m.elems.slice(0, x), anc) + opt_branch_elements(new_next, anc)
            + own_elements(m, m.elems.slice(x, m.elems.len() as int), anc)
            + branch_elements(m.nexts, anc) + next_elements(m, anc),
{
    let b = break_model(m, x, end_cap, new_next);
    let t = tail_model(m, x);
    match new_next {
        Some(n) => lemma_branch_elements_single(n, anc),
        None => {
            assert(branch_elements(Seq::<NodeModel>::empty(), anc) =~= Seq::<Option<char>>::empty());
        },
    }
    lemma_is_deleted_same(b, m, anc);
    lemma_is_deleted_same(t, m, anc);
    assert(elements(t, anc) == own_elements(m, m.elems.slice(x, m.elems.len() as int), anc)
        + branch_elements(m.nexts, anc) + next_elements(m, anc));
    assert(elements(b, anc) =~= own_elements(m, m.elems.slice(0, x), anc) + opt_branch_elements(new_next, anc)
        + elements(t, anc));
}

/// Breaking a node with no new branch keeps what the sequence reads.
pub proof fn lemma_break_keeps_elements(m: NodeModel, x: int, end_cap: bool, anc: spec_fn(Seq<char>) -> bool)
    requires
        0 <= x <= m.elems.len(),
    ensures
        elements(break_model(m, x, end_cap, None), anc) == elements(m, anc),
{
    lemma_break_elements(m, x, end_cap, None, anc);
    lemma_positions_split(m.elems, x);
    assert(own_elements(m, m.elems.slice(0, x), anc) + own_elements(m, m.elems.slice(x, m.elems.len() as int), anc)
        =~= own_elements(m, m.elems, anc));
    assert(elements(break_model(m, x, end_cap, None), anc) =~= elements(m, anc));
}


/// A node made by a splice reads as the splice's inserted elements.
proof fn lemma_fresh_elements(version: Seq<char>, s: SpliceModel, anc: spec_fn(Seq<char>) -> bool)
    requires
        anc(version),
    ensures
        opt_branch_elements(Some(fresh_node(version, s)), anc) == s.insert.positions(),
{
    let f = fresh_node(version, s);
    assert(!is_deleted(f, anc));
    assert(branch_elements(Seq::<NodeModel>::empty(), anc) =~= Seq::<Option<char>>::empty());
    assert(elements(f, anc) =~= s.insert.positions());
}





/// Whether a node's elements count toward the positions of a braid: its
/// version is absent or an ancestor, and no ancestor deleted it.
pub open spec fn braid_counts(m: NodeModel, anc: spec_fn(Seq<char>) -> bool) -> bool {
    (m.version is None || anc(m.version->0)) && !is_deleted(m, anc)
}

/// How far a node's own elements move the position of a braid.
pub open spec fn braid_own_width(m: NodeModel, anc: spec_fn(Seq<char>) -> bool) -> nat {
    if braid_counts(m, anc) { m.elems.len() } else { 0 }
}

/// How far the tree rooted at `m` moves the position of a braid.
pub open spec fn braid_width(m: NodeModel, anc: spec_fn(Seq<char>) -> bool) -> nat
    decreases m,
{
    braid_own_width(m, anc) + branches_width(m.nexts, anc) + match m.next {
        Some(b) => braid_width(*b, anc),
        None => 0,
    }
}

/// How far a list of branches moves the position of a braid.
pub open spec fn branches_width(ms: Seq<NodeModel>, anc: spec_fn(Seq<char>) -> bool) -> nat
    decreases ms,
{
    if ms.len() == 0 {
        0
    } else {
        branches_width(ms.subrange(0, ms.len() - 1), anc) + braid_width(ms[ms.len() - 1], anc)
    }
}

/// The splice that a node contributes to the braid of `target`: an insert
/// (a replace after an end cap) if `target` created it, a delete if
/// `target` deleted its elements.
pub open spec fn braid_here(m: NodeModel, target: Seq<char>, offset: int, end_cap: bool) -> Seq<SpliceModel> {
    if m.version == Some(target) {
        seq![SpliceModel {
            pos: offset,
            delete_count: if end_cap { 1 } else { 0 },
            insert: m.elems,
            sort_key: m.sort_key,
            op_type: if end_cap { 'r' } else { 'i' },
        }]
    } else if m.deleted_by.contains(target) && m.elems.len() > 0 {
        seq![SpliceModel {
            pos: offset,
            delete_count: m.elems.len() as int,
            insert: m.elems.empty_like(),
            sort_key: None,
            op_type: 'd',
        }]
    } else {
        Seq::empty()
    }
}

/// The braid of `target` in the tree rooted at `m`, starting at `offset`.
pub open spec fn braid_walk(m: NodeModel, target: Seq<char>, anc: spec_fn(Seq<char>) -> bool, offset: int, end_cap: bool) -> Seq<SpliceModel>
    decreases m,
{
    braid_here(m, target, offset, end_cap)
        + braid_branches(m.nexts, target, anc, offset + braid_own_width(m, anc), m.end_cap)
        + match m.next {
            Some(b) => braid_walk(*b, target, anc, offset + braid_own_width(m, anc) + branches_width(m.nexts, anc), false),
            None => Seq::empty(),
        }
}

/// The braid of `target` in a list of branches, starting at `offset`.
pub open spec fn braid_branches(ms: Seq<NodeModel>, target: Seq<char>, anc: spec_fn(Seq<char>) -> bool, offset: int, end_cap: bool) -> Seq<SpliceModel>
    decreases ms,
{
    if ms.len() == 0 {
        Seq::empty()
    } else {
        let pre = ms.subrange(0, ms.len() - 1);
        braid_branches(pre, target, anc, offset, end_cap)
            + braid_walk(ms[ms.len() - 1], target, anc, offset + branches_width(pre, anc), end_cap)
    }
}

proof fn lemma_branches_width_prefix(ms: Seq<NodeModel>, k: int, anc: spec_fn(Seq<char>) -> bool)
    requires
        0 <= k <= ms.len(),
    ensures
        branches_width(ms.subrange(0, k), anc) <= branches_width(ms, anc),
    decreases ms.len() - k,
{
    if k < ms.len() {
        lemma_branches_width_prefix(ms, k + 1, anc);
        let post = ms.subrange(0, k + 1);
        assert(post.subrange(0, post.len() - 1) =~= ms.subrange(0, k));
    } else {
        assert(ms.subrange(0, k) =~= ms);
    }
}

/// Whether braid positions and read positions agree in the tree rooted at
/// `m` under `anc`: every node on a path that is read was made by an
/// admitted version or by none, and a branch that is not read moves no
/// braid position.
pub open spec fn braid_aligned(m: NodeModel, anc: spec_fn(Seq<char>) -> bool) -> bool
    decreases m,
{
    &&& (m.version is None || anc(m.version->0))
    &&& forall|i: int| 0 <= i < m.nexts.len() ==> (if branch_visible(#[trigger] m.nexts[i], anc) {
            braid_aligned(m.nexts[i], anc)
        } else {
            braid_width(m.nexts[i], anc) == 0
        })
    &&& match m.next {
        Some(b) => braid_aligned(*b, anc),
        None => true,
    }
}

/// A tree that does not hold `target` has an empty braid for it.
proof fn lemma_fresh_braid(m: NodeModel, target: Seq<char>, anc: spec_fn(Seq<char>) -> bool, off: int, ec: bool)
    requires
        fresh_in(m, target),
    ensures
        braid_walk(m, target, anc, off, ec) == Seq::<SpliceModel>::empty(),
    decreases tree_size(m), 0nat,
{
    lemma_fresh_braid_branches(m.nexts, target, anc, off + braid_own_width(m, anc), m.end_cap);
    match m.next {
        Some(b) => {
            lemma_fresh_braid(*b, target, anc, off + braid_own_width(m, anc) + branches_width(m.nexts, anc), false);
        },
        None => {},
    }
    assert(braid_walk(m, target, anc, off, ec) =~= Seq::<SpliceModel>::empty());
}

proof fn lemma_fresh_braid_branches(ms: Seq<NodeModel>, target: Seq<char>, anc: spec_fn(Seq<char>) -> bool, off: int, ec: bool)
    requires
        forall|i: int| 0 <= i < ms.len() ==> fresh_in(#[trigger] ms[i], target),
    ensures
        braid_branches(ms, target, anc, off, ec) == Seq::<SpliceModel>::empty(),
    decreases nexts_size(ms), 1nat,
{
    if ms.len() > 0 {
        let pre = ms.subrange(0, ms.len() - 1);
        let last = ms[ms.len() - 1];
        assert(tree_size(last) >= 1);
        assert forall|i: int| 0 <= i < pre.len() implies fresh_in(#[trigger] pre[i], target) by {
            assert(pre[i] == ms[i]);
        }
        lemma_fresh_braid_branches(pre, target, anc, off, ec);
        lemma_fresh_braid(last, target, anc, off + branches_width(pre, anc), ec);
        assert(braid_branches(ms, target, anc, off, ec) =~= Seq::<SpliceModel>::empty());
    }
}

/// In an aligned tree a braid moves as far as the sequence reads.
proof fn lemma_aligned_width(m: NodeModel, anc: spec_fn(Seq<char>) -> bool)
    requires
        braid_aligned(m, anc),
    ensures
        braid_width(m, anc) == elements(m, anc).len(),
    decreases tree_size(m), 0nat,
{
    lemma_aligned_branches(m.nexts, anc);
    match m.next {
        Some(b) => {
            lemma_aligned_width(*b, anc);
        },
        None => {},
    }
}

proof fn lemma_aligned_branches(ms: Seq<NodeModel>, anc: spec_fn(Seq<char>) -> bool)
    requires
        forall|i: int| 0 <= i < ms.len() ==> (if branch_visible(#[trigger] ms[i], anc) {
            braid_aligned(ms[i], anc)
        } else {
            braid_width(ms[i], anc) == 0
        }),
    ensures
        branches_width(ms, anc) == branch_elements(ms, anc).len(),
    decreases nexts_size(ms), 1nat,
{
    if ms.len() > 0 {
        let pre = ms.subrange(0, ms.len() - 1);
        let last = ms[ms.len() - 1];
        assert(tree_size(last) >= 1);
        assert forall|i: int| 0 <= i < pre.len() implies (if branch_visible(#[trigger] pre[i], anc) {
            braid_aligned(pre[i], anc)
        } else {
            braid_width(pre[i], anc) == 0
        }) by {
            assert(pre[i] == ms[i]);
        }
        lemma_aligned_branches(pre, anc);
        if branch_visible(last, anc) {
            lemma_aligned_width(last, anc);
        }
    }
}

/// The braid of branches of which all but one lack `target` is the braid
/// of that one, at the position the branches before it reach.
proof fn lemma_braid_branches_one(ms: Seq<NodeModel>, i: int, x: NodeModel, target: Seq<char>, anc: spec_fn(Seq<char>) -> bool, off: int, ec: bool)
    requires
        0 <= i < ms.len(),
        forall|j: int| 0 <= j < ms.len() && j != i ==> fresh_in(#[trigger] ms[j], target),
    ensures
        braid_branches(ms.update(i, x), target, anc, off, ec)
            == braid_walk(x, target, anc, off + branches_width(ms.subrange(0, i), anc), ec),
    decreases ms.len(),
{
    let n = ms.update(i, x);
    let pre = n.subrange(0, n.len() - 1);
    if i == ms.len() - 1 {
        assert(pre =~= ms.subrange(0, i));
        assert forall|j: int| 0 <= j < pre.len() implies fresh_in(#[trigger] pre[j], target) by {
            assert(pre[j] == ms[j]);
        }
        lemma_fresh_braid_branches(pre, target, anc, off, ec);
        assert(braid_branches(n, target, anc, off, ec) =~= braid_walk(x, target, anc, off + branches_width(ms.subrange(0, i), anc), ec));
    } else {
        let ms2 = ms.subrange(0, ms.len() - 1);
        assert(pre =~= ms2.update(i, x));
        assert forall|j: int| 0 <= j < ms2.len() && j != i implies fresh_in(#[trigger] ms2[j], target) by {
            assert(ms2[j] == ms[j]);
        }
        lemma_braid_branches_one(ms2, i, x, target, anc, off, ec);
        assert(ms2.subrange(0, i) =~= ms.subrange(0, i));
        lemma_fresh_braid(n[n.len() - 1], target, anc, off + branches_width(pre, anc), ec);
        assert(braid_branches(n, target, anc, off, ec) =~= braid_walk(x, target, anc, off + branches_width(ms.subrange(0, i), anc), ec));
    }
}

/// The splice that the braid of a single insertion shows.
pub open spec fn insert_splice(pos: int, s: SpliceModel) -> SpliceModel {
    SpliceModel { pos: pos, delete_count: 0, insert: s.insert, sort_key: s.sort_key, op_type: 'i' }
}

/// Placing a node of `version` at read position `p` of an aligned tree
/// that did not hold `version` makes a braid of one insertion at `p`.
proof fn lemma_insert_braid(m: NodeModel, p: int, version: Seq<char>, s: SpliceModel, anc: spec_fn(Seq<char>) -> bool, anc2: spec_fn(Seq<char>) -> bool, off: int, ec: bool)
    requires
        fresh_in(m, version),
        braid_aligned(m, anc),
        forall|x: Seq<char>| x != version ==> #[trigger] anc2(x) == anc(x),
        0 <= p <= elements(m, anc2).len(),
    ensures
        braid_walk(insert_model(m, p, fresh_node(version, s), anc2), version, anc, off, ec)
            == seq![insert_splice(off + p, s)],
    decreases tree_size(m), 0int, 0int,
{
    let f = fresh_node(version, s);
    let own = own_elements(m, m.elems, anc2).len() as int;
    let ms = m.nexts;
    assert(is_deleted(m, anc) == is_deleted(m, anc2)) by {
        if is_deleted(m, anc) {
            let x = choose|x: Seq<char>| #[trigger] m.deleted_by.contains(x) && anc(x);
            assert(x != version);
        }
        if is_deleted(m, anc2) {
            let x = choose|x: Seq<char>| #[trigger] m.deleted_by.contains(x) && anc2(x);
            assert(x != version);
        }
    }
    assert(braid_own_width(m, anc) == own);
    assert forall|j: int| 0 <= j < ms.len() implies fresh_in(#[trigger] ms[j], version) by {}
    lemma_fresh_branches(ms, version, anc2, anc);
    if p <= own {
        let h = break_model(m, p, false, Some(f));
        let t = tail_model(m, p);
        assert(fresh_in(t, version));
        lemma_fresh_braid(t, version, anc, off + braid_own_width(h, anc) + branches_width(h.nexts, anc), false);
        assert(braid_own_width(h, anc) == p);
        assert(h.nexts.subrange(0, 0) =~= Seq::<NodeModel>::empty());
        assert(braid_here(f, version, off + p, false) =~= seq![insert_splice(off + p, s)]);
        assert(braid_branches(f.nexts, version, anc, off + p + braid_own_width(f, anc), f.end_cap) =~= Seq::<SpliceModel>::empty());
        assert(braid_walk(f, version, anc, off + p, false) =~= seq![insert_splice(off + p, s)]);
        let e = Seq::<NodeModel>::empty();
        assert(h.nexts == seq![f]);
        assert(h.nexts[0] == f);
        assert(branches_width(e, anc) == 0);
        assert(braid_branches(e, version, anc, off + p, false) =~= Seq::<SpliceModel>::empty());
        assert(braid_branches(h.nexts, version, anc, off + p, false) =~= seq![insert_splice(off + p, s)]);
        assert(braid_walk(h, version, anc, off, ec) =~= seq![insert_splice(off + p, s)]);
    } else {
        let q = p - own;
        let bl = branch_elements(ms, anc2).len() as int;
        if q <= bl {
            let nb = insert_branches(ms, 0, q, f, anc2);
            let n = NodeModel { nexts: nb, ..m };
            assert(ms.subrange(0, 0) =~= Seq::<NodeModel>::empty());
            lemma_insert_branches_braid(ms, 0, q, version, s, anc, anc2, off + own, m.end_cap);
            match m.next {
                Some(b) => {
                    lemma_fresh_braid(*b, version, anc, off + own + branches_width(nb, anc), false);
                },
                None => {},
            }
            assert(braid_walk(n, version, anc, off, ec) =~= seq![insert_splice(off + p, s)]);
        } else {
            lemma_aligned_branches(ms, anc);
            lemma_fresh_braid_branches(ms, version, anc, off + own, m.end_cap);
            match m.next {
                Some(b) => {
                    lemma_insert_braid(*b, q - bl, version, s, anc, anc2, off + own + bl, false);
                    let n = NodeModel { next: Some(Box::new(insert_model(*b, q - bl, f, anc2))), ..m };
                    assert(braid_walk(n, version, anc, off, ec) =~= seq![insert_splice(off + p, s)]);
                },
                None => {
                    assert(elements(m, anc2) =~= own_elements(m, m.elems, anc2) + branch_elements(ms, anc2));
                    assert(false);
                },
            }
        }
    }
}

/// Placing a node of `version` at read position `q` of the visible
/// branches from index `i` on makes a braid of one insertion there.
proof fn lemma_insert_branches_braid(ms: Seq<NodeModel>, i: int, q: int, version: Seq<char>, s: SpliceModel, anc: spec_fn(Seq<char>) -> bool, anc2: spec_fn(Seq<char>) -> bool, off: int, ec: bool)
    requires
        0 <= i <= ms.len(),
        forall|j: int| 0 <= j < ms.len() ==> fresh_in(#[trigger] ms[j], version),
        forall|j: int| 0 <= j < ms.len() ==> (if branch_visible(#[trigger] ms[j], anc) {
            braid_aligned(ms[j], anc)
        } else {
            braid_width(ms[j], anc) == 0
        }),
        forall|x: Seq<char>| x != version ==> #[trigger] anc2(x) == anc(x),
        0 < q,
        branch_elements(ms.subrange(0, i), anc2).len() + q <= branch_elements(ms, anc2).len(),
    ensures
        braid_branches(insert_branches(ms, i, q, fresh_node(version, s), anc2), version, anc, off, ec)
            == seq![insert_splice(off + branch_elements(ms.subrange(0, i), anc2).len() + q, s)],
    decreases nexts_size(ms), 1int, ms.len() - i,
{
    let f = fresh_node(version, s);
    let pre = ms.subrange(0, i);
    if i == ms.len() {
        assert(pre =~= ms);
        assert(false);
    } else {
        let b = ms[i];
        let post = ms.subrange(0, i + 1);
        assert(post.subrange(0, post.len() - 1) =~= pre);
        assert(post[post.len() - 1] == b);
        assert(b.version != Some(version));
        assert(branch_visible(b, anc2) == branch_visible(b, anc));
        lemma_fresh_view(b, version, anc2, anc);
        let l = if branch_visible(b, anc2) { elements(b, anc2).len() as int } else { 0 };
        assert(branch_elements(post, anc2).len() == branch_elements(pre, anc2).len() + l);
        if branch_visible(b, anc2) && q <= l {
            lemma_nexts_size_elem(ms, i);
            lemma_insert_braid(b, q, version, s, anc, anc2, off + branches_width(pre, anc), ec);
            lemma_braid_branches_one(ms, i, insert_model(b, q, f, anc2), version, anc, off, ec);
            assert forall|j: int| 0 <= j < pre.len() implies (if branch_visible(#[trigger] pre[j], anc) {
                braid_aligned(pre[j], anc)
            } else {
                braid_width(pre[j], anc) == 0
            }) by {
                assert(pre[j] == ms[j]);
            }
            lemma_aligned_branches(pre, anc);
            assert forall|j: int| 0 <= j < pre.len() implies fresh_in(#[trigger] pre[j], version) by {
                assert(pre[j] == ms[j]);
            }
            lemma_fresh_branches(pre, version, anc2, anc);
        } else {
            lemma_branch_prefix_le(ms, i + 1, anc2);
            lemma_insert_branches_braid(ms, i + 1, q - l, version, s, anc, anc2, off, ec);
        }
    }
}

/// Whether a splice deletes the one element at `pos` and inserts nothing.
pub open spec fn deletes_one_at(s: SpliceModel, pos: int) -> bool {
    &&& s.pos == pos
    &&& s.delete_count == 1
    &&& s.insert.len() == 0
    &&& s.sort_key is None
    &&& s.op_type == 'd'
}

/// Deleting read position `p` of an aligned tree that did not hold
/// `version` makes a braid of one deletion of one element at `p`.
proof fn lemma_delete_braid(m: NodeModel, p: int, version: Seq<char>, anc: spec_fn(Seq<char>) -> bool, anc2: spec_fn(Seq<char>) -> bool, off: int, ec: bool)
    requires
        fresh_in(m, version),
        braid_aligned(m, anc),
        forall|x: Seq<char>| x != version ==> #[trigger] anc2(x) == anc(x),
        0 <= p < elements(m, anc2).len(),
    ensures
        braid_walk(delete_model(m, p, version, anc2), version, anc, off, ec).len() == 1,
        deletes_one_at(braid_walk(delete_model(m, p, version, anc2), version, anc, off, ec)[0], off + p),
    decreases tree_size(m), 0int, p,
{
    let own = own_elements(m, m.elems, anc2).len() as int;
    let ms = m.nexts;
    let n = delete_model(m, p, version, anc2);
    assert(is_deleted(m, anc) == is_deleted(m, anc2)) by {
        if is_deleted(m, anc) {
            let x = choose|x: Seq<char>| #[trigger] m.deleted_by.contains(x) && anc(x);
            assert(x != version);
        }
        if is_deleted(m, anc2) {
            let x = choose|x: Seq<char>| #[trigger] m.deleted_by.contains(x) && anc2(x);
            assert(x != version);
        }
    }
    assert(braid_own_width(m, anc) == own);
    assert forall|j: int| 0 <= j < ms.len() implies fresh_in(#[trigger] ms[j], version) by {}
    lemma_fresh_branches(ms, version, anc2, anc);
    let e = Seq::<NodeModel>::empty();
    assert(branches_width(e, anc) == 0);
    if p < own {
        if p > 0 {
            let h = break_model(m, p, false, None);
            let t = tail_model(m, p);
            assert(fresh_in(t, version));
            assert(braid_aligned(t, anc));
            assert(tree_size(t) == tree_size(m));
            lemma_is_deleted_same(t, m, anc2);
            lemma_positions_slice(m.elems, p, m.elems.len() as int);
            assert(elements(t, anc2).len() >= own_elements(t, t.elems, anc2).len());
            assert(own_elements(t, t.elems, anc2).len() == own - p);
            lemma_delete_braid(t, 0, version, anc, anc2, off + p, false);
            assert(braid_own_width(n, anc) == p);
            assert(n.nexts == e);
            assert(braid_branches(e, version, anc, off + p, false) =~= Seq::<SpliceModel>::empty());
            assert(braid_walk(n, version, anc, off, ec) =~= braid_walk(delete_model(t, 0, version, anc2), version, anc, off + p, false));
        } else {
            let h = if m.elems.len() > 1 { break_model(m, 1, false, None) } else { m };
            assert(n == NodeModel { deleted_by: h.deleted_by.insert(version), ..h });
            assert(n.elems.len() == 1);
            assert(n.deleted_by.contains(version));
            let here = braid_here(n, version, off, ec);
            assert(here.len() == 1);
            assert(deletes_one_at(here[0], off));
            if m.elems.len() > 1 {
                let t = tail_model(m, 1);
                assert(fresh_in(t, version));
                lemma_fresh_braid(t, version, anc, off + braid_own_width(n, anc) + branches_width(n.nexts, anc), false);
                assert(n.nexts == e);
                assert(braid_branches(e, version, anc, off + braid_own_width(n, anc), n.end_cap) =~= Seq::<SpliceModel>::empty());
            } else {
                lemma_fresh_braid_branches(ms, version, anc, off + braid_own_width(n, anc), n.end_cap);
                match m.next {
                    Some(b) => {
                        lemma_fresh_braid(*b, version, anc, off + braid_own_width(n, anc) + branches_width(n.nexts, anc), false);
                    },
                    None => {},
                }
            }
            assert(braid_walk(n, version, anc, off, ec) =~= here);
        }
    } else {
        let q = p - own;
        let bl = branch_elements(ms, anc2).len() as int;
        if q < bl {
            let nb = delete_branches(ms, 0, q, version, anc2);
            assert(n.nexts == nb);
            assert(ms.subrange(0, 0) =~= Seq::<NodeModel>::empty());
            lemma_delete_branches_braid(ms, 0, q, version, anc, anc2, off + own, m.end_cap);
            match m.next {
                Some(b) => {
                    lemma_fresh_braid(*b, version, anc, off + own + branches_width(nb, anc), false);
                },
                None => {},
            }
            assert(braid_walk(n, version, anc, off, ec) =~= braid_branches(nb, version, anc, off + own, m.end_cap));
        } else {
            lemma_aligned_branches(ms, anc);
            lemma_fresh_braid_branches(ms, version, anc, off + own, m.end_cap);
            match m.next {
                Some(b) => {
                    lemma_delete_braid(*b, q - bl, version, anc, anc2, off + own + bl, false);
                    assert(braid_walk(n, version, anc, off, ec) =~= braid_walk(delete_model(*b, q - bl, version, anc2), version, anc, off + own + bl, false));
                },
                None => {
                    assert(elements(m, anc2) =~= own_elements(m, m.elems, anc2) + branch_elements(ms, anc2));
                    assert(false);
                },
            }
        }
    }
}

/// Deleting read position `q` of the visible branches from index `i` on
/// makes a braid of one deletion there.
proof fn lemma_delete_branches_braid(ms: Seq<NodeModel>, i: int, q: int, version: Seq<char>, anc: spec_fn(Seq<char>) -> bool, anc2: spec_fn(Seq<char>) -> bool, off: int, ec: bool)
    requires
        0 <= i <= ms.len(),
        forall|j: int| 0 <= j < ms.len() ==> fresh_in(#[trigger] ms[j], version),
        forall|j: int| 0 <= j < ms.len() ==> (if branch_visible(#[trigger] ms[j], anc) {
            braid_aligned(ms[j], anc)
        } else {
            braid_width(ms[j], anc) == 0
        }),
        forall|x: Seq<char>| x != version ==> #[trigger] anc2(x) == anc(x),
        0 <= q,
        branch_elements(ms.subrange(0, i), anc2).len() + q < branch_elements(ms, anc2).len(),
    ensures
        braid_branches(delete_branches(ms, i, q, version, anc2), version, anc, off, ec).len() == 1,
        deletes_one_at(braid_branches(delete_branches(ms, i, q, version, anc2), version, anc, off, ec)[0],
            off + branch_elements(ms.subrange(0, i), anc2).len() + q),
    decreases nexts_size(ms), 1int, ms.len() - i,
{
    let pre = ms.subrange(0, i);
    if i == ms.len() {
        assert(pre =~= ms);
        assert(false);
    } else {
        let b = ms[i];
        let post = ms.subrange(0, i + 1);
        assert(post.subrange(0, post.len() - 1) =~= pre);
        assert(post[post.len() - 1] == b);
        assert(b.version != Some(version));
        assert(branch_visible(b, anc2) == branch_visible(b, anc));
        lemma_fresh_view(b, version, anc2, anc);
        let l = if branch_visible(b, anc2) { elements(b, anc2).len() as int } else { 0 };
        assert(branch_elements(post, anc2).len() == branch_elements(pre, anc2).len() + l);
        if branch_visible(b, anc2) && q < l {
            lemma_nexts_size_elem(ms, i);
            lemma_delete_braid(b, q, version, anc, anc2, off + branches_width(pre, anc), ec);
            lemma_braid_branches_one(ms, i, delete_model(b, q, version, anc2), version, anc, off, ec);
            assert forall|j: int| 0 <= j < pre.len() implies (if branch_visible(#[trigger] pre[j], anc) {
                braid_aligned(pre[j], anc)
            } else {
                braid_width(pre[j], anc) == 0
            }) by {
                assert(pre[j] == ms[j]);
            }
            lemma_aligned_branches(pre, anc);
            assert forall|j: int| 0 <= j < pre.len() implies fresh_in(#[trigger] pre[j], version) by {
                assert(pre[j] == ms[j]);
            }
            lemma_fresh_branches(pre, version, anc2, anc);
        } else {
            lemma_branch_prefix_le(ms, i + 1, anc2);
            lemma_delete_branches_braid(ms, i + 1, q - l, version, anc, anc2, off, ec);
        }
    }
}

/// The braid of a version made of one insertion, added to an aligned tree
/// that did not hold the version, is that insertion at its position; so
/// adding the braid in place of the insertion builds the same tree.
pub proof fn lemma_insert_round_trip(m: NodeModel, version: Seq<char>, s: SpliceModel, anc: spec_fn(Seq<char>) -> bool)
    requires
        fresh_in(m, version),
        braid_aligned(m, anc),
        s.delete_count == 0,
        s.insert.len() > 0,
        adds_fit(m, version, seq![s], anc),
    ensures
        braid_walk(added_tree(m, version, seq![s], anc), version, anc, 0, false) == seq![insert_splice(s.pos, s)],
        added_tree(m, version, braid_walk(added_tree(m, version, seq![s], anc), version, anc, 0, false), anc)
            == added_tree(m, version, seq![s], anc),
{
    let anc2 = with_version(anc, version);
    let ss = seq![s];
    let s2 = insert_splice(s.pos, s);
    let ss2 = seq![s2];
    assert(ss.last() == s);
    assert(ss.drop_last() =~= Seq::<SpliceModel>::empty());
    assert(ss2.last() == s2);
    assert(ss2.drop_last() =~= Seq::<SpliceModel>::empty());
    assert(delete_n(m, s.pos, 0, version, anc2) == m);
    assert(splice_model(m, s, version, anc2) == insert_model(m, s.pos, fresh_node(version, s), anc2));
    assert(splices_model(m, ss, version, anc2) == splices_model(splice_model(m, s, version, anc2), ss.drop_last(), version, anc2));
    assert(added_tree(m, version, ss, anc) == insert_model(m, s.pos, fresh_node(version, s), anc2));
    assert(ss[0] == s);
    lemma_insert_braid(m, s.pos, version, s, anc, anc2, 0, false);
    assert(inserted_total(ss) == inserted_total(ss2)) by {
        assert(inserted_total(ss.drop_last()) == 0);
        assert(inserted_total(ss2.drop_last()) == 0);
    }
    assert(adds_fit(m, version, ss2, anc));
    assert(fresh_node(version, s2) == fresh_node(version, s));
    assert(splice_model(m, s2, version, anc2) == insert_model(m, s.pos, fresh_node(version, s), anc2));
    assert(splices_model(m, ss2, version, anc2) == splices_model(splice_model(m, s2, version, anc2), ss2.drop_last(), version, anc2));
    assert(added_tree(m, version, ss2, anc) == insert_model(m, s.pos, fresh_node(version, s), anc2));
}

/// The braid of a version made of the deletion of one element, added to an
/// aligned tree that did not hold the version, is that deletion at its
/// position; so adding the braid in place of the deletion builds the same
/// tree.
pub proof fn lemma_delete_round_trip(m: NodeModel, version: Seq<char>, s: SpliceModel, anc: spec_fn(Seq<char>) -> bool)
    requires
        fresh_in(m, version),
        braid_aligned(m, anc),
        s.delete_count == 1,
        s.insert.len() == 0,
        adds_fit(m, version, seq![s], anc),
    ensures
        braid_walk(added_tree(m, version, seq![s], anc), version, anc, 0, false).len() == 1,
        deletes_one_at(braid_walk(added_tree(m, version, seq![s], anc), version, anc, 0, false)[0], s.pos),
        added_tree(m, version, braid_walk(added_tree(m, version, seq![s], anc), version, anc, 0, false), anc)
            == added_tree(m, version, seq![s], anc),
{
    let anc2 = with_version(anc, version);
    let ss = seq![s];
    assert(ss.last() == s);
    assert(ss.drop_last() =~= Seq::<SpliceModel>::empty());
    assert(ss[0] == s);
    assert(delete_n(m, s.pos, 0, version, anc2) == m);
    assert(delete_n(m, s.pos, 1, version, anc2) == delete_model(m, s.pos, version, anc2));
    assert(splice_model(m, s, version, anc2) == delete_model(m, s.pos, version, anc2));
    assert(splices_model(m, ss, version, anc2) == splices_model(splice_model(m, s, version, anc2), ss.drop_last(), version, anc2));
    assert(added_tree(m, version, ss, anc) == delete_model(m, s.pos, version, anc2));
    lemma_delete_braid(m, s.pos, version, anc, anc2, 0, false);
    let ss2 = braid_walk(added_tree(m, version, ss, anc), version, anc, 0, false);
    let s2 = ss2[0];
    assert(ss2 =~= seq![s2]);
    assert(ss2.last() == s2);
    assert(ss2.drop_last() =~= Seq::<SpliceModel>::empty());
    assert(inserted_total(ss) == inserted_total(ss2)) by {
        assert(inserted_total(ss.drop_last()) == 0);
        assert(inserted_total(ss2.drop_last()) == 0);
    }
    assert(adds_fit(m, version, ss2, anc));
    assert(delete_n(m, s2.pos, 0, version, anc2) == m);
    assert(delete_n(m, s2.pos, 1, version, anc2) == delete_model(m, s.pos, version, anc2));
    assert(splice_model(m, s2, version, anc2) == delete_model(m, s.pos, version, anc2));
    assert(splices_model(m, ss2, version, anc2) == splices_model(splice_model(m, s2, version, anc2), ss2.drop_last(), version, anc2));
    assert(added_tree(m, version, ss2, anc) == delete_model(m, s.pos, version, anc2));
}

/// Whether an optional string is `Some(t)`.
fn opt_str_is(o: &Option<String>, t: &str) -> (b: bool)
    ensures
        b == (opt_view(*o) == Some(t@)),
{
    match o {
        Some(v) => str_eq(v.as_str(), t),
        None => false,
    }
}

/// Appends the braid of `target` in the tree rooted at `node` to `out`,
/// returning the position after the tree.
#[verifier::rlimit(40)]
fn braid_node(
    node: &SequenceNode,
    target: &str,
    anc: &AncestorSet,
    offset: usize,
    end_cap: bool,
    out: &mut Vec<Splice>,
) -> (after: usize)
    requires
        offset + braid_width(node@, anc.pred()) <= usize::MAX,
    ensures
        splice_views(final(out)@) == splice_views(old(out)@) + braid_walk(node@, target@, anc.pred(), offset as int, end_cap),
        after == offset + braid_width(node@, anc.pred()),
    decreases node,
{
    let ghost m = node@;
    let ghost start = splice_views(out@);
    if opt_str_is(&node.version, target) {
        let sp = Splice {
            pos: offset,
            delete_count: if end_cap { 1 } else { 0 },
            insert: node.elems.duplicate(),
            sort_key: copy_opt_string(&node.sort_key),
            op_type: if end_cap { 'r' } else { 'i' },
        };
        out.push(sp);
    } else if node.deleted_by.contains(target) && !node.elems.is_empty() {
        let sp = Splice {
            pos: offset,
            delete_count: node.elems.len(),
            insert: node.elems.empty_like(),
            sort_key: None,
            op_type: 'd',
        };
        out.push(sp);
    }
    proof {
        assert(splice_views(out@) =~= start + braid_here(m, target@, offset as int, end_cap));
    }
    let counts = match &node.version {
        Some(v) => anc.is_anc(v.as_str()),
        None => true,
    } && !node_deleted(node, anc);
    let mut pos: usize = if counts { offset + node.elems.len() } else { offset };
    let ghost base = pos as int;
    proof {
        lemma_nodes_model(node.nexts@);
        assert(m.nexts.subrange(0, 0) =~= Seq::<NodeModel>::empty());
    }
    let mut i: usize = 0;
    while i < node.nexts.len()
        invariant
            m == node@,
            i <= node.nexts@.len(),
            nodes_model(node.nexts@).len() == node.nexts@.len(),
            forall|j: int| 0 <= j < node.nexts@.len() ==> #[trigger] nodes_model(node.nexts@)[j] == node.nexts@[j]@,
            m.nexts == nodes_model(node.nexts@),
            offset + braid_width(m, anc.pred()) <= usize::MAX,
            base == offset + braid_own_width(m, anc.pred()),
            pos == base + branches_width(m.nexts.subrange(0, i as int), anc.pred()),
            splice_views(out@) == start + braid_here(m, target@, offset as int, end_cap)
                + braid_branches(m.nexts.subrange(0, i as int), target@, anc.pred(), base, m.end_cap),
        decreases node.nexts@.len() - i,
    {
        let child: &SequenceNode = &node.nexts[i];
        proof {
            let pre = m.nexts.subrange(0, i as int);
            let post = m.nexts.subrange(0, i + 1);
            assert(post.subrange(0, post.len() - 1) =~= pre);
            assert(post[post.len() - 1] == m.nexts[i as int]);
            lemma_branches_width_prefix(m.nexts, i + 1, anc.pred());
        }
        pos = braid_node(child, target, anc, pos, node.end_cap, out);
        i = i + 1;
    }
    proof {
        assert(m.nexts.subrange(0, node.nexts@.len() as int) =~= m.nexts);
    }
    match &node.next {
        Some(b) => {
            let r = braid_node(b, target, anc, pos, false, out);
            proof {
                assert(splice_views(out@) =~= start + braid_walk(m, target@, anc.pred(), offset as int, end_cap));
            }
            r
        },
        None => {
            proof {
                assert(splice_views(out@) =~= start + braid_walk(m, target@, anc.pred(), offset as int, end_cap));
            }
            pos
        },
    }
}

/// How far the tree rooted at `node` moves the position of a braid (see
/// `braid_width`), when that fits in a `usize`.
pub fn braid_width_checked(node: &SequenceNode, anc: &AncestorSet) -> (r: Option<usize>)
    ensures
        match r {
            Some(w) => w == braid_width(node@, anc.pred()),
            None => braid_width(node@, anc.pred()) > usize::MAX,
        },
    decreases node,
{
    let ghost m = node@;
    let counts = match &node.version {
        Some(v) => anc.is_anc(v.as_str()),
        None => true,
    } && !node_deleted(node, anc);
    let mut total: usize = if counts { node.elems.len() } else { 0 };
    proof {
        lemma_nodes_model(node.nexts@);
        assert(m.nexts.subrange(0, 0) =~= Seq::<NodeModel>::empty());
    }
    let mut i: usize = 0;
    while i < node.nexts.len()
        invariant
            m == node@,
            i <= node.nexts@.len(),
            nodes_model(node.nexts@).len() == node.nexts@.len(),
            forall|j: int| 0 <= j < node.nexts@.len() ==> #[trigger] nodes_model(node.nexts@)[j] == node.nexts@[j]@,
            m.nexts == nodes_model(node.nexts@),
            total == braid_own_width(m, anc.pred()) + branches_width(m.nexts.subrange(0, i as int), anc.pred()),
        decreases node.nexts@.len() - i,
    {
        let child: &SequenceNode = &node.nexts[i];
        let ghost pre = m.nexts.subrange(0, i as int);
        let ghost post = m.nexts.subrange(0, i + 1);
        proof {
            assert(post.subrange(0, post.len() - 1) =~= pre);
            assert(post[post.len() - 1] == m.nexts[i as int]);
            lemma_branches_width_prefix(m.nexts, i + 1, anc.pred());
        }
        match braid_width_checked(child, anc) {
            Some(w) => {
                match total.checked_add(w) {
                    Some(t) => {
                        total = t;
                    },
                    None => {
                        return None;
                    },
                }
            },
            None => {
                return None;
            },
        }
        i = i + 1;
    }
    proof {
        assert(m.nexts.subrange(0, node.nexts@.len() as int) =~= m.nexts);
    }
    match &node.next {
        Some(b) => match braid_width_checked(b, anc) {
            Some(w) => total.checked_add(w),
            None => None,
        },
        None => Some(total),
    }
}

/// Generate braid (splice information) for a version.
///
/// Reconstructs an array of splices that can be passed to `add_version`
/// to recreate a specific version on another sequence_crdt instance.
/// The splices are those of `braid_walk`; for a version made of one
/// insertion or of the deletion of one element, `lemma_insert_round_trip`
/// and `lemma_delete_round_trip` show that they rebuild it.
///
/// # Arguments
/// * `root` - Root node of the sequence
/// * `version` - The version to generate braid for
/// * `is_anc` - The ancestor versions
///
/// # Returns
/// Array of `Splice` operations representing the version's changes
pub fn generate_braid(root: &SequenceNode, version: &str, is_anc: &AncestorSet) -> (splices: Vec<Splice>)
    requires
        braid_width(root@, is_anc.pred()) <= usize::MAX,
    ensures
        splice_views(splices@) == braid_walk(root@, version@, is_anc.pred(), 0, false),
{
    let mut splices: Vec<Splice> = Vec::new();
    proof {
        assert(splice_views(splices@) =~= Seq::<SpliceModel>::empty());
    }
    braid_node(root, version, is_anc, 0, false, &mut splices);
    proof {
        assert(splice_views(splices@) =~= braid_walk(root@, version@, is_anc.pred(), 0, false));
    }
    splices
}





/// One node met by `traverse`, in reading order.
#[derive(Debug)]
pub struct TraverseStep {
    /// Read positions before the node.
    pub offset: usize,
    /// Whether a branch of the node is read.
    pub has_nexts: bool,
    /// The version of the branch the node belongs to.
    pub version: Option<String>,
    /// Whether an ancestor version deleted the node.
    pub deleted: bool,
    /// The node's own version.
    pub node_version: Option<String>,
    /// The node's elements.
    pub elems: SequenceElems,
}

/// The mathematical model of a traversal step.
pub struct StepModel {
    pub offset: int,
    pub has_nexts: bool,
    pub version: Option<Seq<char>>,
    pub deleted: bool,
    pub node_version: Option<Seq<char>>,
    pub elems: ElemsModel,
}

impl View for TraverseStep {
    type V = StepModel;

    open spec fn view(&self) -> StepModel {
        StepModel {
            offset: self.offset as int,
            has_nexts: self.has_nexts,
            version: opt_view(self.version),
            deleted: self.deleted,
            node_version: opt_view(self.node_version),
            elems: self.elems@,
        }
    }
}

/// Whether some branch of the node is read.
pub open spec fn has_visible_branch(m: NodeModel, anc: spec_fn(Seq<char>) -> bool) -> bool {
    exists|j: int| 0 <= j < m.nexts.len() && #[trigger] branch_visible(m.nexts[j], anc)
}

/// The read positions of the node's own elements.
pub open spec fn own_len(m: NodeModel, anc: spec_fn(Seq<char>) -> bool) -> int {
    if is_deleted(m, anc) { 0 } else { m.elems.len() as int }
}

/// The steps of a traversal of the tree rooted at `m`.
pub open spec fn walk_steps(m: NodeModel, anc: spec_fn(Seq<char>) -> bool, bv: Option<Seq<char>>, offset: int) -> Seq<StepModel>
    decreases m,
{
    seq![StepModel {
        offset: offset,
        has_nexts: has_visible_branch(m, anc),
        version: bv,
        deleted: is_deleted(m, anc),
        node_version: m.version,
        elems: m.elems,
    }] + branch_steps(m.nexts, anc, offset + own_len(m, anc)) + match m.next {
        Some(b) => walk_steps(*b, anc, bv, offset + own_len(m, anc) + branch_elements(m.nexts, anc).len()),
        None => Seq::empty(),
    }
}

/// The steps of a traversal of the read branches in a list.
pub open spec fn branch_steps(ms: Seq<NodeModel>, anc: spec_fn(Seq<char>) -> bool, offset: int) -> Seq<StepModel>
    decreases ms,
{
    if ms.len() == 0 {
        Seq::empty()
    } else {
        let pre = ms.subrange(0, ms.len() - 1);
        let last = ms[ms.len() - 1];
        branch_steps(pre, anc, offset) + if branch_visible(last, anc) {
            walk_steps(last, anc, last.version, offset + branch_elements(pre, anc).len())
        } else {
            Seq::empty()
        }
    }
}

/// The views of a list of steps.
pub open spec fn step_views(v: Seq<TraverseStep>) -> Seq<StepModel> {
    v.map_values(|s: TraverseStep| s@)
}

/// Whether some branch of the node is read.
fn any_branch_visible(node: &SequenceNode, anc: &AncestorSet) -> (b: bool)
    ensures
        b == has_visible_branch(node@, anc.pred()),
{
    proof {
        lemma_nodes_model(node.nexts@);
    }
    let mut i: usize = 0;
    while i < node.nexts.len()
        invariant
            i <= node.nexts@.len(),
            nodes_model(node.nexts@).len() == node.nexts@.len(),
            forall|j: int| 0 <= j < node.nexts@.len() ==> #[trigger] nodes_model(node.nexts@)[j] == node.nexts@[j]@,
            node@.nexts == nodes_model(node.nexts@),
            forall|j: int| 0 <= j < i ==> !branch_visible(#[trigger] node@.nexts[j], anc.pred()),
        decreases node.nexts@.len() - i,
    {
        if branch_is_visible(&node.nexts[i], anc) {
            proof {
                assert(node@.nexts[i as int] == node.nexts@[i as int]@);
            }
            return true;
        }
        i = i + 1;
    }
    false
}

/// Appends the steps of the tree rooted at `node` to `out`, returning the
/// read positions after the tree.
fn walk_node(
    node: &SequenceNode,
    bv: &Option<String>,
    anc: &AncestorSet,
    offset: usize,
    out: &mut Vec<TraverseStep>,
) -> (after: usize)
    requires
        offset + elements(node@, anc.pred()).len() <= usize::MAX,
    ensures
        step_views(final(out)@) == step_views(old(out)@) + walk_steps(node@, anc.pred(), opt_view(*bv), offset as int),
        after == offset + elements(node@, anc.pred()).len(),
    decreases node,
{
    let ghost m = node@;
    let ghost start = step_views(out@);
    let deleted = node_deleted(node, anc);
    let step = TraverseStep {
        offset,
        has_nexts: any_branch_visible(node, anc),
        version: copy_opt_string(bv),
        deleted,
        node_version: copy_opt_string(&node.version),
        elems: node.elems.duplicate(),
    };
    out.push(step);
    let mut pos: usize = if deleted { offset } else { offset + node.elems.len() };
    let ghost base = pos as int;
    proof {
        assert(step_views(out@) =~= start + seq![step@]);
        lemma_nodes_model(node.nexts@);
        assert(m.nexts.subrange(0, 0) =~= Seq::<NodeModel>::empty());
    }
    let mut i: usize = 0;
    while i < node.nexts.len()
        invariant
            m == node@,
            i <= node.nexts@.len(),
            nodes_model(node.nexts@).len() == node.nexts@.len(),
            forall|j: int| 0 <= j < node.nexts@.len() ==> #[trigger] nodes_model(node.nexts@)[j] == node.nexts@[j]@,
            m.nexts == nodes_model(node.nexts@),
            offset + elements(m, anc.pred()).len() <= usize::MAX,
            base == offset + own_len(m, anc.pred()),
            pos == base + branch_elements(m.nexts.subrange(0, i as int), anc.pred()).len(),
            step_views(out@) == start + seq![StepModel {
                offset: offset as int,
                has_nexts: has_visible_branch(m, anc.pred()),
                version: opt_view(*bv),
                deleted: is_deleted(m, anc.pred()),
                node_version: m.version,
                elems: m.elems,
            }] + branch_steps(m.nexts.subrange(0, i as int), anc.pred(), base),
        decreases node.nexts@.len() - i,
    {
        let child: &SequenceNode = &node.nexts[i];
        proof {
            let pre = m.nexts.subrange(0, i as int);
            let post = m.nexts.subrange(0, i + 1);
            assert(post.subrange(0, post.len() - 1) =~= pre);
            assert(post[post.len() - 1] == m.nexts[i as int]);
            lemma_branch_prefix_le(m.nexts, i + 1, anc.pred());
        }
        if branch_is_visible(child, anc) {
            pos = walk_node(child, &child.version, anc, pos, out);
        }
        i = i + 1;
    }
    proof {
        assert(m.nexts.subrange(0, node.nexts@.len() as int) =~= m.nexts);
    }
    match &node.next {
        Some(b) => {
            let r = walk_node(b, bv, anc, pos, out);
            proof {
                assert(step_views(out@) =~= start + walk_steps(m, anc.pred(), opt_view(*bv), offset as int));
            }
            r
        },
        None => {
            proof {
                assert(step_views(out@) =~= start + walk_steps(m, anc.pred(), opt_view(*bv), offset as int));
            }
            pos
        },
    }
}

/// Traverse the sequence tree, listing each node that is read, in order.
///
/// A node is read unless it is a branch whose version is not an ancestor;
/// a node deleted by an ancestor is listed with `deleted` set and holds no
/// read positions.
///
/// # Arguments
/// * `root` - Root node of the sequence
/// * `is_anc` - The versions to include
pub fn traverse(root: &SequenceNode, is_anc: &AncestorSet) -> (steps: Vec<TraverseStep>)
    requires
        elements(root@, is_anc.pred()).len() <= usize::MAX,
    ensures
        step_views(steps@) == walk_steps(root@, is_anc.pred(), root@.version, 0),
{
    let mut steps: Vec<TraverseStep> = Vec::new();
    proof {
        assert(step_views(steps@) =~= Seq::<StepModel>::empty());
    }
    walk_node(root, &root.version, is_anc, 0, &mut steps);
    proof {
        assert(step_views(steps@) =~= walk_steps(root@, is_anc.pred(), root@.version, 0));
    }
    steps
}


/// The steps of `traverse` up to the first one that `keep_going` answers
/// `false` for, that one included: the walk stops there.
pub fn traverse_until<F: Fn(&TraverseStep) -> bool>(root: &SequenceNode, is_anc: &AncestorSet, keep_going: F) -> (steps: Vec<TraverseStep>)
    requires
        elements(root@, is_anc.pred()).len() <= usize::MAX,
        forall|t: &TraverseStep| #[trigger] keep_going.requires((t,)),
    ensures
        steps@.len() <= walk_steps(root@, is_anc.pred(), root@.version, 0).len(),
        step_views(steps@) == walk_steps(root@, is_anc.pred(), root@.version, 0).subrange(0, steps@.len() as int),
        forall|i: int| 0 <= i < steps@.len() - 1 ==> keep_going.ensures((&steps@[i],), true),
        steps@.len() < walk_steps(root@, is_anc.pred(), root@.version, 0).len() ==>
            steps@.len() > 0 && keep_going.ensures((&steps@[steps@.len() - 1],), false),
{
    let mut all = traverse(root, is_anc);
    let ghost full = step_views(all@);
    let ghost all0 = all@;
    let n = all.len();
    let mut taken: Vec<TraverseStep> = Vec::new();
    let mut i: usize = 0;
    proof {
        assert(all@ =~= all0.subrange(0, all0.len() as int));
    }
    while i < n
        invariant_except_break
            i <= n,
            n == all0.len(),
            all@ == all0.subrange(i as int, n as int),
            taken@ == all0.subrange(0, i as int),
            forall|j: int| 0 <= j < i ==> keep_going.ensures((&all0[j],), true),
        invariant
            forall|t: &TraverseStep| #[trigger] keep_going.requires((t,)),
        ensures
            taken@.len() <= n,
            taken@ == all0.subrange(0, taken@.len() as int),
            forall|j: int| 0 <= j < taken@.len() - 1 ==> keep_going.ensures((&all0[j],), true),
            taken@.len() < n ==> taken@.len() > 0 && keep_going.ensures((&all0[taken@.len() - 1],), false),
        decreases n - i,
    {
        let step = all.remove(0);
        proof {
            assert(step == all0[i as int]);
            assert(all@ =~= all0.subrange(i + 1, n as int));
        }
        let go = keep_going(&step);
        taken.push(step);
        proof {
            assert(taken@ =~= all0.subrange(0, i + 1));
        }
        i = i + 1;
        if !go {
            break;
        }
    }
    proof {
        assert(step_views(taken@) =~= full.subrange(0, taken@.len() as int));
    }
    taken
}

/// Whether a node's version is renamed: it is bubbled to another bottom.
pub open spec fn renamed(version: Option<String>, tb: Map<Seq<char>, (String, String)>) -> bool {
    match version {
        Some(v) => tb.contains_key(v@) && tb[v@].0@ != v@,
        None => false,
    }
}

/// The deleting versions after renaming the members, taken in `order`,
/// to their bubble's bottom.
pub open spec fn rename_members(order: Seq<Seq<char>>, s: Set<Seq<char>>, tb: Map<Seq<char>, (String, String)>) -> Set<Seq<char>>
    decreases order.len(),
{
    if order.len() == 0 {
        s
    } else {
        let s1 = rename_members(order.drop_last(), s, tb);
        let v = order.last();
        if tb.contains_key(v) { s1.remove(v).insert(tb[v].0@) } else { s1 }
    }
}

/// A node and the tree below it with versions renamed to their bubble's
/// bottom; a renamed node keeps its old version as sort key if it had none.
pub open spec fn rename_node(n: SequenceNode, tb: Map<Seq<char>, (String, String)>) -> NodeModel
    decreases n,
{
    NodeModel {
        version: if renamed(n.version, tb) { Some(tb[n.version->0@].0@) } else { opt_view(n.version) },
        sort_key: if renamed(n.version, tb) && n.sort_key is None { opt_view(n.version) } else { opt_view(n.sort_key) },
        elems: n.elems@,
        end_cap: n.end_cap,
        deleted_by: rename_members(n.deleted_by.member_order(), n.deleted_by@, tb),
        nexts: rename_nodes(n.nexts@, tb),
        next: match n.next {
            Some(b) => Some(Box::new(rename_node(*b, tb))),
            None => None,
        },
    }
}

/// A list of nodes renamed.
pub open spec fn rename_nodes(ns: Seq<Box<SequenceNode>>, tb: Map<Seq<char>, (String, String)>) -> Seq<NodeModel>
    decreases ns,
{
    if ns.len() == 0 {
        Seq::empty()
    } else {
        rename_nodes(ns.subrange(0, ns.len() - 1), tb).push(rename_node(*ns[ns.len() - 1], tb))
    }
}

proof fn lemma_rename_nodes(ns: Seq<Box<SequenceNode>>, tb: Map<Seq<char>, (String, String)>)
    ensures
        rename_nodes(ns, tb).len() == ns.len(),
        forall|i: int| 0 <= i < ns.len() ==> #[trigger] rename_nodes(ns, tb)[i] == rename_node(*ns[i], tb),
    decreases ns.len(),
{
    if ns.len() > 0 {
        lemma_rename_nodes(ns.subrange(0, ns.len() - 1), tb);
    }
}

/// Renames the versions of a node's deleting set.
fn rename_deleted(set: &mut StrSet, tb: &StrMap<(String, String)>)
    ensures
        final(set)@ == rename_members(old(set).member_order(), old(set)@, tb@),
{
    let items = set.to_vec();
    let ghost order = old(set).member_order();
    let ghost start = old(set)@;
    let mut i: usize = 0;
    while i < items.len()
        invariant
            i <= items@.len(),
            string_views(items@) == order,
            set@ == rename_members(order.subrange(0, i as int), start, tb@),
        decreases items@.len() - i,
    {
        proof {
            assert(order.subrange(0, i + 1).drop_last() =~= order.subrange(0, i as int));
            assert(order.subrange(0, i + 1).last() == items@[i as int]@);
        }
        match tb.get(items[i].as_str()) {
            Some(pair) => {
                set.remove(items[i].as_str());
                set.insert(String::from_str(pair.0.as_str()));
            },
            None => {},
        }
        i = i + 1;
    }
    proof {
        assert(order.subrange(0, items@.len() as int) =~= order);
    }
}

/// A copy of the tree with every version renamed to its bubble's bottom.
fn renamed_copy(node: &SequenceNode, tb: &StrMap<(String, String)>) -> (r: SequenceNode)
    ensures
        r@ == rename_node(*node, tb@),
    decreases node,
{
    let mut new_version = copy_opt_string(&node.version);
    let mut new_sort_key = copy_opt_string(&node.sort_key);
    let bottom: Option<String> = match &node.version {
        Some(v) => match tb.get(v.as_str()) {
            Some(pair) => if str_eq(pair.0.as_str(), v.as_str()) { None } else { Some(String::from_str(pair.0.as_str())) },
            None => None,
        },
        None => None,
    };
    if let Some(b) = bottom {
        if new_sort_key.is_none() {
            new_sort_key = new_version;
        }
        new_version = Some(b);
    }
    let mut deleted_by = node.deleted_by.copy();
    rename_deleted(&mut deleted_by, tb);
    let mut new_nexts: Vec<Box<SequenceNode>> = Vec::new();
    let mut i: usize = 0;
    proof {
        lemma_rename_nodes(node.nexts@, tb@);
    }
    while i < node.nexts.len()
        invariant
            i <= node.nexts@.len(),
            new_nexts@.len() == i,
            forall|j: int| 0 <= j < i ==> node_model(*#[trigger] new_nexts@[j]) == rename_node(*node.nexts@[j], tb@),
        decreases node.nexts@.len() - i,
    {
        let c = renamed_copy(&node.nexts[i], tb);
        new_nexts.push(Box::new(c));
        i = i + 1;
    }
    proof {
        lemma_nodes_model(new_nexts@);
        assert(nodes_model(new_nexts@) =~= rename_nodes(node.nexts@, tb@));
    }
    let new_next = match &node.next {
        Some(b) => Some(Box::new(renamed_copy(b, tb))),
        None => None,
    };
    SequenceNode {
        version: new_version,
        sort_key: new_sort_key,
        elems: node.elems.duplicate(),
        end_cap: node.end_cap,
        deleted_by,
        nexts: new_nexts,
        next: new_next,
    }
}


/// Whether every node of the tree holds elements of the same kind:
/// text when `text` is set, indices otherwise.
pub open spec fn uniform_kind(m: NodeModel, text: bool) -> bool
    decreases m,
{
    &&& (m.elems is Text) == text
    &&& forall|i: int| 0 <= i < m.nexts.len() ==> uniform_kind(#[trigger] m.nexts[i], text)
    &&& match m.next {
        Some(b) => uniform_kind(*b, text),
        None => true,
    }
}

/// Read positions that all hold a character give that many characters.
proof fn lemma_chars_of_somes(s: Seq<Option<char>>)
    requires
        forall|i: int| 0 <= i < s.len() ==> #[trigger] s[i] is Some,
    ensures
        chars_of(s).len() == s.len(),
    decreases s.len(),
{
    if s.len() > 0 {
        let pre = s.subrange(0, s.len() - 1);
        assert forall|i: int| 0 <= i < pre.len() implies #[trigger] pre[i] is Some by {
            assert(pre[i] == s[i]);
        }
        lemma_chars_of_somes(pre);
        assert(s[s.len() - 1] is Some);
    }
}

/// Every read position of a tree of text holds a character.
proof fn lemma_text_positions(m: NodeModel, anc: spec_fn(Seq<char>) -> bool)
    requires
        uniform_kind(m, true),
    ensures
        forall|i: int| 0 <= i < elements(m, anc).len() ==> #[trigger] elements(m, anc)[i] is Some,
    decreases tree_size(m), 0nat,
{
    lemma_text_branch_positions(m.nexts, anc);
    let own = own_elements(m, m.elems, anc);
    assert forall|i: int| 0 <= i < own.len() implies #[trigger] own[i] is Some by {}
    match m.next {
        Some(b) => {
            lemma_text_positions(*b, anc);
        },
        None => {},
    }
    assert(elements(m, anc) == own + branch_elements(m.nexts, anc) + next_elements(m, anc));
}

proof fn lemma_text_branch_positions(ms: Seq<NodeModel>, anc: spec_fn(Seq<char>) -> bool)
    requires
        forall|i: int| 0 <= i < ms.len() ==> uniform_kind(#[trigger] ms[i], true),
    ensures
        forall|i: int| 0 <= i < branch_elements(ms, anc).len() ==> #[trigger] branch_elements(ms, anc)[i] is Some,
    decreases nexts_size(ms), 1nat,
{
    if ms.len() > 0 {
        let pre = ms.subrange(0, ms.len() - 1);
        let last = ms[ms.len() - 1];
        assert(tree_size(last) >= 1);
        assert forall|i: int| 0 <= i < pre.len() implies uniform_kind(#[trigger] pre[i], true) by {
            assert(pre[i] == ms[i]);
        }
        lemma_text_branch_positions(pre, anc);
        lemma_text_positions(last, anc);
    }
}

/// A tree of text reads as many characters as it has read positions, so
/// its length is the length of its content.
pub proof fn lemma_text_length(m: NodeModel, anc: spec_fn(Seq<char>) -> bool)
    requires
        uniform_kind(m, true),
    ensures
        chars_of(elements(m, anc)).len() == elements(m, anc).len(),
{
    lemma_text_positions(m, anc);
    lemma_chars_of_somes(elements(m, anc));
}

/// Breaking a node keeps its tree of one kind, given a new branch of
/// that kind.
proof fn lemma_break_uniform(m: NodeModel, x: int, ec: bool, f: Option<NodeModel>, k: bool)
    requires
        uniform_kind(m, k),
        match f {
            Some(n) => uniform_kind(n, k),
            None => true,
        },
    ensures
        uniform_kind(break_model(m, x, ec, f), k),
{
    let t = tail_model(m, x);
    assert(uniform_kind(t, k));
    let b = break_model(m, x, ec, f);
    assert forall|i: int| 0 <= i < b.nexts.len() implies uniform_kind(#[trigger] b.nexts[i], k) by {}
}

/// Placing a branch of one kind into a tree of that kind keeps it so.
proof fn lemma_insert_uniform(m: NodeModel, p: int, f: NodeModel, anc: spec_fn(Seq<char>) -> bool, k: bool)
    requires
        uniform_kind(m, k),
        uniform_kind(f, k),
    ensures
        uniform_kind(insert_model(m, p, f, anc), k),
    decreases tree_size(m), 0int, 0int,
{
    let own = own_elements(m, m.elems, anc).len() as int;
    if p <= own {
        lemma_break_uniform(m, p, false, Some(f), k);
    } else {
        let q = p - own;
        let bl = branch_elements(m.nexts, anc).len() as int;
        if q <= bl {
            lemma_insert_branches_uniform(m.nexts, 0, q, f, anc, k);
            let n = insert_model(m, p, f, anc);
            assert(n.nexts == insert_branches(m.nexts, 0, q, f, anc));
            assert forall|i: int| 0 <= i < n.nexts.len() implies uniform_kind(#[trigger] n.nexts[i], k) by {}
        } else {
            match m.next {
                Some(b) => {
                    lemma_insert_uniform(*b, q - bl, f, anc, k);
                    let n = insert_model(m, p, f, anc);
                    assert forall|i: int| 0 <= i < n.nexts.len() implies uniform_kind(#[trigger] n.nexts[i], k) by {}
                },
                None => {},
            }
        }
    }
}

proof fn lemma_insert_branches_uniform(ms: Seq<NodeModel>, i: int, q: int, f: NodeModel, anc: spec_fn(Seq<char>) -> bool, k: bool)
    requires
        forall|j: int| 0 <= j < ms.len() ==> uniform_kind(#[trigger] ms[j], k),
        uniform_kind(f, k),
    ensures
        forall|j: int| 0 <= j < insert_branches(ms, i, q, f, anc).len() ==> uniform_kind(#[trigger] insert_branches(ms, i, q, f, anc)[j], k),
    decreases nexts_size(ms), 1int, ms.len() - i,
{
    if 0 <= i < ms.len() {
        let b = ms[i];
        let l = if branch_visible(b, anc) { elements(b, anc).len() as int } else { 0 };
        if branch_visible(b, anc) && q <= l {
            lemma_nexts_size_elem(ms, i);
            lemma_insert_uniform(b, q, f, anc, k);
            let r = insert_branches(ms, i, q, f, anc);
            assert(r == ms.update(i, insert_model(b, q, f, anc)));
            assert forall|j: int| 0 <= j < r.len() implies uniform_kind(#[trigger] r[j], k) by {
                if j != i {
                    assert(r[j] == ms[j]);
                }
            }
        } else {
            lemma_insert_branches_uniform(ms, i + 1, q - l, f, anc, k);
            assert(insert_branches(ms, i, q, f, anc) == insert_branches(ms, i + 1, q - l, f, anc));
        }
    } else {
        assert(insert_branches(ms, i, q, f, anc) == ms);
    }
}

/// Deleting a position keeps a tree of one kind so.
proof fn lemma_delete_uniform(m: NodeModel, p: int, version: Seq<char>, anc: spec_fn(Seq<char>) -> bool, k: bool)
    requires
        uniform_kind(m, k),
    ensures
        uniform_kind(delete_model(m, p, version, anc), k),
    decreases tree_size(m), 0int, p,
{
    let own = own_elements(m, m.elems, anc).len() as int;
    let n = delete_model(m, p, version, anc);
    if p < own {
        if p > 0 {
            lemma_break_uniform(m, p, false, None, k);
            let t = tail_model(m, p);
            assert(uniform_kind(t, k));
            assert(tree_size(t) == tree_size(m));
            lemma_delete_uniform(t, 0, version, anc, k);
            assert forall|i: int| 0 <= i < n.nexts.len() implies uniform_kind(#[trigger] n.nexts[i], k) by {}
        } else {
            if m.elems.len() > 1 {
                lemma_break_uniform(m, 1, false, None, k);
            }
            assert forall|i: int| 0 <= i < n.nexts.len() implies uniform_kind(#[trigger] n.nexts[i], k) by {}
        }
    } else {
        let q = p - own;
        let bl = branch_elements(m.nexts, anc).len() as int;
        if q < bl {
            lemma_delete_branches_uniform(m.nexts, 0, q, version, anc, k);
            assert(n.nexts == delete_branches(m.nexts, 0, q, version, anc));
            assert forall|i: int| 0 <= i < n.nexts.len() implies uniform_kind(#[trigger] n.nexts[i], k) by {}
        } else {
            match m.next {
                Some(b) => {
                    lemma_delete_uniform(*b, q - bl, version, anc, k);
                    assert forall|i: int| 0 <= i < n.nexts.len() implies uniform_kind(#[trigger] n.nexts[i], k) by {}
                },
                None => {},
            }
        }
    }
}

proof fn lemma_delete_branches_uniform(ms: Seq<NodeModel>, i: int, q: int, version: Seq<char>, anc: spec_fn(Seq<char>) -> bool, k: bool)
    requires
        forall|j: int| 0 <= j < ms.len() ==> uniform_kind(#[trigger] ms[j], k),
    ensures
        forall|j: int| 0 <= j < delete_branches(ms, i, q, version, anc).len() ==> uniform_kind(#[trigger] delete_branches(ms, i, q, version, anc)[j], k),
    decreases nexts_size(ms), 1int, ms.len() - i,
{
    if 0 <= i < ms.len() {
        let b = ms[i];
        let l = if branch_visible(b, anc) { elements(b, anc).len() as int } else { 0 };
        if branch_visible(b, anc) && q < l {
            lemma_nexts_size_elem(ms, i);
            lemma_delete_uniform(b, q, version, anc, k);
            let r = delete_branches(ms, i, q, version, anc);
            assert(r == ms.update(i, delete_model(b, q, version, anc)));
            assert forall|j: int| 0 <= j < r.len() implies uniform_kind(#[trigger] r[j], k) by {
                if j != i {
                    assert(r[j] == ms[j]);
                }
            }
        } else {
            lemma_delete_branches_uniform(ms, i + 1, q - l, version, anc, k);
            assert(delete_branches(ms, i, q, version, anc) == delete_branches(ms, i + 1, q - l, version, anc));
        }
    } else {
        assert(delete_branches(ms, i, q, version, anc) == ms);
    }
}

proof fn lemma_splices_uniform(m: NodeModel, ss: Seq<SpliceModel>, version: Seq<char>, anc: spec_fn(Seq<char>) -> bool, k: bool)
    requires
        uniform_kind(m, k),
        forall|i: int| 0 <= i < ss.len() ==> (#[trigger] ss[i].insert is Text) == k,
    ensures
        uniform_kind(splices_model(m, ss, version, anc), k),
    decreases ss.len(),
{
    if ss.len() > 0 {
        let s = ss.last();
        let cut_n = s.delete_count as nat;
        lemma_delete_n_uniform(m, s.pos, cut_n, version, anc, k);
        let cut = delete_n(m, s.pos, cut_n, version, anc);
        if s.insert.len() > 0 {
            let f = fresh_node(version, s);
            assert(ss[ss.len() - 1] == s);
            assert(uniform_kind(f, k));
            lemma_insert_uniform(cut, s.pos, f, anc, k);
        }
        let pre = ss.drop_last();
        assert forall|i: int| 0 <= i < pre.len() implies (#[trigger] pre[i].insert is Text) == k by {
            assert(pre[i] == ss[i]);
        }
        lemma_splices_uniform(splice_model(m, s, version, anc), pre, version, anc, k);
    }
}

proof fn lemma_delete_n_uniform(m: NodeModel, p: int, n: nat, version: Seq<char>, anc: spec_fn(Seq<char>) -> bool, k: bool)
    requires
        uniform_kind(m, k),
    ensures
        uniform_kind(delete_n(m, p, n, version, anc), k),
    decreases n,
{
    if n > 0 {
        lemma_delete_n_uniform(m, p, (n - 1) as nat, version, anc, k);
        lemma_delete_uniform(delete_n(m, p, (n - 1) as nat, version, anc), p, version, anc, k);
    }
}

/// Adding a version whose splices insert text to a tree of text leaves a
/// tree of text.
pub proof fn lemma_added_text(m: NodeModel, version: Seq<char>, ss: Seq<SpliceModel>, anc: spec_fn(Seq<char>) -> bool)
    requires
        uniform_kind(m, true),
        forall|i: int| 0 <= i < ss.len() ==> #[trigger] ss[i].insert is Text,
    ensures
        uniform_kind(added_tree(m, version, ss, anc), true),
{
    if adds_fit(m, version, ss, anc) {
        lemma_splices_uniform(m, ss, version, with_version(anc, version), true);
    }
}

proof fn lemma_rename_uniform(n: SequenceNode, tb: Map<Seq<char>, (String, String)>, text: bool)
    requires
        uniform_kind(n@, text),
    ensures
        uniform_kind(rename_node(n, tb), text),
    decreases n,
{
    lemma_nodes_model(n.nexts@);
    lemma_rename_nodes(n.nexts@, tb);
    assert forall|i: int| 0 <= i < rename_node(n, tb).nexts.len() implies uniform_kind(#[trigger] rename_node(n, tb).nexts[i], text) by {
        assert(uniform_kind(n@.nexts[i], text));
        lemma_rename_uniform(*n.nexts@[i], tb, text);
    }
    match n.next {
        Some(b) => lemma_rename_uniform(*b, tb, text),
        None => {},
    }
}

/// The number of nodes of a tree.
pub open spec fn tree_size(m: NodeModel) -> nat
    decreases m,
{
    1 + nexts_size(m.nexts) + match m.next {
        Some(b) => tree_size(*b),
        None => 0,
    }
}

/// The number of nodes of a list of trees.
pub open spec fn nexts_size(ms: Seq<NodeModel>) -> nat
    decreases ms,
{
    if ms.len() == 0 { 0 } else { nexts_size(ms.subrange(0, ms.len() - 1)) + tree_size(ms[ms.len() - 1]) }
}

pub proof fn lemma_nexts_size_elem(ms: Seq<NodeModel>, i: int)
    requires
        0 <= i < ms.len(),
    ensures
        tree_size(ms[i]) <= nexts_size(ms),
    decreases ms.len(),
{
    if i < ms.len() - 1 {
        lemma_nexts_size_elem(ms.subrange(0, ms.len() - 1), i);
    }
}

/// Whether a node takes its successor in: it has no branch, both hold
/// elements, and the same versions deleted both.
pub open spec fn can_absorb(m: NodeModel, nx: NodeModel) -> bool {
    m.nexts.len() == 0 && m.elems.len() > 0 && nx.elems.len() > 0 && m.deleted_by == nx.deleted_by
}

/// The node joined with its successor.
pub open spec fn joined(m: NodeModel, nx: NodeModel) -> NodeModel {
    NodeModel { elems: m.elems.concat(nx.elems), end_cap: nx.end_cap, nexts: nx.nexts, next: nx.next, ..m }
}

/// Joining a node with its successor leaves fewer nodes.
pub proof fn lemma_joined_size(m: NodeModel, nx: NodeModel)
    requires
        m.next == Some(Box::new(nx)),
    ensures
        tree_size(joined(m, nx)) < tree_size(m),
{
    let j = joined(m, nx);
    let rest: nat = match nx.next {
        Some(b) => tree_size(*b),
        None => 0,
    };
    assert(tree_size(m) == 1 + nexts_size(m.nexts) + tree_size(nx));
    assert(tree_size(nx) == 1 + nexts_size(nx.nexts) + rest);
    assert(tree_size(j) == 1 + nexts_size(nx.nexts) + rest);
}

/// The node after taking in successors as long as it can.
pub open spec fn absorb(m: NodeModel) -> NodeModel
    decreases tree_size(m),
{
    match m.next {
        Some(nx) => if can_absorb(m, *nx) {
            proof {
                lemma_joined_size(m, *nx);
            }
            absorb(joined(m, *nx))
        } else {
            m
        },
        None => m,
    }
}

proof fn lemma_absorb(m: NodeModel, text: bool)
    requires
        uniform_kind(m, text),
    ensures
        tree_size(absorb(m)) <= tree_size(m),
        uniform_kind(absorb(m), text),
    decreases tree_size(m),
{
    match m.next {
        Some(nx) => if can_absorb(m, *nx) {
            let j = joined(m, *nx);
            assert(uniform_kind(*nx, text));
            assert forall|i: int| 0 <= i < j.nexts.len() implies uniform_kind(#[trigger] j.nexts[i], text) by {
                assert(uniform_kind(nx.nexts[i], text));
            }
            assert(uniform_kind(j, text));
            lemma_joined_size(m, *nx);
            lemma_absorb(j, text);
        },
        None => {},
    }
}

/// Merging a tree: the node takes in its successors as long as it can,
/// and the branches and the successor are merged in turn.
pub open spec fn merge_model(m: NodeModel) -> NodeModel
    decreases tree_size(m), 0nat,
{
    let m2 = absorb(m);
    proof {
        lemma_absorb_size(m);
    }
    NodeModel {
        nexts: merge_list(m2.nexts),
        next: match m2.next {
            Some(b) => Some(Box::new(merge_model(*b))),
            None => None,
        },
        ..m2
    }
}

/// Merging each tree of a list.
pub open spec fn merge_list(ms: Seq<NodeModel>) -> Seq<NodeModel>
    decreases nexts_size(ms), 1nat,
{
    if ms.len() == 0 {
        Seq::empty()
    } else {
        let pre = ms.subrange(0, ms.len() - 1);
        proof {
            assert(tree_size(ms[ms.len() - 1]) >= 1);
        }
        merge_list(pre).push(merge_model(ms[ms.len() - 1]))
    }
}

pub proof fn lemma_absorb_size(m: NodeModel)
    ensures
        tree_size(absorb(m)) <= tree_size(m),
    decreases tree_size(m),
{
    match m.next {
        Some(nx) => if can_absorb(m, *nx) {
            lemma_joined_size(m, *nx);
            lemma_absorb_size(joined(m, *nx));
        },
        None => {},
    }
}

proof fn lemma_merge_list(ms: Seq<NodeModel>)
    ensures
        merge_list(ms).len() == ms.len(),
        forall|i: int| 0 <= i < ms.len() ==> #[trigger] merge_list(ms)[i] == merge_model(ms[i]),
    decreases ms.len(),
{
    if ms.len() > 0 {
        lemma_merge_list(ms.subrange(0, ms.len() - 1));
    }
}


proof fn lemma_positions_concat(a: ElemsModel, b: ElemsModel)
    requires
        a.same_kind(b),
    ensures
        a.concat(b).positions() == a.positions() + b.positions(),
{
    match (a, b) {
        (ElemsModel::Text(x), ElemsModel::Text(y)) => {
            assert(a.concat(b).positions() =~= a.positions() + b.positions());
        },
        (ElemsModel::Indices(x), ElemsModel::Indices(y)) => {
            assert(a.concat(b).positions() =~= a.positions() + b.positions());
        },
        _ => {},
    }
}

/// Taking in successors keeps the node's version and its read positions.
proof fn lemma_absorb_elements(m: NodeModel, text: bool, anc: spec_fn(Seq<char>) -> bool)
    requires
        uniform_kind(m, text),
    ensures
        absorb(m).version == m.version,
        elements(absorb(m), anc) == elements(m, anc),
    decreases tree_size(m),
{
    match m.next {
        Some(nx) => if can_absorb(m, *nx) {
            let j = joined(m, *nx);
            assert(uniform_kind(*nx, text));
            assert forall|i: int| 0 <= i < j.nexts.len() implies uniform_kind(#[trigger] j.nexts[i], text) by {
                assert(uniform_kind(nx.nexts[i], text));
            }
            assert(uniform_kind(j, text));
            lemma_is_deleted_same(m, *nx, anc);
            assert(is_deleted(j, anc) == is_deleted(m, anc)) by {
                lemma_is_deleted_same(j, m, anc);
            }
            lemma_positions_concat(m.elems, nx.elems);
            assert(branch_elements(m.nexts, anc) =~= Seq::<Option<char>>::empty());
            let own_m = if is_deleted(m, anc) { Seq::<Option<char>>::empty() } else { m.elems.positions() };
            let own_n = if is_deleted(*nx, anc) { Seq::<Option<char>>::empty() } else { nx.elems.positions() };
            let own_j = if is_deleted(j, anc) { Seq::<Option<char>>::empty() } else { j.elems.positions() };
            let rest = next_elements(*nx, anc);
            assert(elements(*nx, anc) == own_n + branch_elements(nx.nexts, anc) + rest);
            assert(elements(m, anc) == own_m + branch_elements(m.nexts, anc) + elements(*nx, anc));
            assert(elements(j, anc) == own_j + branch_elements(nx.nexts, anc) + rest);
            assert(own_j =~= own_m + own_n);
            assert(elements(j, anc) =~= elements(m, anc));
            lemma_joined_size(m, *nx);
            lemma_absorb_elements(j, text, anc);
        },
        None => {},
    }
}

/// Merging keeps a tree's version and its read positions, whichever
/// versions are read.
pub proof fn lemma_merge_keeps_elements(m: NodeModel, text: bool, anc: spec_fn(Seq<char>) -> bool)
    requires
        uniform_kind(m, text),
    ensures
        merge_model(m).version == m.version,
        elements(merge_model(m), anc) == elements(m, anc),
        uniform_kind(merge_model(m), text),
    decreases tree_size(m), 0nat,
{
    let m2 = absorb(m);
    lemma_absorb_elements(m, text, anc);
    lemma_absorb(m, text);
    lemma_absorb_size(m);
    lemma_nexts_keep_elements(m2.nexts, text, anc);
    match m2.next {
        Some(b) => {
            assert(tree_size(m2) == 1 + nexts_size(m2.nexts) + tree_size(*b));
            lemma_merge_keeps_elements(*b, text, anc);
        },
        None => {},
    }
    let r = merge_model(m);
    assert(r.nexts == merge_list(m2.nexts));
    assert(next_elements(r, anc) == next_elements(m2, anc));
    assert(is_deleted(r, anc) == is_deleted(m2, anc)) by {
        lemma_is_deleted_same(r, m2, anc);
    }
    assert(elements(r, anc) == elements(m2, anc));
    assert forall|i: int| 0 <= i < r.nexts.len() implies uniform_kind(#[trigger] r.nexts[i], text) by {}
}

/// Merging each tree of a list keeps the list's read positions.
proof fn lemma_nexts_keep_elements(ms: Seq<NodeModel>, text: bool, anc: spec_fn(Seq<char>) -> bool)
    requires
        forall|i: int| 0 <= i < ms.len() ==> uniform_kind(#[trigger] ms[i], text),
    ensures
        branch_elements(merge_list(ms), anc) == branch_elements(ms, anc),
        forall|i: int| 0 <= i < merge_list(ms).len() ==> uniform_kind(#[trigger] merge_list(ms)[i], text),
    decreases nexts_size(ms), 1nat,
{
    if ms.len() > 0 {
        let pre = ms.subrange(0, ms.len() - 1);
        let last = ms[ms.len() - 1];
        assert(nexts_size(ms) == nexts_size(pre) + tree_size(last));
        assert forall|i: int| 0 <= i < pre.len() implies uniform_kind(#[trigger] pre[i], text) by {
            assert(pre[i] == ms[i]);
        }
        assert(tree_size(last) >= 1);
        lemma_nexts_keep_elements(pre, text, anc);
        lemma_merge_keeps_elements(last, text, anc);
        let ml = merge_list(ms);
        lemma_merge_list(ms);
        lemma_merge_list(pre);
        assert(ml.subrange(0, ml.len() - 1) =~= merge_list(pre));
        assert(ml[ml.len() - 1] == merge_model(last));
        assert forall|i: int| 0 <= i < ml.len() implies uniform_kind(#[trigger] ml[i], text) by {
            if i < ml.len() - 1 {
                assert(ml[i] == merge_list(pre)[i]);
            }
        }
    } else {
        assert(merge_list(ms) =~= Seq::<NodeModel>::empty());
    }
}

/// Renaming the members, taken from a list of them, keeps a set empty or
/// not empty.
proof fn lemma_rename_members_nonempty(order: Seq<Seq<char>>, s: Set<Seq<char>>, tb: Map<Seq<char>, (String, String)>)
    requires
        forall|k: Seq<char>| #[trigger] order.contains(k) ==> s.contains(k),
    ensures
        (exists|x: Seq<char>| #[trigger] rename_members(order, s, tb).contains(x)) <==> (exists|x: Seq<char>| #[trigger] s.contains(x)),
    decreases order.len(),
{
    if order.len() > 0 {
        let pre = order.drop_last();
        assert forall|k: Seq<char>| #[trigger] pre.contains(k) implies s.contains(k) by {
            let i = choose|i: int| 0 <= i < pre.len() && pre[i] == k;
            assert(order[i] == k);
            assert(order.contains(k));
        }
        lemma_rename_members_nonempty(pre, s, tb);
        let v = order.last();
        assert(order[order.len() - 1] == v);
        assert(order.contains(v));
        assert(s.contains(v));
        let s1 = rename_members(pre, s, tb);
        if tb.contains_key(v) {
            assert(rename_members(order, s, tb) == s1.remove(v).insert(tb[v].0@));
            assert(rename_members(order, s, tb).contains(tb[v].0@));
        } else {
            assert(rename_members(order, s, tb) == s1);
            let x = choose|x: Seq<char>| #[trigger] s1.contains(x);
            assert(rename_members(order, s, tb).contains(x));
        }
        assert(exists|x: Seq<char>| #[trigger] s.contains(x));
    } else {
        assert(rename_members(order, s, tb) == s);
    }
}

/// With every version read, renaming versions keeps the read positions:
/// a renamed node is as deleted and as visible as before.
proof fn lemma_rename_keeps_elements(n: SequenceNode, tb: Map<Seq<char>, (String, String)>, anc: spec_fn(Seq<char>) -> bool)
    requires
        forall|v: Seq<char>| #[trigger] anc(v),
    ensures
        elements(rename_node(n, tb), anc) == elements(n@, anc),
        rename_node(n, tb).version is Some <==> n@.version is Some,
    decreases n,
{
    let r = rename_node(n, tb);
    let m = n@;
    n.deleted_by.lemma_member_order();
    lemma_rename_members_nonempty(n.deleted_by.member_order(), n.deleted_by@, tb);
    assert(is_deleted(r, anc) == is_deleted(m, anc)) by {
        if is_deleted(m, anc) {
            let v = choose|v: Seq<char>| #[trigger] m.deleted_by.contains(v) && anc(v);
            let x = choose|x: Seq<char>| #[trigger] r.deleted_by.contains(x);
            assert(r.deleted_by.contains(x) && anc(x));
        }
        if is_deleted(r, anc) {
            let v = choose|v: Seq<char>| #[trigger] r.deleted_by.contains(v) && anc(v);
            let x = choose|x: Seq<char>| #[trigger] m.deleted_by.contains(x);
            assert(m.deleted_by.contains(x) && anc(x));
        }
    }
    lemma_nodes_model(n.nexts@);
    lemma_rename_nodes(n.nexts@, tb);
    lemma_rename_list_elements(n.nexts@, tb, anc);
    match n.next {
        Some(b) => {
            lemma_rename_keeps_elements(*b, tb, anc);
        },
        None => {},
    }
    assert(next_elements(r, anc) == next_elements(m, anc));
    assert(elements(r, anc) == elements(m, anc));
}

/// With every version read, renaming a list of branches keeps its read
/// positions.
proof fn lemma_rename_list_elements(ns: Seq<Box<SequenceNode>>, tb: Map<Seq<char>, (String, String)>, anc: spec_fn(Seq<char>) -> bool)
    requires
        forall|v: Seq<char>| #[trigger] anc(v),
    ensures
        branch_elements(rename_nodes(ns, tb), anc) == branch_elements(nodes_model(ns), anc),
    decreases ns,
{
    if ns.len() > 0 {
        let pre = ns.subrange(0, ns.len() - 1);
        let last = ns[ns.len() - 1];
        lemma_rename_list_elements(pre, tb, anc);
        lemma_rename_keeps_elements(*last, tb, anc);
        lemma_nodes_model(ns);
        lemma_nodes_model(pre);
        lemma_rename_nodes(ns, tb);
        lemma_rename_nodes(pre, tb);
        let rs = rename_nodes(ns, tb);
        let ms = nodes_model(ns);
        assert(rs.subrange(0, rs.len() - 1) =~= rename_nodes(pre, tb));
        assert(ms.subrange(0, ms.len() - 1) =~= nodes_model(pre));
        assert(branch_visible(rs[rs.len() - 1], anc) == branch_visible(ms[ms.len() - 1], anc));
    }
}

/// With every version read, bubbling keeps the text: renaming versions and
/// merging nodes change no read position.
pub proof fn lemma_bubbles_keep_elements(root: SequenceNode, tb: Map<Seq<char>, (String, String)>, anc: spec_fn(Seq<char>) -> bool)
    requires
        uniform_kind(root@, root@.elems is Text),
        forall|v: Seq<char>| #[trigger] anc(v),
    ensures
        elements(merge_model(rename_node(root, tb)), anc) == elements(root@, anc),
{
    lemma_rename_uniform(root, tb, root@.elems is Text);
    lemma_rename_keeps_elements(root, tb, anc);
    lemma_merge_keeps_elements(rename_node(root, tb), root@.elems is Text, anc);
}

/// Whether two sets have the same members.
pub(crate) fn same_members(a: &StrSet, b: &StrSet) -> (r: bool)
    ensures
        r == (a@ == b@),
{
    let n = a.len();
    let items = a.to_vec();
    let mut i: usize = 0;
    while i < items.len()
        invariant
            i <= items@.len(),
            string_views(items@) == a.member_order(),
            forall|k: Seq<char>| a@.contains(k) <==> a.member_order().contains(k),
            forall|j: int| 0 <= j < i ==> b@.contains(#[trigger] string_views(items@)[j]),
        decreases items@.len() - i,
    {
        if !b.contains(items[i].as_str()) {
            proof {
                assert(a@.contains(string_views(items@)[i as int]));
            }
            return false;
        }
        i = i + 1;
    }
    let m = b.len();
    let others = b.to_vec();
    let mut j: usize = 0;
    while j < others.len()
        invariant
            j <= others@.len(),
            string_views(others@) == b.member_order(),
            forall|k: Seq<char>| b@.contains(k) <==> b.member_order().contains(k),
            forall|q: int| 0 <= q < j ==> a@.contains(#[trigger] string_views(others@)[q]),
        decreases others@.len() - j,
    {
        if !a.contains(others[j].as_str()) {
            proof {
                assert(b@.contains(string_views(others@)[j as int]));
            }
            return false;
        }
        j = j + 1;
    }
    proof {
        assert forall|k: Seq<char>| a@.contains(k) <==> b@.contains(k) by {
            if a@.contains(k) {
                let q = choose|q: int| 0 <= q < string_views(items@).len() && string_views(items@)[q] == k;
                assert(b@.contains(string_views(items@)[q]));
            }
            if b@.contains(k) {
                let q = choose|q: int| 0 <= q < string_views(others@).len() && string_views(others@)[q] == k;
                assert(a@.contains(string_views(others@)[q]));
            }
        }
        assert(a@ =~= b@);
    }
    true
}

/// Merges the tree rooted at `node`.
fn merge_nodes(node: &mut SequenceNode, Ghost(text): Ghost<bool>)
    requires
        uniform_kind(old(node)@, text),
    ensures
        final(node)@ == merge_model(old(node)@),
    decreases tree_size(old(node)@),
{
    let ghost m = node@;
    proof {
        lemma_nodes_model(node.nexts@);
    }
    let ghost m1 = node@;
    let mut done = false;
    while !done
        invariant
            absorb(node@) == absorb(m1),
            tree_size(node@) <= tree_size(m1),
            uniform_kind(node@, text),
            done ==> absorb(node@) == node@,
        decreases tree_size(node@), if done { 0int } else { 1int },
    {
        let ghost before = node@;
        proof {
            lemma_nodes_model(node.nexts@);
        }
        match node.next.take() {
            None => {
                done = true;
            },
            Some(mut nx) => {
                let ghost nxm = node_model(*nx);
                proof {
                    assert(before.next == Some(Box::new(nxm)));
                    assert(uniform_kind(nxm, text));
                }
                if node.nexts.len() == 0 && !node.elems.is_empty() && !nx.elems.is_empty()
                    && same_members(&node.deleted_by, &nx.deleted_by) {
                    node.elems = node.elems.concat(&nx.elems);
                    node.end_cap = nx.end_cap;
                    let mut nn: Vec<Box<SequenceNode>> = Vec::new();
                    std::mem::swap(&mut nn, &mut nx.nexts);
                    node.nexts = nn;
                    node.next = nx.next.take();
                    proof {
                        let j = joined(before, nxm);
                        assert(can_absorb(before, nxm));
                        assert(node@ == j);
                        lemma_joined_size(before, nxm);
                        assert forall|i: int| 0 <= i < j.nexts.len() implies uniform_kind(#[trigger] j.nexts[i], text) by {
                            assert(uniform_kind(nxm.nexts[i], text));
                        }
                    }
                } else {
                    node.next = Some(nx);
                    proof {
                        assert(!can_absorb(before, nxm));
                        assert(node@ == before);
                    }
                    done = true;
                }
            },
        }
    }
    let ghost m2 = node@;
    proof {
        assert(m2 == absorb(m1));
        lemma_absorb_size(m1);
        lemma_nodes_model(node.nexts@);
    }
    let mut old_nexts: Vec<Box<SequenceNode>> = Vec::new();
    std::mem::swap(&mut old_nexts, &mut node.nexts);
    let ghost orig = old_nexts@;
    let mut new_nexts: Vec<Box<SequenceNode>> = Vec::new();
    let ghost mut k: int = 0;
    proof {
        assert(orig.subrange(0, orig.len() as int) =~= orig);
    }
    while old_nexts.len() > 0
        invariant
            0 <= k <= orig.len(),
            old_nexts@ == orig.subrange(k, orig.len() as int),
            new_nexts@.len() == k,
            forall|j: int| 0 <= j < k ==> node_model(*#[trigger] new_nexts@[j]) == merge_model(node_model(*orig[j])),
            nodes_model(orig) == m2.nexts,
            nodes_model(orig).len() == orig.len(),
            forall|j: int| 0 <= j < orig.len() ==> #[trigger] nodes_model(orig)[j] == node_model(*orig[j]),
            uniform_kind(m2, text),
            tree_size(m2) <= tree_size(m),
            m == old(node)@,
        decreases orig.len() - k,
    {
        let mut b = old_nexts.remove(0);
        proof {
            assert(b == orig[k]);
            assert(uniform_kind(m2.nexts[k], text));
            lemma_nexts_size_elem(m2.nexts, k);
            assert(tree_size(m2) >= 1 + nexts_size(m2.nexts));
            assert(node_model(*b) == m2.nexts[k]);
            assert(tree_size(node_model(*b)) < tree_size(m));
        }
        merge_nodes(&mut *b, Ghost(text));
        new_nexts.push(b);
        proof {
            k = k + 1;
            assert(old_nexts@ =~= orig.subrange(k, orig.len() as int));
        }
    }
    proof {
        lemma_nodes_model(new_nexts@);
        lemma_merge_list(m2.nexts);
        assert(nodes_model(new_nexts@) =~= merge_list(m2.nexts));
    }
    node.nexts = new_nexts;
    match node.next.take() {
        Some(mut b) => {
            proof {
                assert(m2.next == Some(Box::new(node_model(*b))));
                assert(uniform_kind(node_model(*b), text));
                assert(tree_size(m2) == 1 + nexts_size(m2.nexts) + tree_size(node_model(*b)));
                assert(tree_size(node_model(*b)) < tree_size(m));
            }
            merge_nodes(&mut *b, Ghost(text));
            node.next = Some(b);
        },
        None => {},
    }
    proof {
        assert(node@ == merge_model(m));
    }
}

/// Apply bubble compression to the sequence.
///
/// Every version in `to_bubble` is renamed to its bubble's bottom (a node
/// renamed keeps its old version as sort key when it had none, and the
/// deleting versions are renamed too); then each node takes in
/// successors with the same deleting versions, across the whole tree.  The
/// read positions stay as they were (see `lemma_merge_keeps_elements`).
pub fn apply_bubbles(root: &mut SequenceNode, to_bubble: &StrMap<(String, String)>)
    requires
        uniform_kind(old(root)@, old(root)@.elems is Text),
    ensures
        final(root)@ == merge_model(rename_node(*old(root), to_bubble@)),
        elements(final(root)@, AncestorSet::All.pred()) == elements(old(root)@, AncestorSet::All.pred()),
        uniform_kind(final(root)@, old(root)@.elems is Text),
{
    let ghost text = root@.elems is Text;
    let mut renamed = renamed_copy(root, to_bubble);
    proof {
        lemma_rename_uniform(*root, to_bubble@, text);
    }
    merge_nodes(&mut renamed, Ghost(text));
    proof {
        let all = AncestorSet::All.pred();
        assert forall|v: Seq<char>| #[trigger] all(v) by {}
        lemma_bubbles_keep_elements(*root, to_bubble@, all);
        lemma_merge_keeps_elements(rename_node(*root, to_bubble@), text, all);
    }
    *root = renamed;
}

} // verus!
