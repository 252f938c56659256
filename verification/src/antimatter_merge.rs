//! The antimatter merge type: a text kept by Antimatter, with pruning.
use vstd::prelude::*;
use crate::collections::{StrMap, StrSet, string_views};
use crate::json_crdt::PatchContent;
use crate::merge::{MergePatch, MergeResult};
use crate::antimatter::{AntimatterCrdt, PrunableCrdt, Patch, Message, add_graph, dag_view, true_map, GraphModel, patch_chain, patch_view};
use crate::prune::pruned;
use crate::messaging::updated;
use crate::diamond_merge::one_split;
use crate::text::{decimal, chars_of, parse_usize, parse_usize_spec, find_char_from, substring};
use crate::mapping::{utf8_len, char_utf8_len, char_utf8_len_exec, utf8_len_exec};

verus! {

/// The characters a patch carries as text: a string's, none otherwise.
pub open spec fn text_of(c: PatchContent) -> Seq<char> {
    match c {
        PatchContent::Text(s) => s@,
        PatchContent::Json(_) => Seq::empty(),
    }
}

/// The character position where the first `b` bytes of UTF-8 end, if a
/// character ends there.
pub open spec fn char_at_byte(s: Seq<char>, b: nat) -> Option<nat> {
    if exists|i: int| 0 <= i <= s.len() && utf8_len(s.subrange(0, i)) == b {
        Some((choose|i: int| 0 <= i <= s.len() && utf8_len(s.subrange(0, i)) == b) as nat)
    } else {
        None
    }
}

/// A byte position no further than `l`.
pub open spec fn byte_clamp(x: nat, l: nat) -> nat {
    if x < l { x } else { l }
}

/// The text after a patch of the simple CRDT, `None` where a byte position
/// falls inside a character.  A range `start:end` (byte positions, clamped
/// to the text) is replaced by the content; a malformed range with a `:`
/// changes nothing; a byte position inserts the content there; anything
/// else replaces the whole text.
pub open spec fn simple_apply(t: Seq<char>, range: Seq<char>, c: Seq<char>) -> Option<Seq<char>> {
    let l = utf8_len(t);
    if range.contains(':') {
        match one_split(range, ':') {
            Some(parts) => match (parse_usize_spec(parts.0), parse_usize_spec(parts.1)) {
                (Some(x), Some(y)) => match (char_at_byte(t, byte_clamp(x, l)), char_at_byte(t, byte_clamp(y, l))) {
                    (Some(i), Some(j)) => Some(t.subrange(0, i as int) + c + t.subrange(j as int, t.len() as int)),
                    _ => None,
                },
                _ => Some(t),
            },
            None => Some(t),
        }
    } else {
        match parse_usize_spec(range) {
            Some(p) => match char_at_byte(t, byte_clamp(p, l)) {
                Some(i) => Some(t.subrange(0, i as int) + c + t.subrange(i as int, t.len() as int)),
                None => None,
            },
            None => Some(c),
        }
    }
}

/// Longer prefixes take more bytes.
proof fn lemma_utf8_prefix_grows(s: Seq<char>, i: int, j: int)
    requires
        0 <= i < j <= s.len(),
    ensures
        utf8_len(s.subrange(0, i)) < utf8_len(s.subrange(0, j)),
    decreases j - i,
{
    assert(s.subrange(0, j).drop_last() =~= s.subrange(0, j - 1));
    if i < j - 1 {
        lemma_utf8_prefix_grows(s, i, j - 1);
    }
}

/// The bytes of two texts one after the other.
proof fn lemma_utf8_concat(a: Seq<char>, b: Seq<char>)
    ensures
        utf8_len(a + b) == utf8_len(a) + utf8_len(b),
    decreases b.len(),
{
    if b.len() == 0 {
        assert(a + b =~= a);
    } else {
        assert((a + b).drop_last() =~= a + b.drop_last());
        lemma_utf8_concat(a, b.drop_last());
    }
}

/// A character boundary is found at the byte count of its prefix.
proof fn lemma_char_at_prefix(t: Seq<char>, i: int)
    requires
        0 <= i <= t.len(),
    ensures
        utf8_len(t.subrange(0, i)) <= utf8_len(t),
        char_at_byte(t, utf8_len(t.subrange(0, i))) == Some(i as nat),
{
    assert(t.subrange(0, t.len() as int) =~= t);
    if i < t.len() {
        lemma_utf8_prefix_grows(t, i, t.len() as int);
    }
    let b = utf8_len(t.subrange(0, i));
    let k = choose|k: int| 0 <= k <= t.len() && utf8_len(t.subrange(0, k)) == b;
    if k < i {
        lemma_utf8_prefix_grows(t, k, i);
    } else if i < k {
        lemma_utf8_prefix_grows(t, i, k);
    }
}

/// A patch on the byte range `x:y` of a text, where the first `i`
/// characters take `x` bytes and the first `j` take `y` bytes, replaces
/// the characters `i..j` by the content: the text before `i` stays, the
/// content follows, then the text from `j`.  So the text loses `j - i`
/// characters and `y - x` bytes and gains the content's.
pub proof fn lemma_range_patch(t: Seq<char>, range: Seq<char>, xs: Seq<char>, ys: Seq<char>, i: int, j: int, c: Seq<char>)
    requires
        range.contains(':'),
        one_split(range, ':') == Some((xs, ys)),
        parse_usize_spec(xs) == Some(utf8_len(t.subrange(0, i))),
        parse_usize_spec(ys) == Some(utf8_len(t.subrange(0, j))),
        0 <= i <= j <= t.len(),
    ensures
        simple_apply(t, range, c) is Some,
        simple_apply(t, range, c)->0.len() == t.len() - (j - i) + c.len(),
        simple_apply(t, range, c)->0.subrange(0, i) == t.subrange(0, i),
        simple_apply(t, range, c)->0.subrange(i, i + c.len()) == c,
        simple_apply(t, range, c)->0.subrange(i + c.len(), t.len() - (j - i) + c.len()) == t.subrange(j, t.len() as int),
        utf8_len(simple_apply(t, range, c)->0)
            == utf8_len(t) - (utf8_len(t.subrange(0, j)) - utf8_len(t.subrange(0, i))) + utf8_len(c),
{
    let x = utf8_len(t.subrange(0, i));
    let y = utf8_len(t.subrange(0, j));
    let l = utf8_len(t);
    lemma_char_at_prefix(t, i);
    lemma_char_at_prefix(t, j);
    assert(byte_clamp(x, l) == x);
    assert(byte_clamp(y, l) == y);
    let r = t.subrange(0, i) + c + t.subrange(j, t.len() as int);
    assert(simple_apply(t, range, c) == Some(r));
    assert(r.subrange(0, i) =~= t.subrange(0, i));
    assert(r.subrange(i, i + c.len()) =~= c);
    assert(r.subrange(i + c.len(), r.len() as int) =~= t.subrange(j, t.len() as int));
    lemma_utf8_concat(t.subrange(0, i), c);
    lemma_utf8_concat(t.subrange(0, i) + c, t.subrange(j, t.len() as int));
    lemma_utf8_concat(t.subrange(0, j), t.subrange(j, t.len() as int));
    assert(t.subrange(0, j) + t.subrange(j, t.len() as int) =~= t);
    if i < j {
        lemma_utf8_prefix_grows(t, i, j);
    }
}

/// A patch at the byte position `x` of a text, where the first `i`
/// characters take `x` bytes, puts the content between the characters
/// before `i` and the rest of the text.
pub proof fn lemma_position_patch(t: Seq<char>, range: Seq<char>, i: int, c: Seq<char>)
    requires
        !range.contains(':'),
        parse_usize_spec(range) == Some(utf8_len(t.subrange(0, i))),
        0 <= i <= t.len(),
    ensures
        simple_apply(t, range, c) is Some,
        simple_apply(t, range, c)->0.len() == t.len() + c.len(),
        simple_apply(t, range, c)->0.subrange(0, i) == t.subrange(0, i),
        simple_apply(t, range, c)->0.subrange(i, i + c.len()) == c,
        simple_apply(t, range, c)->0.subrange(i + c.len(), (t.len() + c.len()) as int) == t.subrange(i, t.len() as int),
{
    let x = utf8_len(t.subrange(0, i));
    lemma_char_at_prefix(t, i);
    assert(byte_clamp(x, utf8_len(t)) == x);
    let r = t.subrange(0, i) + c + t.subrange(i, t.len() as int);
    assert(simple_apply(t, range, c) == Some(r));
    assert(r.subrange(0, i) =~= t.subrange(0, i));
    assert(r.subrange(i, i + c.len()) =~= c);
    assert(r.subrange(i + c.len(), r.len() as int) =~= t.subrange(i, t.len() as int));
}

/// The character position where the first `b` bytes end, if any.
fn byte_to_char(s: &Vec<char>, b: u128) -> (r: Option<usize>)
    ensures
        match r {
            Some(i) => char_at_byte(s@, b as nat) == Some(i as nat) && i <= s@.len(),
            None => char_at_byte(s@, b as nat) is None,
        },
{
    let n = s.len();
    let mut i: usize = 0;
    let mut acc: u128 = 0;
    while i < n && acc < b
        invariant
            i <= n,
            n == s@.len(),
            acc == utf8_len(s@.subrange(0, i as int)),
            acc <= 4 * i,
            forall|j: int| 0 <= j < i ==> utf8_len(#[trigger] s@.subrange(0, j)) < b,
        decreases n - i,
    {
        proof {
            assert(s@.subrange(0, i + 1).drop_last() =~= s@.subrange(0, i as int));
        }
        acc = acc + char_utf8_len_exec(s[i]);
        i = i + 1;
    }
    if acc == b {
        proof {
            assert(exists|x: int| 0 <= x <= s@.len() && utf8_len(s@.subrange(0, x)) == b);
            let x = choose|x: int| 0 <= x <= s@.len() && utf8_len(s@.subrange(0, x)) == b;
            assert(x == i as int) by {
                if x < i as int {
                    lemma_utf8_prefix_grows(s@, x, i as int);
                }
                if x > i as int {
                    lemma_utf8_prefix_grows(s@, i as int, x);
                }
            }
        }
        Some(i)
    } else {
        proof {
            assert forall|x: int| 0 <= x <= s@.len() implies utf8_len(s@.subrange(0, x)) != b by {
                if x < i as int {
                } else if x > i as int {
                    lemma_utf8_prefix_grows(s@, i as int, x);
                }
            }
        }
        None
    }
}

/// The simple CRDT an antimatter merge type keeps: a text and a count of
/// the patches applied.
#[derive(Debug)]
pub struct SimpleCrdt {
    pub content: String,
    pub seq: u64,
}

/// A text from characters, with the byte position `start..end` replaced.
fn splice_chars(cs: &Vec<char>, i: usize, c: &str, j: usize) -> (r: String)
    requires
        i <= cs@.len(),
        j <= cs@.len(),
    ensures
        r@ == cs@.subrange(0, i as int) + c@ + cs@.subrange(j as int, cs@.len() as int),
{
    let mut r = String::new();
    let mut k: usize = 0;
    while k < i
        invariant
            k <= i,
            i <= cs@.len(),
            r@ == cs@.subrange(0, k as int),
        decreases i - k,
    {
        crate::text::push_char(&mut r, cs[k]);
        proof {
            assert(r@ =~= cs@.subrange(0, k + 1));
        }
        k = k + 1;
    }
    r.append(c);
    let n = cs.len();
    let ghost base = r@;
    let mut k2: usize = j;
    while k2 < n
        invariant
            j <= k2 <= n,
            n == cs@.len(),
            r@ == base + cs@.subrange(j as int, k2 as int),
        decreases n - k2,
    {
        crate::text::push_char(&mut r, cs[k2]);
        proof {
            assert(r@ =~= base + cs@.subrange(j as int, k2 + 1));
        }
        k2 = k2 + 1;
    }
    r
}

impl SimpleCrdt {
    /// The text after `range` and `c` (see `simple_apply`), `None` where a
    /// byte position falls inside a character.
    fn patched(&self, range: &str, c: &str) -> (r: Option<String>)
        ensures
            match r {
                Some(t) => simple_apply(self.content@, range@, c@) == Some(t@),
                None => simple_apply(self.content@, range@, c@) is None,
            },
    {
        let cs = chars_of(self.content.as_str());
        let l = utf8_len_exec(self.content.as_str());
        let has_colon = find_char_from(range, ':', 0).is_some();
        proof {
            if has_colon {
                assert(range@.contains(':'));
            } else {
                assert(!range@.contains(':'));
            }
        }
        if has_colon {
            match crate::diamond_merge::split_once_only(range, ':') {
                Some((a, b)) => {
                    match (parse_usize(a.as_str()), parse_usize(b.as_str())) {
                        (Some(x), Some(y)) => {
                            let xs: u128 = if (x as u128) < l { x as u128 } else { l };
                            let ys: u128 = if (y as u128) < l { y as u128 } else { l };
                            match (byte_to_char(&cs, xs), byte_to_char(&cs, ys)) {
                                (Some(i), Some(j)) => Some(splice_chars(&cs, i, c, j)),
                                _ => None,
                            }
                        },
                        _ => Some(String::from_str(self.content.as_str())),
                    }
                },
                None => Some(String::from_str(self.content.as_str())),
            }
        } else {
            match parse_usize(range) {
                Some(p) => {
                    let ps: u128 = if (p as u128) < l { p as u128 } else { l };
                    match byte_to_char(&cs, ps) {
                        Some(i) => Some(splice_chars(&cs, i, c, i)),
                        None => None,
                    }
                },
                None => Some(String::from_str(c)),
            }
        }
    }
}

impl PrunableCrdt for SimpleCrdt {
    /// The count goes up by one (wrapping to 0 at the top) and the text
    /// becomes `simple_apply` of the patch where that gives one.
    open spec fn patch_applied(old: Self, new: Self, patch: (Seq<char>, Seq<char>, bool)) -> bool {
        &&& new.seq == (if old.seq < u64::MAX { old.seq + 1 } else { 0 })
        &&& match simple_apply(old.content@, patch.0, if patch.2 { patch.1 } else { Seq::empty() }) {
            Some(t) => new.content@ == t,
            None => new.content == old.content,
        }
    }

    /// Nothing changes.
    open spec fn version_pruned(old: Self, new: Self, version: Seq<char>) -> bool {
        new == old
    }

    /// Apply a patch (see `simple_apply`) and count it.  A patch whose
    /// byte position falls inside a character changes no text.
    fn apply_patch(&mut self, patch: Patch)
        ensures
            final(self).seq == (if old(self).seq < u64::MAX { old(self).seq + 1 } else { 0 }),
            match simple_apply(old(self).content@, patch.range@, text_of(patch.content)) {
                Some(t) => final(self).content@ == t,
                None => final(self).content == old(self).content,
            },
    {
        self.seq = if self.seq < u64::MAX { self.seq + 1 } else { 0 };
        let c = match &patch.content {
            PatchContent::Text(s) => String::from_str(s.as_str()),
            PatchContent::Json(_) => String::new(),
        };
        match self.patched(patch.range.as_str(), c.as_str()) {
            Some(t) => {
                self.content = t;
            },
            None => {},
        }
    }

    /// Nothing to prune.
    fn prune(&mut self, version: &str)
        ensures
            *final(self) == *old(self),
    {
    }

    /// The number of patches applied.
    fn get_next_seq(&self) -> (n: u64)
        ensures
            n == self.seq,
    {
        self.seq
    }

    /// For a peer that knows nothing, the whole text as one version
    /// `initial` without parents; nothing otherwise.
    fn generate_braid(&self, known_versions: &StrMap<bool>) -> (r: Vec<(String, StrMap<bool>, Vec<Patch>)>)
        ensures
            known_versions@.dom().len() == 0 ==> r@.len() == 1 && r@[0].0@ == seq!['i', 'n', 'i', 't', 'i', 'a', 'l']
                && r@[0].1@ == Map::<Seq<char>, bool>::empty() && r@[0].2@.len() == 1
                && r@[0].2@[0].range@.len() == 0 && r@[0].2@[0].content == PatchContent::Text(r@[0].2@[0].content->Text_0)
                && r@[0].2@[0].content->Text_0@ == self.content@,
            known_versions@.dom().len() > 0 ==> r@.len() == 0,
    {
        if known_versions.len() == 0 {
            let mut patches: Vec<Patch> = Vec::new();
            patches.push(Patch { range: String::new(), content: PatchContent::Text(String::from_str(self.content.as_str())) });
            let mut r: Vec<(String, StrMap<bool>, Vec<Patch>)> = Vec::new();
            proof {
                reveal_strlit("initial");
            }
            let name = String::from_str("initial");
            proof {
                assert(name@ =~= seq!['i', 'n', 'i', 't', 'i', 'a', 'l']);
            }
            r.push((name, StrMap::new(), patches));
            r
        } else {
            Vec::new()
        }
    }
}

/// A text kept by Antimatter, with pruning.  No connection is opened on
/// it, so its updates send nothing and need no clock.
pub struct AntimatterMergeType {
    pub crdt: AntimatterCrdt<SimpleCrdt>,
}

/// Whether a content is text equal to `t`.
pub open spec fn same_text(c: PatchContent, t: Seq<char>) -> bool {
    c matches PatchContent::Text(s) && s@ == t
}

impl AntimatterMergeType {
    /// No connection is open.
    pub open spec fn wf(&self) -> bool {
        self.crdt.conns@ == Map::<Seq<char>, crate::antimatter::ConnectionState>::empty()
    }

    /// An empty text kept for the peer `peer_id`.
    pub fn new(peer_id: &str) -> (m: Self)
        ensures
            m.wf(),
            m.crdt.id@ == peer_id@,
            m.crdt.crdt.content@.len() == 0,
            m.crdt.t@ == Map::<Seq<char>, StrSet>::empty(),
            m.crdt.outbox@.len() == 0,
            m.crdt.conn_count == 0,
    {
        AntimatterMergeType {
            crdt: AntimatterCrdt::new(Some(String::from_str(peer_id)), SimpleCrdt { content: String::new(), seq: 0 }),
        }
    }

    /// An empty text kept for the peer `peer_id` (see `new`).
    pub fn new_native(peer_id: &str) -> (m: Self)
        ensures
            m.wf(),
            m.crdt.id@ == peer_id@,
            m.crdt.crdt.content@.len() == 0,
            m.crdt.t@ == Map::<Seq<char>, StrSet>::empty(),
            m.crdt.outbox@.len() == 0,
            m.crdt.conn_count == 0,
    {
        Self::new(peer_id)
    }

    /// The messages waiting to be sent, which leave the queue.
    pub fn drain_messages(&mut self) -> (msgs: Vec<Message>)
        ensures
            msgs@ == old(self).crdt.outbox@,
            final(self).crdt.outbox@.len() == 0,
            final(self).crdt == (AntimatterCrdt { outbox: final(self).crdt.outbox, ..old(self).crdt }),
    {
        let mut out: Vec<Message> = Vec::new();
        std::mem::swap(&mut out, &mut self.crdt.outbox);
        out
    }

    /// The name of this merge type.
    pub fn name(&self) -> (n: &str)
        ensures
            n@ == seq!['a', 'n', 't', 'i', 'm', 'a', 't', 't', 'e', 'r'],
    {
        proof {
            reveal_strlit("antimatter");
        }
        "antimatter"
    }

    /// Take `content` as the text and record it as a new local version
    /// (see `AntimatterCrdt::update`) on top of the frontier.
    pub fn initialize(&mut self, content: &str) -> (r: MergeResult)
        requires
            old(self).wf(),
            old(self).crdt.conn_count < u64::MAX - 2,
        ensures
            final(self).wf(),
            r.success && r.rebased_patches@.len() == 0 && r.error is None,
            r.version matches Some(v) && v@ == old(self).crdt.id@ + seq!['-'] + decimal((old(self).crdt.conn_count + 1) as nat),
            final(self).crdt.graph() == add_graph(old(self).crdt.graph(), r.version->0@,
                old(self).crdt.current_version@, old(self).crdt.current_version.key_order()),
            final(self).crdt.conn_count == old(self).crdt.conn_count + 1,
            final(self).crdt.outbox == old(self).crdt.outbox,
            final(self).crdt.crdt.content@ == content@,
    {
        self.crdt.crdt.content = String::from_str(content);
        let ghost mid = self.crdt;
        let mut patches: Vec<Patch> = Vec::new();
        patches.push(Patch { range: String::new(), content: PatchContent::Text(String::from_str(content)) });
        let ghost pv = patches@.map_values(|p: Patch| patch_view(p));
        proof {
            assert(pv[0] == (Seq::<char>::empty(), content@, true));
        }
        let version = self.crdt.update(patches, 0);
        proof {
            assert(updated(mid, self.crdt, version@, 0));
            assert(mid.conns@.dom().len() == 0);
            if !mid.t@.contains_key(version@) {
                let states = choose|states: Seq<SimpleCrdt>| #[trigger] patch_chain(states, pv) && states[0] == mid.crdt && states.last() == self.crdt.crdt;
                assert(SimpleCrdt::patch_applied(states[0], states[1], pv[0]));
                assert(parse_usize_spec(Seq::<char>::empty()) is None);
                assert(!Seq::<char>::empty().contains(':'));
                assert(simple_apply(content@, Seq::<char>::empty(), content@) == Some(content@));
            }
        }
        MergeResult::success(Some(version), Vec::new())
    }

    /// Apply a patch from a peer: without a version it fails; otherwise its
    /// version is added with its parents and the patch (see
    /// `AntimatterCrdt::add_version`), and the patch is passed on when the
    /// version is new.
    pub fn apply_patch(&mut self, patch: MergePatch) -> (r: MergeResult)
        requires
            old(self).wf(),
        ensures
            final(self).wf(),
            patch.version is None ==> *final(self) == *old(self) && !r.success && r.error is Some,
            patch.version is Some ==> {
                &&& r.success && r.error is None
                &&& r.version == patch.version
                &&& exists|pm: StrMap<bool>| {
                    &&& #[trigger] pm@.dom() == string_views(patch.parents@).to_set()
                    &&& final(self).crdt.graph() == add_graph(old(self).crdt.graph(), patch.version->0@, pm@, pm.key_order())
                }
                &&& final(self).crdt.conn_count == old(self).crdt.conn_count
                &&& final(self).crdt.outbox == old(self).crdt.outbox
                &&& if old(self).crdt.t@.contains_key(patch.version->0@) {
                    r.rebased_patches@.len() == 0
                } else {
                    &&& r.rebased_patches@.len() == 1
                    &&& r.rebased_patches@[0].range@ == patch.range@
                    &&& r.rebased_patches@[0].content.chars() == patch.content.chars()
                    &&& (r.rebased_patches@[0].content is Text) == (patch.content is Text)
                    &&& r.rebased_patches@[0].version is None
                }
            },
    {
        match patch.version {
            Some(v) => {
                let parents = true_map(&patch.parents);
                let ghost pm = parents;
                let mut internal: Vec<Patch> = Vec::new();
                internal.push(Patch { range: patch.range, content: patch.content });
                let rebased = self.crdt.add_version(String::from_str(v.as_str()), parents, internal);
                let mut out: Vec<MergePatch> = Vec::new();
                let mut rest = rebased;
                let ghost all = rest@;
                let total = rest.len();
                while rest.len() > 0
                    invariant
                        out@.len() + rest@.len() == all.len(),
                        all.len() <= usize::MAX,
                        rest@ == all.subrange(out@.len() as int, all.len() as int),
                        forall|j: int| 0 <= j < out@.len() ==> {
                            &&& (#[trigger] out@[j]).range@ == all[j].range@
                            &&& out@[j].content.chars() == all[j].content.chars()
                            &&& (out@[j].content is Text) == (all[j].content is Text)
                            &&& out@[j].version is None
                        },
                    decreases rest@.len(),
                {
                    let p = rest.remove(0);
                    let ghost k = out@.len();
                    proof {
                        assert(p == all[k as int]);
                        assert(rest@ =~= all.subrange(k as int + 1, all.len() as int));
                    }
                    out.push(MergePatch::new(p.range.as_str(), p.content));
                }
                proof {
                    assert(pm@.dom() == string_views(patch.parents@).to_set());
                }
                MergeResult::success(Some(v), out)
            },
            None => {
                proof {
                    reveal_strlit("No version provided for remote patch");
                }
                MergeResult::failure("No version provided for remote patch")
            },
        }
    }

    /// A local edit: a text patch with no range that holds the current
    /// text changes nothing; otherwise the patch becomes a new local
    /// version on top of the frontier (see `AntimatterCrdt::update`), and is
    /// returned with that version and the new frontier as its parents.
    pub fn local_edit(&mut self, patch: MergePatch) -> (r: MergeResult)
        requires
            old(self).wf(),
            old(self).crdt.conn_count < u64::MAX - 2,
        ensures
            final(self).wf(),
            same_text(patch.content, old(self).crdt.crdt.content@) && patch.range@.len() == 0 ==> {
                &&& *final(self) == *old(self)
                &&& r.success && r.version is None && r.rebased_patches@.len() == 0 && r.error is None
            },
            !(same_text(patch.content, old(self).crdt.crdt.content@) && patch.range@.len() == 0) ==> {
                &&& r.success && r.error is None
                &&& r.version matches Some(v) && v@ == old(self).crdt.id@ + seq!['-'] + decimal((old(self).crdt.conn_count + 1) as nat)
                &&& final(self).crdt.graph() == add_graph(old(self).crdt.graph(), r.version->0@,
                    old(self).crdt.current_version@, old(self).crdt.current_version.key_order())
                &&& final(self).crdt.conn_count == old(self).crdt.conn_count + 1
                &&& final(self).crdt.outbox == old(self).crdt.outbox
                &&& old(self).crdt.t@.contains_key(r.version->0@) ==> final(self).crdt.crdt == old(self).crdt.crdt
                &&& !old(self).crdt.t@.contains_key(r.version->0@) ==>
                    match simple_apply(old(self).crdt.crdt.content@, patch.range@, text_of(patch.content)) {
                        Some(t) => final(self).crdt.crdt.content@ == t,
                        None => final(self).crdt.crdt.content == old(self).crdt.crdt.content,
                    }
                &&& r.rebased_patches@.len() == 1
                &&& r.rebased_patches@[0].range@ == patch.range@
                &&& r.rebased_patches@[0].content == patch.content
                &&& r.rebased_patches@[0].version matches Some(v) && v@ == r.version->0@
                &&& r.rebased_patches@[0].parents@.len() == final(self).crdt.current_version.key_order().len()
                &&& forall|i: int| 0 <= i < r.rebased_patches@[0].parents@.len() ==>
                    #[trigger] r.rebased_patches@[0].parents@[i]@ == final(self).crdt.current_version.key_order()[i]
            },
    {
        let unchanged = match &patch.content {
            PatchContent::Text(s) => crate::collections::str_eq(s.as_str(), self.crdt.crdt.content.as_str()) && patch.range.unicode_len() == 0,
            PatchContent::Json(_) => false,
        };
        if unchanged {
            return MergeResult::success(None, Vec::new());
        }
        let ghost g0 = self.crdt;
        let mut patches: Vec<Patch> = Vec::new();
        patches.push(Patch { range: String::from_str(patch.range.as_str()), content: patch.content.duplicate() });
        let ghost pv = patches@.map_values(|p: Patch| patch_view(p));
        proof {
            assert(pv[0].0 == patch.range@);
            assert(pv[0].1 == patch.content.chars());
            assert(pv[0].2 == (patch.content is Text));
        }
        let version = self.crdt.update(patches, 0);
        proof {
            assert(updated(g0, self.crdt, version@, 0));
            assert(g0.conns@.dom().len() == 0);
            if !g0.t@.contains_key(version@) {
                let states = choose|states: Seq<SimpleCrdt>| #[trigger] patch_chain(states, pv) && states[0] == g0.crdt && states.last() == self.crdt.crdt;
                assert(SimpleCrdt::patch_applied(states[0], states[1], pv[0]));
                assert((if pv[0].2 { pv[0].1 } else { Seq::<char>::empty() }) == text_of(patch.content));
            }
        }
        let parents = self.crdt.current_version.keys();
        let out_patch = MergePatch::with_version(patch.range.as_str(), patch.content, String::from_str(version.as_str()), parents);
        let mut out: Vec<MergePatch> = Vec::new();
        out.push(out_patch);
        MergeResult::success(Some(version), out)
    }

    /// The text.
    pub fn get_content(&self) -> (s: String)
        ensures
            s@ == self.crdt.crdt.content@,
    {
        String::from_str(self.crdt.crdt.content.as_str())
    }

    /// The frontier.
    pub fn get_version(&self) -> (v: Vec<String>)
        ensures
            string_views(v@) == self.crdt.current_version.key_order(),
    {
        self.crdt.current_version.keys()
    }

    /// Each version of the DAG with its parents.
    pub fn get_all_versions(&self) -> (m: StrMap<Vec<String>>)
        ensures
            m@.dom() == self.crdt.t@.dom(),
            forall|k: Seq<char>| #[trigger] m@.contains_key(k) ==> string_views(m@[k]@).to_set() == self.crdt.t@[k]@,
    {
        let n = self.crdt.t.len();
        let mut m: StrMap<Vec<String>> = StrMap::new();
        let mut i: usize = 0;
        while i < n
            invariant
                i <= n,
                n == self.crdt.t.key_order().len(),
                forall|k: Seq<char>| self.crdt.t@.contains_key(k) <==> self.crdt.t.key_order().contains(k),
                forall|k: Seq<char>| m@.contains_key(k) <==> self.crdt.t.key_order().subrange(0, i as int).contains(k),
                forall|k: Seq<char>| #[trigger] m@.contains_key(k) ==> string_views(m@[k]@).to_set() == self.crdt.t@[k]@,
            decreases n - i,
        {
            let k = self.crdt.t.key_at(i);
            let ps = self.crdt.t.value_at(i);
            let list = ps.to_vec();
            let _ = ps.len();
            proof {
                assert(string_views(list@).to_set() =~= ps@);
                assert(self.crdt.t.key_order().subrange(0, i + 1) =~= self.crdt.t.key_order().subrange(0, i as int).push(k@));
                crate::prune::lemma_push_contains(self.crdt.t.key_order().subrange(0, i as int), k@);
            }
            m.insert(String::from_str(k.as_str()), list);
            i = i + 1;
        }
        proof {
            assert(self.crdt.t.key_order().subrange(0, n as int) =~= self.crdt.t.key_order());
            assert(m@.dom() =~= self.crdt.t@.dom());
        }
        m
    }

    /// One pruning pass (see `pruned`).
    pub fn prune(&mut self) -> (b: bool)
        ensures
            pruned(old(self).crdt, final(self).crdt, false, b),
    {
        self.crdt.prune(false)
    }

    /// Pruning is supported.
    pub fn supports_pruning(&self) -> (b: bool)
        ensures
            b,
    {
        true
    }
}

} // verus!
