//! The diamond merge type: a resource backed by a diamond-types CRDT.
use vstd::prelude::*;
use crate::collections::{StrMap, string_views};
use crate::json_crdt::PatchContent;
use crate::merge::{MergePatch, MergeResult};
use crate::diamond::{
    DiamondCRDT, splice_text, version_string, ops_len, remote_insert_done, remote_delete_done, usable_agent,
};
use crate::text::{trim, trim_seq, parse_usize, parse_usize_spec, find_char_from, substring};
use crate::mapping::{utf8_len, utf8_len_exec};

verus! {

/// Whether a character is a square bracket.
pub open spec fn is_bracket(c: char) -> bool {
    c == '[' || c == ']'
}

/// A text without its leading brackets.
pub open spec fn trim_front_brackets(s: Seq<char>) -> Seq<char>
    decreases s.len(),
{
    if s.len() > 0 && is_bracket(s[0]) { trim_front_brackets(s.drop_first()) } else { s }
}

/// A text without its trailing brackets.
pub open spec fn trim_back_brackets(s: Seq<char>) -> Seq<char>
    decreases s.len(),
{
    if s.len() > 0 && is_bracket(s.last()) { trim_back_brackets(s.drop_last()) } else { s }
}

/// A text without its leading and trailing brackets.
pub open spec fn trim_brackets(s: Seq<char>) -> Seq<char> {
    trim_back_brackets(trim_front_brackets(s))
}

/// The two sides of the only `c` of a text, if it has exactly one.
pub open spec fn one_split(s: Seq<char>, c: char) -> Option<(Seq<char>, Seq<char>)> {
    if exists|k: int| 0 <= k < s.len() && s[k] == c && forall|j: int| 0 <= j < s.len() && j != k ==> s[j] != c {
        let k = choose|k: int| 0 <= k < s.len() && s[k] == c && forall|j: int| 0 <= j < s.len() && j != k ==> s[j] != c;
        Some((s.subrange(0, k), s.subrange(k + 1, s.len() as int)))
    } else {
        None
    }
}

/// The two parts of a range, split at `:` when it has one, otherwise at
/// `,`, when splitting gives exactly two.
pub open spec fn two_parts(raw: Seq<char>) -> Option<(Seq<char>, Seq<char>)> {
    if raw.contains(':') {
        one_split(raw, ':')
    } else if raw.contains(',') {
        one_split(raw, ',')
    } else {
        None
    }
}

/// What a range asks for.
pub enum EditRange {
    /// The characters `start..end`.
    At(nat, nat),
    /// The whole text.
    Whole,
    /// Nothing this merge type understands.
    Ignored,
}

/// What a range asks for: without its brackets, two numbers separated by
/// `:` or `,` (each trimmed) are positions; nothing at all is the whole
/// text; anything else is ignored.
pub open spec fn edit_range(r: Seq<char>) -> EditRange {
    let raw = trim_brackets(r);
    match two_parts(raw) {
        Some(parts) => match (parse_usize_spec(trim_seq(parts.0)), parse_usize_spec(trim_seq(parts.1))) {
            (Some(x), Some(y)) => EditRange::At(x, y),
            _ => EditRange::Ignored,
        },
        None => if raw.len() == 0 { EditRange::Whole } else { EditRange::Ignored },
    }
}

/// The part of a version before its first `-` (all of it without one).
pub open spec fn before_dash(v: Seq<char>) -> Seq<char> {
    if v.contains('-') {
        let k = choose|k: int| 0 <= k < v.len() && v[k] == '-' && forall|j: int| 0 <= j < k ==> v[j] != '-';
        v.subrange(0, k)
    } else {
        v
    }
}

/// The agent a remote patch is recorded for: the part of its version
/// before the first `-`, or `remote` without a version.
pub open spec fn agent_of(version: Option<String>) -> Seq<char> {
    match version {
        Some(v) => before_dash(v@),
        None => seq!['r', 'e', 'm', 'o', 't', 'e'],
    }
}

/// Leading brackets can go.
proof fn lemma_trim_front(s: Seq<char>, k: int)
    requires
        0 <= k <= s.len(),
        forall|j: int| 0 <= j < k ==> is_bracket(s[j]),
        k == s.len() || !is_bracket(s[k]),
    ensures
        trim_front_brackets(s) == s.subrange(k, s.len() as int),
    decreases k,
{
    if k == 0 {
        assert(s.subrange(0, s.len() as int) =~= s);
    } else {
        let t = s.drop_first();
        assert forall|j: int| 0 <= j < k - 1 implies is_bracket(t[j]) by {
            assert(t[j] == s[j + 1]);
        }
        if k < s.len() {
            assert(t[k - 1] == s[k]);
        }
        lemma_trim_front(t, k - 1);
        assert(t.subrange(k - 1, t.len() as int) =~= s.subrange(k, s.len() as int));
    }
}

/// Trailing brackets can go.
proof fn lemma_trim_back(s: Seq<char>, k: int)
    requires
        0 <= k <= s.len(),
        forall|j: int| k <= j < s.len() ==> is_bracket(s[j]),
        k == 0 || !is_bracket(s[k - 1]),
    ensures
        trim_back_brackets(s) == s.subrange(0, k),
    decreases s.len() - k,
{
    if k == s.len() {
        assert(s.subrange(0, k) =~= s);
    } else {
        let t = s.drop_last();
        assert(is_bracket(s.last()));
        assert forall|j: int| k <= j < t.len() implies is_bracket(t[j]) by {
            assert(t[j] == s[j]);
        }
        if k > 0 {
            assert(t[k - 1] == s[k - 1]);
        }
        lemma_trim_back(t, k);
        assert(t.subrange(0, k) =~= s.subrange(0, k));
    }
}

/// A text without its leading and trailing brackets.
fn strip_brackets(r: &str) -> (out: String)
    ensures
        out@ == trim_brackets(r@),
{
    let n = r.unicode_len();
    let mut a: usize = 0;
    while a < n && (r.get_char(a) == '[' || r.get_char(a) == ']')
        invariant
            a <= n,
            n == r@.len(),
            forall|j: int| 0 <= j < a ==> is_bracket(r@[j]),
        decreases n - a,
    {
        a = a + 1;
    }
    proof {
        lemma_trim_front(r@, a as int);
    }
    let front = substring(r, a, n);
    let m = front.unicode_len();
    let mut b: usize = m;
    while b > 0 && (front.get_char(b - 1) == '[' || front.get_char(b - 1) == ']')
        invariant
            b <= m,
            m == front@.len(),
            forall|j: int| b <= j < m ==> is_bracket(front@[j]),
        decreases b,
    {
        b = b - 1;
    }
    proof {
        lemma_trim_back(front@, b as int);
    }
    substring(front.as_str(), 0, b)
}

/// The two sides of the only `c` of a text, if it has exactly one.
pub(crate) fn split_once_only(s: &str, c: char) -> (out: Option<(String, String)>)
    ensures
        match out {
            Some((a, b)) => one_split(s@, c) == Some((a@, b@)),
            None => one_split(s@, c) is None,
        },
{
    let n = s.unicode_len();
    match find_char_from(s, c, 0) {
        None => {
            None
        },
        Some(k) => {
            match find_char_from(s, c, k + 1) {
                Some(k2) => {
                    proof {
                        if exists|x: int| 0 <= x < s@.len() && s@[x] == c && forall|j: int| 0 <= j < s@.len() && j != x ==> s@[j] != c {
                            let x = choose|x: int| 0 <= x < s@.len() && s@[x] == c && forall|j: int| 0 <= j < s@.len() && j != x ==> s@[j] != c;
                            assert(s@[k as int] == c && s@[k2 as int] == c);
                        }
                    }
                    None
                },
                None => {
                    let ghost kk = k as int;
                    proof {
                        assert forall|j: int| 0 <= j < s@.len() && j != kk implies s@[j] != c by {
                            if j < kk {
                            }
                        }
                        let x = choose|x: int| 0 <= x < s@.len() && s@[x] == c && forall|j: int| 0 <= j < s@.len() && j != x ==> s@[j] != c;
                        assert(x == kk) by {
                            if x != kk {
                                assert(s@[kk] != c);
                            }
                        }
                    }
                    Some((substring(s, 0, k), substring(s, k + 1, n)))
                },
            }
        },
    }
}

/// What a range asks for, as computed.
enum RangeKind {
    At(usize, usize),
    Whole,
    Ignored,
}

/// What a range asks for (see `edit_range`).
fn parse_edit_range(r: &str) -> (k: RangeKind)
    ensures
        match k {
            RangeKind::At(x, y) => edit_range(r@) == EditRange::At(x as nat, y as nat),
            RangeKind::Whole => edit_range(r@) == EditRange::Whole,
            RangeKind::Ignored => edit_range(r@) == EditRange::Ignored,
        },
{
    let raw = strip_brackets(r);
    let has_colon = find_char_from(raw.as_str(), ':', 0).is_some();
    let has_comma = find_char_from(raw.as_str(), ',', 0).is_some();
    proof {
        if has_colon {
            let k = choose|k: int| 0 <= k < raw@.len() && raw@[k] == ':';
            assert(raw@.contains(':'));
        } else {
            assert(!raw@.contains(':'));
        }
        if has_comma {
            assert(raw@.contains(','));
        } else {
            assert(!raw@.contains(','));
        }
    }
    let parts = if has_colon {
        split_once_only(raw.as_str(), ':')
    } else if has_comma {
        split_once_only(raw.as_str(), ',')
    } else {
        None
    };
    match parts {
        Some((a, b)) => {
            let ta = trim(a.as_str());
            let tb = trim(b.as_str());
            match (parse_usize(ta.as_str()), parse_usize(tb.as_str())) {
                (Some(x), Some(y)) => RangeKind::At(x, y),
                _ => RangeKind::Ignored,
            }
        },
        None => {
            if raw.unicode_len() == 0 {
                RangeKind::Whole
            } else {
                RangeKind::Ignored
            }
        },
    }
}

/// The agent a remote patch is recorded for (see `agent_of`).
fn agent_name(version: &Option<String>) -> (a: String)
    ensures
        a@ == agent_of(*version),
{
    match version {
        Some(v) => {
            match find_char_from(v.as_str(), '-', 0) {
                Some(k) => {
                    proof {
                        assert(v@.contains('-'));
                        let x = choose|x: int| 0 <= x < v@.len() && v@[x] == '-' && forall|j: int| 0 <= j < x ==> v@[j] != '-';
                        assert(x == k as int) by {
                            if x < k as int {
                                assert(v@[x] != '-');
                            }
                            if x > k as int {
                                assert(v@[k as int] != '-');
                            }
                        }
                    }
                    substring(v.as_str(), 0, k)
                },
                None => {
                    proof {
                        assert(!v@.contains('-'));
                    }
                    String::from_str(v.as_str())
                },
            }
        },
        None => {
            proof {
                reveal_strlit("remote");
                assert("remote"@ =~= seq!['r', 'e', 'm', 'o', 't', 'e']);
            }
            String::from_str("remote")
        },
    }
}

/// The characters of a patch's content.
fn content_chars(c: &PatchContent) -> (s: String)
    ensures
        s@ == c.chars(),
{
    match c {
        PatchContent::Text(t) => String::from_str(t.as_str()),
        PatchContent::Json(t) => String::from_str(t.as_str()),
    }
}

/// Borrowed views of a list of strings.
fn borrow_all(v: &Vec<String>) -> (r: Vec<&str>)
    ensures
        crate::diamond::str_views(r@) == string_views(v@),
{
    let mut r: Vec<&str> = Vec::new();
    let mut i: usize = 0;
    while i < v.len()
        invariant
            i <= v@.len(),
            crate::diamond::str_views(r@) == string_views(v@).subrange(0, i as int),
        decreases v@.len() - i,
    {
        let ghost before = r@;
        r.push(v[i].as_str());
        proof {
            assert(crate::diamond::str_views(r@) =~= crate::diamond::str_views(before).push(v@[i as int]@));
            assert(string_views(v@).subrange(0, i + 1) =~= string_views(v@).subrange(0, i as int).push(v@[i as int]@));
        }
        i = i + 1;
    }
    proof {
        assert(string_views(v@).subrange(0, v@.len() as int) =~= string_views(v@));
    }
    r
}

/// A resource backed by a diamond-types CRDT.
#[derive(Debug)]
pub struct DiamondMergeType {
    pub crdt: DiamondCRDT,
}

/// Whether a result is a success with the version `v` and no patches.
pub open spec fn plain_success(r: MergeResult, v: Option<Seq<char>>) -> bool {
    &&& r.success
    &&& r.rebased_patches@.len() == 0
    &&& r.error is None
    &&& match v {
        Some(x) => r.version matches Some(y) && y@ == x,
        None => r.version is None,
    }
}

/// The document of a local edit that succeeds, and whether it succeeds:
/// positions insert (when equal) or replace (when not), which needs a
/// non-empty insertion or a non-empty range within the text; the whole
/// text is replaced by a non-empty text when its length in bytes is no
/// more than its length in characters (an ASCII text); an ignored range
/// changes nothing.
pub open spec fn local_plan(text: Seq<char>, range: Seq<char>, c: Seq<char>) -> Option<Seq<char>> {
    match edit_range(range) {
        EditRange::At(s, e) => if s == e {
            if c.len() > 0 && s <= text.len() { Some(splice_text(text, s as int, s as int, c)) } else { None }
        } else {
            if s < e <= text.len() { Some(splice_text(text, s as int, e as int, c)) } else { None }
        },
        EditRange::Whole => if c.len() > 0 && utf8_len(text) <= text.len() { Some(c) } else { None },
        EditRange::Ignored => Some(text),
    }
}

/// A local edit on the characters `s..e` of the text (`s < e`, within the
/// text) succeeds and leaves the text before `s`, then the patch's
/// content, then the text from `e`: the range is gone and the content
/// stands at `s`.
pub proof fn lemma_local_replace(text: Seq<char>, range: Seq<char>, c: Seq<char>, s: nat, e: nat)
    requires
        edit_range(range) == EditRange::At(s, e),
        s < e <= text.len(),
    ensures
        local_plan(text, range, c) is Some,
        local_plan(text, range, c)->0.len() == text.len() - (e - s) + c.len(),
        local_plan(text, range, c)->0.subrange(0, s as int) == text.subrange(0, s as int),
        local_plan(text, range, c)->0.subrange(s as int, s as int + c.len()) == c,
        local_plan(text, range, c)->0.subrange(s as int + c.len(), text.len() - (e - s) + c.len() as int) == text.subrange(e as int, text.len() as int),
{
    let r = local_plan(text, range, c)->0;
    assert(r.subrange(0, s as int) =~= text.subrange(0, s as int));
    assert(r.subrange(s as int, s as int + c.len()) =~= c);
    assert(r.subrange(s as int + c.len(), r.len() as int) =~= text.subrange(e as int, text.len() as int));
}

/// A local edit at one position `s` within the text with some content
/// succeeds and puts the content at `s`, keeping the text around it.
pub proof fn lemma_local_insert(text: Seq<char>, range: Seq<char>, c: Seq<char>, s: nat)
    requires
        edit_range(range) == EditRange::At(s, s),
        s <= text.len(),
        c.len() > 0,
    ensures
        local_plan(text, range, c) is Some,
        local_plan(text, range, c)->0.len() == text.len() + c.len(),
        local_plan(text, range, c)->0.subrange(0, s as int) == text.subrange(0, s as int),
        local_plan(text, range, c)->0.subrange(s as int, s as int + c.len()) == c,
        local_plan(text, range, c)->0.subrange(s as int + c.len(), (text.len() + c.len()) as int) == text.subrange(s as int, text.len() as int),
{
    let r = local_plan(text, range, c)->0;
    assert(r.subrange(0, s as int) =~= text.subrange(0, s as int));
    assert(r.subrange(s as int, s as int + c.len()) =~= c);
    assert(r.subrange(s as int + c.len(), r.len() as int) =~= text.subrange(s as int, text.len() as int));
}

/// Deleting then inserting at the same place is one splice.
proof fn lemma_splice_twice(t: Seq<char>, s: int, e: int, c: Seq<char>)
    requires
        0 <= s <= e <= t.len(),
    ensures
        splice_text(splice_text(t, s, e, Seq::empty()), s, s, c) == splice_text(t, s, e, c),
{
    assert(splice_text(splice_text(t, s, e, Seq::empty()), s, s, c) =~= splice_text(t, s, e, c));
}

/// A text takes at least one byte per character.
proof fn lemma_utf8_at_least(t: Seq<char>)
    ensures
        utf8_len(t) >= t.len(),
    decreases t.len(),
{
    if t.len() > 0 {
        lemma_utf8_at_least(t.drop_last());
    }
}

/// An optional version by its view.
pub open spec fn opt_view(v: Option<String>) -> Option<Seq<char>> {
    match v {
        Some(x) => Some(x@),
        None => None,
    }
}

/// What a remote patch does to the CRDT, and whether it succeeds (`ok`).
/// It is recorded for the agent named by its version, at its parents, and
/// its version names what it makes.  Equal positions insert the content;
/// other positions delete the range and then insert the content, if any,
/// at its start; the whole text is deleted (as many characters as its
/// length in bytes) and the content inserted; an ignored range changes
/// nothing.  Each step is checked (see `remote_insert_done` and
/// `remote_delete_done`): the first that cannot be made stops the patch,
/// which then fails.
pub open spec fn remote_applied(old: DiamondCRDT, new: DiamondCRDT, patch: MergePatch, ok: bool) -> bool {
    let agent = agent_of(patch.version);
    let parents = string_views(patch.parents@);
    let vid = opt_view(patch.version);
    let c = patch.content.chars();
    match edit_range(patch.range@) {
        EditRange::At(s, e) => if s == e {
            exists|t: Option<usize>| #[trigger] remote_insert_done(old, new, agent, parents, s as usize, c, vid, t) && ok == (t is Some)
        } else {
            exists|mid: DiamondCRDT, t1: Option<usize>| {
                &&& #[trigger] remote_delete_done(old, mid, agent, parents, s as usize, e as usize, vid, t1)
                &&& t1 is None ==> new == old && !ok
                &&& t1 is Some ==> if c.len() > 0 {
                    exists|t2: Option<usize>| #[trigger] remote_insert_done(mid, new, agent, parents, s as usize, c, vid, t2) && ok == (t2 is Some)
                } else {
                    new == mid && ok
                }
            }
        },
        EditRange::Whole => {
            let b = utf8_len(old.text()) as usize;
            if b > 0 {
                exists|mid: DiamondCRDT, t1: Option<usize>| {
                    &&& #[trigger] remote_delete_done(old, mid, agent, parents, 0, b, None, t1)
                    &&& t1 is None ==> new == old && !ok
                    &&& t1 is Some ==> exists|t2: Option<usize>| #[trigger] remote_insert_done(mid, new, agent, parents, 0, c, vid, t2)
                        && ok == (t2 is Some)
                }
            } else {
                exists|t: Option<usize>| #[trigger] remote_insert_done(old, new, agent, parents, 0, c, vid, t) && ok == (t is Some)
            }
        },
        EditRange::Ignored => new == old && ok,
    }
}

impl DiamondMergeType {
    /// An empty document for the agent `agent_id`.
    pub fn new(agent_id: &str) -> (m: Self)
        ensures
            m.crdt.wf(),
            m.crdt.text() == Seq::<char>::empty(),
            m.crdt.agent() == agent_id@,
    {
        DiamondMergeType { crdt: DiamondCRDT::new(agent_id) }
    }

    /// The name of this merge type.
    pub fn name(&self) -> (n: &str)
        ensures
            n@ == seq!['d', 'i', 'a', 'm', 'o', 'n', 'd'],
    {
        proof {
            reveal_strlit("diamond");
        }
        "diamond"
    }

    /// Replace the document by `content`: its characters are deleted as
    /// many as its length in bytes, and `content` is inserted.  This needs
    /// a non-empty content and an ASCII document (whose bytes are its
    /// characters); otherwise nothing changes and the merge fails.
    pub fn initialize(&mut self, content: &str) -> (r: MergeResult)
        requires
            old(self).crdt.wf(),
            usable_agent(old(self).crdt.agent()),
        ensures
            final(self).crdt.wf(),
            content@.len() > 0 && utf8_len(old(self).crdt.text()) <= old(self).crdt.text().len() ==> {
                &&& final(self).crdt.text() == content@
                &&& final(self).crdt.agent() == old(self).crdt.agent()
                &&& plain_success(r, Some(version_string(final(self).crdt.agent(), ops_len(final(self).crdt.ops()))))
            },
            !(content@.len() > 0 && utf8_len(old(self).crdt.text()) <= old(self).crdt.text().len()) ==> {
                &&& *final(self) == *old(self)
                &&& !r.success && r.error is Some
            },
    {
        let current = self.crdt.content();
        let len = utf8_len_exec(current.as_str());
        let chars = current.unicode_len();
        proof {
            lemma_utf8_at_least(current@);
        }
        if content.unicode_len() == 0 || len > chars as u128 {
            proof {
                reveal_strlit("Cannot initialize");
            }
            return MergeResult::failure("Cannot initialize");
        }
        if len > 0 {
            self.crdt.add_delete(0..(len as usize));
            proof {
                assert(splice_text(old(self).crdt.text(), 0, len as int, Seq::<char>::empty()) =~= Seq::<char>::empty());
            }
        }
        self.crdt.add_insert(0, content);
        proof {
            assert(splice_text(Seq::<char>::empty(), 0, 0, content@) =~= content@);
            if len == 0 {
                assert(old(self).crdt.text() =~= Seq::<char>::empty());
            }
        }
        MergeResult::success(Some(self.crdt.get_version()), Vec::new())
    }

    /// A local edit (see `local_plan`).  When it succeeds the patch is
    /// returned with the new version as its version and only parent.
    pub fn local_edit(&mut self, patch: MergePatch) -> (r: MergeResult)
        requires
            old(self).crdt.wf(),
            usable_agent(old(self).crdt.agent()),
        ensures
            final(self).crdt.wf(),
            match local_plan(old(self).crdt.text(), patch.range@, patch.content.chars()) {
                Some(t) => {
                    &&& final(self).crdt.text() == t
                    &&& final(self).crdt.agent() == old(self).crdt.agent()
                    &&& r.success && r.error is None
                    &&& r.version matches Some(v) && v@ == version_string(final(self).crdt.agent(), ops_len(final(self).crdt.ops()))
                    &&& r.rebased_patches@.len() == 1
                    &&& r.rebased_patches@[0].range == patch.range
                    &&& r.rebased_patches@[0].content == patch.content
                    &&& r.rebased_patches@[0].version matches Some(v) && v@ == version_string(final(self).crdt.agent(), ops_len(final(self).crdt.ops()))
                    &&& r.rebased_patches@[0].parents@.len() == 1
                    &&& r.rebased_patches@[0].parents@[0]@ == version_string(final(self).crdt.agent(), ops_len(final(self).crdt.ops()))
                },
                None => *final(self) == *old(self) && !r.success && r.error is Some,
            },
    {
        let content_str = content_chars(&patch.content);
        let kind = parse_edit_range(patch.range.as_str());
        let text_len = self.crdt.content().unicode_len();
        match kind {
            RangeKind::At(start, end) => {
                if start == end {
                    if content_str.unicode_len() == 0 || start > text_len {
                        proof {
                            reveal_strlit("Invalid edit");
                        }
                        return MergeResult::failure("Invalid edit");
                    }
                    self.crdt.add_insert(start, content_str.as_str());
                } else {
                    if !(start < end && end <= text_len) {
                        proof {
                            reveal_strlit("Invalid edit");
                        }
                        return MergeResult::failure("Invalid edit");
                    }
                    self.crdt.add_delete(start..end);
                    if content_str.unicode_len() > 0 {
                        self.crdt.add_insert(start, content_str.as_str());
                        proof {
                            lemma_splice_twice(old(self).crdt.text(), start as int, end as int, content_str@);
                        }
                    } else {
                        proof {
                            assert(splice_text(old(self).crdt.text(), start as int, end as int, content_str@)
                                =~= splice_text(old(self).crdt.text(), start as int, end as int, Seq::<char>::empty()));
                        }
                    }
                }
            },
            RangeKind::Whole => {
                let current = self.crdt.content();
                let len = utf8_len_exec(current.as_str());
                proof {
                    lemma_utf8_at_least(current@);
                }
                if content_str.unicode_len() == 0 || len > text_len as u128 {
                    proof {
                        reveal_strlit("Invalid edit");
                    }
                    return MergeResult::failure("Invalid edit");
                }
                if len > 0 {
                    self.crdt.add_delete(0..(len as usize));
                    proof {
                        assert(splice_text(old(self).crdt.text(), 0, len as int, Seq::<char>::empty()) =~= Seq::<char>::empty());
                    }
                } else {
                    proof {
                        assert(old(self).crdt.text() =~= Seq::<char>::empty());
                    }
                }
                self.crdt.add_insert(0, content_str.as_str());
                proof {
                    assert(splice_text(Seq::<char>::empty(), 0, 0, content_str@) =~= content_str@);
                }
            },
            RangeKind::Ignored => {},
        }
        let version = self.crdt.get_version();
        let mut out_patch = patch;
        out_patch.version = Some(String::from_str(version.as_str()));
        let mut parents: Vec<String> = Vec::new();
        parents.push(String::from_str(version.as_str()));
        out_patch.parents = parents;
        let v2 = String::from_str(version.as_str());
        let mut patches: Vec<MergePatch> = Vec::new();
        patches.push(out_patch);
        MergeResult { success: true, rebased_patches: patches, version: Some(v2), error: None }
    }

    /// Apply a patch from a peer (see `remote_applied`); a success answers
    /// with the patch's version.
    pub fn apply_patch(&mut self, patch: MergePatch) -> (r: MergeResult)
        requires
            old(self).crdt.wf(),
        ensures
            final(self).crdt.wf(),
            remote_applied(old(self).crdt, final(self).crdt, patch, r.success),
            r.success ==> plain_success(r, opt_view(patch.version)),
            !r.success ==> r.error is Some && r.rebased_patches@.len() == 0,
    {
        let parents_refs = borrow_all(&patch.parents);
        let agent = agent_name(&patch.version);
        let content_str = content_chars(&patch.content);
        let vid: Option<&str> = match &patch.version {
            Some(v) => Some(v.as_str()),
            None => None,
        };
        let ghost c0 = self.crdt;
        proof {
            reveal_strlit("Invalid patch");
        }
        match parse_edit_range(patch.range.as_str()) {
            RangeKind::At(start, end) => {
                if start == end {
                    let t = self.crdt.try_insert_remote_versioned(agent.as_str(), parents_refs.as_slice(), start, content_str.as_str(), vid);
                    proof {
                        assert(remote_insert_done(c0, self.crdt, agent_of(patch.version), string_views(patch.parents@),
                            (start as nat) as usize, patch.content.chars(), opt_view(patch.version), t));
                    }
                    if t.is_none() {
                        return MergeResult::failure("Invalid patch");
                    }
                } else {
                    let t1 = self.crdt.try_delete_remote_versioned(agent.as_str(), parents_refs.as_slice(), start..end, vid);
                    let ghost mid = self.crdt;
                    proof {
                        assert(remote_delete_done(c0, mid, agent_of(patch.version), string_views(patch.parents@),
                            (start as nat) as usize, (end as nat) as usize, opt_view(patch.version), t1));
                    }
                    if t1.is_none() {
                        return MergeResult::failure("Invalid patch");
                    }
                    if content_str.unicode_len() > 0 {
                        let t2 = self.crdt.try_insert_remote_versioned(agent.as_str(), parents_refs.as_slice(), start, content_str.as_str(), vid);
                        proof {
                            assert(remote_insert_done(mid, self.crdt, agent_of(patch.version), string_views(patch.parents@),
                                (start as nat) as usize, patch.content.chars(), opt_view(patch.version), t2));
                        }
                        if t2.is_none() {
                            return MergeResult::failure("Invalid patch");
                        }
                    }
                }
            },
            RangeKind::Whole => {
                let current = self.crdt.content();
                let b = #[verifier::truncate] (utf8_len_exec(current.as_str()) as usize);
                if b > 0 {
                    let t1 = self.crdt.try_delete_remote_versioned(agent.as_str(), parents_refs.as_slice(), 0..b, None);
                    let ghost mid = self.crdt;
                    proof {
                        assert(remote_delete_done(c0, mid, agent_of(patch.version), string_views(patch.parents@),
                            0, utf8_len(c0.text()) as usize, None, t1));
                    }
                    if t1.is_none() {
                        return MergeResult::failure("Invalid patch");
                    }
                    let t2 = self.crdt.try_insert_remote_versioned(agent.as_str(), parents_refs.as_slice(), 0, content_str.as_str(), vid);
                    proof {
                        assert(remote_insert_done(mid, self.crdt, agent_of(patch.version), string_views(patch.parents@),
                            0, patch.content.chars(), opt_view(patch.version), t2));
                    }
                    if t2.is_none() {
                        return MergeResult::failure("Invalid patch");
                    }
                } else {
                    let t = self.crdt.try_insert_remote_versioned(agent.as_str(), parents_refs.as_slice(), 0, content_str.as_str(), vid);
                    proof {
                        assert(remote_insert_done(c0, self.crdt, agent_of(patch.version), string_views(patch.parents@),
                            0, patch.content.chars(), opt_view(patch.version), t));
                    }
                    if t.is_none() {
                        return MergeResult::failure("Invalid patch");
                    }
                }
            },
            RangeKind::Ignored => {},
        }
        MergeResult::success(patch.version, Vec::new())
    }

    /// The document.
    pub fn get_content(&self) -> (s: String)
        ensures
            s@ == self.crdt.text(),
    {
        self.crdt.content()
    }

    /// The version, alone.
    pub fn get_version(&self) -> (v: Vec<String>)
        ensures
            v@.len() == 1,
            v@[0]@ == version_string(self.crdt.agent(), ops_len(self.crdt.ops())),
    {
        let mut v: Vec<String> = Vec::new();
        v.push(self.crdt.get_version());
        v
    }

    /// The known versions: the current one, with no parents.
    pub fn get_all_versions(&self) -> (m: StrMap<Vec<String>>)
        ensures
            m@.dom() == set![version_string(self.crdt.agent(), ops_len(self.crdt.ops()))],
            m@[version_string(self.crdt.agent(), ops_len(self.crdt.ops()))]@.len() == 0,
    {
        let mut m: StrMap<Vec<String>> = StrMap::new();
        m.insert(self.crdt.get_version(), Vec::new());
        proof {
            assert(m@.dom() =~= set![version_string(self.crdt.agent(), ops_len(self.crdt.ops()))]);
        }
        m
    }

    /// Nothing to prune.
    pub fn prune(&mut self) -> (b: bool)
        ensures
            !b,
            *final(self) == *old(self),
    {
        false
    }
}

} // verus!
