//! The simpleton merge type: one text and the version of its last change,
//! with local edits turned into the smallest single splice.
use vstd::prelude::*;
use crate::collections::{StrMap, str_eq};
use crate::json_crdt::PatchContent;
use crate::merge::{MergePatch, MergeResult, int_text, push_i64};
use crate::text::{decimal, push_char, push_decimal, parse_usize, parse_usize_spec, find_char_from, substring, chars_of};

verus! {

/// The length of the longest common prefix of two texts.
pub open spec fn prefix_len(a: Seq<char>, b: Seq<char>) -> nat
    decreases a.len(),
{
    if a.len() == 0 || b.len() == 0 || a[0] != b[0] { 0 } else { 1 + prefix_len(a.drop_first(), b.drop_first()) }
}

/// The length of the longest common suffix of two texts.
pub open spec fn suffix_len(a: Seq<char>, b: Seq<char>) -> nat
    decreases a.len(),
{
    if a.len() == 0 || b.len() == 0 || a.last() != b.last() { 0 } else { 1 + suffix_len(a.drop_last(), b.drop_last()) }
}

/// The splice that turns `a` into `b`: the start and end in `a` of what
/// goes, and what comes in its place.  The common prefix stays, and then
/// the common suffix of what is left.
pub open spec fn diff_spec(a: Seq<char>, b: Seq<char>) -> (nat, nat, Seq<char>) {
    let p = prefix_len(a, b);
    let s = suffix_len(a.subrange(p as int, a.len() as int), b.subrange(p as int, b.len() as int));
    (p, (a.len() - s) as nat, b.subrange(p as int, b.len() - s))
}

/// `t` with the characters `start..end` replaced by `ins`.
pub open spec fn splice(t: Seq<char>, start: int, end: int, ins: Seq<char>) -> Seq<char> {
    t.subrange(0, start) + ins + t.subrange(end, t.len() as int)
}

/// The common prefix is common, and no longer than either text.
proof fn lemma_prefix(a: Seq<char>, b: Seq<char>)
    ensures
        prefix_len(a, b) <= a.len(),
        prefix_len(a, b) <= b.len(),
        a.subrange(0, prefix_len(a, b) as int) == b.subrange(0, prefix_len(a, b) as int),
    decreases a.len(),
{
    if a.len() == 0 || b.len() == 0 || a[0] != b[0] {
        assert(a.subrange(0, 0) =~= b.subrange(0, 0));
    } else {
        lemma_prefix(a.drop_first(), b.drop_first());
        let p = prefix_len(a.drop_first(), b.drop_first());
        assert(a.subrange(0, p as int + 1) =~= seq![a[0]] + a.drop_first().subrange(0, p as int));
        assert(b.subrange(0, p as int + 1) =~= seq![b[0]] + b.drop_first().subrange(0, p as int));
    }
}

/// The common suffix is common, and no longer than either text.
proof fn lemma_suffix(a: Seq<char>, b: Seq<char>)
    ensures
        suffix_len(a, b) <= a.len(),
        suffix_len(a, b) <= b.len(),
        a.subrange(a.len() - suffix_len(a, b), a.len() as int) == b.subrange(b.len() - suffix_len(a, b), b.len() as int),
    decreases a.len(),
{
    if a.len() == 0 || b.len() == 0 || a.last() != b.last() {
        assert(a.subrange(a.len() as int, a.len() as int) =~= b.subrange(b.len() as int, b.len() as int));
    } else {
        lemma_suffix(a.drop_last(), b.drop_last());
        let s = suffix_len(a.drop_last(), b.drop_last());
        assert(a.subrange(a.len() - (s + 1), a.len() as int) =~= a.drop_last().subrange(a.len() - 1 - s, a.len() - 1).push(a.last()));
        assert(b.subrange(b.len() - (s + 1), b.len() as int) =~= b.drop_last().subrange(b.len() - 1 - s, b.len() - 1).push(b.last()));
    }
}

/// The prefix length is where the texts first differ.
proof fn lemma_prefix_at(a: Seq<char>, b: Seq<char>, p: int)
    requires
        0 <= p <= a.len(),
        p <= b.len(),
        a.subrange(0, p) == b.subrange(0, p),
        p == a.len() || p == b.len() || a[p] != b[p],
    ensures
        prefix_len(a, b) == p,
    decreases p,
{
    if p > 0 {
        assert(a[0] == a.subrange(0, p)[0] && b[0] == b.subrange(0, p)[0]);
        assert(a.drop_first().subrange(0, p - 1) =~= a.subrange(0, p).drop_first());
        assert(b.drop_first().subrange(0, p - 1) =~= b.subrange(0, p).drop_first());
        if p < a.len() && p < b.len() {
            assert(a.drop_first()[p - 1] == a[p]);
            assert(b.drop_first()[p - 1] == b[p]);
        }
        lemma_prefix_at(a.drop_first(), b.drop_first(), p - 1);
    }
}

/// The suffix length is where the texts first differ from the end.
proof fn lemma_suffix_at(a: Seq<char>, b: Seq<char>, s: int)
    requires
        0 <= s <= a.len(),
        s <= b.len(),
        a.subrange(a.len() - s, a.len() as int) == b.subrange(b.len() - s, b.len() as int),
        s == a.len() || s == b.len() || a[a.len() - s - 1] != b[b.len() - s - 1],
    ensures
        suffix_len(a, b) == s,
    decreases s,
{
    if s > 0 {
        assert(a.last() == a.subrange(a.len() - s, a.len() as int)[s - 1]);
        assert(b.last() == b.subrange(b.len() - s, b.len() as int)[s - 1]);
        assert(a.drop_last().subrange(a.len() - 1 - (s - 1), a.len() - 1) =~= a.subrange(a.len() - s, a.len() as int).drop_last());
        assert(b.drop_last().subrange(b.len() - 1 - (s - 1), b.len() - 1) =~= b.subrange(b.len() - s, b.len() as int).drop_last());
        if s < a.len() && s < b.len() {
            assert(a.drop_last()[a.len() - 1 - (s - 1) - 1] == a[a.len() - s - 1]);
            assert(b.drop_last()[b.len() - 1 - (s - 1) - 1] == b[b.len() - s - 1]);
        }
        lemma_suffix_at(a.drop_last(), b.drop_last(), s - 1);
    }
}

/// Applying the splice of `diff_spec(a, b)` to `a` gives `b`.
pub proof fn lemma_diff_applies(a: Seq<char>, b: Seq<char>)
    ensures
        diff_spec(a, b).0 <= diff_spec(a, b).1 <= a.len(),
        splice(a, diff_spec(a, b).0 as int, diff_spec(a, b).1 as int, diff_spec(a, b).2) == b,
{
    lemma_prefix(a, b);
    let p = prefix_len(a, b) as int;
    let ra = a.subrange(p, a.len() as int);
    let rb = b.subrange(p, b.len() as int);
    lemma_suffix(ra, rb);
    let s = suffix_len(ra, rb) as int;
    assert(ra.subrange(ra.len() - s, ra.len() as int) =~= a.subrange(a.len() - s, a.len() as int));
    assert(rb.subrange(rb.len() - s, rb.len() as int) =~= b.subrange(b.len() - s, b.len() as int));
    assert(splice(a, p, a.len() - s, b.subrange(p, b.len() - s)) =~= b);
}

/// The range `everything`.
pub open spec fn everything_word() -> Seq<char> {
    seq!['e', 'v', 'e', 'r', 'y', 't', 'h', 'i', 'n', 'g']
}

/// The range `[0:]`.
pub open spec fn from_start_word() -> Seq<char> {
    seq!['[', '0', ':', ']']
}

/// Whether a range names the whole text.
pub open spec fn is_whole(r: Seq<char>) -> bool {
    r == everything_word() || r == from_start_word()
}

/// The range `[start:end]` of a text, as its two numbers: the range is in
/// brackets, holds exactly one `:`, and both sides parse as `usize`.
pub open spec fn bracket_range(r: Seq<char>) -> Option<(nat, nat)> {
    if r.len() >= 2 && r[0] == '[' && r.last() == ']' {
        let inner = r.subrange(1, r.len() - 1);
        if exists|k: int| 0 <= k < inner.len() && inner[k] == ':' && forall|j: int| 0 <= j < inner.len() && j != k ==> inner[j] != ':' {
            let k = choose|k: int| 0 <= k < inner.len() && inner[k] == ':' && forall|j: int| 0 <= j < inner.len() && j != k ==> inner[j] != ':';
            match (parse_usize_spec(inner.subrange(0, k)), parse_usize_spec(inner.subrange(k + 1, inner.len() as int))) {
                (Some(a), Some(b)) => Some((a, b)),
                _ => None,
            }
        } else {
            None
        }
    } else {
        None
    }
}

/// The range text `[start:end]`.
pub open spec fn range_text(start: nat, end: nat) -> Seq<char> {
    seq!['['] + decimal(start) + seq![':'] + decimal(end) + seq![']']
}

/// Whether a version list holds exactly `v`.
pub open spec fn only_version(vs: Seq<String>, v: Seq<char>) -> bool {
    vs.len() == 1 && vs[0]@ == v
}

/// Whether a result's version is the first of a list, if any.
pub open spec fn first_version(r: Option<String>, vs: Seq<String>) -> bool {
    if vs.len() > 0 { r matches Some(v) && v@ == vs[0]@ } else { r is None }
}

/// The splice a local edit to `n` makes on `c`: all of `n` into an empty
/// text, and otherwise the splice of `diff_spec`.
pub open spec fn edit_plan(c: Seq<char>, n: Seq<char>) -> (nat, nat, Seq<char>) {
    if c.len() == 0 { (0, 0, n) } else { diff_spec(c, n) }
}

/// A text with one version, the one of its last change.
#[derive(Debug)]
pub struct SimpletonMergeType {
    pub peer_id: String,
    pub content: String,
    pub version: Vec<String>,
    pub char_counter: i64,
}

/// A copy of the first version of a list, if any.
fn first_of(vs: &Vec<String>) -> (r: Option<String>)
    ensures
        first_version(r, vs@),
{
    if vs.len() > 0 { Some(String::from_str(vs[0].as_str())) } else { None }
}

/// A list holding a copy of one version.
fn single(v: &str) -> (r: Vec<String>)
    ensures
        only_version(r@, v@),
{
    let mut r: Vec<String> = Vec::new();
    r.push(String::from_str(v));
    r
}

/// The characters of a patch's content.
fn content_text(c: &PatchContent) -> (s: String)
    ensures
        s@ == c.chars(),
{
    match c {
        PatchContent::Text(t) => String::from_str(t.as_str()),
        PatchContent::Json(t) => String::from_str(t.as_str()),
    }
}

/// Whether a range names the whole text.
fn whole_range(r: &str) -> (b: bool)
    ensures
        b == is_whole(r@),
{
    proof {
        reveal_strlit("everything");
        reveal_strlit("[0:]");
        assert("everything"@ =~= everything_word());
        assert("[0:]"@ =~= from_start_word());
    }
    str_eq(r, "everything") || str_eq(r, "[0:]")
}

/// The two numbers of a range `[start:end]`.
fn parse_bracket_range(r: &str) -> (out: Option<(usize, usize)>)
    ensures
        match out {
            Some((a, b)) => bracket_range(r@) == Some((a as nat, b as nat)),
            None => bracket_range(r@) is None,
        },
{
    let n = r.unicode_len();
    if n < 2 || r.get_char(0) != '[' || r.get_char(n - 1) != ']' {
        return None;
    }
    let inner = substring(r, 1, n - 1);
    let m = inner.unicode_len();
    proof {
        assert(inner@ == r@.subrange(1, r@.len() - 1));
    }
    match find_char_from(inner.as_str(), ':', 0) {
        None => {
            None
        },
        Some(k) => {
            match find_char_from(inner.as_str(), ':', k + 1) {
                Some(k2) => {
                    proof {
                        if exists|x: int| 0 <= x < inner@.len() && inner@[x] == ':' && forall|j: int| 0 <= j < inner@.len() && j != x ==> inner@[j] != ':' {
                            let x = choose|x: int| 0 <= x < inner@.len() && inner@[x] == ':' && forall|j: int| 0 <= j < inner@.len() && j != x ==> inner@[j] != ':';
                            assert(inner@[k as int] == ':' && inner@[k2 as int] == ':');
                        }
                    }
                    None
                },
                None => {
                    let ghost kk = k as int;
                    proof {
                        assert forall|j: int| 0 <= j < inner@.len() && j != kk implies inner@[j] != ':' by {
                            if j < kk {
                            }
                        }
                        let x = choose|x: int| 0 <= x < inner@.len() && inner@[x] == ':' && forall|j: int| 0 <= j < inner@.len() && j != x ==> inner@[j] != ':';
                        assert(x == kk) by {
                            if x != kk {
                                assert(inner@[kk] != ':');
                            }
                        }
                    }
                    let left = substring(inner.as_str(), 0, k);
                    let right = substring(inner.as_str(), k + 1, m);
                    match (parse_usize(left.as_str()), parse_usize(right.as_str())) {
                        (Some(a), Some(b)) => Some((a, b)),
                        _ => None,
                    }
                },
            }
        },
    }
}

/// The range text `[start:end]`.
fn range_string(start: usize, end: usize) -> (r: String)
    ensures
        r@ == range_text(start as nat, end as nat),
{
    let mut r = String::new();
    push_char(&mut r, '[');
    push_decimal(&mut r, start as u128);
    push_char(&mut r, ':');
    push_decimal(&mut r, end as u128);
    push_char(&mut r, ']');
    proof {
        assert(r@ =~= range_text(start as nat, end as nat));
    }
    r
}

impl SimpletonMergeType {
    /// An empty text with no version; the counter starts at 0, the peer ID
    /// being what keeps versions apart.
    pub fn new(peer_id: &str) -> (s: Self)
        ensures
            s.peer_id@ == peer_id@,
            s.content@.len() == 0,
            s.version@.len() == 0,
            s.char_counter == 0,
    {
        SimpletonMergeType { peer_id: String::from_str(peer_id), content: String::new(), version: Vec::new(), char_counter: 0 }
    }

    /// The splice that turns `old_text` into `new_text` (see `diff_spec`).
    fn simple_diff(&self, old_text: &str, new_text: &str) -> (r: (usize, usize, String))
        ensures
            r.0 == diff_spec(old_text@, new_text@).0,
            r.1 == diff_spec(old_text@, new_text@).1,
            r.2@ == diff_spec(old_text@, new_text@).2,
    {
        let ghost a = old_text@;
        let ghost b = new_text@;
        let ac = chars_of(old_text);
        let bc = chars_of(new_text);
        let na = ac.len();
        let nb = bc.len();
        let len = if na < nb { na } else { nb };
        let mut p: usize = 0;
        while p < len && ac[p] == bc[p]
            invariant
                ac@ == a,
                bc@ == b,
                p <= len,
                len <= na,
                len <= nb,
                na == a.len(),
                nb == b.len(),
                a.subrange(0, p as int) == b.subrange(0, p as int),
            decreases len - p,
        {
            proof {
                assert(a.subrange(0, p + 1) =~= a.subrange(0, p as int).push(a[p as int]));
                assert(b.subrange(0, p + 1) =~= b.subrange(0, p as int).push(b[p as int]));
            }
            p = p + 1;
        }
        proof {
            lemma_prefix_at(a, b, p as int);
        }
        let len_rem = if na - p < nb - p { na - p } else { nb - p };
        let ghost ra = a.subrange(p as int, na as int);
        let ghost rb = b.subrange(p as int, nb as int);
        let mut s: usize = 0;
        while s < len_rem && ac[na - s - 1] == bc[nb - s - 1]
            invariant
                ac@ == a,
                bc@ == b,
                s <= len_rem,
                len_rem <= na - p,
                len_rem <= nb - p,
                p <= na,
                p <= nb,
                na == a.len(),
                nb == b.len(),
                ra == a.subrange(p as int, na as int),
                rb == b.subrange(p as int, nb as int),
                ra.subrange(ra.len() - s, ra.len() as int) == rb.subrange(rb.len() - s, rb.len() as int),
            decreases len_rem - s,
        {
            proof {
                assert(ra[ra.len() - s - 1] == a[na - s - 1]);
                assert(rb[rb.len() - s - 1] == b[nb - s - 1]);
                assert(ra.subrange(ra.len() - (s + 1), ra.len() as int)
                    =~= seq![ra[ra.len() - s - 1]] + ra.subrange(ra.len() - s, ra.len() as int));
                assert(rb.subrange(rb.len() - (s + 1), rb.len() as int)
                    =~= seq![rb[rb.len() - s - 1]] + rb.subrange(rb.len() - s, rb.len() as int));
            }
            s = s + 1;
        }
        proof {
            if s < len_rem {
                assert(ra[ra.len() - s - 1] == a[na - s - 1]);
                assert(rb[rb.len() - s - 1] == b[nb - s - 1]);
            }
            lemma_suffix_at(ra, rb, s as int);
        }
        let content = substring(new_text, p, nb - s);
        (p, na - s, content)
    }

    /// The name of this merge type.
    pub fn name(&self) -> (n: &str)
        ensures
            n@ == seq!['s', 'i', 'm', 'p', 'l', 'e', 't', 'o', 'n'],
    {
        proof {
            reveal_strlit("simpleton");
        }
        "simpleton"
    }

    /// Take `content` as the text, unless it is empty and there is text
    /// already.
    pub fn initialize(&mut self, content: &str) -> (r: MergeResult)
        ensures
            final(self).content@ == (if content@.len() > 0 || old(self).content@.len() == 0 { content@ } else { old(self).content@ }),
            *final(self) == (SimpletonMergeType { content: final(self).content, ..*old(self) }),
            r.success && r.rebased_patches@.len() == 0 && r.error is None,
            first_version(r.version, old(self).version@),
    {
        if content.unicode_len() > 0 || self.content.unicode_len() == 0 {
            self.content = String::from_str(content);
        }
        MergeResult { version: first_of(&self.version), rebased_patches: Vec::new(), success: true, error: None }
    }

    /// Apply a patch from a peer: the whole text (`everything` or `[0:]`)
    /// or the characters `[start:end]` are replaced by the patch's content,
    /// and the patch's version, if any, becomes the version.  Any other
    /// range, or one outside the text, fails and changes nothing.
    pub fn apply_patch(&mut self, patch: MergePatch) -> (r: MergeResult)
        ensures
            ({
                let c = old(self).content@;
                let ok = is_whole(patch.range@) || (bracket_range(patch.range@) matches Some((s, e)) && s <= e <= c.len());
                if ok {
                    &&& final(self).content@ == (if is_whole(patch.range@) { patch.content.chars() } else {
                        let b = bracket_range(patch.range@)->0;
                        splice(c, b.0 as int, b.1 as int, patch.content.chars())
                    })
                    &&& match patch.version {
                        Some(v) => only_version(final(self).version@, v@),
                        None => final(self).version == old(self).version,
                    }
                    &&& final(self).peer_id == old(self).peer_id
                    &&& final(self).char_counter == old(self).char_counter
                    &&& r.success && r.rebased_patches@.len() == 0 && r.error is None
                    &&& first_version(r.version, final(self).version@)
                } else {
                    &&& *final(self) == *old(self)
                    &&& !r.success && r.rebased_patches@.len() == 0 && r.version is None
                    &&& r.error matches Some(e) && e@ == seq!['I', 'n', 'v', 'a', 'l', 'i', 'd', ' ', 'r', 'a', 'n', 'g', 'e']
                }
            }),
    {
        let content_str = content_text(&patch.content);
        if whole_range(patch.range.as_str()) {
            self.content = content_str;
            match &patch.version {
                Some(v) => {
                    self.version = single(v.as_str());
                },
                None => {},
            }
            return MergeResult::success(first_of(&self.version), Vec::new());
        }
        match parse_bracket_range(patch.range.as_str()) {
            Some((start, end)) => {
                let len = self.content.unicode_len();
                if start <= len && end <= len && start <= end {
                    let mut new_text = substring(self.content.as_str(), 0, start);
                    new_text.append(content_str.as_str());
                    let tail = substring(self.content.as_str(), end, len);
                    new_text.append(tail.as_str());
                    proof {
                        assert(new_text@ =~= splice(self.content@, start as int, end as int, content_str@));
                    }
                    self.content = new_text;
                    match &patch.version {
                        Some(v) => {
                            self.version = single(v.as_str());
                        },
                        None => {},
                    }
                    return MergeResult::success(first_of(&self.version), Vec::new());
                }
            },
            None => {},
        }
        proof {
            reveal_strlit("Invalid range");
        }
        MergeResult::failure("Invalid range")
    }

    /// A local edit: the patch must name the whole text (`everything` or
    /// `[0:]`) and carry the new text; the edit becomes the smallest splice
    /// (see `edit_plan`).  An edit that changes nothing on a text with a
    /// version changes nothing.  Otherwise the splice is applied, the
    /// counter grows by the characters removed and inserted, and the
    /// version becomes `{peer_id}-{counter}`; the splice is returned as the
    /// patch to send.
    pub fn local_edit(&mut self, patch: MergePatch) -> (r: MergeResult)
        requires
            is_whole(patch.range@) ==> old(self).char_counter
                + (edit_plan(old(self).content@, patch.content.chars()).1 - edit_plan(old(self).content@, patch.content.chars()).0)
                + edit_plan(old(self).content@, patch.content.chars()).2.len() <= i64::MAX,
        ensures
            ({
                let c = old(self).content@;
                let plan = edit_plan(c, patch.content.chars());
                let del = plan.1 - plan.0;
                if !is_whole(patch.range@) {
                    &&& *final(self) == *old(self)
                    &&& !r.success && r.rebased_patches@.len() == 0 && r.version is None && r.error is Some
                } else if del == 0 && plan.2.len() == 0 && old(self).version@.len() > 0 {
                    &&& *final(self) == *old(self)
                    &&& r.success && r.rebased_patches@.len() == 0 && r.error is None
                    &&& first_version(r.version, old(self).version@)
                } else {
                    &&& final(self).content@ == splice(c, plan.0 as int, plan.1 as int, plan.2)
                    &&& final(self).char_counter == old(self).char_counter + del + plan.2.len()
                    &&& only_version(final(self).version@,
                        old(self).peer_id@ + seq!['-'] + int_text(final(self).char_counter as int))
                    &&& final(self).peer_id == old(self).peer_id
                    &&& r.success && r.error is None
                    &&& r.version matches Some(v) && v@ == final(self).version@[0]@
                    &&& r.rebased_patches@.len() == 1
                    &&& r.rebased_patches@[0].range@ == range_text(plan.0, plan.1)
                    &&& r.rebased_patches@[0].content == PatchContent::Text(r.rebased_patches@[0].content->Text_0)
                    &&& r.rebased_patches@[0].content.chars() == plan.2
                    &&& r.rebased_patches@[0].version is None
                    &&& r.rebased_patches@[0].parents@.len() == 0
                }
            }),
            is_whole(patch.range@) ==> final(self).content@ == patch.content.chars(),
    {
        if !whole_range(patch.range.as_str()) {
            proof {
                reveal_strlit("Custom range patches not yet supported in local_edit - use 'everything' to trigger diffing");
            }
            return MergeResult::failure("Custom range patches not yet supported in local_edit - use 'everything' to trigger diffing");
        }
        let new_content = content_text(&patch.content);
        let (start, end, text) = if self.content.unicode_len() == 0 {
            (0, 0, new_content)
        } else {
            self.simple_diff(self.content.as_str(), new_content.as_str())
        };
        proof {
            if self.content@.len() > 0 {
                lemma_diff_applies(self.content@, new_content@);
            }
        }
        let range = range_string(start, end);
        let delete_count = end - start;
        if delete_count == 0 && text.unicode_len() == 0 && self.version.len() > 0 {
            proof {
                assert(splice(self.content@, start as int, end as int, text@) =~= self.content@);
            }
            return MergeResult { version: first_of(&self.version), rebased_patches: Vec::new(), success: true, error: None };
        }
        let len = self.content.unicode_len();
        let mut new_text = substring(self.content.as_str(), 0, start);
        new_text.append(text.as_str());
        let tail = substring(self.content.as_str(), end, len);
        new_text.append(tail.as_str());
        proof {
            assert(new_text@ =~= splice(self.content@, start as int, end as int, text@));
        }
        self.content = new_text;
        let insert_count = text.unicode_len();
        let total: i128 = self.char_counter as i128 + delete_count as i128 + insert_count as i128;
        self.char_counter = total as i64;
        let mut version_id = String::from_str(self.peer_id.as_str());
        push_char(&mut version_id, '-');
        push_i64(&mut version_id, self.char_counter);
        self.version = single(version_id.as_str());
        let patch_obj = MergePatch::new(range.as_str(), PatchContent::Text(text));
        let mut patches: Vec<MergePatch> = Vec::new();
        patches.push(patch_obj);
        proof {
            assert(version_id@ =~= old(self).peer_id@ + seq!['-'] + int_text(self.char_counter as int));
        }
        MergeResult::success(Some(version_id), patches)
    }

    /// The text.
    pub fn get_content(&self) -> (s: String)
        ensures
            s@ == self.content@,
    {
        String::from_str(self.content.as_str())
    }

    /// The version list.
    pub fn get_version(&self) -> (v: Vec<String>)
        ensures
            v@.len() == self.version@.len(),
            forall|i: int| 0 <= i < v@.len() ==> #[trigger] v@[i]@ == self.version@[i]@,
    {
        let mut v: Vec<String> = Vec::new();
        let mut i: usize = 0;
        while i < self.version.len()
            invariant
                i <= self.version@.len(),
                v@.len() == i,
                forall|j: int| 0 <= j < i ==> #[trigger] v@[j]@ == self.version@[j]@,
            decreases self.version@.len() - i,
        {
            v.push(String::from_str(self.version[i].as_str()));
            i = i + 1;
        }
        v
    }

    /// The known versions: the first version, with no parents.
    pub fn get_all_versions(&self) -> (m: StrMap<Vec<String>>)
        ensures
            self.version@.len() > 0 ==> m@.dom() == set![self.version@[0]@] && m@[self.version@[0]@]@.len() == 0,
            self.version@.len() == 0 ==> m@.dom() == Set::<Seq<char>>::empty(),
    {
        let mut m: StrMap<Vec<String>> = StrMap::new();
        if self.version.len() > 0 {
            m.insert(String::from_str(self.version[0].as_str()), Vec::new());
            proof {
                assert(m@.dom() =~= set![self.version@[0]@]);
            }
        } else {
            proof {
                assert(m@.dom() =~= Set::<Seq<char>>::empty());
            }
        }
        m
    }

    /// Nothing to prune.
    pub fn prune(&mut self) -> (b: bool)
        ensures
            !b,
            *final(self) == *old(self),
    {
        false
    }

    /// Pruning is not supported.
    pub fn supports_pruning(&self) -> (b: bool)
        ensures
            !b,
    {
        false
    }
}

} // verus!
