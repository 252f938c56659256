//! The decisions of a push from a local file to its remote resource: the
//! URL it addresses, what the server's reply decides before an edit goes
//! out, and which parents the edit names. The requests themselves are
//! made by the caller, which hands the replies back here.
use vstd::prelude::*;
use crate::collections::{str_eq, string_views};
use crate::sync_rules::{flatten_map, flatten_parents, is_placeholder};
use crate::text::{decimal, push_char, push_decimal, starts_with, trim, trim_seq};

verus! {

/// `s` without `"` at either end, as `str::trim_matches('"')` gives it.
pub open spec fn trim_quotes_seq(s: Seq<char>) -> Seq<char>
    decreases s.len(),
{
    if s.len() > 0 && s[0] == '"' {
        trim_quotes_seq(s.drop_first())
    } else if s.len() > 0 && s.last() == '"' {
        trim_quotes_seq(s.drop_last())
    } else {
        s
    }
}

/// `s` without `"` at either end.
pub fn trim_quotes(s: &str) -> (r: String)
    ensures
        r@ == trim_quotes_seq(s@),
{
    let n = s.unicode_len();
    let mut lo: usize = 0;
    proof {
        assert(s@.subrange(0, n as int) =~= s@);
    }
    while lo < n && s.get_char(lo) == '"'
        invariant
            lo <= n,
            n == s@.len(),
            trim_quotes_seq(s@.subrange(lo as int, n as int)) == trim_quotes_seq(s@),
        decreases n - lo,
    {
        proof {
            assert(s@.subrange(lo as int, n as int).drop_first() =~= s@.subrange(lo + 1, n as int));
        }
        lo = lo + 1;
    }
    let mut hi: usize = n;
    while lo < hi && s.get_char(hi - 1) == '"'
        invariant
            lo <= hi <= n,
            n == s@.len(),
            lo < hi ==> s@[lo as int] != '"',
            trim_quotes_seq(s@.subrange(lo as int, hi as int)) == trim_quotes_seq(s@),
        decreases hi - lo,
    {
        proof {
            let t = s@.subrange(lo as int, hi as int);
            assert(t[0] == s@[lo as int]);
            assert(t.drop_last() =~= s@.subrange(lo as int, hi - 1));
        }
        hi = hi - 1;
    }
    proof {
        let t = s@.subrange(lo as int, hi as int);
        if lo < hi {
            assert(t[0] == s@[lo as int]);
            assert(t.last() == s@[hi - 1]);
        }
    }
    s.substring_char(lo, hi).to_string()
}

/// The URL a push addresses: the given one without `"` at either end, and
/// then without whitespace at either end.
pub fn sync_url(url_in: &str) -> (r: String)
    ensures
        r@ == trim_seq(trim_quotes_seq(url_in@)),
{
    let unquoted = trim_quotes(url_in);
    trim(unquoted.as_str())
}

/// Whether a version from a server reply names one: it is more than `"`s.
pub open spec fn names_version(v: Seq<char>) -> bool {
    trim_quotes_seq(v).len() > 0
}

/// The versions of a server reply that name one, in order.
pub open spec fn named_versions(vs: Seq<Seq<char>>) -> Seq<Seq<char>> {
    vs.filter(|v: Seq<char>| names_version(v))
}

/// What a text push learns from the server before it sends an edit it
/// knows no parents for.
pub struct ServerCheck {
    /// The server's text, where it replaces the local one.
    pub winner: Option<String>,
    /// The parents the edit names: the server's versions that name one.
    pub parents: Vec<String>,
    /// The last of those parents, recorded with the server's text.
    pub version: Option<String>,
}

/// Reads the server's reply to the fetch a text push makes when it knows
/// no parents: its text wins where it has one that differs from the local
/// text (last writer wins), and its versions that name one become the
/// parents, the last of them the version recorded with its text.
pub fn read_server_reply(new_content: &str, body: &str, versions: &Vec<String>) -> (r: ServerCheck)
    ensures
        r.winner is Some <==> (body@.len() > 0 && body@ != new_content@),
        r.winner matches Some(w) ==> w@ == body@,
        string_views(r.parents@) == named_versions(string_views(versions@)),
        match r.version {
            Some(v) => r.parents@.len() > 0 && v@ == string_views(r.parents@).last(),
            None => r.parents@.len() == 0,
        },
{
    let ghost vs = string_views(versions@);
    let n = versions.len();
    let mut parents: Vec<String> = Vec::new();
    let mut version: Option<String> = None;
    let mut i: usize = 0;
    proof {
        reveal(Seq::filter);
        assert(vs.subrange(0, 0).filter(|v: Seq<char>| names_version(v)) =~= Seq::<Seq<char>>::empty());
        assert(string_views(parents@) =~= Seq::<Seq<char>>::empty());
    }
    while i < n
        invariant
            i <= n,
            n == versions@.len(),
            vs == string_views(versions@),
            string_views(parents@) == named_versions(vs.subrange(0, i as int)),
            match version {
                Some(v) => parents@.len() > 0 && v@ == string_views(parents@).last(),
                None => parents@.len() == 0,
            },
        decreases n - i,
    {
        let v = versions[i].as_str();
        let unquoted = trim_quotes(v);
        let ghost post = vs.subrange(0, i + 1);
        proof {
            reveal(Seq::filter);
            assert(post.drop_last() =~= vs.subrange(0, i as int));
            assert(post.last() == v@);
        }
        if unquoted.unicode_len() > 0 {
            parents.push(String::from_str(v));
            version = Some(String::from_str(v));
            proof {
                assert(string_views(parents@) =~= named_versions(vs.subrange(0, i as int)).push(v@));
            }
        }
        i = i + 1;
    }
    proof {
        assert(vs.subrange(0, n as int) =~= vs);
    }
    let differs = body.unicode_len() > 0 && !str_eq(body, new_content);
    let winner = if differs { Some(String::from_str(body)) } else { None };
    ServerCheck { winner, parents, version }
}

/// The parents of an edit before they are flattened: the known ones, and
/// the merge's version before the edit where it is not among them.
pub open spec fn with_previous(ps: Seq<Seq<char>>, previous: Option<Seq<char>>) -> Seq<Seq<char>> {
    match previous {
        Some(p) => if ps.contains(p) { ps } else { ps.push(p) },
        None => ps,
    }
}

/// What a text push does once the merge has taken the local edit.
pub enum PushPlan {
    /// The edit changed nothing: no request goes out.
    Skip,
    /// The edit goes out naming these parents.
    Put(Vec<String>),
}

/// Whether `s` is one of `list`.
fn vec_contains(list: &Vec<String>, s: &str) -> (b: bool)
    ensures
        b == string_views(list@).contains(s@),
{
    let n = list.len();
    let mut i: usize = 0;
    while i < n
        invariant
            i <= n,
            n == list@.len(),
            forall|j: int| 0 <= j < i ==> (#[trigger] list@[j])@ != s@,
        decreases n - i,
    {
        if str_eq(list[i].as_str(), s) {
            proof {
                assert(string_views(list@)[i as int] == s@);
            }
            return true;
        }
        i = i + 1;
    }
    proof {
        if string_views(list@).contains(s@) {
            let j = choose|j: int| 0 <= j < string_views(list@).len() && string_views(list@)[j] == s@;
            assert(list@[j]@ == s@);
        }
    }
    false
}

/// What a text push does after the merge took its edit: nothing where the
/// edit made no patch, and otherwise a request naming the known parents
/// and the merge's version before the edit, flattened to one per peer
/// (see `flatten_map`), each once.
pub fn plan_text_push(patch_count: usize, parents: &Vec<String>, previous: Option<&str>) -> (r: PushPlan)
    ensures
        r is Skip <==> patch_count == 0,
        r matches PushPlan::Put(ps) ==> {
            &&& string_views(ps@).to_set() == flatten_map(
                with_previous(string_views(parents@), match previous { Some(p) => Some(p@), None => None }),
            ).values()
            &&& string_views(ps@).no_duplicates()
        },
{
    let mut effective: Vec<String> = Vec::new();
    let n = parents.len();
    let mut i: usize = 0;
    while i < n
        invariant
            i <= n,
            n == parents@.len(),
            string_views(effective@) == string_views(parents@).subrange(0, i as int),
        decreases n - i,
    {
        let item = String::from_str(parents[i].as_str());
        let ghost before = string_views(effective@);
        let ghost item_view = item@;
        effective.push(item);
        proof {
            assert(item_view == string_views(parents@)[i as int]);
            assert(string_views(effective@) =~= before.push(item_view));
            assert(string_views(effective@) =~= string_views(parents@).subrange(0, i + 1));
        }
        i = i + 1;
    }
    proof {
        assert(string_views(parents@).subrange(0, n as int) =~= string_views(parents@));
    }
    match previous {
        Some(p) => {
            if !vec_contains(parents, p) {
                effective.push(String::from_str(p));
                proof {
                    assert(string_views(effective@) =~= string_views(parents@).push(p@));
                }
            }
        },
        None => {},
    }
    if patch_count == 0 {
        PushPlan::Skip
    } else {
        PushPlan::Put(flatten_parents(&effective))
    }
}

/// The versions of a server reply, each without `"` at either end, those
/// left non-empty, in order.
pub open spec fn normalized_versions(vs: Seq<Seq<char>>) -> Seq<Seq<char>>
    decreases vs.len(),
{
    if vs.len() == 0 {
        Seq::empty()
    } else {
        let kept = normalized_versions(vs.drop_last());
        let t = trim_quotes_seq(vs.last());
        if t.len() > 0 { kept.push(t) } else { kept }
    }
}

/// The parents a binary push names before placeholders are dropped.
pub open spec fn binary_candidates(parents: Seq<Seq<char>>, server_versions: Seq<Seq<char>>) -> Seq<Seq<char>> {
    if parents.len() > 0 { parents } else { normalized_versions(server_versions) }
}

/// The parents a binary push names: the known ones, or, where it knows
/// none, the versions of the server's reply without their quotes (see
/// `normalized_versions`); either way without placeholders, in order.
pub open spec fn binary_parents_spec(parents: Seq<Seq<char>>, server_versions: Seq<Seq<char>>) -> Seq<Seq<char>> {
    binary_candidates(parents, server_versions).filter(|p: Seq<char>| !is_placeholder(p))
}

/// The versions of a server reply without their quotes, the empty ones
/// dropped.
pub fn normalize_versions(versions: &Vec<String>) -> (r: Vec<String>)
    ensures
        string_views(r@) == normalized_versions(string_views(versions@)),
{
    let ghost vs = string_views(versions@);
    let n = versions.len();
    let mut r: Vec<String> = Vec::new();
    let mut i: usize = 0;
    proof {
        assert(string_views(r@) =~= normalized_versions(vs.subrange(0, 0)));
    }
    while i < n
        invariant
            i <= n,
            n == versions@.len(),
            vs == string_views(versions@),
            string_views(r@) == normalized_versions(vs.subrange(0, i as int)),
        decreases n - i,
    {
        let v = versions[i].as_str();
        let t = trim_quotes(v);
        let ghost post = vs.subrange(0, i + 1);
        let ghost before = string_views(r@);
        let ghost t_view = t@;
        proof {
            assert(post.drop_last() =~= vs.subrange(0, i as int));
            assert(post.last() == v@);
        }
        if t.unicode_len() > 0 {
            r.push(t);
            proof {
                assert(string_views(r@) =~= before.push(t_view));
            }
        }
        i = i + 1;
    }
    proof {
        assert(vs.subrange(0, n as int) =~= vs);
    }
    r
}

/// The parents a binary push names (see `binary_parents_spec`), given the
/// versions of the server's reply (none where no fetch was made or it
/// failed).
pub fn binary_parents(parents: &Vec<String>, server_versions: &Vec<String>) -> (r: Vec<String>)
    ensures
        string_views(r@) == binary_parents_spec(string_views(parents@), string_views(server_versions@)),
{
    let normalized = normalize_versions(server_versions);
    let source: &Vec<String> = if parents.len() > 0 { parents } else { &normalized };
    let ghost cs = string_views(source@);
    proof {
        assert(cs == binary_candidates(string_views(parents@), string_views(server_versions@)));
    }
    let n = source.len();
    let mut r: Vec<String> = Vec::new();
    let mut i: usize = 0;
    proof {
        reveal(Seq::filter);
        reveal_strlit("temp-");
        reveal_strlit("missing-");
        assert(cs.subrange(0, 0).filter(|p: Seq<char>| !is_placeholder(p)) =~= Seq::<Seq<char>>::empty());
        assert(string_views(r@) =~= Seq::<Seq<char>>::empty());
    }
    while i < n
        invariant
            i <= n,
            n == source@.len(),
            cs == string_views(source@),
            string_views(r@) == cs.subrange(0, i as int).filter(|p: Seq<char>| !is_placeholder(p)),
        decreases n - i,
    {
        let p = source[i].as_str();
        let ghost post = cs.subrange(0, i + 1);
        let ghost before = string_views(r@);
        proof {
            reveal(Seq::filter);
            reveal_strlit("temp-");
            reveal_strlit("missing-");
            assert(post.drop_last() =~= cs.subrange(0, i as int));
            assert(post.last() == p@);
        }
        if !(starts_with(p, "temp-") || starts_with(p, "missing-")) {
            r.push(String::from_str(p));
            proof {
                assert(string_views(r@) =~= before.push(p@));
            }
        }
        i = i + 1;
    }
    proof {
        assert(cs.subrange(0, n as int) =~= cs);
    }
    r
}

/// The version a binary push names: the peer, `-`, and the time in
/// milliseconds, in decimal.
pub fn binary_version_id(peer: &str, millis: u128) -> (v: String)
    ensures
        v@ == peer@ + seq!['-'] + decimal(millis as nat),
{
    let mut v = String::from_str(peer);
    push_char(&mut v, '-');
    push_decimal(&mut v, millis);
    v
}

} // verus!
