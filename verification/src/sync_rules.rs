//! The decisions BraidFS makes around its network traffic: the cookie a
//! request carries, the peer ID of an identity, which updates are echoes
//! of its own, when the server's text wins, and which parents an edit
//! names.
use vstd::prelude::*;
use crate::antimatter::{random_uuid_prefix, uuid_char};
use crate::blob_names::{compare_strs, lex_order};
use crate::collections::{StrMap, str_eq, string_views};
use crate::text::{char_is_ws, contains, contains_seq, is_ws, occurs_at, push_char, starts_with, starts_with_seq};

verus! {

/// The `Cookie` header for a stored token: the token itself when it holds
/// a `=`, `client=` and the token for braid.org, `token=` and the token
/// elsewhere.
pub open spec fn cookie_spec(token: Seq<char>, domain: Seq<char>) -> Seq<char> {
    if token.contains('=') {
        token
    } else if contains_seq(domain, "braid.org"@) {
        "client="@ + token
    } else {
        "token="@ + token
    }
}

/// The `Cookie` header for a token stored for a domain.
pub fn cookie_header(token: &str, domain: &str) -> (r: String)
    ensures
        r@ == cookie_spec(token@, domain@),
{
    proof {
        reveal_strlit("=");
        reveal_strlit("braid.org");
        reveal_strlit("client=");
        reveal_strlit("token=");
        assert("="@ =~= seq!['=']);
    }
    if contains(token, "=") {
        proof {
            let i = choose|i: int| occurs_at(token@, seq!['='], i);
            assert(token@.subrange(i, i + 1)[0] == '=');
            assert(token@[i] == '=');
        }
        String::from_str(token)
    } else {
        proof {
            if token@.contains('=') {
                let i = choose|i: int| 0 <= i < token@.len() && token@[i] == '=';
                assert(token@.subrange(i, i + 1) =~= seq!['=']);
                assert(occurs_at(token@, seq!['='], i));
            }
        }
        let mut r = if contains(domain, "braid.org") { String::from_str("client=") } else { String::from_str("token=") };
        r.append(token);
        r
    }
}

/// The peer ID for a domain: the part before the first `@` of the identity
/// stored for it, the whole identity without `@`, or the default peer ID
/// without an identity.
pub open spec fn identity_peer_spec(default_id: Seq<char>, identity: Option<Seq<char>>) -> Seq<char> {
    match identity {
        Some(id) => if id.contains('@') {
            let k = choose|k: int| 0 <= k < id.len() && id[k] == '@' && forall|j: int| 0 <= j < k ==> id[j] != '@';
            id.subrange(0, k)
        } else {
            id
        },
        None => default_id,
    }
}

/// The peer ID for a domain (see `identity_peer_spec`).
pub fn identity_peer_id(default_id: &str, identity: Option<&str>) -> (r: String)
    ensures
        r@ == identity_peer_spec(default_id@, match identity { Some(i) => Some(i@), None => None }),
{
    match identity {
        None => String::from_str(default_id),
        Some(id) => {
            let n = id.unicode_len();
            let mut k: usize = 0;
            while k < n && id.get_char(k) != '@'
                invariant
                    k <= n,
                    n == id@.len(),
                    forall|j: int| 0 <= j < k ==> id@[j] != '@',
                decreases n - k,
            {
                k = k + 1;
            }
            if k < n {
                proof {
                    let w = choose|w: int| 0 <= w < id@.len() && id@[w] == '@' && forall|j: int| 0 <= j < w ==> id@[j] != '@';
                    if w < k {
                        assert(id@[w] != '@');
                    }
                    if k < w {
                        assert(id@[k as int] != '@');
                    }
                }
                id.substring_char(0, k).to_string()
            } else {
                proof {
                    if id@.contains('@') {
                        let j = choose|j: int| 0 <= j < id@.len() && id@[j] == '@';
                        assert(id@[j] != '@');
                    }
                }
                String::from_str(id)
            }
        },
    }
}

/// Whether an update is an echo of this peer's own edit: any update but
/// the first whose version holds the peer's ID.
pub fn is_echo(is_first: bool, version: Option<&str>, my_id: &str) -> (b: bool)
    ensures
        b == (!is_first && (version matches Some(v) && contains_seq(v@, my_id@))),
{
    match version {
        Some(v) => !is_first && contains(v, my_id),
        None => false,
    }
}

/// What a subscription does with an update from the server.
#[derive(Debug, Clone, Copy, PartialEq, Eq, Structural)]
pub enum SubAction {
    /// An echo of this peer's own edit: nothing is done.
    SkipEcho,
    /// The update's version is the one stored for the file: nothing is done.
    SkipKnown,
    /// The version is recorded and the patches are applied to the file.
    ApplyPatches,
    /// The version is recorded and the body replaces the file's text.
    Snapshot,
    /// The version is recorded; the update carries nothing to write.
    RecordOnly,
}

/// What a subscription does with an update (see `subscription_step`).
pub open spec fn subscription_action(
    is_first: bool,
    my_id: Seq<char>,
    primary: Option<Seq<char>>,
    stored: Option<Seq<Seq<char>>>,
    versions: Seq<Seq<char>>,
    patch_count: nat,
    has_body: bool,
) -> SubAction {
    if !is_first && (primary matches Some(v) && contains_seq(v, my_id)) {
        SubAction::SkipEcho
    } else if stored == Some(versions) {
        SubAction::SkipKnown
    } else if patch_count > 0 {
        SubAction::ApplyPatches
    } else if has_body {
        SubAction::Snapshot
    } else {
        SubAction::RecordOnly
    }
}

/// Whether two lists of versions are the same, item by item.
fn same_versions(a: &Vec<String>, b: &Vec<String>) -> (r: bool)
    ensures
        r == (string_views(a@) == string_views(b@)),
{
    if a.len() != b.len() {
        proof {
            assert(string_views(a@).len() != string_views(b@).len());
        }
        return false;
    }
    let n = a.len();
    let mut i: usize = 0;
    while i < n
        invariant
            i <= n,
            n == a@.len(),
            n == b@.len(),
            forall|j: int| 0 <= j < i ==> (#[trigger] a@[j])@ == b@[j]@,
        decreases n - i,
    {
        if !str_eq(a[i].as_str(), b[i].as_str()) {
            proof {
                assert(string_views(a@)[i as int] != string_views(b@)[i as int]);
            }
            return false;
        }
        i = i + 1;
    }
    proof {
        assert(string_views(a@) =~= string_views(b@));
    }
    true
}

/// One step of a subscription: for an update with the given primary
/// version, versions, number of patches and body, given whether it is the
/// first update and the versions stored for the file, what is done (see
/// `subscription_action`) and whether the next update is still the first
/// (only an echo leaves that unchanged).
pub fn subscription_step(
    is_first: bool,
    my_id: &str,
    primary: Option<&str>,
    stored: Option<&Vec<String>>,
    versions: &Vec<String>,
    patch_count: usize,
    has_body: bool,
) -> (r: (SubAction, bool))
    ensures
        r.0 == subscription_action(is_first, my_id@, match primary { Some(v) => Some(v@), None => None },
            match stored { Some(s) => Some(string_views(s@)), None => None }, string_views(versions@),
            patch_count as nat, has_body),
        r.1 == (if r.0 == SubAction::SkipEcho { is_first } else { false }),
{
    if is_echo(is_first, primary, my_id) {
        return (SubAction::SkipEcho, is_first);
    }
    let known = match stored {
        Some(s) => same_versions(s, versions),
        None => false,
    };
    if known {
        (SubAction::SkipKnown, false)
    } else if patch_count > 0 {
        (SubAction::ApplyPatches, false)
    } else if has_body {
        (SubAction::Snapshot, false)
    } else {
        (SubAction::RecordOnly, false)
    }
}

/// The merge type a snapshot is merged with: the one the update names, or
/// `simpleton`.
pub fn snapshot_merge_type(requested: Option<&str>) -> (m: &str)
    ensures
        m@ == match requested { Some(r) => r@, None => "simpleton"@ },
{
    match requested {
        Some(r) => r,
        None => "simpleton",
    }
}

/// The merge type a subscription asks for: `simpleton` for braid.org
/// pages, none elsewhere.
pub fn subscription_merge_type(url: &str) -> (m: Option<&'static str>)
    ensures
        m matches Some(t) ==> t@ == "simpleton"@,
        m is Some <==> contains_seq(url@, "braid.org"@),
{
    if contains(url, "braid.org") { Some("simpleton") } else { None }
}

/// Whether the server's text replaces a local edit (last writer wins): the
/// server has a text, and it differs from the local one.
pub fn server_wins(server_body: &str, new_content: &str) -> (b: bool)
    ensures
        b == (server_body@.len() > 0 && server_body@ != new_content@),
{
    server_body.unicode_len() > 0 && !str_eq(server_body, new_content)
}

/// The parts of a text between the occurrences of `c` (one part when it
/// has none), as `str::split` gives them.
pub open spec fn split_on(s: Seq<char>, c: char) -> Seq<Seq<char>>
    decreases s.len(),
{
    if s.len() == 0 {
        seq![Seq::<char>::empty()]
    } else {
        let rest = split_on(s.drop_last(), c);
        if s.last() == c {
            rest.push(Seq::<char>::empty())
        } else {
            rest.update(rest.len() - 1, rest.last().push(s.last()))
        }
    }
}

pub(crate) proof fn lemma_split_on_len(s: Seq<char>, c: char)
    ensures
        split_on(s, c).len() >= 1,
        split_on(s, c).len() >= 2 <==> s.contains(c),
    decreases s.len(),
{
    if s.len() > 0 {
        lemma_split_on_len(s.drop_last(), c);
        if s.drop_last().contains(c) {
            let i = choose|i: int| 0 <= i < s.drop_last().len() && s.drop_last()[i] == c;
            assert(s[i] == c);
        }
        if s.contains(c) && s.last() != c {
            let i = choose|i: int| 0 <= i < s.len() && s[i] == c;
            assert(s.drop_last()[i] == c);
        }
    }
}

/// The parts of a text between the occurrences of `c`.
pub(crate) fn split_char(s: &str, c: char) -> (r: Vec<String>)
    ensures
        string_views(r@) == split_on(s@, c),
{
    let n = s.unicode_len();
    let mut parts: Vec<String> = Vec::new();
    let mut cur = String::new();
    let mut i: usize = 0;
    proof {
        assert(s@.subrange(0, 0) =~= Seq::<char>::empty());
        assert(string_views(parts@) =~= split_on(Seq::<char>::empty(), c).drop_last());
    }
    while i < n
        invariant
            i <= n,
            n == s@.len(),
            string_views(parts@) == split_on(s@.subrange(0, i as int), c).drop_last(),
            cur@ == split_on(s@.subrange(0, i as int), c).last(),
        decreases n - i,
    {
        let x = s.get_char(i);
        let ghost pre = s@.subrange(0, i as int);
        let ghost post = s@.subrange(0, i + 1);
        proof {
            lemma_split_on_len(pre, c);
            assert(post.drop_last() =~= pre);
            assert(post.last() == x);
        }
        if x == c {
            let ghost before = parts@;
            let done = cur;
            parts.push(done);
            cur = String::new();
            proof {
                assert(split_on(post, c) == split_on(pre, c).push(Seq::<char>::empty()));
                assert(string_views(parts@) =~= string_views(before).push(done@));
                assert(split_on(pre, c).drop_last().push(split_on(pre, c).last()) =~= split_on(pre, c));
                assert(split_on(post, c).drop_last() =~= split_on(pre, c));
            }
        } else {
            push_char(&mut cur, x);
            proof {
                let sp = split_on(pre, c);
                assert(split_on(post, c) == sp.update(sp.len() - 1, sp.last().push(x)));
                assert(split_on(post, c).drop_last() =~= sp.drop_last());
            }
        }
        i = i + 1;
    }
    let ghost before = parts@;
    let last = cur;
    parts.push(last);
    proof {
        assert(s@.subrange(0, n as int) =~= s@);
        lemma_split_on_len(s@, c);
        assert(string_views(parts@) =~= string_views(before).push(last@));
        assert(split_on(s@, c).drop_last().push(split_on(s@, c).last()) =~= split_on(s@, c));
    }
    parts
}

/// Whether a version is a placeholder: it starts with `temp-` or
/// `missing-`.
pub open spec fn is_placeholder(p: Seq<char>) -> bool {
    starts_with_seq(p, "temp-"@) || starts_with_seq(p, "missing-"@)
}

/// The key of a version among the parents: the peer before its first `-`,
/// or the whole version without a `-`.
pub open spec fn peer_key(p: Seq<char>) -> Seq<char> {
    if split_on(p, '-').len() >= 2 { split_on(p, '-')[0] } else { p }
}

/// The parents of an edit, one per key: each version that is not a
/// placeholder replaces the one kept for its peer when its second part
/// comes after the kept one's last part (comparing texts), or when no
/// version is kept for the peer yet; a version without `-` is kept under
/// itself.
pub open spec fn flatten_map(ps: Seq<Seq<char>>) -> Map<Seq<char>, Seq<char>>
    decreases ps.len(),
{
    if ps.len() == 0 {
        Map::empty()
    } else {
        let m = flatten_map(ps.drop_last());
        let p = ps.last();
        let parts = split_on(p, '-');
        if is_placeholder(p) {
            m
        } else if parts.len() >= 2 {
            if m.contains_key(parts[0]) && lex_order(parts[1], split_on(m[parts[0]], '-').last()) <= 0 {
                m
            } else {
                m.insert(parts[0], p)
            }
        } else {
            m.insert(p, p)
        }
    }
}

/// Each kept parent is kept under its own peer, so no two kept parents
/// share a peer.
pub proof fn lemma_flatten_keys(ps: Seq<Seq<char>>)
    ensures
        forall|k: Seq<char>| #[trigger] flatten_map(ps).contains_key(k) ==> peer_key(flatten_map(ps)[k]) == k,
    decreases ps.len(),
{
    if ps.len() > 0 {
        let pre = ps.drop_last();
        lemma_flatten_keys(pre);
        let m = flatten_map(pre);
        let p = ps.last();
        let parts = split_on(p, '-');
        assert forall|k: Seq<char>| #[trigger] flatten_map(ps).contains_key(k) implies peer_key(flatten_map(ps)[k]) == k by {
            if !is_placeholder(p) {
                if parts.len() >= 2 {
                    if k == parts[0] && flatten_map(ps)[k] == p {
                        assert(peer_key(p) == parts[0]);
                    } else {
                        assert(m.contains_key(k));
                    }
                } else {
                    if k == p {
                        assert(peer_key(p) == p);
                    } else {
                        assert(m.contains_key(k));
                    }
                }
            }
        }
    }
}

/// The parents of an edit, flattened to one version per peer (see
/// `flatten_map`), each once, in no particular order.
pub fn flatten_parents(parents: &Vec<String>) -> (r: Vec<String>)
    ensures
        string_views(r@).to_set() == flatten_map(string_views(parents@)).values(),
        string_views(r@).no_duplicates(),
{
    let ghost ps = string_views(parents@);
    let mut m: StrMap<String> = StrMap::new();
    let n = parents.len();
    let mut i: usize = 0;
    proof {
        reveal_strlit("temp-");
        reveal_strlit("missing-");
        assert(ps.subrange(0, 0) =~= Seq::<Seq<char>>::empty());
        assert(m@.map_values(|v: String| v@) =~= flatten_map(ps.subrange(0, 0)));
    }
    while i < n
        invariant
            i <= n,
            n == parents@.len(),
            ps == string_views(parents@),
            m@.map_values(|v: String| v@) == flatten_map(ps.subrange(0, i as int)),
        decreases n - i,
    {
        let p = parents[i].as_str();
        let ghost pre = ps.subrange(0, i as int);
        let ghost post = ps.subrange(0, i + 1);
        let ghost fm = flatten_map(pre);
        proof {
            assert(post.drop_last() =~= pre);
            assert(post.last() == p@);
            assert(ps[i as int] == p@);
        }
        if starts_with(p, "temp-") || starts_with(p, "missing-") {
            proof {
                assert(flatten_map(post) == fm);
            }
        } else {
            let parts = split_char(p, '-');
            proof {
                lemma_split_on_len(p@, '-');
            }
            if parts.len() >= 2 {
                let key = parts[0].as_str();
                let keep = match m.get(key) {
                    Some(existing) => {
                        let eparts = split_char(existing.as_str(), '-');
                        proof {
                            lemma_split_on_len(existing@, '-');
                            assert(fm[key@] == existing@);
                        }
                        compare_strs(parts[1].as_str(), eparts[eparts.len() - 1].as_str()) <= 0
                    },
                    None => false,
                };
                if !keep {
                    m.insert(String::from_str(key), String::from_str(p));
                    proof {
                        assert(m@.map_values(|v: String| v@) =~= fm.insert(key@, p@));
                    }
                }
                proof {
                    assert(m@.map_values(|v: String| v@) =~= flatten_map(post));
                }
            } else {
                m.insert(String::from_str(p), String::from_str(p));
                proof {
                    assert(m@.map_values(|v: String| v@) =~= fm.insert(p@, p@));
                    assert(m@.map_values(|v: String| v@) =~= flatten_map(post));
                }
            }
        }
        i = i + 1;
    }
    proof {
        assert(ps.subrange(0, n as int) =~= ps);
        lemma_flatten_keys(ps);
    }
    let ghost fm = flatten_map(ps);
    let count = m.len();
    let keys = m.keys();
    let mut r: Vec<String> = Vec::new();
    let mut j: usize = 0;
    while j < count
        invariant
            j <= count,
            count == m.key_order().len(),
            m.key_order().no_duplicates(),
            forall|k: Seq<char>| m@.contains_key(k) <==> m.key_order().contains(k),
            string_views(keys@) == m.key_order(),
            m@.map_values(|v: String| v@) == fm,
            r@.len() == j,
            forall|t: int| 0 <= t < j ==> (#[trigger] r@[t])@ == fm[m.key_order()[t]],
        decreases count - j,
    {
        let k = keys[j].as_str();
        proof {
            assert(string_views(keys@)[j as int] == k@);
            assert(m.key_order().contains(k@));
        }
        match m.get(k) {
            Some(v) => {
                r.push(String::from_str(v.as_str()));
                proof {
                    assert(fm[k@] == v@);
                }
            },
            None => {
                proof {
                    assert(false);
                }
            },
        }
        j = j + 1;
    }
    proof {
        let ko = m.key_order();
        let rs = string_views(r@);
        assert forall|x: Seq<char>| rs.to_set().contains(x) <==> fm.values().contains(x) by {
            if rs.to_set().contains(x) {
                let t = choose|t: int| 0 <= t < rs.len() && rs[t] == x;
                assert(rs[t] == r@[t]@);
                assert(r@[t]@ == fm[ko[t]]);
                assert(ko.contains(ko[t]));
                assert(m@.contains_key(ko[t]));
                assert(fm.contains_key(ko[t]));
            }
            if fm.values().contains(x) {
                let k = choose|k: Seq<char>| fm.contains_key(k) && fm[k] == x;
                assert(m@.map_values(|v: String| v@).contains_key(k));
                assert(m@.contains_key(k));
                assert(ko.contains(k));
                let t = choose|t: int| 0 <= t < ko.len() && ko[t] == k;
                assert(rs[t] == r@[t]@);
                assert(rs.contains(x));
            }
        }
        assert(rs.to_set() =~= fm.values());
        assert forall|a: int, b: int| 0 <= a < rs.len() && 0 <= b < rs.len() && a != b implies rs[a] != rs[b] by {
            assert(rs[a] == r@[a]@);
            assert(rs[b] == r@[b]@);
            assert(ko.contains(ko[a]));
            assert(ko.contains(ko[b]));
            assert(m@.contains_key(ko[a]));
            assert(m@.contains_key(ko[b]));
            assert(fm.contains_key(ko[a]));
            assert(fm.contains_key(ko[b]));
            if rs[a] == rs[b] {
                assert(peer_key(fm[ko[a]]) == ko[a]);
                assert(peer_key(fm[ko[b]]) == ko[b]);
                assert(ko[a] != ko[b]);
            }
        }
    }
    r
}

/// A new version ID for an edit by `peer`: the peer, `-`, and the first
/// eight characters of a random UUID.
pub fn new_version_id(peer: &str) -> (v: String)
    ensures
        v@.len() == peer@.len() + 9,
        v@.subrange(0, peer@.len() as int) == peer@,
        v@[peer@.len() as int] == '-',
        forall|i: int| peer@.len() + 1 <= i < v@.len() ==> uuid_char(#[trigger] v@[i]),
{
    let suffix = random_uuid_prefix(8);
    let mut v = String::from_str(peer);
    push_char(&mut v, '-');
    v.append(suffix.as_str());
    proof {
        assert(v@ =~= peer@ + seq!['-'] + suffix@);
        assert(v@.subrange(0, peer@.len() as int) =~= peer@);
        assert forall|i: int| peer@.len() + 1 <= i < v@.len() implies uuid_char(#[trigger] v@[i]) by {
            assert(v@[i] == suffix@[i - peer@.len() - 1]);
        }
    }
    v
}

/// The status a failed push reports: `unauthorized` for a message naming
/// 401 or Unauthorized, `forbidden` for one naming 403 or Forbidden, and
/// `error` otherwise.
pub open spec fn push_error_status_spec(msg: Seq<char>) -> Seq<char> {
    if contains_seq(msg, "401"@) || contains_seq(msg, "Unauthorized"@) {
        "unauthorized"@
    } else if contains_seq(msg, "403"@) || contains_seq(msg, "Forbidden"@) {
        "forbidden"@
    } else {
        "error"@
    }
}

/// The status a failed push reports (see `push_error_status_spec`).
pub fn push_error_status(msg: &str) -> (s: &'static str)
    ensures
        s@ == push_error_status_spec(msg@),
{
    if contains(msg, "401") || contains(msg, "Unauthorized") {
        "unauthorized"
    } else if contains(msg, "403") || contains(msg, "Forbidden") {
        "forbidden"
    } else {
        "error"
    }
}

/// Whether a configured sync URL is kept at start-up: known dead pages of
/// braid.org, the root of braid.org, and the mail and test areas are
/// dropped.
pub open spec fn keeps_sync_url(url: Seq<char>) -> bool {
    !(url == "https://braid.org/Braid"@ || url == "https://braid.org/Main"@ || url == "https://braid.org/Welcome"@
        || url == "https://braid.org/Protocol"@ || url == "https://braid.org/wiki"@ || url == "https://braid.org/about"@
        || url == "https://braid.org/editing"@)
    && !contains_seq(url, "mail.braid.org"@)
    && !contains_seq(url, "braid.org/tino"@)
    && !contains_seq(url, "braid.org/tino_test"@)
    && !contains_seq(url, "braid.org/xfmail"@)
    && !contains_seq(url, "braid.org/127_xfmail"@)
    && url != "https://braid.org/"@
    && url != "https://braid.org"@
}

/// Whether a configured sync URL is kept at start-up (see
/// `keeps_sync_url`).
pub fn keep_sync_url(url: &str) -> (b: bool)
    ensures
        b == keeps_sync_url(url@),
{
    let dead = str_eq(url, "https://braid.org/Braid") || str_eq(url, "https://braid.org/Main")
        || str_eq(url, "https://braid.org/Welcome") || str_eq(url, "https://braid.org/Protocol")
        || str_eq(url, "https://braid.org/wiki") || str_eq(url, "https://braid.org/about")
        || str_eq(url, "https://braid.org/editing");
    !dead
        && !contains(url, "mail.braid.org")
        && !contains(url, "braid.org/tino")
        && !contains(url, "braid.org/tino_test")
        && !contains(url, "braid.org/xfmail")
        && !contains(url, "braid.org/127_xfmail")
        && !str_eq(url, "https://braid.org/")
        && !str_eq(url, "https://braid.org")
}

/// Whether `s` ends with `suffix`.
pub open spec fn ends_with_seq(s: Seq<char>, suffix: Seq<char>) -> bool {
    suffix.len() <= s.len() && s.subrange(s.len() - suffix.len(), s.len() as int) == suffix
}

/// Whether `s` ends with `suffix`.
fn ends_with(s: &str, suffix: &str) -> (b: bool)
    ensures
        b == ends_with_seq(s@, suffix@),
{
    let n = s.unicode_len();
    let m = suffix.unicode_len();
    if m > n {
        return false;
    }
    str_eq(s.substring_char(n - m, n), suffix)
}

/// Whether a path component hides the file from syncing: a dotfile or
/// hidden directory, or a temporary, database or journal file.
pub open spec fn hidden_component(c: Seq<char>) -> bool {
    (c.len() > 0 && c[0] == '.') || ends_with_seq(c, ".tmp"@) || ends_with_seq(c, ".sqlite"@)
        || ends_with_seq(c, "-journal"@) || ends_with_seq(c, ".db"@)
}

/// Whether a file-system event on a path with these components is ignored
/// (see `hidden_component`).
pub fn is_ignored_path(components: &Vec<String>) -> (b: bool)
    ensures
        b == exists|i: int| 0 <= i < components@.len() && hidden_component(#[trigger] components@[i]@),
{
    let mut i: usize = 0;
    while i < components.len()
        invariant
            i <= components@.len(),
            forall|j: int| 0 <= j < i ==> !hidden_component(#[trigger] components@[j]@),
        decreases components@.len() - i,
    {
        let c = components[i].as_str();
        let hidden = (c.unicode_len() > 0 && c.get_char(0) == '.') || ends_with(c, ".tmp") || ends_with(c, ".sqlite")
            || ends_with(c, "-journal") || ends_with(c, ".db");
        if hidden {
            proof {
                assert(hidden_component(components@[i as int]@));
            }
            return true;
        }
        i = i + 1;
    }
    false
}


/// The words of a line, as `str::split_whitespace` gives them, with
/// whether the line ends inside a word.
pub open spec fn words_state(s: Seq<char>) -> (Seq<Seq<char>>, bool)
    decreases s.len(),
{
    if s.len() == 0 {
        (Seq::empty(), false)
    } else {
        let (ws, open) = words_state(s.drop_last());
        let c = s.last();
        if is_ws(c) {
            (ws, false)
        } else if open && ws.len() > 0 {
            (ws.update(ws.len() - 1, ws.last().push(c)), true)
        } else {
            (ws.push(seq![c]), true)
        }
    }
}

/// The words of a line: its runs of characters between whitespace.
pub open spec fn words(s: Seq<char>) -> Seq<Seq<char>> {
    words_state(s).0
}

/// A command typed at the daemon's console.
#[derive(Debug)]
pub enum ConsoleCommand {
    /// A blank line.
    Empty,
    /// `token` or `cookie`, a domain and a value: store the cookie.
    SetCookie { domain: String, value: String },
    /// `sync` and a URL: start syncing it.
    Sync { url: String },
    /// `help`.
    Help,
    /// Anything else, by its first word.
    Unknown { word: String },
}

/// The command a line's words make (see `parse_console_command`).
pub open spec fn console_command_spec(ws: Seq<Seq<char>>, c: ConsoleCommand) -> bool {
    if ws.len() == 0 {
        c is Empty
    } else if (ws[0] == "token"@ || ws[0] == "cookie"@) && ws.len() >= 3 {
        c matches ConsoleCommand::SetCookie { domain, value } && domain@ == ws[1] && value@ == ws[2]
    } else if ws[0] == "sync"@ && ws.len() >= 2 {
        c matches ConsoleCommand::Sync { url } && url@ == ws[1]
    } else if ws[0] == "help"@ {
        c is Help
    } else {
        c matches ConsoleCommand::Unknown { word } && word@ == ws[0]
    }
}

/// The words of a line, as `str::split_whitespace` gives them.
pub fn split_words(line: &str) -> (r: Vec<String>)
    ensures
        string_views(r@) == words(line@),
{
    let n = line.unicode_len();
    let mut r: Vec<String> = Vec::new();
    let mut open = false;
    let mut i: usize = 0;
    proof {
        assert(line@.subrange(0, 0) =~= Seq::<char>::empty());
        assert(string_views(r@) =~= Seq::<Seq<char>>::empty());
    }
    while i < n
        invariant
            i <= n,
            n == line@.len(),
            (string_views(r@), open) == words_state(line@.subrange(0, i as int)),
        decreases n - i,
    {
        let c = line.get_char(i);
        let ghost pre = line@.subrange(0, i as int);
        let ghost before = string_views(r@);
        proof {
            assert(line@.subrange(0, i + 1).drop_last() =~= pre);
            assert(line@.subrange(0, i + 1).last() == c);
        }
        if char_is_ws(c) {
            open = false;
        } else if open && r.len() > 0 {
            let last = r.len() - 1;
            let mut w = String::from_str(r[last].as_str());
            push_char(&mut w, c);
            let ghost wv = w@;
            r.set(last, w);
            proof {
                assert(wv == before.last().push(c));
                assert(string_views(r@) =~= before.update(before.len() - 1, before.last().push(c)));
            }
        } else {
            let mut w = String::new();
            push_char(&mut w, c);
            let ghost wv = w@;
            r.push(w);
            proof {
                assert(wv =~= seq![c]);
                assert(string_views(r@) =~= before.push(seq![c]));
            }
            open = true;
        }
        i = i + 1;
    }
    proof {
        assert(line@.subrange(0, n as int) =~= line@);
    }
    r
}

/// The command a console line asks for: `token` or `cookie` with a domain
/// and a value, `sync` with a URL, `help`, a blank line, or an unknown
/// command named by its first word.
pub fn parse_console_command(line: &str) -> (c: ConsoleCommand)
    ensures
        console_command_spec(words(line@), c),
{
    proof {
        reveal_strlit("token");
        reveal_strlit("cookie");
        reveal_strlit("sync");
        reveal_strlit("help");
    }
    let ws = split_words(line);
    proof {
        assert(ws@.len() == words(line@).len());
    }
    if ws.len() == 0 {
        return ConsoleCommand::Empty;
    }
    let first = ws[0].as_str();
    proof {
        assert(string_views(ws@)[0] == first@);
    }
    if (str_eq(first, "token") || str_eq(first, "cookie")) && ws.len() >= 3 {
        proof {
            assert(string_views(ws@)[1] == ws@[1]@);
            assert(string_views(ws@)[2] == ws@[2]@);
        }
        ConsoleCommand::SetCookie { domain: String::from_str(ws[1].as_str()), value: String::from_str(ws[2].as_str()) }
    } else if str_eq(first, "sync") && ws.len() >= 2 {
        proof {
            assert(string_views(ws@)[1] == ws@[1]@);
        }
        ConsoleCommand::Sync { url: String::from_str(ws[1].as_str()) }
    } else if str_eq(first, "help") {
        ConsoleCommand::Help
    } else {
        ConsoleCommand::Unknown { word: String::from_str(first) }
    }
}

/// Whether a connection idle since `last_ms` is stale at `now_ms`: more
/// than `timeout_ms` have passed (none have when the clock reads earlier).
pub fn is_stale(now_ms: u64, last_ms: u64, timeout_ms: u64) -> (b: bool)
    ensures
        b == (now_ms > last_ms && now_ms - last_ms > timeout_ms),
{
    now_ms > last_ms && now_ms - last_ms > timeout_ms
}


/// The prefix of the paths below a directory: `/` for the root, the
/// directory and `/` otherwise.
pub open spec fn child_prefix(dir: Seq<char>) -> Seq<char> {
    if dir == "/"@ { "/"@ } else { dir + "/"@ }
}

/// The name of `path` in the listing of directory `dir`: the rest of the
/// path after the directory's prefix, when the path starts with that
/// prefix and the rest is a single non-empty component.
pub open spec fn child_name_spec(dir: Seq<char>, path: Seq<char>) -> Option<Seq<char>> {
    let pre = child_prefix(dir);
    if starts_with_seq(path, pre) && path.len() > pre.len() && !path.subrange(pre.len() as int, path.len() as int).contains('/') {
        Some(path.subrange(pre.len() as int, path.len() as int))
    } else {
        None
    }
}

/// The name under which a path of the inode table is listed in a
/// directory, if it is one of the directory's immediate children (see
/// `child_name_spec`).
pub fn child_name(dir: &str, path: &str) -> (r: Option<String>)
    ensures
        match r {
            Some(n) => child_name_spec(dir@, path@) == Some(n@),
            None => child_name_spec(dir@, path@) is None,
        },
{
    proof {
        reveal_strlit("/");
    }
    let mut pre = String::from_str(dir);
    if !str_eq(dir, "/") {
        push_char(&mut pre, '/');
        proof {
            assert(pre@ =~= dir@ + "/"@);
        }
    }
    proof {
        assert(pre@ == child_prefix(dir@));
    }
    let pl = pre.unicode_len();
    let n = path.unicode_len();
    if !starts_with(path, pre.as_str()) || n <= pl {
        return None;
    }
    let mut i = pl;
    while i < n
        invariant
            pl <= i <= n,
            n == path@.len(),
            forall|j: int| pl <= j < i ==> path@[j] != '/',
            pl == child_prefix(dir@).len(),
            starts_with_seq(path@, child_prefix(dir@)),
        decreases n - i,
    {
        if path.get_char(i) == '/' {
            proof {
                assert(path@.subrange(pl as int, n as int)[i - pl] == '/');
                assert(path@.subrange(pl as int, n as int).contains('/'));
            }
            return None;
        }
        i = i + 1;
    }
    let rest = path.substring_char(pl, n).to_string();
    proof {
        assert(rest@ =~= path@.subrange(pl as int, n as int));
        if rest@.contains('/') {
            let k = choose|k: int| 0 <= k < rest@.len() && rest@[k] == '/';
            assert(path@[pl + k] == '/');
        }
    }
    Some(rest)
}

} // verus!
