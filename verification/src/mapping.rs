//! Mapping between URLs, paths and file contents: joining paths,
//! normalising URLs, and taking the markdown of a wiki page out of (and
//! back into) its HTML.
use vstd::prelude::*;
use crate::collections::{str_eq, string_views};
use crate::layout::{join, join_path};
use crate::text::{
    lead_ws, trail_ws, lemma_trail_ws_le, lemma_trim_between_newlines,
    contains, contains_seq, decimal, find_from, is_ws, occurs_at, parse_usize_spec, push_char, push_decimal, starts_with,
    starts_with_seq, substring, trim, trim_seq,
};

verus! {

/// `name` inside `parent`: `/name` under the root, `parent/name` elsewhere.
pub open spec fn path_join_spec(parent: Seq<char>, name: Seq<char>) -> Seq<char> {
    if parent == seq!['/'] { seq!['/'] + name } else { parent + seq!['/'] + name }
}

/// Join a directory path and a name.
pub fn path_join(parent: &str, name: &str) -> (p: String)
    ensures
        p@ == path_join_spec(parent@, name@),
{
    proof {
        reveal_strlit("/");
        assert("/"@ =~= seq!['/']);
    }
    if str_eq(parent, "/") {
        let mut p = String::from_str("/");
        p.append(name);
        p
    } else {
        let mut p = String::from_str(parent);
        push_char(&mut p, '/');
        p.append(name);
        p
    }
}

/// Whether `s` ends in `/index`.
pub open spec fn ends_in_index(s: Seq<char>) -> bool {
    s.len() >= 6 && s.subrange(s.len() - 6, s.len() as int) == "/index"@
}

/// `s` without its trailing run of `/index` and `/` parts, as the
/// pattern `(\/index|\/)+$` removes it.
pub open spec fn strip_tail(s: Seq<char>) -> Seq<char>
    decreases s.len(),
{
    if ends_in_index(s) {
        strip_tail(s.subrange(0, s.len() - 6))
    } else if s.len() > 0 && s.last() == '/' {
        strip_tail(s.drop_last())
    } else {
        s
    }
}

/// Normalise a URL: drop its trailing run of `/index` and `/` parts, so
/// that it ends in neither.
pub fn normalize_url(url: &str) -> (r: String)
    ensures
        r@ == strip_tail(url@),
        !ends_in_index(r@),
        !(r@.len() > 0 && r@.last() == '/'),
{
    proof {
        reveal_strlit("/index");
    }
    let mut n = url.unicode_len();
    proof {
        assert(url@.subrange(0, n as int) =~= url@);
    }
    loop
        invariant
            n <= url@.len(),
            strip_tail(url@.subrange(0, n as int)) == strip_tail(url@),
        ensures
            n <= url@.len(),
            strip_tail(url@.subrange(0, n as int)) == strip_tail(url@),
            !ends_in_index(url@.subrange(0, n as int)),
            !(n > 0 && url@[n - 1] == '/'),
        decreases n,
    {
        let ghost cur = url@.subrange(0, n as int);
        if n >= 6 && str_eq(url.substring_char(n - 6, n), "/index") {
            proof {
                assert(cur.subrange(n - 6, n as int) =~= url@.subrange(n - 6, n as int));
                assert(cur.subrange(0, n - 6) =~= url@.subrange(0, n - 6));
            }
            n = n - 6;
        } else if n > 0 && url.get_char(n - 1) == '/' {
            proof {
                if n >= 6 {
                    assert(cur.subrange(n - 6, n as int) =~= url@.subrange(n - 6, n as int));
                }
                assert(cur.drop_last() =~= url@.subrange(0, n - 1));
            }
            n = n - 1;
        } else {
            proof {
                if n >= 6 {
                    assert(cur.subrange(n - 6, n as int) =~= url@.subrange(n - 6, n as int));
                }
            }
            break;
        }
    }
    proof {
        let cur = url@.subrange(0, n as int);
        if n > 0 {
            assert(cur.last() == url@[n - 1]);
        }
        assert(strip_tail(cur) == cur);
    }
    substring(url, 0, n)
}

/// What `url::Url::parse` gives for a text: the host, the port and the
/// path of the URL it parses, or the message of the error it gives.
pub uninterp spec fn url_parse_result(s: Seq<char>) -> Result<(Option<Seq<char>>, Option<u16>, Seq<char>), Seq<char>>;

/// The view of the parts of a parsed URL.
pub open spec fn url_parts_view(r: Result<(Option<String>, Option<u16>, String), String>)
    -> Result<(Option<Seq<char>>, Option<u16>, Seq<char>), Seq<char>>
{
    match r {
        Ok((h, p, path)) => Ok((match h { Some(x) => Some(x@), None => None }, p, path@)),
        Err(e) => Err(e@),
    }
}

/// `url::Url::parse` on the text: on success the URL's `host_str`, `port`
/// and `path`, otherwise the error's message.
#[verifier::external_body]
fn url_parts(s: &str) -> (r: Result<(Option<String>, Option<u16>, String), String>)
    ensures
        url_parts_view(r) == url_parse_result(s@),
{
    match url::Url::parse(s) {
        Ok(u) => Ok((u.host_str().map(String::from), u.port(), String::from(u.path()))),
        Err(e) => Err(e.to_string()),
    }
}

/// Check if a URL is well-formed and absolute.
pub fn is_well_formed_absolute_url(url: &str) -> (b: bool)
    ensures
        b == url_parse_result(url@) is Ok,
{
    url_parts(url).is_ok()
}

/// `s` with every backslash turned into a slash.
pub open spec fn forward_slashes(s: Seq<char>) -> Seq<char> {
    s.map_values(|c: char| if c == '\\' { '/' } else { c })
}

/// A URL text with the scheme it lacks: `https://` before `braid.org` and
/// `braidfs`, `http://` before `localhost` and `127.0.0.1`.
pub open spec fn with_scheme(n: Seq<char>) -> Seq<char> {
    if contains_seq(n, seq![':', '/', '/']) {
        n
    } else if starts_with_seq(n, "braid.org"@) || starts_with_seq(n, "braidfs"@) {
        "https://"@ + n
    } else if starts_with_seq(n, "localhost"@) || starts_with_seq(n, "127.0.0.1"@) {
        "http://"@ + n
    } else {
        n
    }
}

/// The parts of a text between its slashes (one part without a slash).
pub open spec fn split_slashes(s: Seq<char>) -> Seq<Seq<char>>
    decreases s.len(),
{
    if s.len() == 0 {
        seq![Seq::<char>::empty()]
    } else {
        let rest = split_slashes(s.drop_last());
        if s.last() == '/' {
            rest.push(Seq::<char>::empty())
        } else {
            rest.update(rest.len() - 1, rest.last().push(s.last()))
        }
    }
}

/// There is always at least one part.
proof fn lemma_split_nonempty(s: Seq<char>)
    ensures
        split_slashes(s).len() >= 1,
    decreases s.len(),
{
    if s.len() > 0 {
        lemma_split_nonempty(s.drop_last());
    }
}

/// The segments of a URL path: the parts after its leading slash (one
/// empty segment for a path without one).
pub open spec fn url_segments(path: Seq<char>) -> Seq<Seq<char>> {
    if path.len() > 0 && path[0] == '/' { split_slashes(path.drop_first()) } else { seq![Seq::<char>::empty()] }
}

/// `base` with each of `segs` pushed onto it in turn.
pub open spec fn push_all(base: Seq<char>, segs: Seq<Seq<char>>) -> Seq<char>
    decreases segs.len(),
{
    if segs.len() == 0 { base } else { join_path(push_all(base, segs.drop_last()), segs.last()) }
}

/// The directory of a host: the host, then `+` and the port when there is
/// one.
pub open spec fn domain_dir(host: Seq<char>, port: Option<u16>) -> Seq<char> {
    match port {
        Some(p) => host + seq!['+'] + decimal(p as nat),
        None => host,
    }
}

/// The local path of a URL under `root`: the URL (with slashes for
/// backslashes and a scheme added where `with_scheme` adds one) is parsed;
/// the path is the host's directory under `root`, then each segment of the
/// URL's path, then `index` when the URL's path ends with a slash.  A URL
/// that does not parse, or has no host, is an error.
pub open spec fn url_path_spec(root: Seq<char>, url: Seq<char>) -> Result<Seq<char>, Seq<char>> {
    match url_parse_result(with_scheme(forward_slashes(url))) {
        Err(e) => Err(e),
        Ok((host, port, path)) => match host {
            None => Err("URL missing host"@),
            Some(h) => {
                let p = push_all(join_path(root, domain_dir(h, port)), url_segments(path));
                Ok(if path.len() > 0 && path.last() == '/' { join_path(p, "index"@) } else { p })
            },
        },
    }
}

/// `s` with every backslash turned into a slash.
fn slashes(s: &str) -> (r: String)
    ensures
        r@ == forward_slashes(s@),
{
    let n = s.unicode_len();
    let mut r = String::new();
    let mut i: usize = 0;
    while i < n
        invariant
            i <= n,
            n == s@.len(),
            r@ == forward_slashes(s@.subrange(0, i as int)),
        decreases n - i,
    {
        let c = s.get_char(i);
        push_char(&mut r, if c == '\\' { '/' } else { c });
        proof {
            assert(r@ =~= forward_slashes(s@.subrange(0, i + 1)));
        }
        i = i + 1;
    }
    proof {
        assert(s@.subrange(0, n as int) =~= s@);
    }
    r
}

/// The local path of a URL under `root` (see `url_path_spec`).
pub fn url_to_path(root: &str, url_str: &str) -> (r: Result<String, String>)
    ensures
        match r {
            Ok(p) => url_path_spec(root@, url_str@) == Ok::<Seq<char>, Seq<char>>(p@),
            Err(e) => url_path_spec(root@, url_str@) == Err::<Seq<char>, Seq<char>>(e@),
        },
{
    let mut normalized = slashes(url_str);
    proof {
        reveal_strlit("://");
        reveal_strlit("braid.org");
        reveal_strlit("braidfs");
        reveal_strlit("localhost");
        reveal_strlit("127.0.0.1");
        reveal_strlit("https://");
        reveal_strlit("http://");
        assert("://"@ =~= seq![':', '/', '/']);
    }
    if !contains(normalized.as_str(), "://") {
        if starts_with(normalized.as_str(), "braid.org") || starts_with(normalized.as_str(), "braidfs") {
            let mut n = String::from_str("https://");
            n.append(normalized.as_str());
            normalized = n;
        } else if starts_with(normalized.as_str(), "localhost") || starts_with(normalized.as_str(), "127.0.0.1") {
            let mut n = String::from_str("http://");
            n.append(normalized.as_str());
            normalized = n;
        }
    }
    let (host, port, path) = match url_parts(normalized.as_str()) {
        Ok(parts) => parts,
        Err(e) => {
            return Err(e);
        },
    };
    let host = match host {
        Some(h) => h,
        None => {
            proof {
                reveal_strlit("URL missing host");
            }
            return Err(String::from_str("URL missing host"));
        },
    };
    let mut domain = host;
    match port {
        Some(p) => {
            push_char(&mut domain, '+');
            push_decimal(&mut domain, p as u128);
        },
        None => {},
    }
    proof {
        assert(domain@ =~= domain_dir(host@, port));
    }
    let base = join(root, domain.as_str());
    let ghost segs = url_segments(path@);
    let n = path.unicode_len();
    let mut built = base;
    let mut seg = String::new();
    if n > 0 && path.get_char(0) == '/' {
        let ghost tail = path@.drop_first();
        let mut i: usize = 1;
        proof {
            assert(path@.subrange(1, 1) =~= Seq::<char>::empty());
            assert(split_slashes(Seq::<char>::empty()) =~= seq![Seq::<char>::empty()]);
            assert(seq![Seq::<char>::empty()].drop_last() =~= Seq::<Seq<char>>::empty());
        }
        while i < n
            invariant
                1 <= i <= n,
                n == path@.len(),
                path@[0] == '/',
                built@ == push_all(join_path(root@, domain@), split_slashes(path@.subrange(1, i as int)).drop_last()),
                seg@ == split_slashes(path@.subrange(1, i as int)).last(),
            decreases n - i,
        {
            let c = path.get_char(i);
            let ghost pre = path@.subrange(1, i as int);
            let ghost post = path@.subrange(1, i + 1);
            proof {
                lemma_split_nonempty(pre);
                assert(post.drop_last() =~= pre);
                assert(post.last() == c);
            }
            if c == '/' {
                built = join(built.as_str(), seg.as_str());
                seg = String::new();
                proof {
                    assert(split_slashes(post) == split_slashes(pre).push(Seq::<char>::empty()));
                    assert(split_slashes(post).drop_last() =~= split_slashes(pre));
                    assert(split_slashes(pre).drop_last() =~= split_slashes(pre).subrange(0, split_slashes(pre).len() - 1));
                }
            } else {
                push_char(&mut seg, c);
                proof {
                    let sp = split_slashes(pre);
                    assert(split_slashes(post) == sp.update(sp.len() - 1, sp.last().push(c)));
                    assert(split_slashes(post).drop_last() =~= sp.drop_last());
                }
            }
            i = i + 1;
        }
        proof {
            assert(path@.subrange(1, n as int) =~= tail);
            lemma_split_nonempty(tail);
            assert(split_slashes(tail).drop_last().push(split_slashes(tail).last()) =~= split_slashes(tail));
        }
        built = join(built.as_str(), seg.as_str());
        proof {
            assert(segs == split_slashes(tail));
            assert(built@ == push_all(join_path(root@, domain@), segs));
        }
    } else {
        proof {
            assert(segs =~= seq![Seq::<char>::empty()]);
            assert(segs.drop_last() =~= Seq::<Seq<char>>::empty());
        }
        built = join(built.as_str(), seg.as_str());
        proof {
            assert(push_all(join_path(root@, domain@), segs.drop_last()) == join_path(root@, domain@));
            assert(built@ == push_all(join_path(root@, domain@), segs));
        }
    }
    proof {
        assert(built@ == push_all(join_path(root@, domain_dir(host@, port)), url_segments(path@)));
    }
    if n > 0 && path.get_char(n - 1) == '/' {
        proof {
            reveal_strlit("index");
        }
        built = join(built.as_str(), "index");
    }
    Ok(built)
}

/// `base` with each non-empty segment appended after a slash.
pub open spec fn append_segments(base: Seq<char>, segs: Seq<Seq<char>>) -> Seq<char>
    decreases segs.len(),
{
    if segs.len() == 0 {
        base
    } else {
        let b = append_segments(base, segs.drop_last());
        if segs.last().len() == 0 { b } else { b + seq!['/'] + segs.last() }
    }
}

/// The path of a URL in the virtual file system: `/`, the host's
/// directory, each non-empty segment of the URL's path after a slash, and
/// `/index` when the path ends with a slash.  A URL that does not parse,
/// or has no host, is an error.
pub open spec fn vpath_spec(url: Seq<char>) -> Result<Seq<char>, Seq<char>> {
    match url_parse_result(url) {
        Err(e) => Err(e),
        Ok((host, port, path)) => match host {
            None => Err("URL missing host"@),
            Some(h) => {
                let v = append_segments(domain_dir(h, port), url_segments(path));
                Ok(seq!['/'] + (if path.len() > 0 && path.last() == '/' { v + "/index"@ } else { v }))
            },
        },
    }
}

/// `s` with `seg` appended after a slash unless `seg` is empty.
fn append_segment(s: &mut String, seg: &str)
    ensures
        final(s)@ == (if seg@.len() == 0 { old(s)@ } else { old(s)@ + seq!['/'] + seg@ }),
{
    if seg.unicode_len() > 0 {
        push_char(s, '/');
        s.append(seg);
    }
}

/// The path of a URL in the virtual file system (see `vpath_spec`).
pub fn url_to_vpath(url_str: &str) -> (r: Result<String, String>)
    ensures
        match r {
            Ok(p) => vpath_spec(url_str@) == Ok::<Seq<char>, Seq<char>>(p@),
            Err(e) => vpath_spec(url_str@) == Err::<Seq<char>, Seq<char>>(e@),
        },
{
    let (host, port, path) = match url_parts(url_str) {
        Ok(parts) => parts,
        Err(e) => {
            return Err(e);
        },
    };
    let host = match host {
        Some(h) => h,
        None => {
            proof {
                reveal_strlit("URL missing host");
            }
            return Err(String::from_str("URL missing host"));
        },
    };
    let mut vpath = host;
    match port {
        Some(p) => {
            push_char(&mut vpath, '+');
            push_decimal(&mut vpath, p as u128);
        },
        None => {},
    }
    proof {
        assert(vpath@ =~= domain_dir(host@, port));
    }
    let ghost base = vpath@;
    let ghost segs = url_segments(path@);
    let n = path.unicode_len();
    let mut seg = String::new();
    if n > 0 && path.get_char(0) == '/' {
        let ghost tail = path@.drop_first();
        let mut i: usize = 1;
        proof {
            assert(path@.subrange(1, 1) =~= Seq::<char>::empty());
            assert(split_slashes(Seq::<char>::empty()) =~= seq![Seq::<char>::empty()]);
            assert(seq![Seq::<char>::empty()].drop_last() =~= Seq::<Seq<char>>::empty());
        }
        while i < n
            invariant
                1 <= i <= n,
                n == path@.len(),
                path@[0] == '/',
                vpath@ == append_segments(base, split_slashes(path@.subrange(1, i as int)).drop_last()),
                seg@ == split_slashes(path@.subrange(1, i as int)).last(),
            decreases n - i,
        {
            let c = path.get_char(i);
            let ghost pre = path@.subrange(1, i as int);
            let ghost post = path@.subrange(1, i + 1);
            proof {
                lemma_split_nonempty(pre);
                assert(post.drop_last() =~= pre);
                assert(post.last() == c);
            }
            if c == '/' {
                append_segment(&mut vpath, seg.as_str());
                seg = String::new();
                proof {
                    assert(split_slashes(post) == split_slashes(pre).push(Seq::<char>::empty()));
                    assert(split_slashes(post).drop_last() =~= split_slashes(pre));
                }
            } else {
                push_char(&mut seg, c);
                proof {
                    let sp = split_slashes(pre);
                    assert(split_slashes(post) == sp.update(sp.len() - 1, sp.last().push(c)));
                    assert(split_slashes(post).drop_last() =~= sp.drop_last());
                }
            }
            i = i + 1;
        }
        proof {
            assert(path@.subrange(1, n as int) =~= tail);
            lemma_split_nonempty(tail);
            assert(segs == split_slashes(tail));
        }
        append_segment(&mut vpath, seg.as_str());
        proof {
            assert(vpath@ == append_segments(base, segs));
        }
    } else {
        proof {
            assert(segs =~= seq![Seq::<char>::empty()]);
            assert(segs.drop_last() =~= Seq::<Seq<char>>::empty());
            assert(segs.last().len() == 0);
            assert(append_segments(base, segs.drop_last()) == base);
            assert(append_segments(base, segs) == base);
        }
    }
    if n > 0 && path.get_char(n - 1) == '/' {
        vpath.append("/index");
        proof {
            reveal_strlit("/index");
        }
    }
    let mut r = String::new();
    push_char(&mut r, '/');
    r.append(vpath.as_str());
    proof {
        assert(r@ =~= seq!['/'] + vpath@);
    }
    Ok(r)
}

/// What `str::parse::<u16>` gives as error message for a text it refuses.
pub uninterp spec fn u16_parse_message(s: Seq<char>) -> Seq<char>;

/// Whether `str::parse::<u16>` accepts a text, and the value it gives.
pub open spec fn u16_value(s: Seq<char>) -> Option<u16> {
    match parse_usize_spec(s) {
        Some(v) => if v <= u16::MAX { Some(v as u16) } else { None },
        None => None,
    }
}

/// `str::parse::<u16>`: an optional `+` and decimal digits whose value
/// fits in a `u16` give that value; any other text gives the error, taken
/// by its message.
#[verifier::external_body]
fn parse_u16(s: &str) -> (r: Result<u16, String>)
    ensures
        match r {
            Ok(v) => u16_value(s@) == Some(v),
            Err(e) => u16_value(s@) is None && e@ == u16_parse_message(s@),
        },
{
    match s.parse::<u16>() {
        Ok(v) => Ok(v),
        Err(e) => Err(e.to_string()),
    }
}

/// What the `url` crate serialises for `base` (a scheme and a host) and
/// the path segments: `Url::parse(base)`, then
/// `path_segments_mut().extend(segments)`; or the message of the step that
/// failed.
pub uninterp spec fn built_url(base: Seq<char>, segments: Seq<Seq<char>>) -> Result<Seq<char>, Seq<char>>;

/// What the `url` crate serialises for `base` (a scheme and a host), the
/// port and the path segments: `Url::parse(base)`, then
/// `set_port(Some(port))`, then `path_segments_mut().extend(segments)`; or
/// the message of the step that failed.
pub uninterp spec fn built_url_on_port(base: Seq<char>, port: u16, segments: Seq<Seq<char>>) -> Result<Seq<char>, Seq<char>>;

/// The URL made of `base` and `segments` by the `url` crate (see
/// `built_url`).
#[verifier::external_body]
fn build_url(base: &str, segments: &Vec<String>) -> (r: Result<String, String>)
    ensures
        match r {
            Ok(u) => built_url(base@, string_views(segments@)) == Ok::<Seq<char>, Seq<char>>(u@),
            Err(e) => built_url(base@, string_views(segments@)) == Err::<Seq<char>, Seq<char>>(e@),
        },
{
    let mut url = match url::Url::parse(base) {
        Ok(u) => u,
        Err(e) => return Err(e.to_string()),
    };
    match url.path_segments_mut() {
        Ok(mut segs) => {
            segs.extend(segments.iter());
        },
        Err(_) => return Err(String::from("Cannot be base")),
    }
    Ok(url.to_string())
}

/// The URL made of `base`, `port` and `segments` by the `url` crate (see
/// `built_url_on_port`).
#[verifier::external_body]
fn build_url_on_port(base: &str, port: u16, segments: &Vec<String>) -> (r: Result<String, String>)
    ensures
        match r {
            Ok(u) => built_url_on_port(base@, port, string_views(segments@)) == Ok::<Seq<char>, Seq<char>>(u@),
            Err(e) => built_url_on_port(base@, port, string_views(segments@)) == Err::<Seq<char>, Seq<char>>(e@),
        },
{
    let mut url = match url::Url::parse(base) {
        Ok(u) => u,
        Err(e) => return Err(e.to_string()),
    };
    if url.set_port(Some(port)).is_err() {
        return Err(String::from("Invalid port"));
    }
    match url.path_segments_mut() {
        Ok(mut segs) => {
            segs.extend(segments.iter());
        },
        Err(_) => return Err(String::from("Cannot be base")),
    }
    Ok(url.to_string())
}

/// The position of the last `c` in `s`, if any.
pub open spec fn last_index_of(s: Seq<char>, c: char) -> Option<int> {
    if exists|k: int| 0 <= k < s.len() && s[k] == c {
        Some(choose|k: int| 0 <= k < s.len() && s[k] == c && forall|j: int| k < j < s.len() ==> s[j] != c)
    } else {
        None
    }
}

/// The scheme of a host: `http` for the local machine, `https` otherwise.
pub open spec fn scheme_of(host: Seq<char>) -> Seq<char> {
    if host == "localhost"@ || host == "127.0.0.1"@ { "http"@ } else { "https"@ }
}

/// The URL of a host, a port and path segments, without a final `index`
/// segment.
pub open spec fn url_of_parts(host: Seq<char>, port: Option<u16>, segs: Seq<Seq<char>>) -> Result<Seq<char>, Seq<char>> {
    let kept = if segs.len() > 0 && segs.last() == "index"@ { segs.drop_last() } else { segs };
    match port {
        Some(p) => built_url_on_port(scheme_of(host) + "://"@ + host, p, kept),
        None => built_url(scheme_of(host) + "://"@ + host, kept),
    }
}

/// The URL of a path below the root, given by its components: the first
/// is the host's directory (`host` or `host+port`), the others the path
/// segments.  No components, a first one starting with `.`, or a port that
/// is not a `u16` is an error.
pub open spec fn components_url(comps: Seq<Seq<char>>) -> Result<Seq<char>, Seq<char>> {
    if comps.len() == 0 {
        Err("Path too short"@)
    } else if comps[0].len() > 0 && comps[0][0] == '.' {
        Err("Ignoring dotfile/directory"@)
    } else {
        let d = comps[0];
        let rest = comps.drop_first();
        match last_index_of(d, '+') {
            Some(k) => match u16_value(d.subrange(k + 1, d.len() as int)) {
                Some(port) => url_of_parts(d.subrange(0, k), Some(port), rest),
                None => Err(u16_parse_message(d.subrange(k + 1, d.len() as int))),
            },
            None => url_of_parts(d, None, rest),
        }
    }
}

/// The host directory `host` or `host+port` (with the port's text `ps`)
/// maps to the URL the `url` crate builds from `http://` and the host when
/// the host is the local machine (`localhost` or `127.0.0.1`), and from
/// `https://` and the host otherwise.
pub proof fn lemma_host_dir_scheme(host: Seq<char>, ps: Seq<char>, p: u16, rest: Seq<Seq<char>>)
    requires
        !host.contains('+'),
        host.len() == 0 || host[0] != '.',
        !ps.contains('+'),
        u16_value(ps) == Some(p),
        rest.len() == 0 || rest.last() != "index"@,
    ensures
        components_url(seq![host + seq!['+'] + ps] + rest) == built_url_on_port(
            (if host == "localhost"@ || host == "127.0.0.1"@ { "http://"@ } else { "https://"@ }) + host, p, rest),
        components_url(seq![host] + rest) == built_url(
            (if host == "localhost"@ || host == "127.0.0.1"@ { "http://"@ } else { "https://"@ }) + host, rest),
{
    reveal_strlit("localhost");
    reveal_strlit("127.0.0.1");
    reveal_strlit("http://");
    reveal_strlit("https://");
    reveal_strlit("http");
    reveal_strlit("https");
    reveal_strlit("://");
    let sch = if host == "localhost"@ || host == "127.0.0.1"@ { "http://"@ } else { "https://"@ };
    assert(scheme_of(host) + "://"@ + host =~= sch + host);
    // with a port
    let d = host + seq!['+'] + ps;
    let c1 = seq![d] + rest;
    assert(c1[0] == d);
    assert(c1.drop_first() =~= rest);
    let k = host.len() as int;
    assert(d[k] == '+');
    let kk = choose|j: int| 0 <= j < d.len() && d[j] == '+' && forall|i: int| j < i < d.len() ==> d[i] != '+';
    assert(0 <= kk < d.len() && d[kk] == '+' && forall|i: int| kk < i < d.len() ==> d[i] != '+') by {
        assert forall|i: int| k < i < d.len() implies d[i] != '+' by {
            assert(d[i] == ps[i - k - 1]);
            if ps[i - k - 1] == '+' {
                assert(ps.contains('+'));
            }
        }
    }
    assert(kk == k) by {
        if kk < k {
            assert(d[kk] == host[kk]);
            assert(host.contains('+'));
        }
    }
    assert(last_index_of(d, '+') == Some(k));
    assert(d.subrange(0, k) =~= host);
    assert(d.subrange(k + 1, d.len() as int) =~= ps);
    if host.len() == 0 {
        assert(d[0] == '+');
    } else {
        assert(d[0] == host[0]);
    }
    // without a port
    let c2 = seq![host] + rest;
    assert(c2[0] == host);
    assert(c2.drop_first() =~= rest);
    assert(last_index_of(host, '+') is None) by {
        if exists|j: int| 0 <= j < host.len() && host[j] == '+' {
            let j = choose|j: int| 0 <= j < host.len() && host[j] == '+';
            assert(host.contains('+'));
        }
    }
}

/// The directory of the local machine, `127.0.0.1` or `localhost` with or
/// without a port, maps to an `http` URL of that host.
pub proof fn lemma_loopback_dir_is_http(host: Seq<char>, ps: Seq<char>, p: u16, rest: Seq<Seq<char>>)
    requires
        host == "localhost"@ || host == "127.0.0.1"@,
        !ps.contains('+'),
        u16_value(ps) == Some(p),
        rest.len() == 0 || rest.last() != "index"@,
    ensures
        components_url(seq![host + seq!['+'] + ps] + rest) == built_url_on_port("http://"@ + host, p, rest),
        components_url(seq![host] + rest) == built_url("http://"@ + host, rest),
{
    reveal_strlit("localhost");
    reveal_strlit("127.0.0.1");
    assert(!host.contains('+')) by {
        if host.contains('+') {
            let j = choose|j: int| 0 <= j < host.len() && host[j] == '+';
            if host == "localhost"@ {
                assert("localhost"@ =~= seq!['l', 'o', 'c', 'a', 'l', 'h', 'o', 's', 't']);
            } else {
                assert("127.0.0.1"@ =~= seq!['1', '2', '7', '.', '0', '.', '0', '.', '1']);
            }
        }
    }
    assert(host[0] != '.');
    lemma_host_dir_scheme(host, ps, p, rest);
}

/// A URL text without a scheme that starts with the local machine's name
/// (`localhost` or `127.0.0.1`) maps to the same path as that text after
/// `http://`.
pub proof fn lemma_loopback_text_is_http(root: Seq<char>, u: Seq<char>)
    requires
        starts_with_seq(u, "localhost"@) || starts_with_seq(u, "127.0.0.1"@),
        !contains_seq(forward_slashes(u), "://"@),
    ensures
        url_path_spec(root, u) == url_path_spec(root, "http://"@ + u),
{
    reveal_strlit("localhost");
    reveal_strlit("127.0.0.1");
    reveal_strlit("http://");
    reveal_strlit("://");
    reveal_strlit("braid.org");
    reveal_strlit("braidfs");
    let h = "http://"@;
    assert(h =~= seq!['h', 't', 't', 'p', ':', '/', '/']);
    assert("://"@ =~= seq![':', '/', '/']);
    let f = forward_slashes(u);
    assert(forward_slashes(h + u) =~= h + f);
    assert(occurs_at(h + f, "://"@, 4)) by {
        assert((h + f).subrange(4, 7) =~= "://"@);
    }
    assert(contains_seq(h + f, "://"@));
    assert(with_scheme(h + f) == h + f);
    assert(f.len() == u.len());
    if starts_with_seq(u, "localhost"@) {
        assert("localhost"@ =~= seq!['l', 'o', 'c', 'a', 'l', 'h', 'o', 's', 't']);
        assert(f.subrange(0, 9) =~= u.subrange(0, 9));
        assert(f[0] == 'l');
    } else {
        assert("127.0.0.1"@ =~= seq!['1', '2', '7', '.', '0', '.', '0', '.', '1']);
        assert(f.subrange(0, 9) =~= u.subrange(0, 9));
        assert(f[0] == '1');
    }
    assert(!starts_with_seq(f, "braid.org"@)) by {
        if starts_with_seq(f, "braid.org"@) {
            assert(f.subrange(0, 9)[0] == f[0]);
        }
    }
    assert(!starts_with_seq(f, "braidfs"@)) by {
        if starts_with_seq(f, "braidfs"@) {
            assert(f.subrange(0, 7)[0] == f[0]);
        }
    }
    assert(with_scheme(f) == h + f);
}

/// The URL of a path below the root, given by its components (see
/// `components_url`).
pub fn url_from_components(components: &Vec<String>) -> (r: Result<String, String>)
    ensures
        match r {
            Ok(u) => components_url(string_views(components@)) == Ok::<Seq<char>, Seq<char>>(u@),
            Err(e) => components_url(string_views(components@)) == Err::<Seq<char>, Seq<char>>(e@),
        },
{
    proof {
        reveal_strlit("Path too short");
        reveal_strlit("Ignoring dotfile/directory");
        reveal_strlit("localhost");
        reveal_strlit("127.0.0.1");
        reveal_strlit("http");
        reveal_strlit("https");
        reveal_strlit("://");
        reveal_strlit("index");
    }
    let ghost comps = string_views(components@);
    if components.len() == 0 {
        return Err(String::from_str("Path too short"));
    }
    let d = components[0].as_str();
    let dn = d.unicode_len();
    proof {
        assert(comps[0] == d@);
    }
    if dn > 0 && d.get_char(0) == '.' {
        return Err(String::from_str("Ignoring dotfile/directory"));
    }
    let mut k: usize = dn;
    while k > 0 && d.get_char(k - 1) != '+'
        invariant
            k <= dn,
            dn == d@.len(),
            forall|j: int| k <= j < dn ==> d@[j] != '+',
        decreases k,
    {
        k = k - 1;
    }
    let (host, port) = if k == 0 {
        proof {
            assert(!(exists|j: int| 0 <= j < d@.len() && d@[j] == '+'));
            assert(last_index_of(d@, '+') is None);
        }
        (String::from_str(d), None)
    } else {
        proof {
            assert(d@[k - 1] == '+');
            let w = choose|j: int| 0 <= j < d@.len() && d@[j] == '+' && forall|i: int| j < i < d@.len() ==> d@[i] != '+';
            assert(last_index_of(d@, '+') == Some(w));
            if w < k - 1 {
                assert(d@[k - 1] != '+');
            }
            assert(w == k - 1);
        }
        let p = substring(d, k, dn);
        match parse_u16(p.as_str()) {
            Ok(v) => (substring(d, 0, k - 1), Some(v)),
            Err(e) => {
                return Err(e);
            },
        }
    };
    let n = components.len();
    let mut segs: Vec<String> = Vec::new();
    let mut i: usize = 1;
    while i < n
        invariant
            1 <= i <= n,
            n == components@.len(),
            comps == string_views(components@),
            string_views(segs@) == comps.subrange(1, i as int),
        decreases n - i,
    {
        let ghost before = segs@;
        let x = String::from_str(components[i].as_str());
        segs.push(x);
        proof {
            assert(string_views(segs@) =~= string_views(before).push(x@));
            assert(comps.subrange(1, i + 1) =~= comps.subrange(1, i as int).push(comps[i as int]));
        }
        i = i + 1;
    }
    proof {
        assert(comps.subrange(1, n as int) =~= comps.drop_first());
    }
    let ghost all = string_views(segs@);
    let m = segs.len();
    if m > 0 && str_eq(segs[m - 1].as_str(), "index") {
        let ghost before = segs@;
        segs.pop();
        proof {
            assert(string_views(segs@) =~= all.drop_last());
            assert(all.last() == before[m - 1]@);
        }
    }
    let is_local = str_eq(host.as_str(), "localhost") || str_eq(host.as_str(), "127.0.0.1");
    let mut base = if is_local { String::from_str("http") } else { String::from_str("https") };
    base.append("://");
    base.append(host.as_str());
    proof {
        assert(base@ =~= scheme_of(host@) + "://"@ + host@);
    }
    match port {
        Some(p) => build_url_on_port(base.as_str(), p, &segs),
        None => build_url(base.as_str(), &segs),
    }
}

/// The first position at or after `from` where `n` occurs in `h`.
#[verifier::opaque]
pub open spec fn first_occurrence(h: Seq<char>, n: Seq<char>, from: int) -> Option<int> {
    if exists|i: int| from <= i && occurs_at(h, n, i) {
        Some(choose|i: int| from <= i && occurs_at(h, n, i) && forall|j: int| from <= j < i ==> !occurs_at(h, n, j))
    } else {
        None
    }
}

/// The first occurrence found by `find_from` is the one specified.
proof fn lemma_first_occurrence(h: Seq<char>, n: Seq<char>, from: int, r: Option<usize>)
    requires
        match r {
            Some(i) => from <= i && occurs_at(h, n, i as int) && forall|j: int| from <= j < i ==> !occurs_at(h, n, j),
            None => forall|j: int| from <= j ==> !occurs_at(h, n, j),
        },
    ensures
        match r {
            Some(i) => first_occurrence(h, n, from) == Some(i as int),
            None => first_occurrence(h, n, from) is None,
        },
{
    reveal(first_occurrence);
    match r {
        Some(i) => {
            assert(from <= i && occurs_at(h, n, i as int));
            let k = choose|k: int| from <= k && occurs_at(h, n, k) && forall|j: int| from <= j < k ==> !occurs_at(h, n, j);
            if k < i {
                assert(!occurs_at(h, n, k));
            }
            if i < k {
                assert(!occurs_at(h, n, i as int));
            }
        },
        None => {},
    }
}

/// The tag that opens a statebus script.
pub open spec fn open_tag() -> Seq<char> {
    "<script type=\"statebus\">"@
}

/// The tag that closes a script.
pub open spec fn close_tag() -> Seq<char> {
    "</script>"@
}

/// The trimmed contents of the statebus scripts of `t` from `from` on, in
/// order, up to the first opening tag without a closing tag after it.
#[verifier::opaque]
pub open spec fn script_blocks(t: Seq<char>, from: int) -> Seq<Seq<char>>
    decreases t.len() - from,
{
    match first_occurrence(t, open_tag(), from) {
        None => Seq::empty(),
        Some(s) => {
            let a = s + open_tag().len();
            match first_occurrence(t, close_tag(), a) {
                None => Seq::empty(),
                Some(e) => {
                    let next = e + close_tag().len();
                    let here = trim_seq(t.subrange(a, e));
                    if from < next <= t.len() {
                        seq![here] + script_blocks(t, next)
                    } else {
                        seq![here]
                    }
                },
            }
        },
    }
}

/// One step of the search for scripts.
proof fn lemma_script_blocks_step(t: Seq<char>, from: int, fo: Option<usize>, fc: Option<usize>)
    requires
        0 <= from <= t.len(),
        match fo {
            Some(s) => first_occurrence(t, open_tag(), from) == Some(s as int) && from <= s
                && occurs_at(t, open_tag(), s as int) && match fc {
                    Some(e) => first_occurrence(t, close_tag(), s + open_tag().len()) == Some(e as int)
                        && occurs_at(t, close_tag(), e as int) && s + open_tag().len() <= e,
                    None => first_occurrence(t, close_tag(), s + open_tag().len()) is None,
                },
            None => first_occurrence(t, open_tag(), from) is None,
        },
    ensures
        match (fo, fc) {
            (Some(s), Some(e)) => script_blocks(t, from) == seq![trim_seq(t.subrange(s + open_tag().len(), e as int))]
                + script_blocks(t, e + close_tag().len()),
            _ => script_blocks(t, from) == Seq::<Seq<char>>::empty(),
        },
{
    assert(open_tag().len() == 24) by {
        reveal_strlit("<script type=\"statebus\">");
    }
    assert(close_tag().len() == 9) by {
        reveal_strlit("</script>");
    }
    reveal(script_blocks);
    match fo {
        None => {},
        Some(s) => {
            let a = s + open_tag().len();
            match fc {
                None => {},
                Some(e) => {
                    let next = e + close_tag().len();
                    assert(from < next <= t.len());
                    assert(script_blocks(t, from) == seq![trim_seq(t.subrange(a, e as int))] + script_blocks(t, next));
                },
            }
        },
    }
}

/// The number of bytes of a character in UTF-8.
pub open spec fn char_utf8_len(c: char) -> nat {
    if (c as u32) < 0x80 { 1 } else if (c as u32) < 0x800 { 2 } else if (c as u32) < 0x10000 { 3 } else { 4 }
}

/// The number of bytes of a string in UTF-8.
pub open spec fn utf8_len(s: Seq<char>) -> nat
    decreases s.len(),
{
    if s.len() == 0 { 0 } else { utf8_len(s.drop_last()) + char_utf8_len(s.last()) }
}

/// Whether a text looks like markdown: a heading, a list item or a link.
pub open spec fn has_md_marker(c: Seq<char>) -> bool {
    contains_seq(c, "# "@) || contains_seq(c, "\n- "@) || contains_seq(c, "]("@) || contains_seq(c, "\n## "@)
}

/// Whether candidate `x` is preferred to candidate `y`: markdown first,
/// then the longer one in bytes.
pub open spec fn beats(x: Seq<char>, y: Seq<char>) -> bool {
    (has_md_marker(x) && !has_md_marker(y)) || (has_md_marker(x) == has_md_marker(y) && utf8_len(x) > utf8_len(y))
}

/// The index of the preferred candidate among the first `n`: the earliest
/// of those no other beats.
pub open spec fn best_index(cs: Seq<Seq<char>>, n: int) -> int
    decreases n,
{
    if n <= 1 {
        0
    } else {
        let b = best_index(cs, n - 1);
        if beats(cs[n - 1], cs[b]) { n - 1 } else { b }
    }
}

/// Whether the trimmed text is an HTML page.
pub open spec fn is_html(t: Seq<char>) -> bool {
    starts_with_seq(t, "<!DOCTYPE"@) || starts_with_seq(t, "<html"@)
}

/// The markdown of a page: for an HTML page with statebus scripts, the
/// preferred script; otherwise the content itself.
pub open spec fn extract_spec(content: Seq<char>) -> Seq<char> {
    let t = trim_seq(content);
    let cs = script_blocks(t, 0);
    if is_html(t) && cs.len() > 0 { cs[best_index(cs, cs.len() as int)] } else { content }
}

pub(crate) fn char_utf8_len_exec(c: char) -> (n: u128)
    ensures
        n == char_utf8_len(c),
{
    let code = c as u32;
    if code < 0x80 { 1 } else if code < 0x800 { 2 } else if code < 0x10000 { 3 } else { 4 }
}

/// `str::len`: the length of the text's UTF-8 encoding, in bytes.
#[verifier::external_body]
pub(crate) fn byte_len(s: &str) -> (n: usize)
    ensures
        n == utf8_len(s@),
{
    s.len()
}

pub(crate) fn utf8_len_exec(s: &str) -> (n: u128)
    ensures
        n == utf8_len(s@),
{
    let len = s.unicode_len();
    let mut total: u128 = 0;
    let mut i: usize = 0;
    while i < len
        invariant
            i <= len,
            len == s@.len(),
            total == utf8_len(s@.subrange(0, i as int)),
            total <= 4 * i,
        decreases len - i,
    {
        let c = s.get_char(i);
        proof {
            assert(s@.subrange(0, i + 1).drop_last() =~= s@.subrange(0, i as int));
        }
        total = total + char_utf8_len_exec(c);
        i = i + 1;
    }
    proof {
        assert(s@.subrange(0, len as int) =~= s@);
    }
    total
}

fn md_marker(c: &str) -> (b: bool)
    ensures
        b == has_md_marker(c@),
{
    contains(c, "# ") || contains(c, "\n- ") || contains(c, "](") || contains(c, "\n## ")
}

/// Extract the markdown of a wiki page.
///
/// For an HTML page (one that starts with `<!DOCTYPE` or `<html` once
/// trimmed) with statebus scripts, this is the trimmed content of the
/// preferred script: the longest that looks like markdown, else the
/// longest.  Any other content is returned as it is.
pub fn extract_markdown(content: &str) -> (r: String)
    ensures
        r@ == extract_spec(content@),
{
    let trimmed = trim(content);
    let t = trimmed.as_str();
    let tl = t.unicode_len();
    if !(starts_with(t, "<!DOCTYPE") || starts_with(t, "<html")) {
        return String::from_str(content);
    }
    let open = "<script type=\"statebus\">";
    let close = "</script>";
    proof {
        reveal_strlit("<script type=\"statebus\">");
        reveal_strlit("</script>");
    }
    let ol = open.unicode_len();
    let cl = close.unicode_len();
    let mut candidates: Vec<String> = Vec::new();
    let mut current: usize = 0;
    let mut done = false;
    while !done
        invariant
            current <= tl,
            tl == t@.len(),
            ol == open_tag().len(),
            cl == close_tag().len(),
            open@ == open_tag(),
            close@ == close_tag(),
            string_views(candidates@) + script_blocks(t@, current as int) == script_blocks(t@, 0),
            done ==> script_blocks(t@, current as int) == Seq::<Seq<char>>::empty(),
        decreases tl - current, if done { 0int } else { 1int },
    {
        let found = find_from(t, open, current);
        proof {
            lemma_first_occurrence(t@, open_tag(), current as int, found);
        }
        match found {
            None => {
                proof {
                    lemma_script_blocks_step(t@, current as int, found, None);
                }
                done = true;
            },
            Some(start) => {
                let a = start + ol;
                let found_end = find_from(t, close, a);
                proof {
                    lemma_first_occurrence(t@, close_tag(), a as int, found_end);
                    lemma_script_blocks_step(t@, current as int, found, found_end);
                }
                match found_end {
                    None => {
                        done = true;
                    },
                    Some(e) => {
                        let block = substring(t, a, e);
                        let here = trim(block.as_str());
                        let ghost before = candidates@;
                        candidates.push(here);
                        let next = e + cl;
                        proof {
                            assert(string_views(candidates@) =~= string_views(before).push(here@));
                            assert(string_views(candidates@) + script_blocks(t@, next as int)
                                =~= string_views(before) + script_blocks(t@, current as int));
                        }
                        current = next;
                    },
                }
            },
        }
    }
    let ghost cs = script_blocks(t@, 0);
    proof {
        assert(string_views(candidates@) =~= cs);
    }
    if candidates.len() == 0 {
        return String::from_str(content);
    }
    let mut best: usize = 0;
    let mut best_md = md_marker(candidates[0].as_str());
    let mut best_len = utf8_len_exec(candidates[0].as_str());
    let mut k: usize = 1;
    while k < candidates.len()
        invariant
            1 <= k <= candidates@.len(),
            string_views(candidates@) == cs,
            best == best_index(cs, k as int),
            0 <= best < k,
            best_md == has_md_marker(cs[best as int]),
            best_len == utf8_len(cs[best as int]),
        decreases candidates@.len() - k,
    {
        let md = md_marker(candidates[k].as_str());
        let len = utf8_len_exec(candidates[k].as_str());
        proof {
            assert(cs[k as int] == candidates@[k as int]@);
            assert(cs[best as int] == candidates@[best as int]@);
        }
        if (md && !best_md) || (md == best_md && len > best_len) {
            best = k;
            best_md = md;
            best_len = len;
        }
        k = k + 1;
    }
    proof {
        assert(cs[best as int] == candidates@[best as int]@);
    }
    String::from_str(candidates[best].as_str())
}

/// The page with its markdown replaced: for an HTML page with a statebus
/// script, the trimmed page up to the script's opening tag, the new
/// markdown on a line of its own, and the page from the script's closing
/// tag on; otherwise the new markdown alone.
pub open spec fn wrap_spec(original: Seq<char>, md: Seq<char>) -> Seq<char> {
    let t = trim_seq(original);
    if is_html(t) {
        match first_occurrence(t, open_tag(), 0) {
            Some(s) => {
                let after = t.subrange(s, t.len() as int);
                match first_occurrence(after, close_tag(), 0) {
                    Some(e) => t.subrange(0, s + open_tag().len()) + seq!['\n'] + md + seq!['\n']
                        + after.subrange(e, after.len() as int),
                    None => md,
                }
            },
            None => md,
        }
    } else {
        md
    }
}

/// Markdown put into a page that is not HTML reads back as it was put,
/// when it is not an HTML page itself.
pub proof fn lemma_markdown_round_trip_plain(original: Seq<char>, md: Seq<char>)
    requires
        !is_html(trim_seq(original)),
        !is_html(trim_seq(md)),
    ensures
        extract_spec(wrap_spec(original, md)) == md,
{
}

/// What `first_occurrence` gives: the first position at or after `from`
/// where `n` occurs, or none when it occurs nowhere there.
proof fn lemma_first_occurrence_props(h: Seq<char>, n: Seq<char>, from: int)
    ensures
        match first_occurrence(h, n, from) {
            Some(i) => from <= i && occurs_at(h, n, i) && forall|j: int| from <= j < i ==> !occurs_at(h, n, j),
            None => forall|j: int| from <= j ==> !occurs_at(h, n, j),
        },
{
    reveal(first_occurrence);
    if exists|i: int| from <= i && occurs_at(h, n, i) {
        let i = choose|i: int| from <= i && occurs_at(h, n, i);
        lemma_min_occurrence(h, n, from, i);
    }
}

/// An occurrence at or after `from` means there is a first one.
proof fn lemma_min_occurrence(h: Seq<char>, n: Seq<char>, from: int, i: int)
    requires
        from <= i,
        occurs_at(h, n, i),
    ensures
        exists|k: int| from <= k && occurs_at(h, n, k) && forall|j: int| from <= j < k ==> !occurs_at(h, n, j),
    decreases i - from,
{
    if exists|j: int| from <= j < i && occurs_at(h, n, j) {
        let j = choose|j: int| from <= j < i && occurs_at(h, n, j);
        lemma_min_occurrence(h, n, from, j);
    } else {
        assert(forall|j: int| from <= j < i ==> !occurs_at(h, n, j));
    }
}

/// A position where `n` occurs with no occurrence between `from` and it
/// is the first occurrence.
proof fn lemma_first_occurrence_is(h: Seq<char>, n: Seq<char>, from: int, i: int)
    requires
        from <= i,
        occurs_at(h, n, i),
        forall|j: int| from <= j < i ==> !occurs_at(h, n, j),
    ensures
        first_occurrence(h, n, from) == Some(i),
{
    reveal(first_occurrence);
    let k = choose|k: int| from <= k && occurs_at(h, n, k) && forall|j: int| from <= j < k ==> !occurs_at(h, n, j);
    if k < i {
        assert(!occurs_at(h, n, k));
    }
    if i < k {
        assert(!occurs_at(h, n, i));
    }
}

/// The last character of a trimmed text is no whitespace.
proof fn lemma_trail_ws_stop(s: Seq<char>)
    requires
        trail_ws(s) < s.len(),
    ensures
        !is_ws(s[s.len() - trail_ws(s) - 1]),
    decreases s.len(),
{
    if s.len() > 0 && is_ws(s.last()) {
        lemma_trail_ws_stop(s.drop_last());
    }
}

/// Whether a page holds exactly one statebus script, closed after its
/// opening tag.
pub open spec fn one_script(t: Seq<char>) -> bool {
    match first_occurrence(t, open_tag(), 0) {
        Some(s) => match first_occurrence(t.subrange(s, t.len() as int), close_tag(), 0) {
            Some(e) => e >= open_tag().len() && first_occurrence(t, open_tag(), s + e + close_tag().len()) is None,
            None => false,
        },
        None => false,
    }
}

/// Markdown put into an HTML page with exactly one statebus script reads
/// back as it was put, trimmed, when it holds no closing script tag.
pub proof fn lemma_markdown_round_trip_html(original: Seq<char>, md: Seq<char>)
    requires
        is_html(trim_seq(original)),
        one_script(trim_seq(original)),
        !contains_seq(md, close_tag()),
    ensures
        extract_spec(wrap_spec(original, md)) == trim_seq(md),
{
    reveal_strlit("<script type=\"statebus\">");
    reveal_strlit("</script>");
    reveal_strlit("<!DOCTYPE");
    reveal_strlit("<html");
    let ot = open_tag();
    let ct = close_tag();
    assert(ot.len() == 24);
    assert(ct.len() == 9);
    let t = trim_seq(original);
    lemma_first_occurrence_props(t, ot, 0);
    let s = first_occurrence(t, ot, 0)->0;
    let after = t.subrange(s, t.len() as int);
    lemma_first_occurrence_props(after, ct, 0);
    let e = first_occurrence(after, ct, 0)->0;
    let big_e = s + e;
    lemma_first_occurrence_props(t, ot, big_e + 9);
    assert(after.subrange(e, e + 9) =~= t.subrange(big_e, big_e + 9));
    assert(occurs_at(t, ct, big_e));
    let nl = seq!['\n'];
    let w = t.subrange(0, s + 24) + nl + md + nl + t.subrange(big_e, t.len() as int);
    assert(after.subrange(e, after.len() as int) =~= t.subrange(big_e, t.len() as int));
    assert(wrap_spec(original, md) == w);
    let m0 = s + 24;
    let p = m0 + 2 + md.len();
    let delta = p - big_e;
    assert(w.len() == p + (t.len() - big_e));
    assert forall|k: int| 0 <= k < s + 24 implies w[k] == t[k] by {}
    assert forall|k: int| p <= k < w.len() implies w[k] == t[k - delta] by {}
    assert(w[m0] == '\n');
    assert(w[p - 1] == '\n');
    assert forall|k: int| 0 <= k < md.len() implies w[m0 + 1 + k] == md[k] by {}
    // the page is HTML and trimmed
    assert(t.len() >= 1);
    assert(t[0] == '<') by {
        if starts_with_seq(t, "<!DOCTYPE"@) {
            assert(t.subrange(0, 9)[0] == t[0]);
        } else {
            assert(t.subrange(0, 5)[0] == t[0]);
        }
    }
    assert(!is_ws(t.last())) by {
        let x = original.subrange(lead_ws(original) as int, original.len() as int);
        lemma_trail_ws_le(x);
        lemma_trail_ws_stop(x);
        assert(t.last() == x[x.len() - trail_ws(x) - 1]);
    }
    assert(w[0] == '<');
    assert(w.last() == t.last());
    assert(lead_ws(w) == 0);
    assert(trail_ws(w.subrange(0, w.len() as int)) == 0) by {
        assert(w.subrange(0, w.len() as int) =~= w);
    }
    assert(trim_seq(w) =~= w);
    assert(is_html(w)) by {
        if starts_with_seq(t, "<!DOCTYPE"@) {
            assert(w.subrange(0, 9) =~= t.subrange(0, 9));
        } else {
            assert(w.subrange(0, 5) =~= t.subrange(0, 5));
        }
    }
    // the opening tag
    assert forall|j: int| 0 <= j < s implies !occurs_at(w, ot, j) by {
        if occurs_at(w, ot, j) {
            assert(occurs_at(t, ot, s));
            assert(w.subrange(j, j + 24) =~= t.subrange(j, j + 24));
            assert(occurs_at(t, ot, j));
        }
    }
    assert(w.subrange(s, s + 24) =~= t.subrange(s, s + 24));
    lemma_first_occurrence_is(w, ot, 0, s);
    // the closing tag
    assert(w.subrange(p, p + 9) =~= t.subrange(big_e, big_e + 9));
    assert forall|j: int| m0 <= j < p implies !occurs_at(w, ct, j) by {
        if occurs_at(w, ct, j) {
            let win = w.subrange(j, j + 9);
            assert(win == ct);
            if j + 9 <= p - 1 && j >= m0 + 1 {
                let i = j - m0 - 1;
                assert(md.subrange(i, i + 9) =~= win);
                assert(occurs_at(md, ct, i));
            } else {
                let k = if j == m0 { 0 } else { p - 1 - j };
                assert(0 <= k < 9);
                assert(win[k] == '\n');
                assert(ct[k] == '\n');
                assert(ct =~= seq!['<', '/', 's', 'c', 'r', 'i', 'p', 't', '>']);
                if k == 0 {} else if k == 1 {} else if k == 2 {} else if k == 3 {} else if k == 4 {}
                else if k == 5 {} else if k == 6 {} else if k == 7 {} else {}
            }
        }
    }
    lemma_first_occurrence_is(w, ct, m0, p);
    // no later opening tag
    assert forall|j: int| p + 9 <= j implies !occurs_at(w, ot, j) by {
        if occurs_at(w, ot, j) {
            assert(w.subrange(j, j + 24) =~= t.subrange(j - delta, j - delta + 24));
            assert(occurs_at(t, ot, j - delta));
        }
    }
    lemma_first_occurrence_props(w, ot, p + 9);
    // the script's text
    assert(w.subrange(m0, p) =~= nl + md + nl);
    let y = nl + md + nl;
    lemma_trim_between_newlines(md);
    assert(trim_seq(y) == trim_seq(md));
    reveal(script_blocks);
    assert(script_blocks(w, p + 9) =~= Seq::<Seq<char>>::empty());
    assert(script_blocks(w, 0) =~= seq![trim_seq(md)]);
}

/// Put new markdown into the page it came from.
pub fn wrap_markdown(original_content: &str, new_markdown: &str) -> (r: String)
    ensures
        r@ == wrap_spec(original_content@, new_markdown@),
{
    let trimmed = trim(original_content);
    let t = trimmed.as_str();
    let tl = t.unicode_len();
    if starts_with(t, "<!DOCTYPE") || starts_with(t, "<html") {
        let open = "<script type=\"statebus\">";
        let close = "</script>";
        proof {
            reveal_strlit("<script type=\"statebus\">");
            reveal_strlit("</script>");
        }
        let found = find_from(t, open, 0);
        proof {
            lemma_first_occurrence(t@, open_tag(), 0, found);
        }
        if let Some(start) = found {
            let after = substring(t, start, tl);
            let found_end = find_from(after.as_str(), close, 0);
            proof {
                lemma_first_occurrence(after@, close_tag(), 0, found_end);
            }
            if let Some(e) = found_end {
                let al = after.as_str().unicode_len();
                let mut r = substring(t, 0, start + open.unicode_len());
                push_char(&mut r, '\n');
                r.append(new_markdown);
                push_char(&mut r, '\n');
                let suffix = substring(after.as_str(), e, al);
                r.append(suffix.as_str());
                proof {
                    assert(r@ =~= wrap_spec(original_content@, new_markdown@));
                }
                return r;
            }
        }
    }
    String::from_str(new_markdown)
}

} // verus!
