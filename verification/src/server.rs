//! Server-side pieces of the Braid-HTTP protocol: errors, configuration,
//! header escaping and the parsing of `Content-Range`.
use vstd::prelude::*;
use crate::collections::{str_eq, string_views};
use crate::sync_rules::{split_char, split_on};
use crate::text::{
    contains, contains_seq, decimal, digit_char, find_char_from, lowercase, push_char, push_decimal, substring, to_lower,
};

verus! {

/// Errors that can occur during Braid HTTP operations.
///
/// Errors that carry an error of another library carry its message.
#[derive(Debug)]
pub enum BraidError {
    Http(String),
    Io(String),
    HeaderParse(String),
    BodyParse(String),
    InvalidVersion(String),
    Subscription(String),
    Json(String),
    SubscriptionClosed,
    InvalidSubscriptionStatus(u16),
    Protocol(String),
    Timeout,
    Aborted,
    Fs(String),
    InvalidUtf8(String),
    Config(String),
    Internal(String),
    HistoryDropped,
    MergeConflict(String),
    Anyhow(String),
    Client(String),
}

/// Whether an HTTP error message names a status worth retrying.
pub open spec fn retryable_status(msg: Seq<char>) -> bool {
    contains_seq(msg, seq!['4', '0', '8']) || contains_seq(msg, seq!['4', '2', '5'])
        || contains_seq(msg, seq!['4', '2', '9']) || contains_seq(msg, seq!['5', '0', '2'])
        || contains_seq(msg, seq!['5', '0', '3']) || contains_seq(msg, seq!['5', '0', '4'])
}

/// Whether an HTTP error message names an access-denied status.
pub open spec fn denied_status(msg: Seq<char>) -> bool {
    contains_seq(msg, seq!['4', '0', '1']) || contains_seq(msg, seq!['4', '0', '3'])
}

impl BraidError {
    /// Check if this error is retryable.
    pub fn is_retryable(&self) -> (b: bool)
        ensures
            b == match self {
                BraidError::Http(msg) => retryable_status(msg@),
                BraidError::Timeout | BraidError::Io(_) => true,
                _ => false,
            },
    {
        match self {
            BraidError::Http(msg) => {
                proof {
                    reveal_strlit("408");
                    reveal_strlit("425");
                    reveal_strlit("429");
                    reveal_strlit("502");
                    reveal_strlit("503");
                    reveal_strlit("504");
                    assert("408"@ =~= seq!['4', '0', '8']);
                    assert("425"@ =~= seq!['4', '2', '5']);
                    assert("429"@ =~= seq!['4', '2', '9']);
                    assert("502"@ =~= seq!['5', '0', '2']);
                    assert("503"@ =~= seq!['5', '0', '3']);
                    assert("504"@ =~= seq!['5', '0', '4']);
                }
                contains(msg.as_str(), "408")
                    || contains(msg.as_str(), "425")
                    || contains(msg.as_str(), "429")
                    || contains(msg.as_str(), "502")
                    || contains(msg.as_str(), "503")
                    || contains(msg.as_str(), "504")
            },
            BraidError::Timeout | BraidError::Io(_) => true,
            _ => false,
        }
    }

    /// Check if this is an access denied error.
    pub fn is_access_denied(&self) -> (b: bool)
        ensures
            b == match self {
                BraidError::Http(msg) => denied_status(msg@),
                _ => false,
            },
    {
        match self {
            BraidError::Http(msg) => {
                proof {
                    reveal_strlit("401");
                    reveal_strlit("403");
                    assert("401"@ =~= seq!['4', '0', '1']);
                    assert("403"@ =~= seq!['4', '0', '3']);
                }
                contains(msg.as_str(), "401")
                    || contains(msg.as_str(), "403")
            },
            _ => false,
        }
    }
}

/// Server configuration for Braid-HTTP support.
#[derive(Clone, Debug, PartialEq, Eq, Structural)]
pub struct ServerConfig {
    /// Enable subscription support (HTTP 209).
    pub enable_subscriptions: bool,
    /// Maximum concurrent subscriptions.
    pub max_subscriptions: usize,
    /// Maximum subscription duration in seconds (0 for unlimited).
    pub max_subscription_duration_secs: u64,
    /// Heartbeat interval in seconds.
    pub heartbeat_interval: u64,
    /// Enable request multiplexing.
    pub enable_multiplex: bool,
}

impl Default for ServerConfig {
    /// Subscriptions on, at most 1000 of them for at most an hour each,
    /// a heartbeat every 30 seconds, no multiplexing.
    fn default() -> (c: Self)
        ensures
            c == (ServerConfig {
                enable_subscriptions: true,
                max_subscriptions: 1000,
                max_subscription_duration_secs: 3600,
                heartbeat_interval: 30,
                enable_multiplex: false,
            }),
    {
        ServerConfig {
            enable_subscriptions: true,
            max_subscriptions: 1000,
            max_subscription_duration_secs: 3600,
            heartbeat_interval: 30,
            enable_multiplex: false,
        }
    }
}

/// Whether the client is Firefox (which needs extra newlines to flush).
#[derive(Clone, Copy, Debug)]
pub struct IsFirefox(pub bool);

/// The lowercase hexadecimal digit of `d`.
pub open spec fn hex_digit(d: nat) -> char {
    if d < 10 { digit_char(d) }
    else if d == 10 { 'a' }
    else if d == 11 { 'b' }
    else if d == 12 { 'c' }
    else if d == 13 { 'd' }
    else if d == 14 { 'e' }
    else { 'f' }
}

/// The lowercase hexadecimal representation of `n`, without leading zeros.
pub open spec fn hex(n: nat) -> Seq<char>
    decreases n,
{
    if n < 16 { seq![hex_digit(n)] } else { hex(n / 16).push(hex_digit(n % 16)) }
}

/// `s` padded with zeros on the left to at least four characters.
pub open spec fn pad4(s: Seq<char>) -> Seq<char> {
    if s.len() >= 4 { s } else { Seq::new((4 - s.len()) as nat, |i: int| '0') + s }
}

/// One UTF-16 code unit escaped: `\u` and at least four hexadecimal
/// digits.
pub open spec fn unit_escape(u: nat) -> Seq<char> {
    seq!['\\', 'u'] + pad4(hex(u))
}

/// A character as a header may hold it: printable ASCII as itself, any
/// other character as the escapes of its UTF-16 code units (two
/// surrogates outside the basic plane), as JavaScript's `charCodeAt`
/// gives them.
pub open spec fn escape_char(c: char) -> Seq<char> {
    let code = c as u32 as int;
    if 0x20 <= code <= 0x7e {
        seq![c]
    } else if code <= 0xffff {
        unit_escape(code as nat)
    } else {
        unit_escape((0xd800 + (code - 0x10000) / 0x400) as nat) + unit_escape((0xdc00 + (code - 0x10000) % 0x400) as nat)
    }
}

/// A string with each character escaped.
pub open spec fn ascii_ify_spec(s: Seq<char>) -> Seq<char>
    decreases s.len(),
{
    if s.len() == 0 { Seq::empty() } else { ascii_ify_spec(s.drop_last()) + escape_char(s.last()) }
}

pub(crate) fn hex_digit_char(d: u32) -> (c: char)
    requires
        d < 16,
    ensures
        c == hex_digit(d as nat),
{
    if d == 0 { '0' }
    else if d == 1 { '1' }
    else if d == 2 { '2' }
    else if d == 3 { '3' }
    else if d == 4 { '4' }
    else if d == 5 { '5' }
    else if d == 6 { '6' }
    else if d == 7 { '7' }
    else if d == 8 { '8' }
    else if d == 9 { '9' }
    else if d == 10 { 'a' }
    else if d == 11 { 'b' }
    else if d == 12 { 'c' }
    else if d == 13 { 'd' }
    else if d == 14 { 'e' }
    else { 'f' }
}

fn hex_string(n: u32) -> (s: String)
    ensures
        s@ == hex(n as nat),
    decreases n,
{
    if n < 16 {
        let mut s = String::new();
        push_char(&mut s, hex_digit_char(n));
        proof {
            assert(s@ =~= hex(n as nat));
        }
        s
    } else {
        let mut s = hex_string(n / 16);
        push_char(&mut s, hex_digit_char(n % 16));
        s
    }
}

proof fn lemma_hex_len(n: nat)
    ensures
        hex(n).len() >= 1,
    decreases n,
{
    if n >= 16 {
        lemma_hex_len(n / 16);
    }
}

/// Appends the escape of one UTF-16 code unit.
fn push_unit_escape(result: &mut String, unit: u32)
    ensures
        final(result)@ == old(result)@ + unit_escape(unit as nat),
{
    let ghost before = result@;
    push_char(result, '\\');
    push_char(result, 'u');
    let h = hex_string(unit);
    let hl = h.as_str().unicode_len();
    let mut k = hl;
    while k < 4
        invariant
            hl <= k <= 4 || (hl > 4 && k == hl),
            hl == h@.len(),
            result@ == before + seq!['\\', 'u'] + Seq::new((k - hl) as nat, |j: int| '0'),
        decreases 4 - k,
    {
        push_char(result, '0');
        proof {
            assert(result@ =~= before + seq!['\\', 'u'] + Seq::new((k + 1 - hl) as nat, |j: int| '0'));
        }
        k = k + 1;
    }
    result.append(h.as_str());
    proof {
        lemma_hex_len(unit as nat);
        assert(result@ =~= before + unit_escape(unit as nat));
    }
}

/// Escape non-ASCII characters in headers for structured header format.
///
/// Printable ASCII (0x20 to 0x7E) stays; any other character becomes
/// `\u` and each of its UTF-16 code units in lowercase hexadecimal,
/// padded to four digits.
pub fn ascii_ify(s: &str) -> (r: String)
    ensures
        r@ == ascii_ify_spec(s@),
{
    let n = s.unicode_len();
    let mut result = String::new();
    let mut i: usize = 0;
    while i < n
        invariant
            i <= n,
            n == s@.len(),
            result@ == ascii_ify_spec(s@.subrange(0, i as int)),
        decreases n - i,
    {
        let c = s.get_char(i);
        let code = c as u32;
        let ghost before = result@;
        if 0x20 <= code && code <= 0x7e {
            push_char(&mut result, c);
        } else {
            if code <= 0xffff {
                push_unit_escape(&mut result, code);
            } else {
                let hi = 0xd800 + (code - 0x10000) / 0x400;
                let lo = 0xdc00 + (code - 0x10000) % 0x400;
                push_unit_escape(&mut result, hi);
                push_unit_escape(&mut result, lo);
                proof {
                    assert(result@ =~= before + escape_char(c));
                }
            }
        }
        proof {
            assert(s@.subrange(0, i + 1).drop_last() =~= s@.subrange(0, i as int));
            assert(s@.subrange(0, i + 1).last() == c);
            assert(result@ =~= ascii_ify_spec(s@.subrange(0, i + 1)));
        }
        i = i + 1;
    }
    proof {
        assert(s@.subrange(0, n as int) =~= s@);
    }
    result
}

/// The permissive CORS headers: every origin, method and header allowed
/// and exposed.
pub fn free_cors_headers() -> (h: Vec<(&'static str, &'static str)>)
    ensures
        h@.len() == 4,
        h@[0].0@ == "access-control-allow-origin"@,
        h@[1].0@ == "access-control-allow-methods"@,
        h@[2].0@ == "access-control-allow-headers"@,
        h@[3].0@ == "access-control-expose-headers"@,
        forall|i: int| 0 <= i < 4 ==> #[trigger] h@[i].1@ == "*"@,
{
    vec![
        ("access-control-allow-origin", "*"),
        ("access-control-allow-methods", "*"),
        ("access-control-allow-headers", "*"),
        ("access-control-expose-headers", "*"),
    ]
}

/// The message of an invalid `Content-Range`.
pub open spec fn invalid_range_message(value: Seq<char>) -> Seq<char> {
    "Invalid Content-Range: "@ + value
}

/// Parse a Content-Range header: the unit before the first space and the
/// range after it.  A header without a space is refused.
pub fn parse_content_range(value: &str) -> (r: Result<(String, String), BraidError>)
    ensures
        match r {
            Ok((unit, range)) => exists|i: int| 0 <= i < value@.len() && value@[i] == ' '
                && (forall|j: int| 0 <= j < i ==> value@[j] != ' ')
                && unit@ == value@.subrange(0, i) && range@ == value@.subrange(i + 1, value@.len() as int),
            Err(e) => (forall|j: int| 0 <= j < value@.len() ==> value@[j] != ' ')
                && e == BraidError::HeaderParse(e->HeaderParse_0)
                && e->HeaderParse_0@ == invalid_range_message(value@),
        },
{
    match find_char_from(value, ' ', 0) {
        Some(i) => {
            let n = value.unicode_len();
            let unit = substring(value, 0, i);
            let range = substring(value, i + 1, n);
            Ok((unit, range))
        },
        None => {
            let mut msg = String::from_str("Invalid Content-Range: ");
            msg.append(value);
            Err(BraidError::HeaderParse(msg))
        },
    }
}

/// Whether a `User-Agent` header names Firefox (in any case).
pub fn is_firefox_agent(user_agent: Option<&str>) -> (b: bool)
    ensures
        b == (user_agent matches Some(ua) && contains_seq(lowercase(ua@), "firefox"@)),
{
    match user_agent {
        Some(ua) => {
            let lower = to_lower(ua);
            contains(lower.as_str(), "firefox")
        },
        None => false,
    }
}

/// The multiplexer and request a `Multiplex-Through` header names: its
/// parts between slashes are empty, `.well-known`, `multiplexer`, the
/// multiplexer's ID and the request's ID (and possibly more).
pub open spec fn multiplex_target_spec(through: Seq<char>) -> Option<(Seq<char>, Seq<char>)> {
    let parts = split_on(through, '/');
    if parts.len() >= 5 && parts[1] == ".well-known"@ && parts[2] == "multiplexer"@ {
        Some((parts[3], parts[4]))
    } else {
        None
    }
}

/// The multiplexer and request a `Multiplex-Through` header names (see
/// `multiplex_target_spec`).
pub fn multiplex_target(through: &str) -> (r: Option<(String, String)>)
    ensures
        match r {
            Some((m, q)) => multiplex_target_spec(through@) == Some((m@, q@)),
            None => multiplex_target_spec(through@) is None,
        },
{
    let parts = split_char(through, '/');
    proof {
        reveal_strlit(".well-known");
        reveal_strlit("multiplexer");
        assert(string_views(parts@) == split_on(through@, '/'));
    }
    if parts.len() >= 5 && str_eq(parts[1].as_str(), ".well-known") && str_eq(parts[2].as_str(), "multiplexer") {
        proof {
            assert(string_views(parts@)[1] == parts@[1]@);
            assert(string_views(parts@)[2] == parts@[2]@);
            assert(string_views(parts@)[3] == parts@[3]@);
            assert(string_views(parts@)[4] == parts@[4]@);
        }
        Some((String::from_str(parts[3].as_str()), String::from_str(parts[4].as_str())))
    } else {
        proof {
            if parts@.len() >= 5 {
                assert(string_views(parts@)[1] == parts@[1]@);
                assert(string_views(parts@)[2] == parts@[2]@);
            }
        }
        None
    }
}

/// The header lines of a response.
pub open spec fn header_lines(headers: Seq<(String, String)>) -> Seq<char>
    decreases headers.len(),
{
    if headers.len() == 0 {
        Seq::empty()
    } else {
        header_lines(headers.drop_last()) + headers.last().0@ + ": "@ + headers.last().1@ + "\r\n"@
    }
}

/// The head of a response as a multiplexer forwards it: `:status: ` and
/// the status, then one line `name: value` per header, then an empty line.
pub open spec fn header_block_spec(status: u16, headers: Seq<(String, String)>) -> Seq<char> {
    ":status: "@ + decimal(status as nat) + "\r\n"@ + header_lines(headers) + "\r\n"@
}

/// The head of a response as a multiplexer forwards it (see
/// `header_block_spec`).
pub fn header_block(status: u16, headers: &Vec<(String, String)>) -> (b: String)
    ensures
        b@ == header_block_spec(status, headers@),
{
    proof {
        reveal_strlit(":status: ");
        reveal_strlit("\r\n");
        reveal_strlit(": ");
    }
    let mut b = String::from_str(":status: ");
    push_decimal(&mut b, status as u128);
    b.append("\r\n");
    let ghost head = b@;
    let mut i: usize = 0;
    proof {
        assert(headers@.subrange(0, 0) =~= Seq::<(String, String)>::empty());
        assert(b@ =~= head + header_lines(headers@.subrange(0, 0)));
    }
    while i < headers.len()
        invariant
            i <= headers@.len(),
            b@ == head + header_lines(headers@.subrange(0, i as int)),
        decreases headers@.len() - i,
    {
        let (name, value) = (&headers[i].0, &headers[i].1);
        b.append(name.as_str());
        b.append(": ");
        b.append(value.as_str());
        b.append("\r\n");
        proof {
            assert(headers@.subrange(0, i + 1).drop_last() =~= headers@.subrange(0, i as int));
            assert(headers@.subrange(0, i + 1).last() == headers@[i as int]);
            assert(b@ =~= head + header_lines(headers@.subrange(0, i + 1)));
        }
        i = i + 1;
    }
    b.append("\r\n");
    proof {
        assert(headers@.subrange(0, headers@.len() as int) =~= headers@);
        assert(b@ =~= header_block_spec(status, headers@));
    }
    b
}

} // verus!
