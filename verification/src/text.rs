//! Character-level helpers on strings: decimal numbers, searching and
//! trimming, each with a specification over `Seq<char>`.
use vstd::prelude::*;
use crate::collections::str_eq;

verus! {

/// Appends one character to a string.
#[verifier::external_body]
pub(crate) fn push_char(s: &mut String, c: char)
    ensures
        final(s)@ == old(s)@.push(c),
{
    s.push(c);
}

/// What `str::to_lowercase` gives for a string: the Unicode lowercase
/// mapping of each of its characters.
pub uninterp spec fn lowercase(s: Seq<char>) -> Seq<char>;

/// Lowercases a string with `str::to_lowercase`.
#[verifier::external_body]
pub(crate) fn to_lower(s: &str) -> (r: String)
    ensures
        r@ == lowercase(s@),
{
    s.to_lowercase()
}

/// The characters of a string, in order.
pub fn chars_of(s: &str) -> (v: Vec<char>)
    ensures
        v@ == s@,
{
    broadcast use vstd::string::axiom_spec_iter;
    let mut v: Vec<char> = Vec::new();
    for c in it: s.chars()
        invariant
            it.seq() == s@,
            v@ == it.seq().subrange(0, it.index() as int),
    {
        v.push(c);
    }
    v
}

/// The character of a decimal digit.
pub open spec fn digit_char(d: nat) -> char {
    if d == 0 { '0' }
    else if d == 1 { '1' }
    else if d == 2 { '2' }
    else if d == 3 { '3' }
    else if d == 4 { '4' }
    else if d == 5 { '5' }
    else if d == 6 { '6' }
    else if d == 7 { '7' }
    else if d == 8 { '8' }
    else { '9' }
}

/// Whether a character is an ASCII decimal digit.
pub open spec fn is_digit(c: char) -> bool {
    '0' <= c <= '9'
}

/// The value of a decimal digit character.
pub open spec fn digit_value(c: char) -> nat {
    if c == '0' { 0 }
    else if c == '1' { 1 }
    else if c == '2' { 2 }
    else if c == '3' { 3 }
    else if c == '4' { 4 }
    else if c == '5' { 5 }
    else if c == '6' { 6 }
    else if c == '7' { 7 }
    else if c == '8' { 8 }
    else { 9 }
}

/// The decimal representation of `n`, without leading zeros.
pub open spec fn decimal(n: nat) -> Seq<char>
    decreases n,
{
    if n < 10 {
        seq![digit_char(n)]
    } else {
        decimal(n / 10).push(digit_char(n % 10))
    }
}

/// The value of a string of decimal digits.
pub open spec fn digits_value(s: Seq<char>) -> nat
    decreases s.len(),
{
    if s.len() == 0 {
        0
    } else {
        digits_value(s.drop_last()) * 10 + digit_value(s.last())
    }
}

/// Whether every character is a decimal digit.
pub open spec fn all_digits(s: Seq<char>) -> bool {
    forall|i: int| 0 <= i < s.len() ==> is_digit(#[trigger] s[i])
}

/// What `str::parse::<usize>` accepts: an optional `+` followed by at
/// least one decimal digit, with a value that fits in `usize`.
pub open spec fn parse_usize_spec(s: Seq<char>) -> Option<nat> {
    let body = if s.len() > 0 && s[0] == '+' { s.drop_first() } else { s };
    if body.len() > 0 && all_digits(body) && digits_value(body) <= usize::MAX {
        Some(digits_value(body))
    } else {
        None
    }
}

proof fn lemma_digit_char(d: nat)
    requires
        d < 10,
    ensures
        is_digit(digit_char(d)),
        digit_value(digit_char(d)) == d,
{
}

/// A decimal digit's character is one of `0` to `9`.
pub proof fn lemma_digit_char_pub(d: nat)
    requires
        d < 10,
    ensures
        '0' <= digit_char(d) <= '9',
{
}

/// Reading back a decimal representation gives the number.
pub proof fn lemma_decimal_value(n: nat)
    ensures
        digits_value(decimal(n)) == n,
        all_digits(decimal(n)),
        decimal(n).len() > 0,
        decimal(n)[0] != '+',
    decreases n,
{
    if n < 10 {
        lemma_digit_char(n);
        assert(seq![digit_char(n)].drop_last() =~= Seq::<char>::empty());
        assert(digits_value(Seq::<char>::empty()) == 0);
        assert(digits_value(decimal(n)) == digits_value(Seq::<char>::empty()) * 10 + digit_value(digit_char(n)));
    } else {
        lemma_decimal_value(n / 10);
        lemma_digit_char(n % 10);
        let d = decimal(n / 10);
        assert(d.push(digit_char(n % 10)).drop_last() =~= d);
        assert(n == (n / 10) * 10 + n % 10) by (nonlinear_arith);
        assert(digits_value(decimal(n)) == digits_value(d) * 10 + digit_value(digit_char(n % 10)));
        assert forall|i: int| 0 <= i < decimal(n).len() implies is_digit(#[trigger] decimal(n)[i]) by {
            if i < d.len() {
                assert(decimal(n)[i] == d[i]);
            }
        }
    }
}

/// Parsing a decimal representation of a `usize` gives the number back.
pub proof fn lemma_parse_decimal(n: usize)
    ensures
        parse_usize_spec(decimal(n as nat)) == Some(n as nat),
{
    lemma_decimal_value(n as nat);
}

pub(crate) fn digit_to_char(d: u128) -> (c: char)
    requires
        d < 10,
    ensures
        c == digit_char(d as nat),
{
    if d == 0 { '0' }
    else if d == 1 { '1' }
    else if d == 2 { '2' }
    else if d == 3 { '3' }
    else if d == 4 { '4' }
    else if d == 5 { '5' }
    else if d == 6 { '6' }
    else if d == 7 { '7' }
    else if d == 8 { '8' }
    else { '9' }
}

/// Appends the decimal representation of `n` to `s`.
pub fn push_decimal(s: &mut String, n: u128)
    ensures
        final(s)@ == old(s)@ + decimal(n as nat),
    decreases n,
{
    if n < 10 {
        push_char(s, digit_to_char(n));
        proof {
            assert(old(s)@.push(digit_char(n as nat)) =~= old(s)@ + decimal(n as nat));
        }
    } else {
        push_decimal(s, n / 10);
        push_char(s, digit_to_char(n % 10));
        proof {
            assert(s@ =~= old(s)@ + decimal(n as nat));
        }
    }
}

/// The decimal representation of `n`.
pub fn decimal_string(n: u128) -> (s: String)
    ensures
        s@ == decimal(n as nat),
{
    let mut s = String::new();
    push_decimal(&mut s, n);
    proof {
        assert(s@ =~= decimal(n as nat));
    }
    s
}

fn char_is_digit(c: char) -> (b: bool)
    ensures
        b == is_digit(c),
{
    '0' <= c && c <= '9'
}

fn char_digit_value(c: char) -> (d: usize)
    requires
        is_digit(c),
    ensures
        d == digit_value(c),
        d < 10,
{
    if c == '0' { 0 }
    else if c == '1' { 1 }
    else if c == '2' { 2 }
    else if c == '3' { 3 }
    else if c == '4' { 4 }
    else if c == '5' { 5 }
    else if c == '6' { 6 }
    else if c == '7' { 7 }
    else if c == '8' { 8 }
    else { 9 }
}

proof fn lemma_digits_value_grows(s: Seq<char>, i: int)
    requires
        0 <= i <= s.len(),
    ensures
        digits_value(s.subrange(0, i)) <= digits_value(s),
    decreases s.len() - i,
{
    if i < s.len() {
        lemma_digits_value_grows(s, i + 1);
        assert(s.subrange(0, i + 1).drop_last() =~= s.subrange(0, i));
    } else {
        assert(s.subrange(0, i) =~= s);
    }
}

/// Parses a `usize` as `str::parse::<usize>` does.
pub fn parse_usize(s: &str) -> (r: Option<usize>)
    ensures
        match r {
            Some(v) => parse_usize_spec(s@) == Some(v as nat),
            None => parse_usize_spec(s@) is None,
        },
{
    let n = s.unicode_len();
    let start: usize = if n > 0 && s.get_char(0) == '+' { 1 } else { 0 };
    let ghost body = if s@.len() > 0 && s@[0] == '+' { s@.drop_first() } else { s@ };
    proof {
        assert(body =~= s@.subrange(start as int, n as int));
    }
    if start >= n {
        return None;
    }
    let mut acc: usize = 0;
    let mut i: usize = start;
    while i < n
        invariant
            start <= i <= n,
            n == s@.len(),
            start < n,
            body == s@.subrange(start as int, n as int),
            body == (if s@.len() > 0 && s@[0] == '+' { s@.drop_first() } else { s@ }),
            acc == digits_value(body.subrange(0, i - start)),
            all_digits(body.subrange(0, i - start)),
        decreases n - i,
    {
        let c = s.get_char(i);
        let ghost k = i - start;
        proof {
            assert(body[k] == c);
            assert(body.subrange(0, k + 1).drop_last() =~= body.subrange(0, k));
        }
        if !char_is_digit(c) {
            proof {
                assert(!is_digit(body[k]));
                assert(!all_digits(body));
            }
            return None;
        }
        let d = char_digit_value(c);
        proof {
            assert(digits_value(body.subrange(0, k + 1)) == acc * 10 + d);
        }
        match acc.checked_mul(10) {
            Some(m) => match m.checked_add(d) {
                Some(v) => {
                    acc = v;
                },
                None => {
                    proof {
                        lemma_digits_value_grows(body, k + 1);
                        if all_digits(body) {
                            assert(digits_value(body) > usize::MAX);
                        }
                    }
                    return None;
                },
            },
            None => {
                proof {
                    lemma_digits_value_grows(body, k + 1);
                    assert(digits_value(body.subrange(0, k + 1)) >= acc * 10);
                    if all_digits(body) {
                        assert(digits_value(body) > usize::MAX);
                    }
                }
                return None;
            },
        }
        proof {
            assert forall|j: int| 0 <= j < k + 1 implies is_digit(#[trigger] body.subrange(0, k + 1)[j]) by {
                if j < k {
                    assert(body.subrange(0, k + 1)[j] == body.subrange(0, k)[j]);
                }
            }
        }
        i = i + 1;
    }
    proof {
        assert(body.subrange(0, n - start) =~= body);
    }
    Some(acc)
}

/// Whether `n` occurs in `h` at position `i`.
pub open spec fn occurs_at(h: Seq<char>, n: Seq<char>, i: int) -> bool {
    0 <= i && i + n.len() <= h.len() && h.subrange(i, i + n.len()) == n
}

/// Whether `n` occurs in `h`.
pub open spec fn contains_seq(h: Seq<char>, n: Seq<char>) -> bool {
    exists|i: int| occurs_at(h, n, i)
}

/// The first position at or after `from` where `n` occurs in `h`.
pub fn find_from(h: &str, n: &str, from: usize) -> (r: Option<usize>)
    ensures
        match r {
            Some(i) => from <= i && occurs_at(h@, n@, i as int)
                && forall|j: int| from <= j < i ==> !occurs_at(h@, n@, j),
            None => forall|j: int| from <= j ==> !occurs_at(h@, n@, j),
        },
{
    let hl = h.unicode_len();
    let nl = n.unicode_len();
    if nl > hl {
        return None;
    }
    let last = hl - nl;
    if from > last {
        return None;
    }
    let mut i = from;
    loop
        invariant
            hl == h@.len(),
            nl == n@.len(),
            nl <= hl,
            last == hl - nl,
            from <= i <= last,
            forall|j: int| from <= j < i ==> !occurs_at(h@, n@, j),
        decreases last - i,
    {
        let part = h.substring_char(i, i + nl);
        if str_eq(part, n) {
            return Some(i);
        }
        if i == last {
            return None;
        }
        i = i + 1;
    }
}

/// Whether `n` occurs in `h`.
pub fn contains(h: &str, n: &str) -> (b: bool)
    ensures
        b == contains_seq(h@, n@),
{
    match find_from(h, n, 0) {
        Some(_) => true,
        None => {
            proof {
                if contains_seq(h@, n@) {
                    let j = choose|j: int| occurs_at(h@, n@, j);
                    assert(!occurs_at(h@, n@, j));
                }
            }
            false
        },
    }
}

/// Whether `h` begins with `p`.
pub open spec fn starts_with_seq(h: Seq<char>, p: Seq<char>) -> bool {
    p.len() <= h.len() && h.subrange(0, p.len() as int) == p
}

/// Whether `h` begins with `p`.
pub fn starts_with(h: &str, p: &str) -> (b: bool)
    ensures
        b == starts_with_seq(h@, p@),
{
    let hl = h.unicode_len();
    let pl = p.unicode_len();
    if pl > hl {
        return false;
    }
    str_eq(h.substring_char(0, pl), p)
}

/// Whether `c` has the Unicode White_Space property, as `char::is_whitespace`
/// tests.
pub open spec fn is_ws(c: char) -> bool {
    ('\u{9}' <= c <= '\u{d}') || c == ' ' || c == '\u{85}' || c == '\u{a0}' || c == '\u{1680}'
        || ('\u{2000}' <= c <= '\u{200a}') || c == '\u{2028}' || c == '\u{2029}' || c == '\u{202f}'
        || c == '\u{205f}' || c == '\u{3000}'
}

pub(crate) fn char_is_ws(c: char) -> (b: bool)
    ensures
        b == is_ws(c),
{
    ('\u{9}' <= c && c <= '\u{d}') || c == ' ' || c == '\u{85}' || c == '\u{a0}' || c == '\u{1680}'
        || ('\u{2000}' <= c && c <= '\u{200a}') || c == '\u{2028}' || c == '\u{2029}' || c == '\u{202f}'
        || c == '\u{205f}' || c == '\u{3000}'
}

/// The number of whitespace characters at the start of `s`.
pub open spec fn lead_ws(s: Seq<char>) -> nat
    decreases s.len(),
{
    if s.len() > 0 && is_ws(s[0]) { 1 + lead_ws(s.drop_first()) } else { 0 }
}

/// The number of whitespace characters at the end of `s`.
pub open spec fn trail_ws(s: Seq<char>) -> nat
    decreases s.len(),
{
    if s.len() > 0 && is_ws(s.last()) { 1 + trail_ws(s.drop_last()) } else { 0 }
}

/// `s` without whitespace at either end, as `str::trim` gives it.
pub open spec fn trim_seq(s: Seq<char>) -> Seq<char> {
    let t = s.subrange(lead_ws(s) as int, s.len() as int);
    t.subrange(0, t.len() - trail_ws(t))
}

proof fn lemma_lead_ws(s: Seq<char>, i: int)
    requires
        0 <= i <= s.len(),
        forall|j: int| 0 <= j < i ==> is_ws(#[trigger] s[j]),
    ensures
        lead_ws(s) == i + lead_ws(s.subrange(i, s.len() as int)),
        lead_ws(s) <= s.len(),
    decreases i,
{
    if i > 0 {
        let r = s.drop_first();
        assert forall|j: int| 0 <= j < i - 1 implies is_ws(#[trigger] r[j]) by {
            assert(r[j] == s[j + 1]);
        }
        lemma_lead_ws(r, i - 1);
        assert(r.subrange(i - 1, r.len() as int) =~= s.subrange(i, s.len() as int));
    } else {
        assert(s.subrange(0, s.len() as int) =~= s);
        lemma_lead_ws_le(s);
    }
}

proof fn lemma_lead_ws_le(s: Seq<char>)
    ensures
        lead_ws(s) <= s.len(),
    decreases s.len(),
{
    if s.len() > 0 && is_ws(s[0]) {
        lemma_lead_ws_le(s.drop_first());
    }
}

proof fn lemma_trail_ws(s: Seq<char>, k: int)
    requires
        0 <= k <= s.len(),
        forall|j: int| s.len() - k <= j < s.len() ==> is_ws(#[trigger] s[j]),
    ensures
        trail_ws(s) == k + trail_ws(s.subrange(0, s.len() - k)),
        trail_ws(s) <= s.len(),
    decreases k,
{
    if k > 0 {
        let r = s.drop_last();
        assert forall|j: int| r.len() - (k - 1) <= j < r.len() implies is_ws(#[trigger] r[j]) by {
            assert(r[j] == s[j]);
        }
        lemma_trail_ws(r, k - 1);
        assert(r.subrange(0, r.len() - (k - 1)) =~= s.subrange(0, s.len() - k));
    } else {
        assert(s.subrange(0, s.len() as int) =~= s);
        lemma_trail_ws_le(s);
    }
}

pub(crate) proof fn lemma_trail_ws_le(s: Seq<char>)
    ensures
        trail_ws(s) <= s.len(),
    decreases s.len(),
{
    if s.len() > 0 && is_ws(s.last()) {
        lemma_trail_ws_le(s.drop_last());
    }
}

/// Leading whitespace of a concatenation: that of the first part, and
/// past it that of the second when the first is all whitespace.
proof fn lemma_lead_ws_concat(s: Seq<char>, t: Seq<char>)
    ensures
        lead_ws(s) < s.len() ==> lead_ws(s + t) == lead_ws(s),
        lead_ws(s) >= s.len() ==> lead_ws(s + t) == s.len() + lead_ws(t),
    decreases s.len(),
{
    lemma_lead_ws_le(s);
    if s.len() == 0 {
        assert(s + t =~= t);
    } else {
        assert((s + t)[0] == s[0]);
        if is_ws(s[0]) {
            assert((s + t).drop_first() =~= s.drop_first() + t);
            lemma_lead_ws_concat(s.drop_first(), t);
        }
    }
}

/// Text between two line breaks trims to the text trimmed.
pub(crate) proof fn lemma_trim_between_newlines(md: Seq<char>)
    ensures
        trim_seq(seq!['\n'] + md + seq!['\n']) == trim_seq(md),
{
    let nl = seq!['\n'];
    let x = md + nl;
    let y = nl + x;
    assert(nl + md + nl =~= y);
    assert(is_ws('\n'));
    assert(y[0] == '\n');
    assert(y.drop_first() =~= x);
    assert(lead_ws(y) == 1 + lead_ws(x));
    lemma_lead_ws_concat(md, nl);
    lemma_lead_ws_le(md);
    lemma_lead_ws_le(x);
    let ly = lead_ws(y) as int;
    let lx = lead_ws(x) as int;
    assert(y.subrange(ly, y.len() as int) =~= x.subrange(lx, x.len() as int));
    let lm = lead_ws(md) as int;
    if lm < md.len() {
        let u = md.subrange(lm, md.len() as int);
        let v = x.subrange(lx, x.len() as int);
        assert(v =~= u + nl);
        assert(v.last() == '\n');
        assert(v.drop_last() =~= u);
        assert(trail_ws(v) == 1 + trail_ws(u));
        lemma_trail_ws_le(u);
        assert(v.subrange(0, v.len() - trail_ws(v)) =~= u.subrange(0, u.len() - trail_ws(u)));
    } else {
        assert(lead_ws(nl) == 1) by {
            assert(nl[0] == '\n');
            assert(nl.drop_first() =~= Seq::<char>::empty());
            assert(lead_ws(nl.drop_first()) == 0);
        }
        assert(lx == x.len());
        let v = x.subrange(lx, x.len() as int);
        assert(v =~= Seq::<char>::empty());
        assert(md.subrange(lm, md.len() as int) =~= Seq::<char>::empty());
        assert(trim_seq(y) =~= Seq::<char>::empty());
        assert(trim_seq(md) =~= Seq::<char>::empty());
    }
}

/// `s` without whitespace at either end, as `str::trim` gives it.
pub fn trim(s: &str) -> (r: String)
    ensures
        r@ == trim_seq(s@),
{
    let n = s.unicode_len();
    let mut a: usize = 0;
    while a < n && char_is_ws(s.get_char(a))
        invariant
            a <= n,
            n == s@.len(),
            forall|j: int| 0 <= j < a ==> is_ws(#[trigger] s@[j]),
        decreases n - a,
    {
        a = a + 1;
    }
    proof {
        lemma_lead_ws(s@, a as int);
        let rest = s@.subrange(a as int, n as int);
        if a < n {
            assert(!is_ws(rest[0]));
        }
        assert(lead_ws(rest) == 0);
    }
    let t = s.substring_char(a, n);
    let tl = n - a;
    let mut k: usize = 0;
    while k < tl && char_is_ws(t.get_char(tl - 1 - k))
        invariant
            k <= tl,
            tl == t@.len(),
            forall|j: int| tl - k <= j < tl ==> is_ws(#[trigger] t@[j]),
        decreases tl - k,
    {
        k = k + 1;
    }
    proof {
        lemma_trail_ws(t@, k as int);
        let head = t@.subrange(0, tl - k);
        if k < tl {
            assert(!is_ws(head.last()));
        }
        assert(trail_ws(head) == 0);
    }
    String::from_str(t.substring_char(0, tl - k))
}


/// The first position at or after `from` that holds `c`.
pub fn find_char_from(s: &str, c: char, from: usize) -> (r: Option<usize>)
    ensures
        match r {
            Some(i) => from <= i < s@.len() && s@[i as int] == c
                && forall|j: int| from <= j < i ==> s@[j] != c,
            None => forall|j: int| from <= j < s@.len() ==> s@[j] != c,
        },
{
    let n = s.unicode_len();
    let mut i = from;
    while i < n
        invariant
            n == s@.len(),
            from <= i,
            forall|j: int| from <= j < i && j < n ==> s@[j] != c,
        decreases n - i,
    {
        if s.get_char(i) == c {
            return Some(i);
        }
        i = i + 1;
    }
    None
}

/// The characters `start..end` of a string.
pub fn substring(s: &str, start: usize, end: usize) -> (r: String)
    requires
        start <= end <= s@.len(),
    ensures
        r@ == s@.subrange(start as int, end as int),
{
    String::from_str(s.substring_char(start, end))
}

} // verus!
