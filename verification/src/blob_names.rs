//! Names of blobs on disk and the order of blob versions.
use vstd::prelude::*;
use crate::text::{digit_char, lowercase, to_lower, push_char, find_char_from, substring, digit_to_char};
use crate::server::{hex_digit, hex_digit_char};
use crate::mapping::{utf8_len, utf8_len_exec};

verus! {

/// Whether `char::is_alphabetic` holds of a character (the Unicode
/// `Alphabetic` property).
pub uninterp spec fn alphabetic(c: char) -> bool;

/// Whether `char::is_uppercase` holds of a character (the Unicode
/// `Uppercase` property).
pub uninterp spec fn uppercase(c: char) -> bool;

/// `char::is_alphabetic`.
#[verifier::external_body]
fn is_alphabetic(c: char) -> (b: bool)
    ensures
        b == alphabetic(c),
{
    c.is_alphabetic()
}

/// `char::is_uppercase`.
#[verifier::external_body]
fn is_uppercase(c: char) -> (b: bool)
    ensures
        b == uppercase(c),
{
    c.is_uppercase()
}

/// The case bits of a name: for each alphabetic character, `1` when it is
/// uppercase and `0` otherwise.
pub open spec fn case_bits(s: Seq<char>) -> Seq<char>
    decreases s.len(),
{
    if s.len() == 0 {
        Seq::empty()
    } else {
        let c = s.last();
        case_bits(s.drop_last()) + if alphabetic(c) { if uppercase(c) { seq!['1'] } else { seq!['0'] } } else { Seq::empty() }
    }
}

/// A string of bits padded with zeros on the left to a multiple of four.
pub open spec fn pad_bits(b: Seq<char>) -> Seq<char> {
    if b.len() % 4 == 0 { b } else { Seq::new((4 - b.len() % 4) as nat, |i: int| '0') + b }
}

/// The value of a bit character.
pub open spec fn bit(c: char) -> nat {
    if c == '1' { 1 } else { 0 }
}

/// The hexadecimal digits of a string of bits whose length is a multiple
/// of four, one per group of four bits.
pub open spec fn hex_groups(p: Seq<char>) -> Seq<char>
    decreases p.len(),
{
    if p.len() < 4 {
        Seq::empty()
    } else {
        seq![hex_digit(8 * bit(p[0]) + 4 * bit(p[1]) + 2 * bit(p[2]) + bit(p[3]))] + hex_groups(p.subrange(4, p.len() as int))
    }
}

/// A string without its leading zeros.
pub open spec fn trim_zeros(h: Seq<char>) -> Seq<char>
    decreases h.len(),
{
    if h.len() > 0 && h[0] == '0' { trim_zeros(h.drop_first()) } else { h }
}

/// A string of bits in lowercase hexadecimal without leading zeros, `0`
/// for none.
pub open spec fn bits_hex(b: Seq<char>) -> Seq<char> {
    let t = trim_zeros(hex_groups(pad_bits(b)));
    if b.len() == 0 || t.len() == 0 { seq!['0'] } else { t }
}

/// A character with `/` and `!` swapped.
pub open spec fn swap_slash(c: char) -> char {
    if c == '/' { '!' } else if c == '!' { '/' } else { c }
}

/// Whether a character is escaped in a file name.
pub open spec fn needs_escape(c: char) -> bool {
    c == '<' || c == '>' || c == ':' || c == '"' || c == '/' || c == '|' || c == '\\' || c == '?' || c == '*' || c == '%'
        || (c as u32) <= 0x1f || (c as u32) == 0x7f
}

/// The uppercase hexadecimal digit of `d`.
pub open spec fn upper_hex_digit(d: nat) -> char {
    if d < 10 { digit_char(d) }
    else if d == 10 { 'A' }
    else if d == 11 { 'B' }
    else if d == 12 { 'C' }
    else if d == 13 { 'D' }
    else if d == 14 { 'E' }
    else { 'F' }
}

/// `%` and two uppercase hexadecimal digits of a byte.
pub open spec fn percent(b: nat) -> Seq<char> {
    seq!['%', upper_hex_digit(b / 16), upper_hex_digit(b % 16)]
}

/// A name with `/` and `!` swapped and the characters a file name cannot
/// hold percent-encoded.
pub open spec fn escape_name(s: Seq<char>) -> Seq<char>
    decreases s.len(),
{
    if s.len() == 0 {
        Seq::empty()
    } else {
        let c = swap_slash(s.last());
        escape_name(s.drop_last()) + if needs_escape(c) { percent(c as u32 as nat) } else { seq![c] }
    }
}

/// The part of a name before its first `.`.
pub open spec fn stem(s: Seq<char>) -> Seq<char>
    decreases s.len(),
{
    if s.len() == 0 {
        s
    } else if s[0] == '.' {
        Seq::empty()
    } else {
        seq![s[0]] + stem(s.drop_first())
    }
}

/// Whether a lowercase stem is a name reserved by Windows: `con`, `prn`,
/// `aux`, `nul`, or `com` or `lpt` and a digit from 1 to 9.
pub open spec fn reserved_stem(n: Seq<char>) -> bool {
    n == seq!['c', 'o', 'n'] || n == seq!['p', 'r', 'n'] || n == seq!['a', 'u', 'x'] || n == seq!['n', 'u', 'l']
        || (n.len() == 4 && (n.subrange(0, 3) == seq!['c', 'o', 'm'] || n.subrange(0, 3) == seq!['l', 'p', 't'])
            && '1' <= n[3] <= '9')
}

/// The escaped name with, when its lowercase stem is reserved, its third
/// character percent-encoded (as its low byte).
pub open spec fn unreserved(e: Seq<char>) -> Seq<char> {
    if reserved_stem(stem(lowercase(e))) && e.len() >= 3 {
        e.subrange(0, 2) + percent((e[2] as u32 % 256) as nat) + e.subrange(3, e.len() as int)
    } else {
        e
    }
}

/// The file name of a blob key: the escaped key, `.`, and the case bits of
/// the key in hexadecimal.
pub open spec fn encode_filename_spec(s: Seq<char>) -> Seq<char> {
    unreserved(escape_name(s)) + seq!['.'] + bits_hex(case_bits(s))
}

/// The case bits of a name.
fn case_bits_of(s: &str) -> (b: String)
    ensures
        b@ == case_bits(s@),
{
    let n = s.unicode_len();
    let mut b = String::new();
    let mut i: usize = 0;
    while i < n
        invariant
            i <= n,
            n == s@.len(),
            b@ == case_bits(s@.subrange(0, i as int)),
        decreases n - i,
    {
        let c = s.get_char(i);
        proof {
            assert(s@.subrange(0, i + 1).drop_last() =~= s@.subrange(0, i as int));
            assert(s@.subrange(0, i + 1).last() == c);
        }
        if is_alphabetic(c) {
            if is_uppercase(c) {
                push_char(&mut b, '1');
            } else {
                push_char(&mut b, '0');
            }
        }
        proof {
            assert(b@ =~= case_bits(s@.subrange(0, i + 1)));
        }
        i = i + 1;
    }
    proof {
        assert(s@.subrange(0, n as int) =~= s@);
    }
    b
}

/// Leading zeros can go.
proof fn lemma_trim_zeros(h: Seq<char>, k: int)
    requires
        0 <= k <= h.len(),
        forall|j: int| 0 <= j < k ==> h[j] == '0',
        k == h.len() || h[k] != '0',
    ensures
        trim_zeros(h) == h.subrange(k, h.len() as int),
    decreases k,
{
    if k == 0 {
        assert(h.subrange(0, h.len() as int) =~= h);
    } else {
        assert(h[0] == '0');
        let t = h.drop_first();
        assert forall|j: int| 0 <= j < k - 1 implies t[j] == '0' by {
            assert(t[j] == h[j + 1]);
        }
        if k < h.len() {
            assert(t[k - 1] == h[k]);
        }
        lemma_trim_zeros(t, k - 1);
        assert(t.subrange(k - 1, t.len() as int) =~= h.subrange(k, h.len() as int));
    }
}

/// The value of a bit character.
fn bit_value(c: char) -> (v: u32)
    ensures
        v == bit(c),
{
    if c == '1' { 1 } else { 0 }
}

/// A string of bits in lowercase hexadecimal without leading zeros, `0`
/// for none.
fn bits_to_hex(bits: &str) -> (r: String)
    ensures
        r@ == bits_hex(bits@),
{
    let n = bits.unicode_len();
    if n == 0 {
        let mut z = String::new();
        push_char(&mut z, '0');
        proof {
            assert(z@ =~= seq!['0']);
        }
        return z;
    }
    let rem = n % 4;
    let mut padded = String::new();
    if rem != 0 {
        let mut k: usize = 0;
        while k < 4 - rem
            invariant
                k <= 4 - rem,
                rem == n % 4,
                rem != 0,
                padded@ == Seq::new(k as nat, |i: int| '0'),
            decreases 4 - rem - k,
        {
            push_char(&mut padded, '0');
            proof {
                assert(padded@ =~= Seq::new((k + 1) as nat, |i: int| '0'));
            }
            k = k + 1;
        }
    }
    padded.append(bits);
    proof {
        if rem == 0 {
            assert(padded@ =~= bits@);
        }
        assert(padded@ == pad_bits(bits@));
        assert(padded@.len() % 4 == 0);
    }
    let m = padded.unicode_len();
    let ghost p = padded@;
    let mut hex = String::new();
    let mut i: usize = 0;
    proof {
        assert(p.subrange(0, m as int) =~= p);
    }
    while i < m
        invariant
            i <= m,
            m == p.len(),
            p == padded@,
            i % 4 == 0,
            m % 4 == 0,
            hex@ + hex_groups(p.subrange(i as int, m as int)) == hex_groups(p),
        decreases m - i,
    {
        let v = 8 * bit_value(padded.get_char(i)) + 4 * bit_value(padded.get_char(i + 1))
            + 2 * bit_value(padded.get_char(i + 2)) + bit_value(padded.get_char(i + 3));
        let d = hex_digit_char(v);
        let ghost before = hex@;
        push_char(&mut hex, d);
        proof {
            let q = p.subrange(i as int, m as int);
            assert(q[0] == p[i as int] && q[1] == p[i + 1] && q[2] == p[i + 2] && q[3] == p[i + 3]);
            assert(q.subrange(4, q.len() as int) =~= p.subrange(i + 4, m as int));
            assert(hex_groups(q) == seq![d] + hex_groups(p.subrange(i + 4, m as int)));
            assert(hex@ + hex_groups(p.subrange(i + 4, m as int)) =~= before + hex_groups(q));
        }
        i = i + 4;
    }
    proof {
        assert(p.subrange(m as int, m as int) =~= Seq::<char>::empty());
        assert(hex@ =~= hex_groups(p));
    }
    let h = hex.unicode_len();
    let mut k: usize = 0;
    while k < h && hex.get_char(k) == '0'
        invariant
            k <= h,
            h == hex@.len(),
            forall|j: int| 0 <= j < k ==> hex@[j] == '0',
        decreases h - k,
    {
        k = k + 1;
    }
    proof {
        lemma_trim_zeros(hex@, k as int);
    }
    if k == h {
        let mut z = String::new();
        push_char(&mut z, '0');
        proof {
            assert(z@ =~= seq!['0']);
        }
        z
    } else {
        substring(hex.as_str(), k, h)
    }
}

/// The uppercase hexadecimal digit of `d`.
fn upper_hex_digit_char(d: u32) -> (c: char)
    requires
        d < 16,
    ensures
        c == upper_hex_digit(d as nat),
{
    if d < 10 {
        digit_to_char(d as u128)
    } else if d == 10 {
        'A'
    } else if d == 11 {
        'B'
    } else if d == 12 {
        'C'
    } else if d == 13 {
        'D'
    } else if d == 14 {
        'E'
    } else {
        'F'
    }
}

/// Appends `%` and the two uppercase hexadecimal digits of a byte.
fn push_percent(s: &mut String, b: u32)
    requires
        b < 256,
    ensures
        final(s)@ == old(s)@ + percent(b as nat),
{
    push_char(s, '%');
    push_char(s, upper_hex_digit_char(b / 16));
    push_char(s, upper_hex_digit_char(b % 16));
    proof {
        assert(final(s)@ =~= old(s)@ + percent(b as nat));
    }
}

/// Whether a character is escaped in a file name.
fn char_needs_escape(c: char) -> (b: bool)
    ensures
        b == needs_escape(c),
{
    c == '<' || c == '>' || c == ':' || c == '"' || c == '/' || c == '|' || c == '\\' || c == '?' || c == '*' || c == '%'
        || (c as u32) <= 0x1f || (c as u32) == 0x7f
}

/// A name with `/` and `!` swapped and the characters a file name cannot
/// hold percent-encoded.
fn escape_name_of(s: &str) -> (r: String)
    ensures
        r@ == escape_name(s@),
{
    let n = s.unicode_len();
    let mut r = String::new();
    let mut i: usize = 0;
    while i < n
        invariant
            i <= n,
            n == s@.len(),
            r@ == escape_name(s@.subrange(0, i as int)),
        decreases n - i,
    {
        let c0 = s.get_char(i);
        let c = if c0 == '/' { '!' } else if c0 == '!' { '/' } else { c0 };
        proof {
            assert(s@.subrange(0, i + 1).drop_last() =~= s@.subrange(0, i as int));
            assert(s@.subrange(0, i + 1).last() == c0);
            assert(c == swap_slash(c0));
        }
        if char_needs_escape(c) {
            push_percent(&mut r, c as u32);
        } else {
            push_char(&mut r, c);
        }
        proof {
            assert(r@ =~= escape_name(s@.subrange(0, i + 1)));
        }
        i = i + 1;
    }
    proof {
        assert(s@.subrange(0, n as int) =~= s@);
    }
    r
}

/// The stem is what comes before the first `.`.
proof fn lemma_stem(s: Seq<char>, k: int)
    requires
        0 <= k <= s.len(),
        forall|j: int| 0 <= j < k ==> s[j] != '.',
        k == s.len() || s[k] == '.',
    ensures
        stem(s) == s.subrange(0, k),
    decreases k,
{
    if k == 0 {
        if s.len() == 0 {
            assert(s.subrange(0, 0) =~= s);
        } else {
            assert(s.subrange(0, 0) =~= Seq::<char>::empty());
        }
    } else {
        let t = s.drop_first();
        assert forall|j: int| 0 <= j < k - 1 implies t[j] != '.' by {
            assert(t[j] == s[j + 1]);
        }
        if k < s.len() {
            assert(t[k - 1] == s[k]);
        }
        lemma_stem(t, k - 1);
        assert(seq![s[0]] + t.subrange(0, k - 1) =~= s.subrange(0, k));
    }
}

/// Whether a string holds exactly the three given characters.
fn is_three(n: &str, a: char, b: char, c: char) -> (r: bool)
    ensures
        r == (n@ == seq![a, b, c]),
{
    if n.unicode_len() == 3 && n.get_char(0) == a && n.get_char(1) == b && n.get_char(2) == c {
        proof {
            assert(n@ =~= seq![a, b, c]);
        }
        true
    } else {
        proof {
            if n@ == seq![a, b, c] {
                assert(n@.len() == 3 && n@[0] == a && n@[1] == b && n@[2] == c);
            }
        }
        false
    }
}

/// Whether a lowercase stem is a name reserved by Windows.
fn is_reserved_stem(n: &str) -> (r: bool)
    ensures
        r == reserved_stem(n@),
{
    if is_three(n, 'c', 'o', 'n') || is_three(n, 'p', 'r', 'n') || is_three(n, 'a', 'u', 'x') || is_three(n, 'n', 'u', 'l') {
        return true;
    }
    if n.unicode_len() != 4 {
        return false;
    }
    let head = n.substring_char(0, 3);
    let d = n.get_char(3);
    let r = (is_three(head, 'c', 'o', 'm') || is_three(head, 'l', 'p', 't')) && '1' <= d && d <= '9';
    proof {
        assert(head@ == n@.subrange(0, 3));
    }
    r
}

/// The file name of a blob key: the key with `/` and `!` swapped and the
/// characters a file name cannot hold percent-encoded, its third character
/// percent-encoded too when its stem is a name Windows reserves, then `.`
/// and the case bits of its letters in hexadecimal (`0` for none), which
/// keeps keys that differ only in case apart.
pub fn encode_filename(s: &str) -> (r: String)
    ensures
        r@ == encode_filename_spec(s@),
{
    let bits = case_bits_of(s);
    let postfix = bits_to_hex(bits.as_str());
    let encoded = escape_name_of(s);
    let lower = to_lower(encoded.as_str());
    let ln = lower.unicode_len();
    let stem_len = match find_char_from(lower.as_str(), '.', 0) {
        Some(k) => k,
        None => ln,
    };
    let name_part = substring(lower.as_str(), 0, stem_len);
    proof {
        lemma_stem(lower@, stem_len as int);
    }
    let reserved = is_reserved_stem(name_part.as_str());
    let en = encoded.unicode_len();
    let mut out = if reserved && en >= 3 {
        let mut t = substring(encoded.as_str(), 0, 2);
        let c = encoded.get_char(2);
        push_percent(&mut t, (c as u32) % 256);
        let rest = substring(encoded.as_str(), 3, en);
        t.append(rest.as_str());
        t
    } else {
        String::from_str(encoded.as_str())
    };
    push_char(&mut out, '.');
    out.append(postfix.as_str());
    proof {
        assert(out@ =~= encode_filename_spec(s@));
    }
    out
}

/// The lexicographic comparison of two strings by code point (which is
/// their order byte by byte in UTF-8): -1, 0 or 1.
pub open spec fn lex_order(a: Seq<char>, b: Seq<char>) -> int
    decreases a.len(),
{
    if a.len() == 0 {
        if b.len() == 0 { 0 } else { -1 }
    } else if b.len() == 0 {
        1
    } else if a[0] == b[0] {
        lex_order(a.drop_first(), b.drop_first())
    } else if a[0] < b[0] {
        -1
    } else {
        1
    }
}

/// The comparison from position `i` on, when everything before is equal.
proof fn lemma_lex_order_from(a: Seq<char>, b: Seq<char>, i: int)
    requires
        0 <= i <= a.len(),
        i <= b.len(),
        a.subrange(0, i) == b.subrange(0, i),
    ensures
        lex_order(a, b) == lex_order(a.subrange(i, a.len() as int), b.subrange(i, b.len() as int)),
    decreases i,
{
    if i == 0 {
        assert(a.subrange(0, a.len() as int) =~= a);
        assert(b.subrange(0, b.len() as int) =~= b);
    } else {
        assert(a[0] == a.subrange(0, i)[0] && b[0] == b.subrange(0, i)[0]);
        assert(a.drop_first().subrange(0, i - 1) =~= a.subrange(0, i).drop_first());
        assert(b.drop_first().subrange(0, i - 1) =~= b.subrange(0, i).drop_first());
        lemma_lex_order_from(a.drop_first(), b.drop_first(), i - 1);
        assert(a.drop_first().subrange(i - 1, a.len() - 1) =~= a.subrange(i, a.len() as int));
        assert(b.drop_first().subrange(i - 1, b.len() - 1) =~= b.subrange(i, b.len() as int));
    }
}

/// Compares two strings lexicographically: -1, 0 or 1.
pub(crate) fn compare_strs(a: &str, b: &str) -> (r: i32)
    ensures
        r == lex_order(a@, b@),
{
    let n = a.unicode_len();
    let m = b.unicode_len();
    let mut i: usize = 0;
    while i < n && i < m
        invariant
            i <= n,
            i <= m,
            n == a@.len(),
            m == b@.len(),
            a@.subrange(0, i as int) == b@.subrange(0, i as int),
        decreases n - i,
    {
        let x = a.get_char(i);
        let y = b.get_char(i);
        if x != y && x < y {
            proof {
                lemma_lex_order_from(a@, b@, i as int);
                assert(a@.subrange(i as int, n as int)[0] == x);
                assert(b@.subrange(i as int, m as int)[0] == y);
            }
            return -1;
        }
        if x != y {
            proof {
                lemma_lex_order_from(a@, b@, i as int);
                assert(a@.subrange(i as int, n as int)[0] == x);
                assert(b@.subrange(i as int, m as int)[0] == y);
            }
            return 1;
        }
        proof {
            assert(x == y);
            assert(a@.subrange(0, i + 1) =~= a@.subrange(0, i as int).push(x));
            assert(b@.subrange(0, i + 1) =~= b@.subrange(0, i as int).push(y));
        }
        i = i + 1;
    }
    proof {
        lemma_lex_order_from(a@, b@, i as int);
    }
    if n == m {
        0
    } else if i == n {
        -1
    } else {
        1
    }
}

/// The sequence part of a version: what follows its last `-` (all of it
/// when it has none).
pub open spec fn event_seq_spec(e: Seq<char>) -> Seq<char> {
    if exists|i: int| 0 <= i < e.len() && e[i] == '-' {
        let i = choose|i: int| 0 <= i < e.len() && e[i] == '-' && forall|j: int| i < j < e.len() ==> e[j] != '-';
        e.subrange(i + 1, e.len() as int)
    } else {
        e
    }
}

/// The sequence part of a version: what follows its last `-`.
pub fn get_event_seq(e: &str) -> (r: String)
    ensures
        r@ == event_seq_spec(e@),
{
    let n = e.unicode_len();
    let mut i: usize = n;
    while i > 0
        invariant
            i <= n,
            n == e@.len(),
            forall|j: int| i <= j < n ==> e@[j] != '-',
        decreases i,
    {
        if e.get_char(i - 1) == '-' {
            proof {
                let k = (i - 1) as int;
                assert(forall|j: int| k < j < e@.len() ==> e@[j] != '-');
                assert(exists|x: int| 0 <= x < e@.len() && e@[x] == '-');
                let c = choose|x: int| 0 <= x < e@.len() && e@[x] == '-' && forall|j: int| x < j < e@.len() ==> e@[j] != '-';
                assert(c == k) by {
                    if c < k {
                        assert(e@[k] != '-');
                    }
                    if c > k {
                        assert(e@[c] != '-');
                    }
                }
            }
            return substring(e, i, n);
        }
        i = i - 1;
    }
    proof {
        assert(!exists|x: int| 0 <= x < e@.len() && e@[x] == '-');
    }
    String::from_str(e)
}

/// The order of two sequence numbers: the longer in bytes is later (the
/// difference of the lengths), and equal lengths compare
/// lexicographically (-1, 0 or 1).
pub open spec fn seq_order(a: Seq<char>, b: Seq<char>) -> int {
    if utf8_len(a) != utf8_len(b) { utf8_len(a) - utf8_len(b) } else { lex_order(a, b) }
}

/// The order of two sequence numbers (see `seq_order`).
pub fn compare_seqs(a: &str, b: &str) -> (r: i32)
    requires
        utf8_len(a@) <= i32::MAX,
        utf8_len(b@) <= i32::MAX,
    ensures
        r == seq_order(a@, b@),
{
    let la = utf8_len_exec(a);
    let lb = utf8_len_exec(b);
    if la != lb {
        return (la as i32) - (lb as i32);
    }
    compare_strs(a, b)
}

/// The order of two versions: by their sequence parts (see `seq_order`),
/// then lexicographically.
pub open spec fn version_order(a: Seq<char>, b: Seq<char>) -> int {
    let c = seq_order(event_seq_spec(a), event_seq_spec(b));
    if c != 0 { c } else { lex_order(a, b) }
}

/// A version with a `-` has a last one.
proof fn lemma_last_dash(e: Seq<char>)
    requires
        exists|i: int| 0 <= i < e.len() && e[i] == '-',
    ensures
        exists|i: int| 0 <= i < e.len() && e[i] == '-' && forall|j: int| i < j < e.len() ==> e[j] != '-',
    decreases e.len(),
{
    if e.last() == '-' {
        assert(forall|j: int| e.len() - 1 < j < e.len() ==> e[j] != '-');
    } else {
        let i = choose|i: int| 0 <= i < e.len() && e[i] == '-';
        let d = e.drop_last();
        assert(d[i] == '-');
        lemma_last_dash(d);
        let k = choose|k: int| 0 <= k < d.len() && d[k] == '-' && forall|j: int| k < j < d.len() ==> d[j] != '-';
        assert(e[k] == '-');
        assert forall|j: int| k < j < e.len() implies e[j] != '-' by {
            if j < d.len() {
                assert(e[j] == d[j]);
            }
        }
    }
}

/// The sequence part of a version is no longer than the version.
proof fn lemma_event_seq_len(e: Seq<char>)
    ensures
        utf8_len(event_seq_spec(e)) <= utf8_len(e),
{
    if exists|i: int| 0 <= i < e.len() && e[i] == '-' {
        lemma_last_dash(e);
        let i = choose|i: int| 0 <= i < e.len() && e[i] == '-' && forall|j: int| i < j < e.len() ==> e[j] != '-';
        lemma_utf8_suffix(e, i + 1);
    }
}

/// A suffix takes no more bytes than the whole.
proof fn lemma_utf8_suffix(e: Seq<char>, k: int)
    requires
        0 <= k <= e.len(),
    ensures
        utf8_len(e.subrange(k, e.len() as int)) <= utf8_len(e),
    decreases e.len(),
{
    if k < e.len() {
        assert(e.subrange(k, e.len() as int).drop_last() =~= e.drop_last().subrange(k, e.len() - 1));
        lemma_utf8_suffix(e.drop_last(), k);
    } else {
        assert(e.subrange(k, e.len() as int) =~= Seq::<char>::empty());
    }
}

/// The order of two versions (see `version_order`): negative when `a`
/// comes first, zero when they are equal, positive otherwise.
pub fn compare_versions(a: &str, b: &str) -> (r: i32)
    requires
        utf8_len(a@) <= i32::MAX,
        utf8_len(b@) <= i32::MAX,
    ensures
        r == version_order(a@, b@),
{
    let seq_a = get_event_seq(a);
    let seq_b = get_event_seq(b);
    proof {
        lemma_event_seq_len(a@);
        lemma_event_seq_len(b@);
    }
    let c = compare_seqs(seq_a.as_str(), seq_b.as_str());
    if c != 0 {
        return c;
    }
    compare_strs(a, b)
}

/// Lexicographic order is antisymmetric, and says 0 only of equal texts.
proof fn lemma_lex_order(a: Seq<char>, b: Seq<char>)
    ensures
        lex_order(a, b) == -lex_order(b, a),
        lex_order(a, b) == 0 <==> a == b,
    decreases a.len(),
{
    if a.len() > 0 && b.len() > 0 {
    }
    if a.len() > 0 && b.len() > 0 && a[0] == b[0] {
        lemma_lex_order(a.drop_first(), b.drop_first());
        if a.drop_first() == b.drop_first() {
            assert(a =~= seq![a[0]] + a.drop_first());
            assert(b =~= seq![b[0]] + b.drop_first());
        }
        if a == b {
            assert(a.drop_first() == b.drop_first());
        }
    } else if a.len() > 0 && b.len() > 0 {
        assert(a != b);
    } else if a.len() == 0 && b.len() == 0 {
        assert(a =~= b);
    }
}

/// Versions are ordered: comparing the other way round gives the opposite
/// answer, and only a version compared with itself gives 0.
pub proof fn lemma_version_order(a: Seq<char>, b: Seq<char>)
    ensures
        version_order(a, b) == -version_order(b, a),
        version_order(a, b) == 0 <==> a == b,
{
    lemma_lex_order(a, b);
    lemma_lex_order(event_seq_spec(a), event_seq_spec(b));
}

/// Lexicographic order is transitive.
proof fn lemma_lex_order_trans(a: Seq<char>, b: Seq<char>, c: Seq<char>)
    requires
        lex_order(a, b) < 0,
        lex_order(b, c) < 0,
    ensures
        lex_order(a, c) < 0,
    decreases a.len(),
{
    if a.len() > 0 && b.len() > 0 && c.len() > 0 && a[0] == b[0] && b[0] == c[0] {
        lemma_lex_order_trans(a.drop_first(), b.drop_first(), c.drop_first());
    }
}

/// The order of sequence numbers is transitive.
proof fn lemma_seq_order_trans(a: Seq<char>, b: Seq<char>, c: Seq<char>)
    requires
        seq_order(a, b) < 0,
        seq_order(b, c) < 0,
    ensures
        seq_order(a, c) < 0,
{
    if utf8_len(a) == utf8_len(b) && utf8_len(b) == utf8_len(c) {
        lemma_lex_order_trans(a, b, c);
    }
}

/// Only equal sequence numbers compare as 0.
proof fn lemma_seq_order_zero(a: Seq<char>, b: Seq<char>)
    ensures
        seq_order(a, b) == 0 <==> a == b,
        seq_order(a, b) == -seq_order(b, a),
{
    lemma_lex_order(a, b);
}

/// Versions are ordered consistently: a version before a second one that
/// is before a third is before the third.
pub proof fn lemma_version_order_transitive(a: Seq<char>, b: Seq<char>, c: Seq<char>)
    requires
        version_order(a, b) < 0,
        version_order(b, c) < 0,
    ensures
        version_order(a, c) < 0,
{
    let (sa, sb, sc) = (event_seq_spec(a), event_seq_spec(b), event_seq_spec(c));
    lemma_seq_order_zero(sa, sb);
    lemma_seq_order_zero(sb, sc);
    lemma_seq_order_zero(sa, sc);
    if seq_order(sa, sb) < 0 && seq_order(sb, sc) < 0 {
        lemma_seq_order_trans(sa, sb, sc);
    } else if seq_order(sa, sb) == 0 && seq_order(sb, sc) == 0 {
        lemma_lex_order_trans(a, b, c);
    }
}

/// Whether a character cannot stand in a file name on some system.
pub open spec fn unsafe_in_name(c: char) -> bool {
    c == '<' || c == '>' || c == ':' || c == '"' || c == '/' || c == '|' || c == '\\' || c == '?' || c == '*'
        || (c as u32) <= 0x1f || (c as u32) == 0x7f
}

/// Percent-encoding gives safe characters.
proof fn lemma_percent_safe(b: nat)
    ensures
        forall|i: int| 0 <= i < percent(b).len() ==> !unsafe_in_name(#[trigger] percent(b)[i]),
{
    assert forall|i: int| 0 <= i < percent(b).len() implies !unsafe_in_name(#[trigger] percent(b)[i]) by {
        if i == 1 {
            lemma_upper_hex_safe(b / 16);
        }
        if i == 2 {
            lemma_upper_hex_safe(b % 16);
        }
    }
}

/// Hexadecimal digits are safe.
proof fn lemma_upper_hex_safe(d: nat)
    ensures
        !unsafe_in_name(upper_hex_digit(d)),
{
    if d < 10 {
        crate::text::lemma_digit_char_pub(d);
    }
}

/// An escaped name holds only safe characters.
proof fn lemma_escape_safe(s: Seq<char>)
    ensures
        forall|i: int| 0 <= i < escape_name(s).len() ==> !unsafe_in_name(#[trigger] escape_name(s)[i]),
    decreases s.len(),
{
    if s.len() > 0 {
        lemma_escape_safe(s.drop_last());
        let c = swap_slash(s.last());
        let prev = escape_name(s.drop_last());
        let piece = if needs_escape(c) { percent(c as u32 as nat) } else { seq![c] };
        lemma_percent_safe(c as u32 as nat);
        assert(escape_name(s) == prev + piece);
        assert forall|i: int| 0 <= i < escape_name(s).len() implies !unsafe_in_name(#[trigger] escape_name(s)[i]) by {
            if i < prev.len() {
                assert(escape_name(s)[i] == prev[i]);
            } else {
                assert(escape_name(s)[i] == piece[i - prev.len()]);
            }
        }
    }
}

/// The hexadecimal groups hold only hexadecimal digits.
proof fn lemma_groups_safe(p: Seq<char>)
    ensures
        forall|i: int| 0 <= i < hex_groups(p).len() ==> !unsafe_in_name(#[trigger] hex_groups(p)[i]),
    decreases p.len(),
{
    if p.len() >= 4 {
        let rest = p.subrange(4, p.len() as int);
        lemma_groups_safe(rest);
        let d = 8 * bit(p[0]) + 4 * bit(p[1]) + 2 * bit(p[2]) + bit(p[3]);
        if d < 10 {
            crate::text::lemma_digit_char_pub(d);
        }
        assert forall|i: int| 0 <= i < hex_groups(p).len() implies !unsafe_in_name(#[trigger] hex_groups(p)[i]) by {
            if i > 0 {
                assert(hex_groups(p)[i] == hex_groups(rest)[i - 1]);
            }
        }
    }
}

/// Dropping leading zeros keeps a suffix.
proof fn lemma_trim_zeros_suffix(h: Seq<char>) -> (k: int)
    ensures
        0 <= k <= h.len(),
        trim_zeros(h) == h.subrange(k, h.len() as int),
    decreases h.len(),
{
    if h.len() > 0 && h[0] == '0' {
        let k = lemma_trim_zeros_suffix(h.drop_first());
        assert(h.drop_first().subrange(k, h.len() - 1) =~= h.subrange(k + 1, h.len() as int));
        k + 1
    } else {
        assert(h.subrange(0, h.len() as int) =~= h);
        0
    }
}

/// The file name of a key holds no character a file system may refuse
/// (`< > : " / | \ ? *` and control characters): they are all
/// percent-encoded.
pub proof fn lemma_encoded_name_safe(s: Seq<char>)
    ensures
        forall|i: int| 0 <= i < encode_filename_spec(s).len() ==> !unsafe_in_name(#[trigger] encode_filename_spec(s)[i]),
        forall|i: int| 0 <= i < encode_filename_spec(s).len() ==> {
            let c = #[trigger] encode_filename_spec(s)[i];
            &&& c != '<' && c != '>' && c != ':' && c != '"' && c != '/'
            &&& c != '|' && c != '\\' && c != '?' && c != '*'
            &&& (c as u32) > 0x1f && (c as u32) != 0x7f
        },
{
    let e = escape_name(s);
    lemma_escape_safe(s);
    let u = unreserved(e);
    assert forall|i: int| 0 <= i < u.len() implies !unsafe_in_name(#[trigger] u[i]) by {
        if reserved_stem(stem(lowercase(e))) && e.len() >= 3 {
            let pc = percent((e[2] as u32 % 256) as nat);
            lemma_percent_safe((e[2] as u32 % 256) as nat);
            assert(u == e.subrange(0, 2) + pc + e.subrange(3, e.len() as int));
            if i < 2 {
                assert(u[i] == e[i]);
            } else if i < 5 {
                assert(u[i] == pc[i - 2]);
            } else {
                assert(u[i] == e[i - 2]);
            }
        }
    }
    let h = bits_hex(case_bits(s));
    let g = hex_groups(pad_bits(case_bits(s)));
    lemma_groups_safe(pad_bits(case_bits(s)));
    let k = lemma_trim_zeros_suffix(g);
    assert forall|i: int| 0 <= i < h.len() implies !unsafe_in_name(#[trigger] h[i]) by {
        if case_bits(s).len() == 0 || trim_zeros(g).len() == 0 {
            assert(h == seq!['0']);
        } else {
            assert(h[i] == g[k + i]);
        }
    }
    let r = encode_filename_spec(s);
    assert(r == u + seq!['.'] + h);
    assert forall|i: int| 0 <= i < r.len() implies !unsafe_in_name(#[trigger] r[i]) by {
        if i < u.len() {
            assert(r[i] == u[i]);
        } else if i == u.len() {
            assert(r[i] == '.');
        } else {
            assert(r[i] == h[i - u.len() - 1]);
        }
    }
}

} // verus!
