//! String helpers: conversion between `str`/`String` and character
//! sequences, a lexicographic order on character sequences, decimal
//! rendering of integers, trimming, and the character classes the
//! grammars of this crate rely on.

use vstd::prelude::*;
use vstd::string::*;

verus! {

broadcast use vstd::string::group_string_axioms;

// ---------------------------------------------------------------------
// Character classes decided by std (Unicode tables).
// ---------------------------------------------------------------------

/// Whether `c` has the Unicode `White_Space` property (`char::is_whitespace`).
pub uninterp spec fn unicode_whitespace(c: char) -> bool;

/// Whether `c` has the Unicode `Alphabetic` property (`char::is_alphabetic`).
pub uninterp spec fn unicode_alphabetic(c: char) -> bool;

/// Whether `c` is alphabetic or numeric in the Unicode sense
/// (`char::is_alphanumeric`).
pub uninterp spec fn unicode_alphanumeric(c: char) -> bool;

/// The Unicode uppercase mapping of a whole string (`str::to_uppercase`).
pub uninterp spec fn unicode_uppercase(s: Seq<char>) -> Seq<char>;

pub open spec fn is_ascii_lower(c: char) -> bool {
    'a' <= c <= 'z'
}

pub open spec fn is_ascii_upper(c: char) -> bool {
    'A' <= c <= 'Z'
}

pub open spec fn is_ascii_digit(c: char) -> bool {
    '0' <= c <= '9'
}

pub open spec fn is_ascii_letter(c: char) -> bool {
    is_ascii_lower(c) || is_ascii_upper(c)
}

pub open spec fn ascii_upper_char(c: char) -> char {
    if is_ascii_lower(c) {
        ((c as u32) - 32) as char
    } else {
        c
    }
}

pub open spec fn ascii_lower_char(c: char) -> char {
    if is_ascii_upper(c) {
        ((c as u32) + 32) as char
    } else {
        c
    }
}

/// Whitespace as `char::is_whitespace` decides it, with what is known of
/// ASCII spelled out: space, tab, line feed and carriage return are
/// whitespace, printable ASCII characters are not.
pub open spec fn ws_char(c: char) -> bool {
    if c == ' ' || c == '\t' || c == '\n' || c == '\r' {
        true
    } else if 32 < (c as u32) < 127 {
        false
    } else {
        unicode_whitespace(c)
    }
}

/// `char::is_alphabetic`, with ASCII spelled out: exactly the letters.
pub open spec fn alpha_char(c: char) -> bool {
    if (c as u32) < 128 {
        is_ascii_letter(c)
    } else {
        unicode_alphabetic(c)
    }
}

/// `char::is_alphanumeric`, with ASCII spelled out: exactly the letters and
/// the decimal digits.
pub open spec fn alnum_char(c: char) -> bool {
    if (c as u32) < 128 {
        is_ascii_letter(c) || is_ascii_digit(c)
    } else {
        unicode_alphanumeric(c)
    }
}

/// `str::to_uppercase`, with all-ASCII strings spelled out.
pub open spec fn upper_of(s: Seq<char>) -> Seq<char> {
    if all_ascii(s) {
        s.map_values(|c: char| ascii_upper_char(c))
    } else {
        unicode_uppercase(s)
    }
}

pub open spec fn all_ascii(s: Seq<char>) -> bool {
    forall|i: int| 0 <= i < s.len() ==> (#[trigger] s[i] as u32) < 128
}

/// `char::is_whitespace`. The four ASCII layout characters space, tab,
/// line feed and carriage return are whitespace; ASCII letters, digits,
/// and the ASCII punctuation of this crate's grammars are not (Unicode
/// `White_Space` contains no such character).
#[verifier::external_body]
pub(crate) fn is_whitespace(c: char) -> (b: bool)
    ensures
        b == unicode_whitespace(c),
        b == ws_char(c),
        (c == ' ' || c == '\t' || c == '\n' || c == '\r') ==> b,
        (c as u32) < 128 && ((c as u32) > 32 && (c as u32) < 127) ==> !b,
{
    c.is_whitespace()
}

/// `char::is_alphabetic`. ASCII letters are alphabetic; no other ASCII
/// character is.
#[verifier::external_body]
pub(crate) fn is_alphabetic(c: char) -> (b: bool)
    ensures
        b == unicode_alphabetic(c),
        (c as u32) < 128 ==> (b <==> is_ascii_letter(c)),
{
    c.is_alphabetic()
}

/// `char::is_alphanumeric`: alphabetic or numeric. Among ASCII characters
/// exactly the letters and the decimal digits.
#[verifier::external_body]
pub(crate) fn is_alphanumeric(c: char) -> (b: bool)
    ensures
        b == unicode_alphanumeric(c),
        (c as u32) < 128 ==> (b <==> (is_ascii_letter(c) || is_ascii_digit(c))),
{
    c.is_alphanumeric()
}

/// `str::to_uppercase`. On an all-ASCII string the mapping is the ASCII
/// one, character by character.
#[verifier::external_body]
pub(crate) fn to_uppercase(s: &str) -> (res: String)
    ensures
        res@ == unicode_uppercase(s@),
        all_ascii(s@) ==> res@ == s@.map_values(|c: char| ascii_upper_char(c)),
{
    s.to_uppercase()
}

/// What `{:?}` (`Debug`) prints for a character: the character between
/// single quotes, escaped as std escapes characters for debugging.
pub uninterp spec fn char_debug(c: char) -> Seq<char>;

/// What `{:?}` (`Debug`) prints for a string: the string between double
/// quotes, escaped as std escapes strings for debugging.
pub uninterp spec fn str_debug(s: Seq<char>) -> Seq<char>;

/// `format!("{c:?}")`. The exact escaping belongs to std; the result is
/// named, not spelled out.
#[verifier::external_body]
pub(crate) fn char_debug_string(c: char) -> (res: String)
    ensures
        res@ == char_debug(c),
{
    format!("{c:?}")
}

/// `format!("{s:?}")` for a string. The exact escaping belongs to std; the
/// result is named, not spelled out.
#[verifier::external_body]
pub(crate) fn str_debug_string(s: &str) -> (res: String)
    ensures
        res@ == str_debug(s@),
{
    format!("{s:?}")
}

/// Appends one character to a string (`String::push`).
#[verifier::external_body]
pub(crate) fn push_char(s: &mut String, c: char)
    ensures
        final(s)@ == old(s)@.push(c),
{
    s.push(c)
}

// ---------------------------------------------------------------------
// Conversions
// ---------------------------------------------------------------------

/// The characters of `s`, in order.
pub fn to_chars(s: &str) -> (res: Vec<char>)
    ensures
        res@ == s@,
{
    let mut res: Vec<char> = Vec::new();
    for c in iter: s.chars()
        invariant
            res@ == iter.seq().take(iter.index() as int),
    {
        res.push(c);
    }
    res
}

/// The string made of the characters `v[lo..hi]`.
pub fn chars_to_string(v: &Vec<char>, lo: usize, hi: usize) -> (res: String)
    requires
        lo <= hi <= v.len(),
    ensures
        res@ == v@.subrange(lo as int, hi as int),
{
    let mut res = String::new();
    let mut i = lo;
    while i < hi
        invariant
            lo <= i <= hi <= v.len(),
            res@ == v@.subrange(lo as int, i as int),
        decreases hi - i,
    {
        push_char(&mut res, v[i]);
        i += 1;
        assert(res@ =~= v@.subrange(lo as int, i as int));
    }
    res
}

/// A fresh `String` holding `s`.
pub fn owned(s: &str) -> (res: String)
    ensures
        res@ == s@,
{
    String::from_str(s)
}

/// Appends `t` to `s`.
pub fn append(s: &mut String, t: &str)
    ensures
        final(s)@ == old(s)@ + t@,
{
    s.append(t)
}

/// Character-wise equality of two strings.
pub fn str_eq(a: &str, b: &str) -> (res: bool)
    ensures
        res == (a@ == b@),
{
    let x = to_chars(a);
    let y = to_chars(b);
    if x.len() != y.len() {
        return false;
    }
    let mut i: usize = 0;
    while i < x.len()
        invariant
            x@ == a@,
            y@ == b@,
            x.len() == y.len(),
            i <= x.len(),
            forall|j: int| 0 <= j < i ==> x@[j] == y@[j],
        decreases x.len() - i,
    {
        if x[i] != y[i] {
            return false;
        }
        i += 1;
    }
    assert(x@ =~= y@);
    true
}

// ---------------------------------------------------------------------
// Lexicographic order on character sequences (by code point), which is
// the byte order of the UTF-8 encodings and hence the order of `String`.
// ---------------------------------------------------------------------

pub open spec fn seq_lt(a: Seq<char>, b: Seq<char>) -> bool
    decreases a.len(),
{
    if a.len() == 0 {
        b.len() > 0
    } else if b.len() == 0 {
        false
    } else if a[0] != b[0] {
        a[0] < b[0]
    } else {
        seq_lt(a.drop_first(), b.drop_first())
    }
}

pub proof fn lemma_seq_lt_irreflexive(a: Seq<char>)
    ensures
        !seq_lt(a, a),
    decreases a.len(),
{
    if a.len() > 0 {
        lemma_seq_lt_irreflexive(a.drop_first());
    }
}

pub proof fn lemma_seq_lt_trichotomy(a: Seq<char>, b: Seq<char>)
    ensures
        seq_lt(a, b) || seq_lt(b, a) || a == b,
        !(seq_lt(a, b) && seq_lt(b, a)),
    decreases a.len(),
{
    if a.len() > 0 && b.len() > 0 {
        if a[0] == b[0] {
            lemma_seq_lt_trichotomy(a.drop_first(), b.drop_first());
            if a.drop_first() == b.drop_first() {
                assert(a =~= seq![a[0]] + a.drop_first());
                assert(b =~= seq![b[0]] + b.drop_first());
            }
        }
    } else if a.len() == 0 && b.len() == 0 {
        assert(a =~= b);
    }
}

pub proof fn lemma_seq_lt_transitive(a: Seq<char>, b: Seq<char>, c: Seq<char>)
    requires
        seq_lt(a, b),
        seq_lt(b, c),
    ensures
        seq_lt(a, c),
    decreases a.len(),
{
    if a.len() > 0 && b.len() > 0 && c.len() > 0 {
        if a[0] == b[0] && b[0] == c[0] {
            lemma_seq_lt_transitive(a.drop_first(), b.drop_first(), c.drop_first());
        }
    }
}

/// `a < b` in the lexicographic order of strings.
pub fn str_lt(a: &str, b: &str) -> (res: bool)
    ensures
        res == seq_lt(a@, b@),
{
    let x = to_chars(a);
    let y = to_chars(b);
    let mut i: usize = 0;
    assert(x@.skip(0) =~= x@);
    assert(y@.skip(0) =~= y@);
    while i < x.len() && i < y.len()
        invariant
            x@ == a@,
            y@ == b@,
            i <= x.len(),
            i <= y.len(),
            seq_lt(a@, b@) == seq_lt(x@.skip(i as int), y@.skip(i as int)),
        decreases x.len() - i,
    {
        assert(x@.skip(i as int).drop_first() =~= x@.skip(i + 1));
        assert(y@.skip(i as int).drop_first() =~= y@.skip(i + 1));
        if x[i] != y[i] {
            return x[i] < y[i];
        }
        i += 1;
    }
    i < y.len()
}

// ---------------------------------------------------------------------
// Decimal rendering
// ---------------------------------------------------------------------

pub open spec fn digit_char(d: nat) -> char {
    (('0' as u32) + d) as char
}

/// The decimal representation of `n`, without sign or leading zeros.
pub open spec fn decimal(n: nat) -> Seq<char>
    decreases n,
{
    if n < 10 {
        seq![digit_char(n)]
    } else {
        decimal(n / 10).push(digit_char(n % 10))
    }
}

/// `n.to_string()`.
pub fn usize_to_string(n: usize) -> (res: String)
    ensures
        res@ == decimal(n as nat),
    decreases n,
{
    if n < 10 {
        let mut s = String::new();
        let c = char_from_digit(n as u32);
        push_char(&mut s, c);
        assert(s@ =~= seq![digit_char(n as nat)]);
        s
    } else {
        let mut s = usize_to_string(n / 10);
        let c = char_from_digit((n % 10) as u32);
        push_char(&mut s, c);
        s
    }
}

fn char_from_digit(d: u32) -> (c: char)
    requires
        d < 10,
    ensures
        c == digit_char(d as nat),
{
    if d == 0 {
        '0'
    } else if d == 1 {
        '1'
    } else if d == 2 {
        '2'
    } else if d == 3 {
        '3'
    } else if d == 4 {
        '4'
    } else if d == 5 {
        '5'
    } else if d == 6 {
        '6'
    } else if d == 7 {
        '7'
    } else if d == 8 {
        '8'
    } else {
        '9'
    }
}

// ---------------------------------------------------------------------
// Trimming (`str::trim`)
// ---------------------------------------------------------------------

/// Number of leading whitespace characters of `s`.
pub open spec fn ws_prefix_len(s: Seq<char>) -> nat
    decreases s.len(),
{
    if s.len() > 0 && ws_char(s[0]) {
        1 + ws_prefix_len(s.drop_first())
    } else {
        0
    }
}

/// Number of trailing whitespace characters of `s`.
pub open spec fn ws_suffix_len(s: Seq<char>) -> nat
    decreases s.len(),
{
    if s.len() > 0 && ws_char(s.last()) {
        1 + ws_suffix_len(s.drop_last())
    } else {
        0
    }
}

/// `s` without leading and trailing whitespace.
pub open spec fn trim_seq(s: Seq<char>) -> Seq<char> {
    let a = s.skip(ws_prefix_len(s) as int);
    a.take(a.len() - ws_suffix_len(a))
}

pub proof fn lemma_ws_prefix_len(s: Seq<char>, i: int)
    requires
        0 <= i <= s.len(),
        forall|j: int| 0 <= j < i ==> ws_char(#[trigger] s[j]),
        i == s.len() || !ws_char(s[i]),
    ensures
        ws_prefix_len(s) == i,
    decreases i,
{
    if i > 0 {
        assert forall|j: int| 0 <= j < i - 1 implies ws_char(
            #[trigger] s.drop_first()[j],
        ) by {
            assert(s.drop_first()[j] == s[j + 1]);
        }
        lemma_ws_prefix_len(s.drop_first(), i - 1);
    }
}

pub proof fn lemma_ws_suffix_len(s: Seq<char>, k: int)
    requires
        0 <= k <= s.len(),
        forall|j: int| s.len() - k <= j < s.len() ==> ws_char(#[trigger] s[j]),
        k == s.len() || !ws_char(s[s.len() - k - 1]),
    ensures
        ws_suffix_len(s) == k,
    decreases k,
{
    if k > 0 {
        assert forall|j: int|
            s.drop_last().len() - (k - 1) <= j < s.drop_last().len() implies ws_char(
            #[trigger] s.drop_last()[j],
        ) by {
            assert(s.drop_last()[j] == s[j]);
        }
        lemma_ws_suffix_len(s.drop_last(), k - 1);
    }
}

/// Start and end of `s` without leading and trailing whitespace.
pub fn trim_bounds(v: &Vec<char>) -> (res: (usize, usize))
    ensures
        res.0 <= res.1 <= v.len(),
        v@.subrange(res.0 as int, res.1 as int) == trim_seq(v@),
{
    let mut lo: usize = 0;
    while lo < v.len() && is_whitespace(v[lo])
        invariant
            lo <= v.len(),
            forall|j: int| 0 <= j < lo ==> ws_char(#[trigger] v@[j]),
        decreases v.len() - lo,
    {
        lo += 1;
    }
    proof {
        lemma_ws_prefix_len(v@, lo as int);
    }
    let mut hi: usize = v.len();
    while hi > lo && is_whitespace(v[hi - 1])
        invariant
            lo <= hi <= v.len(),
            forall|j: int| hi <= j < v.len() ==> ws_char(#[trigger] v@[j]),
        decreases hi,
    {
        hi -= 1;
    }
    proof {
        let a = v@.skip(lo as int);
        let k = (v.len() - hi) as int;
        assert forall|j: int| a.len() - k <= j < a.len() implies ws_char(
            #[trigger] a[j],
        ) by {
            assert(a[j] == v@[j + lo]);
        }
        if k < a.len() {
            assert(a[a.len() - k - 1] == v@[hi - 1]);
        }
        lemma_ws_suffix_len(a, k);
        assert(v@.subrange(lo as int, hi as int) =~= a.take(a.len() - k));
    }
    (lo, hi)
}

/// `s.trim()`.
pub fn trim(s: &str) -> (res: String)
    ensures
        res@ == trim_seq(s@),
{
    let v = to_chars(s);
    let (lo, hi) = trim_bounds(&v);
    chars_to_string(&v, lo, hi)
}

/// `s.trim().is_empty()`.
pub fn is_blank(s: &str) -> (res: bool)
    ensures
        res == (trim_seq(s@).len() == 0),
{
    let v = to_chars(s);
    let (lo, hi) = trim_bounds(&v);
    lo == hi
}

// ---------------------------------------------------------------------
// Prefixes and suffixes
// ---------------------------------------------------------------------

pub open spec fn is_prefix(p: Seq<char>, s: Seq<char>) -> bool {
    p.len() <= s.len() && s.take(p.len() as int) == p
}

pub open spec fn is_suffix(p: Seq<char>, s: Seq<char>) -> bool {
    p.len() <= s.len() && s.skip(s.len() - p.len()) == p
}

/// Whether `v[at..]` starts with `p`.
pub fn starts_with_at(v: &Vec<char>, at: usize, p: &str) -> (res: bool)
    requires
        at <= v.len(),
    ensures
        res == is_prefix(p@, v@.skip(at as int)),
{
    let q = to_chars(p);
    if q.len() > v.len() - at {
        return false;
    }
    let mut i: usize = 0;
    while i < q.len()
        invariant
            q@ == p@,
            at + q.len() <= v.len(),
            i <= q.len(),
            forall|j: int| 0 <= j < i ==> v@[at + j] == q@[j],
        decreases q.len() - i,
    {
        if v[at + i] != q[i] {
            assert(v@.skip(at as int).take(q.len() as int)[i as int] == v@[at + i]);
            return false;
        }
        i += 1;
    }
    assert(v@.skip(at as int).take(q.len() as int) =~= q@);
    true
}

/// `s.starts_with(p)`.
pub fn starts_with(s: &str, p: &str) -> (res: bool)
    ensures
        res == is_prefix(p@, s@),
{
    let v = to_chars(s);
    assert(v@.skip(0) =~= v@);
    starts_with_at(&v, 0, p)
}

/// Whether `c` occurs in `s`.
pub fn contains_char(s: &str, c: char) -> (res: bool)
    ensures
        res == s@.contains(c),
{
    let v = to_chars(s);
    let mut i: usize = 0;
    while i < v.len()
        invariant
            v@ == s@,
            i <= v.len(),
            forall|j: int| 0 <= j < i ==> v@[j] != c,
        decreases v.len() - i,
    {
        if v[i] == c {
            assert(s@[i as int] == c);
            return true;
        }
        i += 1;
    }
    false
}

/// `s` with ASCII uppercase letters mapped to lowercase, for strings
/// that are all ASCII (`str::to_lowercase` agrees with this on them).
pub fn ascii_lowercase(s: &str) -> (res: String)
    ensures
        res@ == s@.map_values(|c: char| ascii_lower_char(c)),
{
    let v = to_chars(s);
    let mut res = String::new();
    let mut i: usize = 0;
    while i < v.len()
        invariant
            v@ == s@,
            i <= v.len(),
            res@ == v@.take(i as int).map_values(|c: char| ascii_lower_char(c)),
        decreases v.len() - i,
    {
        let c = v[i];
        let d = if 'A' <= c && c <= 'Z' {
            char_shift_down(c)
        } else {
            c
        };
        push_char(&mut res, d);
        i += 1;
        assert(res@ =~= v@.take(i as int).map_values(|c: char| ascii_lower_char(c)));
    }
    assert(v@.take(v.len() as int) =~= v@);
    res
}

fn char_shift_down(c: char) -> (d: char)
    requires
        'A' <= c <= 'Z',
    ensures
        d == ((c as u32) + 32) as char,
{
    let u = ((c as u32) + 32) as u8;
    u as char
}

// ---------------------------------------------------------------------
// Joining
// ---------------------------------------------------------------------

/// `parts` joined with `sep` between consecutive parts.
pub open spec fn join(parts: Seq<Seq<char>>, sep: Seq<char>) -> Seq<char>
    decreases parts.len(),
{
    if parts.len() == 0 {
        Seq::empty()
    } else if parts.len() == 1 {
        parts[0]
    } else {
        join(parts.drop_last(), sep) + sep + parts.last()
    }
}

pub open spec fn string_views(v: Seq<String>) -> Seq<Seq<char>> {
    v.map_values(|s: String| s@)
}

/// `parts.join(sep)`.
pub fn join_strings(parts: &Vec<String>, sep: &str) -> (res: String)
    ensures
        res@ == join(string_views(parts@), sep@),
{
    let mut res = String::new();
    let mut i: usize = 0;
    while i < parts.len()
        invariant
            i <= parts.len(),
            res@ == join(string_views(parts@.take(i as int)), sep@),
        decreases parts.len() - i,
    {
        if i > 0 {
            append(&mut res, sep);
        }
        append(&mut res, parts[i].as_str());
        i += 1;
        proof {
            let t = string_views(parts@.take(i as int));
            assert(t.drop_last() =~= string_views(parts@.take(i - 1)));
            assert(t.last() == parts@[i - 1]@);
            if i == 1 {
                assert(string_views(parts@.take(0)) =~= Seq::<Seq<char>>::empty());
            }
        }
    }
    assert(parts@.take(parts.len() as int) =~= parts@);
    res
}

// ---------------------------------------------------------------------
// Trimming one character (`str::trim_matches` with a `char`)
// ---------------------------------------------------------------------

/// Number of leading `c` in `s`.
pub open spec fn lead_count(s: Seq<char>, c: char) -> nat
    decreases s.len(),
{
    if s.len() > 0 && s[0] == c {
        1 + lead_count(s.drop_first(), c)
    } else {
        0
    }
}

/// Number of trailing `c` in `s`.
pub open spec fn trail_count(s: Seq<char>, c: char) -> nat
    decreases s.len(),
{
    if s.len() > 0 && s.last() == c {
        1 + trail_count(s.drop_last(), c)
    } else {
        0
    }
}

/// `s` without leading and trailing `c`.
pub open spec fn trim_char_seq(s: Seq<char>, c: char) -> Seq<char> {
    let a = s.skip(lead_count(s, c) as int);
    a.take(a.len() - trail_count(a, c))
}

proof fn lemma_lead_count(s: Seq<char>, c: char, i: int)
    requires
        0 <= i <= s.len(),
        forall|j: int| 0 <= j < i ==> #[trigger] s[j] == c,
        i == s.len() || s[i] != c,
    ensures
        lead_count(s, c) == i,
    decreases i,
{
    if i > 0 {
        assert forall|j: int| 0 <= j < i - 1 implies #[trigger] s.drop_first()[j] == c by {
            assert(s.drop_first()[j] == s[j + 1]);
        }
        lemma_lead_count(s.drop_first(), c, i - 1);
    }
}

proof fn lemma_trail_count(s: Seq<char>, c: char, k: int)
    requires
        0 <= k <= s.len(),
        forall|j: int| s.len() - k <= j < s.len() ==> #[trigger] s[j] == c,
        k == s.len() || s[s.len() - k - 1] != c,
    ensures
        trail_count(s, c) == k,
    decreases k,
{
    if k > 0 {
        assert forall|j: int| s.drop_last().len() - (k - 1) <= j < s.drop_last().len() implies #[trigger] s.drop_last()[j]
            == c by {
            assert(s.drop_last()[j] == s[j]);
        }
        lemma_trail_count(s.drop_last(), c, k - 1);
    }
}

/// `s.trim_matches(c)`.
pub fn trim_char(s: &str, c: char) -> (res: String)
    ensures
        res@ == trim_char_seq(s@, c),
{
    let v = to_chars(s);
    let mut lo: usize = 0;
    while lo < v.len() && v[lo] == c
        invariant
            lo <= v.len(),
            forall|j: int| 0 <= j < lo ==> #[trigger] v@[j] == c,
        decreases v.len() - lo,
    {
        lo += 1;
    }
    proof {
        lemma_lead_count(v@, c, lo as int);
    }
    let mut hi: usize = v.len();
    while hi > lo && v[hi - 1] == c
        invariant
            lo <= hi <= v.len(),
            forall|j: int| hi <= j < v.len() ==> #[trigger] v@[j] == c,
        decreases hi,
    {
        hi -= 1;
    }
    proof {
        let a = v@.skip(lo as int);
        let k = (v.len() - hi) as int;
        assert forall|j: int| a.len() - k <= j < a.len() implies #[trigger] a[j] == c by {
            assert(a[j] == v@[j + lo]);
        }
        if k < a.len() {
            assert(a[a.len() - k - 1] == v@[hi - 1]);
        }
        lemma_trail_count(a, c, k);
        assert(v@.subrange(lo as int, hi as int) =~= a.take(a.len() - k));
    }
    chars_to_string(&v, lo, hi)
}

// ---------------------------------------------------------------------
// Splitting on a separator (`str::split` with a `&str` pattern)
// ---------------------------------------------------------------------

/// `sep` occurs in `s` at `i`.
pub open spec fn occurs_at(s: Seq<char>, sep: Seq<char>, i: int) -> bool {
    0 <= i && i + sep.len() <= s.len() && s.subrange(i, i + sep.len()) == sep
}

/// The first occurrence of `sep` in `s` at or after `i`.
pub open spec fn first_occurrence(s: Seq<char>, sep: Seq<char>, i: int) -> Option<int>
    decreases s.len() - i,
{
    if i < 0 || i >= s.len() || i + sep.len() > s.len() {
        None
    } else if occurs_at(s, sep, i) {
        Some(i)
    } else {
        first_occurrence(s, sep, i + 1)
    }
}

pub proof fn lemma_first_occurrence(s: Seq<char>, sep: Seq<char>, i: int)
    requires
        0 <= i,
    ensures
        first_occurrence(s, sep, i) matches Some(j) ==> i <= j && occurs_at(s, sep, j),
    decreases s.len() - i,
{
    if i < s.len() && i + sep.len() <= s.len() && !occurs_at(s, sep, i) {
        lemma_first_occurrence(s, sep, i + 1);
    }
}

/// The pieces of `s` between the occurrences of `sep`, left to right
/// (`sep` not empty).
pub open spec fn split_seq(s: Seq<char>, sep: Seq<char>) -> Seq<Seq<char>>
    decreases s.len(),
{
    if sep.len() == 0 {
        seq![s]
    } else {
        match first_occurrence(s, sep, 0) {
            None => seq![s],
            Some(i) => {
                proof {
                    lemma_first_occurrence(s, sep, 0);
                }
                seq![s.take(i)] + split_seq(s.skip(i + sep.len()), sep)
            },
        }
    }
}

/// `s.split(sep)` collected.
pub fn split_str(s: &str, sep: &str) -> (res: Vec<String>)
    requires
        sep@.len() > 0,
    ensures
        string_views(res@) == split_seq(s@, sep@),
{
    let v = to_chars(s);
    let m = to_chars(sep);
    let mut res: Vec<String> = Vec::new();
    let mut start: usize = 0;
    let mut i: usize = 0;
    proof {
        assert(v@.skip(0) =~= v@);
    }
    while i < v.len()
        invariant
            v@ == s@,
            m@ == sep@,
            m.len() > 0,
            start <= i <= v.len(),
            forall|j: int| start <= j < i ==> !occurs_at(v@, m@, j),
            split_seq(s@, sep@) == string_views(res@) + split_seq(v@.skip(start as int), m@),
        decreases v.len() - i,
    {
        if m.len() <= v.len() - i && starts_with_at(&v, i, sep) {
            proof {
                assert(v@.skip(i as int).take(m.len() as int) =~= v@.subrange(i as int, i + m.len()));
                let t = v@.skip(start as int);
                assert forall|j: int| 0 <= j < i - start implies !occurs_at(t, m@, j) by {
                    assert(!occurs_at(v@, m@, start + j));
                    if j + m.len() <= t.len() {
                        assert(t.subrange(j, j + m.len()) =~= v@.subrange(start + j, start + j + m.len()));
                    }
                }
                assert(t.subrange(i - start, i - start + m.len()) =~= v@.subrange(i as int, i + m.len()));
                lemma_first_occurrence_is(t, m@, 0, i - start);
                assert(t.take(i - start) =~= v@.subrange(start as int, i as int));
                assert(t.skip(i - start + m.len()) =~= v@.skip(i + m.len()));
            }
            let piece = chars_to_string(&v, start, i);
            let ghost before = string_views(res@);
            res.push(piece);
            proof {
                assert(string_views(res@) =~= before.push(v@.subrange(start as int, i as int)));
                assert(before + split_seq(v@.skip(start as int), m@) =~= string_views(res@) + split_seq(
                    v@.skip(i + m.len()),
                    m@,
                ));
            }
            i = i + m.len();
            start = i;
        } else {
            proof {
                if m.len() <= v.len() - i {
                    assert(v@.skip(i as int).take(m.len() as int) =~= v@.subrange(i as int, i + m.len()));
                }
            }
            i += 1;
        }
    }
    proof {
        let t = v@.skip(start as int);
        assert forall|j: int| 0 <= j < t.len() implies !occurs_at(t, m@, j) by {
            if occurs_at(t, m@, j) {
                assert(t.subrange(j, j + m.len()) =~= v@.subrange(start + j, start + j + m.len()));
                assert(occurs_at(v@, m@, start + j));
            }
        }
        lemma_no_occurrence(t, m@, 0);
    }
    let piece = chars_to_string(&v, start, v.len());
    let ghost before = string_views(res@);
    res.push(piece);
    proof {
        assert(v@.subrange(start as int, v.len() as int) =~= v@.skip(start as int));
        assert(string_views(res@) =~= before.push(v@.skip(start as int)));
    }
    res
}

proof fn lemma_first_occurrence_is(s: Seq<char>, sep: Seq<char>, i: int, j: int)
    requires
        0 <= i <= j,
        sep.len() > 0,
        occurs_at(s, sep, j),
        forall|k: int| i <= k < j ==> !occurs_at(s, sep, k),
    ensures
        first_occurrence(s, sep, i) == Some(j),
    decreases j - i,
{
    if i < j {
        lemma_first_occurrence_is(s, sep, i + 1, j);
    }
}

proof fn lemma_no_occurrence(s: Seq<char>, sep: Seq<char>, i: int)
    requires
        0 <= i,
        forall|k: int| i <= k < s.len() ==> !occurs_at(s, sep, k),
    ensures
        first_occurrence(s, sep, i) is None,
    decreases s.len() - i,
{
    if i < s.len() && i + sep.len() <= s.len() {
        lemma_no_occurrence(s, sep, i + 1);
    }
}

} // verus!
