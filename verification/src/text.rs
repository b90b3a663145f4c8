//! Character-level text utilities shared across the crate: conversions between
//! `&str` and `Vec<char>`, verified substring search, decimal rendering, and
//! the UTF-8 byte-boundary helper used when strings are cut by byte position.

use vstd::prelude::*;
use vstd::string::{StrSliceExecFns, StringSliceAdditionalSpecFns};

verus! {

// ---------------------------------------------------------------------------
// &str <-> Vec<char>
// ---------------------------------------------------------------------------

/// The characters of `s`, collected into a vector.
pub fn chars_vec(s: &str) -> (r: Vec<char>)
    ensures
        r@ == s@,
{
    let n = s.unicode_len();
    let mut r: Vec<char> = Vec::new();
    let mut i: usize = 0;
    while i < n
        invariant
            n == s@.len(),
            i <= n,
            r@ == s@.subrange(0, i as int),
        decreases n - i,
    {
        let c = s.get_char(i);
        r.push(c);
        i = i + 1;
        assert(r@ =~= s@.subrange(0, i as int));
    }
    assert(r@ =~= s@);
    r
}

/// Relies on `String`'s `FromIterator<char>` implementation: collecting the
/// characters of `v` yields the string whose characters are exactly `v`.
#[verifier::external_body]
pub fn string_from_chars(v: &Vec<char>) -> (r: String)
    ensures
        r@ == v@,
{
    v.iter().collect()
}

/// What `str::to_lowercase` returns: a function of the characters alone.
pub uninterp spec fn lower_of(s: Seq<char>) -> Seq<char>;

/// Relies on `str::to_lowercase`: the result depends only on the characters
/// of `s`, and an empty string lowercases to an empty string.
#[verifier::external_body]
pub fn to_lowercase(s: &str) -> (r: String)
    ensures
        r@ == lower_of(s@),
        s@.len() == 0 ==> r@.len() == 0,
{
    s.to_lowercase()
}

// ---------------------------------------------------------------------------
// Substring search over character sequences
// ---------------------------------------------------------------------------

/// `needle` occurs in `hay` starting at position `i`.
pub open spec fn matches_at(hay: Seq<char>, needle: Seq<char>, i: int) -> bool {
    &&& 0 <= i
    &&& i + needle.len() <= hay.len()
    &&& hay.subrange(i, i + needle.len() as int) == needle
}

/// `needle` occurs somewhere in `hay`.
pub open spec fn contains_seq(hay: Seq<char>, needle: Seq<char>) -> bool {
    exists|i: int| matches_at(hay, needle, i)
}

/// The first position at or after `i` where `needle` occurs in `hay`.
pub open spec fn first_match_from(hay: Seq<char>, needle: Seq<char>, i: int) -> Option<int>
    decreases hay.len() + 1 - i,
{
    if i < 0 || i + needle.len() > hay.len() {
        None
    } else if matches_at(hay, needle, i) {
        Some(i)
    } else {
        first_match_from(hay, needle, i + 1)
    }
}

/// What `first_match_from` finds is the least match position at or after `i`;
/// `None` means there is none.
pub proof fn lemma_first_match_from(hay: Seq<char>, needle: Seq<char>, i: int)
    requires
        0 <= i,
    ensures
        match first_match_from(hay, needle, i) {
            Some(m) => i <= m && matches_at(hay, needle, m) && (forall|k: int|
                i <= k < m ==> !matches_at(hay, needle, k)),
            None => forall|k: int| i <= k ==> !matches_at(hay, needle, k),
        },
    decreases hay.len() + 1 - i,
{
    if i + needle.len() > hay.len() {
        assert forall|k: int| i <= k implies !matches_at(hay, needle, k) by {
            assert(k + needle.len() > hay.len());
        }
    } else if matches_at(hay, needle, i) {
    } else {
        lemma_first_match_from(hay, needle, i + 1);
    }
}

/// Whether `needle` occurs in `hay` at exactly position `i`.
pub(crate) fn match_at(hay: &Vec<char>, needle: &Vec<char>, i: usize) -> (r: bool)
    requires
        i + needle@.len() <= hay@.len(),
    ensures
        r == matches_at(hay@, needle@, i as int),
{
    let hlen = hay.len();
    let n = needle.len();
    let mut j: usize = 0;
    while j < n
        invariant
            j <= n,
            n == needle@.len(),
            hlen == hay@.len(),
            i + n <= hlen,
            forall|k: int| 0 <= k < j ==> hay@[i + k] == needle@[k],
        decreases n - j,
    {
        if hay[i + j] != needle[j] {
            assert(hay@.subrange(i as int, i + needle@.len() as int)[j as int] != needle@[j as int]);
            return false;
        }
        j = j + 1;
    }
    assert(hay@.subrange(i as int, i + needle@.len() as int) =~= needle@);
    true
}

/// The first occurrence of `needle` in `hay`, if any.
pub fn find_first(hay: &Vec<char>, needle: &Vec<char>) -> (r: Option<usize>)
    ensures
        match r {
            Some(m) => first_match_from(hay@, needle@, 0) == Some(m as int),
            None => first_match_from(hay@, needle@, 0) is None,
        },
{
    if needle.len() > hay.len() {
        return None;
    }
    if needle.len() == 0 {
        assert(hay@.subrange(0, 0) =~= needle@);
        return Some(0);
    }
    let hlen = hay.len();
    let last = hlen - needle.len();
    let mut i: usize = 0;
    while i <= last
        invariant
            i <= last + 1,
            hlen == hay@.len(),
            needle@.len() >= 1,
            last == hay@.len() - needle@.len(),
            first_match_from(hay@, needle@, 0) == first_match_from(hay@, needle@, i as int),
        decreases last + 1 - i,
    {
        if match_at(hay, needle, i) {
            return Some(i);
        }
        i = i + 1;
    }
    None
}

/// Whether `needle` occurs anywhere in `hay`.
pub fn contains_chars(hay: &Vec<char>, needle: &Vec<char>) -> (r: bool)
    ensures
        r == contains_seq(hay@, needle@),
{
    let found = find_first(hay, needle);
    proof {
        lemma_first_match_from(hay@, needle@, 0);
    }
    match found {
        Some(_) => true,
        None => {
            assert(forall|i: int| !matches_at(hay@, needle@, i));
            false
        },
    }
}

/// A copy of `v[a..b]`.
pub fn subvec(v: &Vec<char>, a: usize, b: usize) -> (r: Vec<char>)
    requires
        a <= b <= v@.len(),
    ensures
        r@ == v@.subrange(a as int, b as int),
{
    let mut r: Vec<char> = Vec::new();
    let mut i: usize = a;
    while i < b
        invariant
            a <= i <= b <= v@.len(),
            r@ == v@.subrange(a as int, i as int),
        decreases b - i,
    {
        r.push(v[i]);
        proof {
            assert(v@.subrange(a as int, i as int).push(v@[i as int]) =~= v@.subrange(
                a as int,
                i as int + 1,
            ));
        }
        i = i + 1;
    }
    r
}

// ---------------------------------------------------------------------------
// Decimal rendering
// ---------------------------------------------------------------------------

/// The decimal digit character for `d` in `0..10`.
pub open spec fn digit_char(d: int) -> char {
    if d == 0 {
        '0'
    } else if d == 1 {
        '1'
    } else if d == 2 {
        '2'
    } else if d == 3 {
        '3'
    } else if d == 4 {
        '4'
    } else if d == 5 {
        '5'
    } else if d == 6 {
        '6'
    } else if d == 7 {
        '7'
    } else if d == 8 {
        '8'
    } else {
        '9'
    }
}

/// The decimal rendering of a non-negative integer, as characters.
pub open spec fn dec_chars(n: int) -> Seq<char>
    decreases n,
{
    if n < 10 {
        seq![digit_char(n)]
    } else {
        dec_chars(n / 10).push(digit_char(n % 10))
    }
}

fn digit_char_exec(d: u64) -> (r: char)
    requires
        d < 10,
    ensures
        r == digit_char(d as int),
{
    if d == 0 {
        '0'
    } else if d == 1 {
        '1'
    } else if d == 2 {
        '2'
    } else if d == 3 {
        '3'
    } else if d == 4 {
        '4'
    } else if d == 5 {
        '5'
    } else if d == 6 {
        '6'
    } else if d == 7 {
        '7'
    } else if d == 8 {
        '8'
    } else {
        '9'
    }
}

/// The decimal digits of `n`, as a character vector.
pub fn dec_digits_vec(n: u64) -> (r: Vec<char>)
    ensures
        r@ == dec_chars(n as int),
    decreases n,
{
    if n < 10 {
        let mut v: Vec<char> = Vec::new();
        v.push(digit_char_exec(n));
        assert(v@ =~= dec_chars(n as int));
        v
    } else {
        let mut v = dec_digits_vec(n / 10);
        v.push(digit_char_exec(n % 10));
        v
    }
}

/// The decimal rendering of `n` as a string.
pub fn u64_to_dec(n: u64) -> (r: String)
    ensures
        r@ == dec_chars(n as int),
{
    let v = dec_digits_vec(n);
    string_from_chars(&v)
}

// ---------------------------------------------------------------------------
// UTF-8 byte boundaries
// ---------------------------------------------------------------------------

/// The end of a valid UTF-8 byte sequence is a character boundary.
proof fn lemma_end_is_char_boundary(bytes: Seq<u8>)
    requires
        vstd::utf8::valid_utf8(bytes),
    ensures
        vstd::utf8::is_char_boundary(bytes, bytes.len() as int),
    decreases bytes.len(),
{
    if bytes.len() != 0 {
        let tail = vstd::utf8::pop_first_scalar(bytes);
        assert(1 <= vstd::utf8::length_of_first_scalar(bytes) <= bytes.len());
        lemma_end_is_char_boundary(tail);
        assert(tail.len() == bytes.len() - vstd::utf8::length_of_first_scalar(bytes));
    }
}

/// The largest valid UTF-8 character boundary at or before byte position
/// `pos`; `s.len()` when `pos` lies at or past the end of `s`.
///
/// Useful when truncating strings by byte position, where cutting inside a
/// multi-byte character would panic.
pub fn floor_char_boundary(s: &str, pos: usize) -> (r: usize)
    ensures
        r <= s.spec_bytes().len(),
        vstd::utf8::is_char_boundary(s.spec_bytes(), r as int),
        pos >= s.spec_bytes().len() ==> r == s.spec_bytes().len(),
        pos < s.spec_bytes().len() ==> r <= pos && (forall|j: int|
            r < j <= pos ==> !vstd::utf8::is_char_boundary(s.spec_bytes(), j)),
{
    proof {
        vstd::utf8::encode_utf8_valid_utf8(s@);
        assert(vstd::utf8::is_char_boundary(s.spec_bytes(), 0));
        lemma_end_is_char_boundary(s.spec_bytes());
    }
    let n = s.as_bytes().len();
    if pos >= n {
        return n;
    }
    let mut i: usize = pos;
    while i > 0 && !s.is_char_boundary(i)
        invariant
            i <= pos,
            pos < n,
            n == s.spec_bytes().len(),
            vstd::utf8::valid_utf8(s.spec_bytes()),
            forall|j: int| i < j <= pos ==> !vstd::utf8::is_char_boundary(s.spec_bytes(), j),
        decreases i,
    {
        i = i - 1;
    }
    i
}

} // verus!
