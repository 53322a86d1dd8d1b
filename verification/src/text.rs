//! Character-level helpers shared by path parsing, path formatting and
//! occurrence search: Unicode character classes, case folding, and
//! conversions between strings and character vectors.

use vstd::prelude::*;

verus! {

/// Whether a character counts as alphanumeric; the character set is exactly
/// the one `char::is_alphanumeric` accepts.
pub uninterp spec fn is_alnum_char(c: char) -> bool;

/// Whether a character counts as alphabetic; the character set is exactly
/// the one `char::is_alphabetic` accepts.
pub uninterp spec fn is_alpha_char(c: char) -> bool;

/// The lower-case form of a character: the first character of the expansion
/// `char::to_lowercase` yields for it.
pub uninterp spec fn lower_char(c: char) -> char;

/// Relies on `char::is_alphanumeric`: true exactly for the Unicode
/// alphabetic and numeric character classes, which contain no ASCII
/// punctuation — in particular neither `.` nor `[`.
#[verifier::external_body]
pub(crate) fn is_alnum(c: char) -> (r: bool)
    ensures
        r == is_alnum_char(c),
        r ==> c != '.' && c != '[',
{
    c.is_alphanumeric()
}

/// Relies on `char::is_alphabetic`: true exactly for the Unicode alphabetic
/// character class.
#[verifier::external_body]
pub(crate) fn is_alpha(c: char) -> (r: bool)
    ensures
        r == is_alpha_char(c),
{
    c.is_alphabetic()
}

/// Relies on `char::to_lowercase`: its expansion depends on the character
/// alone; the first character of the expansion is taken (the expansion is
/// never empty, so the fallback is never used).
#[verifier::external_body]
pub(crate) fn to_lower(c: char) -> (r: char)
    ensures
        r == lower_char(c),
{
    c.to_lowercase().next().unwrap_or('\0')
}

/// Relies on `Iterator::collect` for `String`: the collected string holds
/// exactly the characters of the vector, in order.
#[verifier::external_body]
pub(crate) fn chars_to_string(v: &Vec<char>) -> (r: String)
    ensures
        r@ == v@,
{
    v.iter().collect()
}

/// The characters `t[a..b]`, gathered into a new vector.
pub(crate) fn char_range(t: &Vec<char>, a: usize, b: usize) -> (r: Vec<char>)
    requires
        a <= b <= t@.len(),
    ensures
        r@ == t@.subrange(a as int, b as int),
{
    let mut r: Vec<char> = Vec::new();
    let mut k: usize = a;
    while k < b
        invariant
            a <= k <= b <= t@.len(),
            r@ == t@.subrange(a as int, k as int),
        decreases b - k,
    {
        let c = t[k];
        r.push(c);
        k = k + 1;
        proof {
            assert(r@ =~= t@.subrange(a as int, k as int));
        }
    }
    r
}

/// The characters of `s`, gathered into a vector.
pub(crate) fn str_to_chars(s: &str) -> (v: Vec<char>)
    ensures
        v@ == s@,
{
    let n = s.unicode_len();
    let mut v: Vec<char> = Vec::new();
    let mut i: usize = 0;
    while i < n
        invariant
            n == s@.len(),
            i <= n,
            v@ == s@.take(i as int),
        decreases n - i,
    {
        let c = s.get_char(i);
        v.push(c);
        i = i + 1;
        proof {
            assert(v@ =~= s@.take(i as int));
        }
    }
    proof {
        assert(s@.take(n as int) =~= s@);
    }
    v
}

} // verus!
