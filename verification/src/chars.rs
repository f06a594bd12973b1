//! Character classification and case folding.
//!
//! Tokenization decides token boundaries with the Unicode character classes
//! that `char`'s own classification methods implement. Those classes are far
//! too large to write down, so each one is given a name here, and the
//! classification methods are trusted to return exactly the named class.

use vstd::prelude::*;
use vstd::string::StrSliceExecFns;

verus! {

pub uninterp spec fn is_whitespace_char(c: char) -> bool;

pub uninterp spec fn is_alphabetic_char(c: char) -> bool;

pub uninterp spec fn is_numeric_char(c: char) -> bool;

/// A character is alphanumeric exactly when it is alphabetic or numeric.
pub open spec fn is_alphanumeric_char(c: char) -> bool {
    is_alphabetic_char(c) || is_numeric_char(c)
}

/// ASCII case folding: maps `'a'..='z'` to `'A'..='Z'` and leaves every other
/// character unchanged.
pub open spec fn to_upper_char(c: char) -> char {
    if 97 <= c as u32 && c as u32 <= 122 {
        ((c as u32 - 32) as char)
    } else {
        c
    }
}

/// Relies on `char::is_whitespace`: decides the Unicode `White_Space` property.
pub assume_specification[ char::is_whitespace ](c: char) -> (r: bool)
    ensures
        r == is_whitespace_char(c),
;

/// Relies on `char::is_alphabetic`: decides the Unicode `Alphabetic` property.
pub assume_specification[ char::is_alphabetic ](c: char) -> (r: bool)
    ensures
        r == is_alphabetic_char(c),
;

/// Relies on `char::is_numeric`: decides the Unicode numeric properties.
pub assume_specification[ char::is_numeric ](c: char) -> (r: bool)
    ensures
        r == is_numeric_char(c),
;

/// Relies on `char::is_alphanumeric`, documented to hold exactly when
/// `is_alphabetic` or `is_numeric` holds.
pub assume_specification[ char::is_alphanumeric ](c: char) -> (r: bool)
    ensures
        r == is_alphanumeric_char(c),
;

/// Relies on `char::to_ascii_uppercase`, documented to map the ASCII letters
/// `'a'..='z'` to `'A'..='Z'` and to leave all other characters unchanged.
pub assume_specification[ char::to_ascii_uppercase ](c: &char) -> (r: char)
    ensures
        r == to_upper_char(*c),
;

/// Relies on `String`'s `FromIterator` implementation: collecting characters
/// builds the string of exactly those characters, in order.
#[verifier::external_body]
pub fn chars_to_string(v: &Vec<char>) -> (s: String)
    ensures
        s@ == v@,
{
    v.iter().collect()
}

/// Collects the characters of a string slice into a vector.
pub fn string_to_chars(s: &str) -> (v: Vec<char>)
    ensures
        v@ == s@,
{
    let n = s.unicode_len();
    let mut v: Vec<char> = Vec::new();
    let mut i: usize = 0;
    while i < n
        invariant
            n == s@.len(),
            i <= n,
            v@ == s@.take(i as int),
        decreases n - i,
    {
        let c = s.get_char(i);
        v.push(c);
        proof {
            assert(s@.take(i + 1) =~= s@.take(i as int).push(s@[i as int]));
        }
        i = i + 1;
    }
    proof {
        assert(s@.take(n as int) =~= s@);
    }
    v
}

} // verus!
