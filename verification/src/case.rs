//! Character casing queries.
//!
//! Path comparison in this library is case-sensitive, as on POSIX platforms.
//! Whether a literal recorded as case-insensitive can match more than one
//! spelling depends on whether its text has any cased character, which only
//! the Unicode tables can answer; those queries are trusted.

use vstd::prelude::*;

verus! {

/// What `char::is_uppercase` returns: a function of the character alone.
pub uninterp spec fn spec_char_is_uppercase(c: char) -> bool;

/// What `char::is_lowercase` returns: a function of the character alone.
pub uninterp spec fn spec_char_is_lowercase(c: char) -> bool;

/// Relies on char::is_uppercase: the result depends on the character alone.
#[verifier::external_body]
fn char_is_uppercase(c: char) -> (r: bool)
    ensures
        r == spec_char_is_uppercase(c),
{
    c.is_uppercase()
}

/// Relies on char::is_lowercase: the result depends on the character alone.
#[verifier::external_body]
fn char_is_lowercase(c: char) -> (r: bool)
    ensures
        r == spec_char_is_lowercase(c),
{
    c.is_lowercase()
}

/// Whether a character has casing: it is uppercase or lowercase.
pub open spec fn spec_char_has_casing(c: char) -> bool {
    spec_char_is_uppercase(c) || spec_char_is_lowercase(c)
}

/// Whether any character of the text has casing.
pub open spec fn spec_has_casing(s: Seq<char>) -> bool {
    exists|i: int| 0 <= i < s.len() && spec_char_has_casing(#[trigger] s[i])
}

/// Whether a character has casing.
pub fn char_has_casing(c: char) -> (r: bool)
    ensures
        r == spec_char_has_casing(c),
{
    char_is_uppercase(c) || char_is_lowercase(c)
}

/// Whether any character of the text has casing.
pub fn has_casing(s: &Vec<char>) -> (r: bool)
    ensures
        r == spec_has_casing(s@),
{
    let n = s.len();
    for i in 0..n
        invariant
            n == s@.len(),
            forall|p: int| 0 <= p < i ==> !spec_char_has_casing(#[trigger] s@[p]),
        decreases n - i,
    {
        if char_has_casing(s[i]) {
            return true;
        }
    }
    false
}

} // verus!
