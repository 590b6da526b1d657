//! Conversions between owned strings and character vectors.
//!
//! The parser and the encoder work over characters; these helpers move
//! between `String` and `Vec<char>` with exact contracts.

use vstd::prelude::*;
use vstd::string::StrSliceExecFns;

verus! {

/// Relies on String::push: appends exactly the one character.
#[verifier::external_body]
pub fn push_char(s: &mut String, c: char)
    ensures
        final(s)@ == old(s)@.push(c),
{
    s.push(c);
}

/// The characters of a string slice, in order.
pub fn str_to_chars(s: &str) -> (r: Vec<char>)
    ensures
        r@ == s@,
{
    let n = s.unicode_len();
    let mut out: Vec<char> = Vec::new();
    for i in 0..n
        invariant
            n == s@.len(),
            out@ == s@.subrange(0, i as int),
        decreases n - i,
    {
        out.push(s.get_char(i));
    }
    proof {
        assert(out@ =~= s@);
    }
    out
}

/// The string holding exactly the given characters, in order.
pub fn chars_to_string(v: &Vec<char>) -> (r: String)
    ensures
        r@ == v@,
{
    let mut out = String::new();
    let n = v.len();
    for i in 0..n
        invariant
            n == v@.len(),
            out@ == v@.subrange(0, i as int),
        decreases n - i,
    {
        push_char(&mut out, v[i]);
    }
    proof {
        assert(out@ =~= v@);
    }
    out
}

/// The string holding exactly the one given character.
pub fn char_to_string(c: char) -> (r: String)
    ensures
        r@ == seq![c],
{
    let mut out = String::new();
    push_char(&mut out, c);
    proof {
        assert(out@ =~= seq![c]);
    }
    out
}

} // verus!
