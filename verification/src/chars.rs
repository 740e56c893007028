//! Conversions between strings and character vectors.
//!
//! The lexer and the printers work over characters; these two functions move
//! between that representation and `String`.
use vstd::prelude::*;

verus! {

use vstd::string::StrSliceExecFns;

/// Relies on `String`'s `FromIterator<char>`: collecting characters yields
/// the string whose character sequence they are.
#[verifier::external_body]
pub fn chars_to_string(cs: &Vec<char>) -> (r: String)
    ensures
        r@ == cs@,
{
    cs.iter().collect()
}

/// The characters of a string, in order.
pub fn str_to_chars(s: &str) -> (r: Vec<char>)
    ensures
        r@ == s@,
{
    let n = s.unicode_len();
    let mut out: Vec<char> = Vec::new();
    let mut i: usize = 0;
    while i < n
        invariant
            i <= n,
            n == s@.len(),
            out@ == s@.take(i as int),
        decreases n - i,
    {
        out.push(s.get_char(i));
        proof {
            assert(out@ =~= s@.take(i as int + 1));
        }
        i += 1;
    }
    proof {
        assert(out@ =~= s@);
    }
    out
}

} // verus!
