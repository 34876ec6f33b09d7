//! Small helpers shared by the day runners.

use vstd::prelude::*;

verus! {

/// Relies on alloc's `format!` macro: the result is the two strings joined.
#[verifier::external_body]
fn concat_strs(a: &str, b: &str) -> (r: String)
    ensures
        r@ == a@ + b@,
{
    format!("{}{}", a, b)
}

/// The message reported for a day with no solution yet.
pub fn not_implemented_error(day: &str) -> (r: String)
    ensures
        r@ == day@ + " not implemented"@,
{
    concat_strs(day, " not implemented")
}

} // verus!
