//! Trusted declarations for the few outside calls the library leans on.
//! Each contract states only what the callee's source or documentation
//! plainly shows; Verus believes these without proof.

use vstd::prelude::*;

verus! {

/// Relies on `char::from_u32`: `Some` exactly for Unicode scalar values,
/// returning the `char` with that code point.
#[verifier::external_body]
pub fn char_from_u32(v: u32) -> (r: Option<char>)
    ensures
        r is Some <==> vstd::utf8::is_scalar(v),
        r matches Some(c) ==> c as u32 == v,
{
    char::from_u32(v)
}

} // verus!
