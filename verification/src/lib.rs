//! Device-side identity and state layer for an IoT client.
//!
//! Two subsystems: a persistent property cache with version-aware
//! invalidation, and a stateless pairing client that exchanges a
//! certificate signing request for a signed certificate and discovers
//! the broker endpoint.

pub mod codec;
pub mod pairing;
pub mod store;
pub mod types;

use vstd::prelude::*;

verus! {

/// Equality of two string slices, stated over their character views.
pub fn str_eq(a: &str, b: &str) -> (r: bool)
    ensures
        r == (a@ == b@),
{
    let sa = String::from_str(a);
    let sb = String::from_str(b);
    sa == sb
}

} // verus!
