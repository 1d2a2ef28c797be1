//! Generation of fresh identities for connections and sessions.

use vstd::prelude::*;

verus! {

/// Relies on uuid::Uuid::new_v4 and Uuid's Display impl: a random version-4
/// UUID rendered in hyphenated lowercase form, always 36 characters. The
/// value is random, so nothing beyond its length is promised.
#[verifier::external_body]
pub(crate) fn fresh_id() -> (r: String)
    ensures
        r@.len() == 36,
{
    uuid::Uuid::new_v4().to_string()
}

} // verus!
