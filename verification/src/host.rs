//! What the host environment supplies: the clock and fresh identifiers.

use vstd::prelude::*;

verus! {

/// Relies on `chrono::Utc::now`: the current time; rendered as seconds since
/// the Unix epoch. Nothing is assumed of the clock's value.
#[verifier::external_body]
pub fn now_secs() -> u64 {
    chrono::Utc::now().timestamp() as u64
}

/// Relies on `uuid::Uuid::new_v4` and its `Display` impl: a random version-4
/// UUID rendered in the standard hyphenated form of 36 ASCII characters.
/// Uniqueness is probabilistic and is not assumed.
#[verifier::external_body]
pub fn fresh_uuid() -> (r: String)
    ensures
        r@.len() == 36,
{
    uuid::Uuid::new_v4().to_string()
}

} // verus!
