//! Error taxonomy used at every boundary of the library.

use vstd::prelude::*;

verus! {

/// The kinds of failure the core surfaces to its callers.
///
/// Authentication failures are `Unauthenticated`, authorization failures are
/// `AccessDenied`; decryption failures are always `BadCiphertext`, whether the
/// blob was too short or its tag failed to verify.
#[derive(Clone, Copy, Debug, PartialEq, Eq, Structural)]
pub enum DafsError {
    NotFound,
    AccessDenied,
    BadRequest,
    BadCiphertext,
    Unauthenticated,
    Conflict,
    Timeout,
    Storage,
    Network,
    Internal,
}

} // verus!
