//! The random number generator that runs draw from. Its sequence depends on
//! its seed and on every earlier draw, so contracts speak only of what holds
//! for every outcome.

use vstd::prelude::*;

use rand::rngs::StdRng;

verus! {

/// Trusted: declares `rand`'s `StdRng` to the verifier as an opaque type, so
/// that a generator can be handed through to the shuffle. Nothing about its
/// state is claimed.
#[verifier::external_type_specification]
#[verifier::external_body]
pub struct ExStdRng(StdRng);

} // verus!
