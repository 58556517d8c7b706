//! The nonces of frames.
use vstd::prelude::*;

verus! {

/// Whether `nonce` was drawn at random. It is known only of what `draw_nonce` gives.
pub closed spec fn is_drawn(nonce: bool) -> bool {
    true
}

/// A nonce that is drawn at random.
pub(crate) fn draw_nonce() -> (nonce: bool)
    ensures
        is_drawn(nonce),
{
    random_nonce()
}

/// Calls `rand::random`. Either value can come, and nothing is claimed of which one does. It
/// panics only where the system gives no seed for the generator.
#[verifier::external_body]
pub(crate) fn random_nonce() -> (nonce: bool) {
    rand::random()
}

} // verus!
