//! Node identities: 128-bit tokens drawn at random.

use vstd::prelude::*;

verus! {

/// The bits of a 128-bit token that hold the version and the variant.
pub const LAYOUT_MASK: u128 = 0x0000_0000_0000_f000_c000_0000_0000_0000u128;

/// What those bits hold in a random (version 4, RFC variant) token.
pub const RANDOM_LAYOUT: u128 = 0x0000_0000_0000_4000_8000_0000_0000_0000u128;

/// Whether `token` has the layout of a random UUID.
pub open spec fn is_random_token(token: u128) -> bool {
    token & LAYOUT_MASK == RANDOM_LAYOUT
}

/// Draws a token with `uuid::Uuid::new_v4` and hands it out as the integer
/// that `uuid::Uuid::as_u128` gives for it.
///
/// Trusted: the version and variant bits are the ones `new_v4` sets on every
/// token it returns. Nothing is claimed about the other 122 bits, which come
/// from the operating system's random source; in particular two calls may
/// return the same token. `new_v4` panics when that source cannot be read.
#[verifier::external_body]
pub(crate) fn fresh_token() -> (token: u128)
    ensures
        is_random_token(token),
{
    uuid::Uuid::new_v4().as_u128()
}

} // verus!
