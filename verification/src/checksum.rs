//! EIP-55 checksummed rendering of addresses.
//!
//! The mixed-case form depends on a keccak digest of the hex
//! rendering, so the result is named rather than written out; it is a
//! function of the twenty address bytes alone.

use vstd::prelude::*;

use crate::ids::Address;

verus! {

/// The EIP-55 checksummed rendering of a 20-byte address: `0x`
/// followed by forty hex digits whose letters are upper- or lower-case
/// as the digest of the lower-case rendering dictates.
pub uninterp spec fn checksum_of(a: Seq<u8>) -> Seq<char>;

/// Relies on `alloy_primitives::Address::to_checksum` with no chain
/// id: the EIP-55 rendering, 42 characters starting `0x`, a function
/// of the address bytes alone. `Address::from_slice` only converts and
/// panics unless given exactly twenty bytes.
#[verifier::external_body]
pub(crate) fn checksum_string(a: &Address) -> (r: String)
    requires
        a.wf(),
    ensures
        r@ == checksum_of(a@),
        r@.len() == 42,
{
    alloy_primitives::Address::from_slice(a.bytes().as_slice()).to_checksum(None)
}

} // verus!
