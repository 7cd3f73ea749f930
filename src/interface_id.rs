//! Identifiers of interfaces: the first four bytes of the Keccak-256 digest
//! of a signature such as `supports_interface([u8;4])`.

use ink::env::hash::{HashOutput, Keccak256};
use vstd::prelude::*;

verus! {

/// Number of bytes in an interface identifier.
pub const ID_LEN: usize = 4;

/// The Keccak-256 digest of a byte string.
pub uninterp spec fn keccak256_of(input: Seq<u8>) -> [u8; 32];

/// Relies on `ink::env::hash_bytes::<Keccak256>`: it writes the 32-byte
/// Keccak-256 digest of `input` into the output buffer, and that digest
/// depends on the bytes of `input` alone.
#[verifier::external_body]
pub(crate) fn keccak256(input: &[u8]) -> (r: [u8; 32])
    ensures
        r == keccak256_of(input@),
{
    let mut output = <Keccak256 as HashOutput>::Type::default();
    ink::env::hash_bytes::<Keccak256>(input, &mut output);
    output
}

/// The identifier of the interface with the given signature.
pub open spec fn interface_id_spec(signature: Seq<u8>) -> Seq<u8> {
    keccak256_of(signature)@.subrange(0, ID_LEN as int)
}

/// The identifier that a digest gives: its first four bytes, in digest order.
pub fn interface_id_from_digest(digest: &[u8; 32]) -> (r: [u8; 4])
    ensures
        r@ == digest@.subrange(0, ID_LEN as int),
{
    let r: [u8; 4] = [digest[0], digest[1], digest[2], digest[3]];
    assert(r@ =~= digest@.subrange(0, ID_LEN as int));
    r
}

/// The identifier of a signature is a function of its bytes: two equal
/// signatures give the same identifier.
pub proof fn lemma_interface_id_deterministic(a: Seq<u8>, b: Seq<u8>)
    requires
        a == b,
    ensures
        interface_id_spec(a) == interface_id_spec(b),
{
}

/// Every identifier is exactly four bytes long, whatever the length of the
/// signature, the empty one included.
pub proof fn lemma_interface_id_len(signature: Seq<u8>)
    ensures
        interface_id_spec(signature).len() == ID_LEN,
{
    let d = keccak256_of(signature);
    assert(d@.len() == 32) by {
        vstd::array::array_len_matches_n(&d);
    }
}

} // verus!
