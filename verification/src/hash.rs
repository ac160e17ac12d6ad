//! Identity: a unit's uid is BLAKE3-256 over the canonical bytes of its core. Provenance is
//! outside the core, so the same claim from two agents is one unit with two attestations.

use vstd::prelude::*;

use crate::cbor::envelope::{extra_above, unit_core_bytes, unit_core_encoding};
use crate::cbor::keys;
use crate::error::IntegrityError;
use crate::ids::{lemma_uid_bytes_injective, Uid};
use crate::types::unit::UnitCore;

verus! {

/// The BLAKE3-256 digest of `b`, as the `blake3` crate computes it.
pub uninterp spec fn blake3_digest(b: Seq<u8>) -> Seq<u8>;

/// BLAKE3 over arbitrary bytes: `blake3::hash`, its 32 output bytes.
#[verifier::external_body]
fn blake3_hash(b: &[u8]) -> (r: [u8; 32])
    ensures
        r@ == blake3_digest(b@),
{
    *blake3::hash(b).as_bytes()
}

/// BLAKE3 over arbitrary bytes, for recipe hashing and the index sidecar.
pub fn hash_bytes(b: &[u8]) -> (r: [u8; 32])
    ensures
        r@ == blake3_digest(b@),
{
    blake3_hash(b)
}

/// The uid of a core: BLAKE3 over its canonical bytes.
pub fn canonical_uid(core: &UnitCore) -> (u: Uid)
    requires
        extra_above(core.extra@, keys::unit::HIGHEST),
    ensures
        u.bytes() == blake3_digest(unit_core_encoding(*core)),
{
    let b = unit_core_bytes(core);
    Uid::from_bytes(blake3_hash(b.as_slice()))
}

/// Compares a recomputed uid with a stored one: a mismatch names both.
pub fn check_uid(recomputed: Uid, stored: &Uid) -> (r: Result<(), IntegrityError>)
    ensures
        recomputed.bytes() == stored.bytes() ==> r is Ok,
        recomputed.bytes() != stored.bytes() ==> r == Err::<(), IntegrityError>(
            IntegrityError::HashMismatch { stored: *stored, recomputed },
        ),
{
    proof {
        lemma_uid_bytes_injective(recomputed, *stored);
    }
    if recomputed == *stored {
        Ok(())
    } else {
        Err(IntegrityError::HashMismatch { stored: *stored, recomputed })
    }
}

/// Recomputes a core's uid and compares it with the stored one: a unit cannot be altered
/// without changing its uid, so tampering in transit is caught for the price of one hash.
pub fn verify(core: &UnitCore, stored: &Uid) -> (r: Result<(), IntegrityError>)
    requires
        extra_above(core.extra@, keys::unit::HIGHEST),
    ensures
        stored.bytes() == blake3_digest(unit_core_encoding(*core)) ==> r is Ok,
        stored.bytes() != blake3_digest(unit_core_encoding(*core)) ==> (r matches Err(
            IntegrityError::HashMismatch { stored: s, recomputed: c },
        ) && s == *stored && c.bytes() == blake3_digest(unit_core_encoding(*core))),
{
    let recomputed = canonical_uid(core);
    check_uid(recomputed, stored)
}

} // verus!
