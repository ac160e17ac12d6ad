//! Envelope type codes. A code is a permanent wire commitment.

use vstd::prelude::*;

verus! {

pub const UNIT_CORE: u64 = 1;
pub const ATTESTATION: u64 = 2;
pub const RELATION: u64 = 3;
pub const THREAD: u64 = 4;
pub const VIEW: u64 = 5;
pub const CONTENTION: u64 = 6;
pub const PACK_INFO: u64 = 7;
pub const SCHEMA_DECL: u64 = 8;

/// Reserved for checkpointing. Not implemented: its format interacts with content addressing
/// and must not be retrofitted.
pub const CHECKPOINT: u64 = 9;

/// A label bound to the uid it names. A reader that predates it keeps the record verbatim as
/// one of an unknown type, so a store holding it survives an older build.
pub const LABEL_BINDING: u64 = 10;

/// The codes this build reads, ascending, the reserved slot left out.
pub const KNOWN: [u64; 9] = [UNIT_CORE, ATTESTATION, RELATION, THREAD, VIEW, CONTENTION, PACK_INFO, SCHEMA_DECL, LABEL_BINDING];

} // verus!
