//! The deterministic CBOR codec, hand-rolled because the determinism guarantees are the point:
//! core deterministic encoding (RFC 8949 section 4.2), plus integer map keys in ascending order,
//! shortest-form integers and no indefinite lengths, sets sorted by encoded element bytes, NFC
//! text, and absent optionals omitted rather than `null`. The reader rejects rather than
//! normalises, so a value corresponds to exactly one byte sequence.

use vstd::prelude::*;

pub mod major;
pub mod keys;
pub mod order;
pub mod writer;
pub mod reader;
pub mod envelope;
pub mod payloads;
pub mod decode;
pub mod read_payloads;
pub mod round_trip;
pub mod record_round_trip;
pub mod view_round_trip;
pub mod packinfo;
pub mod relation;
pub mod packinfo_round_trip;
pub mod annex_round_trip;
pub mod schema_decl_round_trip;
pub mod record;


verus! {

/// The deepest nesting the reader walks before refusing. The deepest structure the kernel
/// defines is three levels; this is far above that and far below what threatens the stack.
pub const MAX_NESTING: usize = 128;

/// The `null` simple value. In an optional field it is a determinism violation: an absent
/// optional is omitted.
pub const NULL: u8 = 0xF6;

/// Additional-information value marking an indefinite-length item.
pub const INDEFINITE: u8 = 31;

/// The head of a `binary32` float.
pub const F32_HEAD: u8 = 0xFA;

} // verus!
