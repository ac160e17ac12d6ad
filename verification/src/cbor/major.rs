//! CBOR major types, named so the codec never uses a bare number.

use vstd::prelude::*;

verus! {

pub const UINT: u8 = 0;
pub const NEGINT: u8 = 1;
pub const BYTES: u8 = 2;
pub const TEXT: u8 = 3;
pub const ARRAY: u8 = 4;
pub const MAP: u8 = 5;
pub const TAG: u8 = 6;
pub const SIMPLE: u8 = 7;

} // verus!
