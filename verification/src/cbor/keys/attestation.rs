//! Map keys of Attestation; not hashed. `rung` and `family` follow `sig`, out of field order, and that is wire format.

use vstd::prelude::*;

verus! {

pub const UID: u16 = 0;
pub const AGENT: u16 = 1;
pub const HOP: u16 = 2;
pub const PARENTS: u16 = 3;
pub const TS: u16 = 4;
pub const OP: u16 = 5;
pub const RECIPE: u16 = 6;
pub const SIG: u16 = 7;
pub const RUNG: u16 = 8;
pub const FAMILY: u16 = 9;
/// The highest key of the table.
pub const HIGHEST: u16 = FAMILY;

} // verus!
