//! Map keys of Relation.

use vstd::prelude::*;

verus! {

pub const KIND: u16 = 0;
pub const FROM: u16 = 1;
pub const TO: u16 = 2;
pub const WEIGHT: u16 = 3;
pub const NOTE: u16 = 4;
/// The highest key of the table.
pub const HIGHEST: u16 = NOTE;

} // verus!
