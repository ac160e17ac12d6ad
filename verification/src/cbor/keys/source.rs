//! Map keys of SourceRef, nested inside a unit under the unit's `SOURCE` key.

use vstd::prelude::*;

verus! {

pub const KIND: u16 = 0;
pub const REFERENCE: u16 = 1;
pub const CAPTURED: u16 = 2;
/// The highest key of the table.
pub const HIGHEST: u16 = CAPTURED;

} // verus!
