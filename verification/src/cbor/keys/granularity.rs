//! Map keys of GranularityProfile, nested inside a view under the view's `GRANULARITY` key.

use vstd::prelude::*;

verus! {

pub const PROFILE: u16 = 0;
pub const L0_MAX: u16 = 1;
pub const L1_MIN: u16 = 2;
pub const L1_MAX: u16 = 3;
pub const ADMISSION: u16 = 4;
/// The highest key of the table.
pub const HIGHEST: u16 = ADMISSION;

} // verus!
