//! Map keys of PackInfo.

use vstd::prelude::*;

verus! {

pub const BUDGET: u16 = 0;
pub const USED: u16 = 1;
pub const THREAD: u16 = 2;
pub const DROPPED: u16 = 3;
pub const DEGRADED: u16 = 4;
pub const OPTIMALITY: u16 = 5;
pub const ESTIMATOR: u16 = 6;
/// The highest key of the table.
pub const HIGHEST: u16 = ESTIMATOR;

} // verus!
