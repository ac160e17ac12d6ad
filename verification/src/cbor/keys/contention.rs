//! Map keys of Contention.

use vstd::prelude::*;

verus! {

pub const ID: u16 = 0;
pub const OVER: u16 = 1;
pub const POSITIONS: u16 = 2;
pub const DETECTED: u16 = 3;
pub const STATUS: u16 = 4;
/// The highest key of the table.
pub const HIGHEST: u16 = STATUS;

} // verus!
