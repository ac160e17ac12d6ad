//! Map keys of Thread.

use vstd::prelude::*;

verus! {

pub const ID: u16 = 0;
pub const SCHEMA: u16 = 1;
pub const OWNER: u16 = 2;
pub const GIST: u16 = 3;
pub const STEPS: u16 = 4;
pub const TS: u16 = 5;
/// The highest key of the table.
pub const HIGHEST: u16 = TS;

} // verus!
