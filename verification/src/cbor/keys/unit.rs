//! Map keys of UnitCore, the hashed part of a unit. These keys are hash input: renumbering one changes every uid.

use vstd::prelude::*;

verus! {

pub const SCHEMA: u16 = 0;
pub const GIST: u16 = 1;
pub const BODY: u16 = 2;
pub const DETAIL: u16 = 3;
pub const DEPS: u16 = 4;
pub const GROUNDS: u16 = 5;
pub const STATUS: u16 = 6;
pub const SOURCE: u16 = 7;
pub const PAYLOAD: u16 = 8;
/// The highest key of the table.
pub const HIGHEST: u16 = PAYLOAD;

} // verus!
