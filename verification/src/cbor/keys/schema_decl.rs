//! Map keys of SchemaDecl.

use vstd::prelude::*;

verus! {

pub const ID: u16 = 0;
pub const VERSION: u16 = 1;
pub const TYPES: u16 = 2;
pub const RELATIONS: u16 = 3;
pub const PAYLOAD_SHAPE: u16 = 4;
/// The highest key of the table.
pub const HIGHEST: u16 = PAYLOAD_SHAPE;

} // verus!
