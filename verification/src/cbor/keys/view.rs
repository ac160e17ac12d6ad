//! Map keys of View.

use vstd::prelude::*;

verus! {

pub const ID: u16 = 0;
pub const ROOTS: u16 = 1;
pub const THREADS: u16 = 2;
pub const REQUIRES: u16 = 3;
pub const GRANULARITY: u16 = 4;
pub const INTENT: u16 = 5;
pub const LANG: u16 = 6;
/// The highest key of the table.
pub const HIGHEST: u16 = LANG;

} // verus!
