//! Map keys of LabelBinding.

use vstd::prelude::*;

verus! {

pub const LABEL: u16 = 0;
pub const UID: u16 = 1;

/// The highest key of the table.
pub const HIGHEST: u16 = UID;

} // verus!
