//! Rule T, the trust ceiling: a model asserting from its own knowledge is capped at
//! `inferred` however confidently it phrases the claim, and only an import may claim
//! `measured`. Where a unit has several attestations the best provenance binds.

use vstd::prelude::*;

use crate::types::epistemics::Status;
use crate::types::provenance::{Op, Rung};

verus! {

/// Whether a rung could ever justify a status: the status is at or below the rung's ceiling.
pub fn permits(rung: Rung, status: Status) -> (r: bool)
    ensures
        r == (status.code_view() <= rung.ceiling_view().code_view()),
{
    status.as_u8() <= rung.ceiling().as_u8()
}

/// Whether an op may claim a status: `measured` only by an import.
pub fn may_assign(op: Op, status: Status) -> (r: bool)
    ensures
        r == (status != Status::Measured || op == Op::Imported),
{
    status != Status::Measured || op.may_assign_measured()
}

} // verus!
