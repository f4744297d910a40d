//! The error surface of logical-plan construction. Plan building itself is
//! an external collaborator of the store; only its error type is part of
//! this crate's interface.

use vstd::prelude::*;

verus! {

/// Why a statement could not be turned into a logical plan.
#[derive(Clone, Copy, PartialEq, Eq, Structural, Debug)]
pub enum LogicalPlanError {
    InvalidSQL,
}

impl LogicalPlanError {
    /// A short description of the error.
    pub fn message(&self) -> (r: &'static str)
        ensures
            r@ == "invalid SQL"@,
    {
        "invalid SQL"
    }
}

} // verus!
