//! Errors of query construction and elimination.
use vstd::prelude::*;

verus! {

/// Why a factor or a query was rejected.
#[derive(Clone, Copy, Debug, PartialEq, Eq)]
pub enum QueryError {
    /// A variable of the elimination order is mentioned by no factor when its
    /// turn comes (it occurs in no factor, or twice in the order).
    EmptyEliminationGroup(u32),
    /// A variable to eliminate is missing from the join key of its factors.
    UnboundEliminationVariable(u32),
    /// A tuple's length differs from the number of its factor's variables.
    ArityMismatch,
    /// A factor's variable list holds the same variable twice.
    DuplicateVariableInFactor,
}

} // verus!
