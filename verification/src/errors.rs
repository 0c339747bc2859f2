//! Errors surfaced by the peer pool.

use vstd::prelude::*;

verus! {

/// Failure of a pool operation.
///
/// `UnknownAgent` names an operation that referenced a missing agent id;
/// `ReleaseUnderflow` a release that would drive `slots_taken` below zero.
#[derive(Debug, Clone, Copy, PartialEq, Eq, Structural)]
pub enum PoolError {
    UnknownAgent,
    ReleaseUnderflow,
}

impl PoolError {
    /// Human-readable description of the error.
    pub fn describe(&self) -> (r: &'static str)
        ensures
            self is UnknownAgent ==> r@ == "there is no agent with that id"@,
            self is ReleaseUnderflow ==> r@ == "release would drive slots_taken below zero"@,
    {
        match self {
            PoolError::UnknownAgent => "there is no agent with that id",
            PoolError::ReleaseUnderflow => "release would drive slots_taken below zero",
        }
    }
}

} // verus!
