//! The ways in which a flow computation can refuse its input.

use vstd::prelude::*;

verus! {

/// Why a network was refused.
#[derive(Clone, Copy, Debug, PartialEq, Eq, Structural)]
pub enum FlowError {
    /// The capacity network holds an arc together with its reverse, or an
    /// arc from a node to itself.
    MalformedInput,
    /// The residual network lacks the reverse of an arc of the capacity
    /// network: the two do not belong together.
    ContractViolation,
}

} // verus!
