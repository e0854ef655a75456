//! Identifiers and ports of the operators of a dataflow.

use vstd::prelude::*;

verus! {

/// Change of the multiplicity of a row.
pub type Diff = i64;

/// Logical time of an event.
pub type Timestamp = u64;

/// Position of an operator in its plan.
#[derive(Clone, Copy, Debug, PartialEq, Eq, PartialOrd, Ord, Hash, Structural)]
pub struct OperatorId(pub usize);

/// Input of an operator: the operator that feeds it and the port of that operator.
#[derive(Clone, Copy, Debug, PartialEq, Eq, Hash, Structural)]
pub struct InputPort {
    pub operator: OperatorId,
    pub port_index: usize,
}

impl InputPort {
    /// The input fed by a port of an operator.
    pub fn new(operator: OperatorId, port_index: usize) -> (port: Self)
        ensures
            port == (InputPort { operator, port_index }),
    {
        InputPort { operator, port_index }
    }
}

/// Output of an operator.
#[derive(Clone, Copy, Debug, PartialEq, Eq, Hash, Structural)]
pub struct OutputPort {
    pub operator: OperatorId,
    pub port_index: usize,
}

impl OutputPort {
    /// A port of an operator.
    pub fn new(operator: OperatorId, port_index: usize) -> (port: Self)
        ensures
            port == (OutputPort { operator, port_index }),
    {
        OutputPort { operator, port_index }
    }
}

} // verus!
