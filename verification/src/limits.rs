//! Partition of the wire-id namespace and the size limits of the tool.
use vstd::prelude::*;

verus! {

/// Wire ids at or above this value name primary inputs; it also bounds the
/// number of gates in a circuit.
pub const MAX_GATES: usize = 8000;

/// Length of a gate's operand vector.
pub const MAX_FANIN: usize = 5;

/// Largest schedule level.
pub const MAX_LEVEL: usize = 500;

/// Largest number of primary inputs.
pub const MAX_PI: usize = 1000;

/// Largest number of gates on one schedule level.
pub const MAX_GATES_LEVEL: usize = 1000;

/// Largest number of levels that a schedule report covers.
pub const MAX_LEVELS: usize = 500;

/// Largest number of crossbar rows.
pub const MAX_ROW: usize = 500;

/// Largest number of crossbar columns.
pub const MAX_COL: usize = 1000;

/// Largest number of copy cells.
pub const MAX_CPY: usize = 100;

/// Bias that marks a primary-output assignment on the left of an equation.
pub const OUT_BIAS: usize = 10000;

} // verus!
