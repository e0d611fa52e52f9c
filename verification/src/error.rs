use vstd::prelude::*;
use crate::keys::WireKey;

verus! {

/// Why an operation on a circuit was refused.
#[derive(Clone, Copy, PartialEq, Eq, Structural, Debug)]
pub enum CircuitError {
    /// A pin index is not below the number of pins of that role.
    InvalidPinIndex,
    /// Both ends of a connection have the same role.
    SameRoleConnection,
    /// A pin refers to a wire that lists it neither as source nor as sink.
    InconsistentWire,
    /// Two gates drive the named wire with different values.
    ShortCircuit(WireKey),
    /// The two level buffers do not cover the same wire keys.
    BufferMismatch,
    /// A gate still has wires attached. No operation of this library
    /// returns it: removing a gate detaches its wires first.
    DanglingWires,
    /// A key names no gate or wire that is present.
    InvalidKey,
}

} // verus!
