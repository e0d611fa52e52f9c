use vstd::prelude::*;
use crate::keys::WireKey;

verus! {

/// A pin of a gate: its ordinal among the pins of its role, and the wire
/// it is bound to, if any.
#[derive(Clone, Copy, Debug, PartialEq, Eq, Structural)]
pub struct Pin {
    pub index: usize,
    pub wire_index: Option<WireKey>,
}

/// The pins of one role of a gate, in ordinal order.
pub type Pins = Vec<Pin>;

/// The sequence of `count` unbound pins numbered from zero.
pub open spec fn unbound_pins(count: nat) -> Seq<Pin> {
    Seq::new(count, |i: int| (Pin { index: i as usize, wire_index: None }))
}

} // verus!
