use vstd::prelude::*;
use crate::keys::GateKey;

verus! {

/// One end of a wire: a pin, named by its gate and its ordinal. The role is
/// given by the place of the connection in the wire.
#[derive(Clone, Copy, Debug, PartialEq, Eq, Structural)]
pub struct Connection {
    pub pin_index: usize,
    pub gate_index: GateKey,
}

/// A signal from one output pin to any number of input pins.
#[derive(Clone, Debug, PartialEq, Eq)]
pub struct Wire {
    /// The output pin that drives the wire.
    pub source: Connection,
    /// The input pins that read the wire, in the order they were attached.
    pub connections: Vec<Connection>,
}

/// A wire as a mathematical value.
pub struct WireView {
    pub source: Connection,
    pub connections: Seq<Connection>,
}

impl View for Wire {
    type V = WireView;

    open spec fn view(&self) -> WireView {
        WireView { source: self.source, connections: self.connections@ }
    }
}

impl Wire {
    pub fn new(source: Connection, connections: Vec<Connection>) -> (wire: Wire)
        ensures
            wire@ == (WireView { source, connections: connections@ }),
    {
        Wire { source, connections }
    }
}

/// Whether `i` is the last place in `s` that holds the pin `(gate, pin)`.
pub open spec fn is_last_match(s: Seq<Connection>, gate: GateKey, pin: usize, i: int) -> bool {
    &&& 0 <= i < s.len()
    &&& s[i] == (Connection { pin_index: pin, gate_index: gate })
    &&& forall|j: int| i < j < s.len() ==> s[j] != (Connection { pin_index: pin, gate_index: gate })
}

/// The last place in `s` that holds the pin `(gate, pin)`, if there is one.
pub open spec fn last_match(s: Seq<Connection>, gate: GateKey, pin: usize) -> Option<int> {
    if s.contains(Connection { pin_index: pin, gate_index: gate }) {
        Some(choose|i: int| is_last_match(s, gate, pin, i))
    } else {
        None
    }
}

/// A list has one last place for a pin at most, and `last_match` is it.
pub proof fn lemma_last_match(s: Seq<Connection>, gate: GateKey, pin: usize, i: int)
    requires
        is_last_match(s, gate, pin, i),
    ensures
        last_match(s, gate, pin) == Some(i),
{
    let target = Connection { pin_index: pin, gate_index: gate };
    assert(s[i] == target);
    assert(s.contains(target));
    let j = choose|j: int| is_last_match(s, gate, pin, j);
    assert(is_last_match(s, gate, pin, j));
    if j < i {
        assert(s[i] != target);
    }
    if i < j {
        assert(s[j] != target);
    }
}

/// Search in a list of connections.
pub trait ConnectionUtils {
    spec fn entries(&self) -> Seq<Connection>;

    /// The last place that holds the pin `(gate_index, pin_index)`.
    fn find_pin_index(&self, gate_index: GateKey, pin_index: usize) -> (r: Option<usize>)
        ensures
            match r {
                Some(i) => is_last_match(self.entries(), gate_index, pin_index, i as int),
                None => !self.entries().contains(
                    Connection { pin_index: pin_index, gate_index: gate_index },
                ),
            },
    ;
}

impl ConnectionUtils for [Connection] {
    open spec fn entries(&self) -> Seq<Connection> {
        self@
    }

    fn find_pin_index(&self, gate_index: GateKey, pin_index: usize) -> (r: Option<usize>) {
        let mut result_index: Option<usize> = None;
        let target = Connection { pin_index, gate_index };
        for i in 0..self.len()
            invariant
                target == (Connection { pin_index: pin_index, gate_index: gate_index }),
                match result_index {
                    Some(k) => k < i && self@[k as int] == target
                        && forall|j: int| k < j < i ==> self@[j] != target,
                    None => forall|j: int| 0 <= j < i ==> self@[j] != target,
                },
        {
            if self[i].gate_index == gate_index && self[i].pin_index == pin_index {
                result_index = Some(i);
            }
        }
        result_index
    }
}

} // verus!
