use vstd::prelude::*;
use crate::error::CircuitError;
use crate::gate::{GateView, Rotation};
use crate::gate_type::GateType;
use crate::keys::{GateKey, WireKey, NULL_SLOT};
use crate::level_table::seeded;
use crate::pin_type::PinType;
use crate::pins::Pin;
use crate::wires::{last_match, Connection, WireView};

verus! {

/// A circuit as a mathematical value: its gates and wires by key, the two
/// level buffers, and the settlement flag.
pub struct CircuitView {
    pub gates: Map<GateKey, GateView>,
    pub wires: Map<WireKey, WireView>,
    /// The levels that gates read in the coming tick.
    pub read: Map<WireKey, bool>,
    /// The levels that the last tick read.
    pub write: Map<WireKey, bool>,
    pub emulation_done: bool,
}

/// The pin `(gate, pin)`.
pub open spec fn end(gate: GateKey, pin: usize) -> Connection {
    Connection { pin_index: pin, gate_index: gate }
}

/// The pin without its wire, if its wire is `wire`.
pub open spec fn release(pin: Pin, wire: WireKey) -> Pin {
    if pin.wire_index == Some(wire) {
        Pin { wire_index: None, ..pin }
    } else {
        pin
    }
}

/// Whether `listed` names pin `pin` of `gate`.
pub open spec fn names(listed: Seq<Connection>, gate: GateKey, pin: int) -> bool {
    exists|j: int|
        0 <= j < listed.len() && (#[trigger] listed[j]).gate_index == gate && listed[j].pin_index
            == pin
}

/// The pins of one role of `gate`, where each pin that `listed` names is
/// released from `wire`.
pub open spec fn release_listed(
    pins: Seq<Pin>,
    gate: GateKey,
    listed: Seq<Connection>,
    wire: WireKey,
) -> Seq<Pin> {
    Seq::new(
        pins.len(),
        |i: int|
            if names(listed, gate, i) {
                release(pins[i], wire)
            } else {
                pins[i]
            },
    )
}

/// The gates, where each output pin that `outputs` names and each input pin
/// that `inputs` names is released from `wire`.
pub open spec fn release_gates(
    gates: Map<GateKey, GateView>,
    outputs: Seq<Connection>,
    inputs: Seq<Connection>,
    wire: WireKey,
) -> Map<GateKey, GateView> {
    Map::new(
        |g: GateKey| gates.contains_key(g),
        |g: GateKey|
            GateView {
                input: release_listed(gates[g].input, g, inputs, wire),
                output: release_listed(gates[g].output, g, outputs, wire),
                ..gates[g]
            },
    )
}

/// Whether `gate` is present and has a pin of that role and ordinal.
pub open spec fn pin_exists(
    gates: Map<GateKey, GateView>,
    gate: GateKey,
    pin_type: PinType,
    pin: usize,
) -> bool {
    gates.contains_key(gate) && pin < gates[gate].pins(pin_type).len()
}

/// The wire that a pin is bound to.
pub open spec fn wire_at(
    gates: Map<GateKey, GateView>,
    gate: GateKey,
    pin_type: PinType,
    pin: usize,
) -> Option<WireKey>
    recommends
        pin_exists(gates, gate, pin_type, pin),
{
    gates[gate].pins(pin_type)[pin as int].wire_index
}

/// The gates with one pin bound to `wire`, or unbound.
pub open spec fn bind_pin(
    gates: Map<GateKey, GateView>,
    gate: GateKey,
    pin_type: PinType,
    pin: usize,
    wire: Option<WireKey>,
) -> Map<GateKey, GateView>
    recommends
        pin_exists(gates, gate, pin_type, pin),
{
    let g = gates[gate];
    let pins = g.pins(pin_type);
    let bound = Pin { wire_index: wire, ..pins[pin as int] };
    gates.insert(gate, g.with_pins(pin_type, pins.update(pin as int, bound)))
}

/// The gates with one pin unbound, if it exists and is bound to `wire`.
pub open spec fn release_pin(
    gates: Map<GateKey, GateView>,
    gate: GateKey,
    pin_type: PinType,
    pin: usize,
    wire: WireKey,
) -> Map<GateKey, GateView> {
    if pin_exists(gates, gate, pin_type, pin) && wire_at(gates, gate, pin_type, pin) == Some(wire) {
        bind_pin(gates, gate, pin_type, pin, None)
    } else {
        gates
    }
}

/// Whether the wire names the pin in the place that belongs to its role:
/// an output pin as its source, an input pin among its sinks.
pub open spec fn lists(wire: WireView, gate: GateKey, pin: usize, pin_type: PinType) -> bool {
    match pin_type {
        PinType::Output => wire.source == end(gate, pin),
        PinType::Input => wire.connections.contains(end(gate, pin)),
    }
}

/// Whether a table of wires can issue `key` for a new wire: the key is not
/// in use, and its slot is not the null slot and is the slot of no wire.
pub open spec fn issuable(wires: Map<WireKey, WireView>, key: WireKey) -> bool {
    &&& !wires.contains_key(key)
    &&& key.slot() != NULL_SLOT
    &&& forall|other: WireKey| #[trigger] wires.contains_key(other) ==> other.slot() != key.slot()
}

/// The source and the sink of a connection between two pins of opposite
/// roles, of which the first has the role `from_type`.
pub open spec fn endpoints(
    from_gate: GateKey,
    to_gate: GateKey,
    from_pin: usize,
    from_type: PinType,
    to_pin: usize,
) -> (Connection, Connection) {
    match from_type {
        PinType::Input => (end(to_gate, to_pin), end(from_gate, from_pin)),
        PinType::Output => (end(from_gate, from_pin), end(to_gate, to_pin)),
    }
}

/// The level on input `pin` of `gate`, read from the buffer `read`: that of
/// the wire the pin is bound to, and false where `gate` has no such pin,
/// the pin is unbound, or its wire has no level.
pub open spec fn level_on(read: Map<WireKey, bool>, gate: GateView, pin: int) -> bool {
    if 0 <= pin < gate.input.len() {
        match gate.input[pin].wire_index {
            Some(wire) => read.contains_key(wire) && read[wire],
            None => false,
        }
    } else {
        false
    }
}

/// The level that `gate` drives when its inputs are read from `read`.
pub open spec fn output_of(read: Map<WireKey, bool>, gate: GateView) -> bool {
    gate.gate_type.truth(level_on(read, gate, 0), level_on(read, gate, 1))
}

/// Whether output `pin` of `gate` is bound to `wire`.
pub open spec fn drives_in(
    gates: Map<GateKey, GateView>,
    gate: GateKey,
    pin: int,
    wire: WireKey,
) -> bool {
    &&& gates.contains_key(gate)
    &&& 0 <= pin < gates[gate].output.len()
    &&& gates[gate].output[pin].wire_index == Some(wire)
}

/// Whether some output pin is bound to `wire`.
pub open spec fn driven_in(gates: Map<GateKey, GateView>, wire: WireKey) -> bool {
    exists|gate: GateKey, pin: int| drives_in(gates, gate, pin, wire)
}

/// The level of `wire` after a tick of gates that read `read`: what its
/// driver puts on it, or, with no driver, what `write` holds.
pub open spec fn next_level_of(
    gates: Map<GateKey, GateView>,
    read: Map<WireKey, bool>,
    write: Map<WireKey, bool>,
    wire: WireKey,
) -> bool {
    if driven_in(gates, wire) {
        let (gate, pin) = choose|gate: GateKey, pin: int| drives_in(gates, gate, pin, wire);
        output_of(read, gates[gate])
    } else {
        write[wire]
    }
}

impl CircuitView {
    /// Whether `gate` is present and has a pin of that role and ordinal.
    pub open spec fn has_pin(self, gate: GateKey, pin_type: PinType, pin: usize) -> bool {
        pin_exists(self.gates, gate, pin_type, pin)
    }

    /// The wire that the pin is bound to.
    pub open spec fn pin_wire(self, gate: GateKey, pin_type: PinType, pin: usize) -> Option<
        WireKey,
    >
        recommends
            self.has_pin(gate, pin_type, pin),
    {
        wire_at(self.gates, gate, pin_type, pin)
    }

    /// The circuit with the pin bound to `wire`, or unbound.
    pub open spec fn bind(
        self,
        gate: GateKey,
        pin_type: PinType,
        pin: usize,
        wire: Option<WireKey>,
    ) -> CircuitView
        recommends
            self.has_pin(gate, pin_type, pin),
    {
        CircuitView { gates: bind_pin(self.gates, gate, pin_type, pin, wire), ..self }
    }

    /// The circuit with one more gate of the given kind, all pins unbound.
    pub open spec fn with_gate(self, key: GateKey, gate_type: GateType) -> CircuitView {
        CircuitView {
            gates: self.gates.insert(key, GateView::fresh(Rotation::Up, gate_type)),
            ..self
        }
    }

    /// The circuit with `wire` stored under `key` and its level seeded to
    /// false in both buffers. No pin is touched.
    pub open spec fn with_wire(self, key: WireKey, wire: WireView) -> CircuitView {
        CircuitView {
            wires: self.wires.insert(key, wire),
            read: seeded(self.read, key, false),
            write: seeded(self.write, key, false),
            ..self
        }
    }

    /// The circuit without the wire `key`: the wire and its levels are gone,
    /// and the pins it names no longer refer to it. Where there is no such
    /// wire, nothing changes.
    pub open spec fn without_wire(self, key: WireKey) -> CircuitView {
        if self.wires.contains_key(key) {
            let wire = self.wires[key];
            CircuitView {
                gates: release_gates(self.gates, seq![wire.source], wire.connections, key),
                wires: self.wires.remove(key),
                read: self.read.remove(key),
                write: self.write.remove(key),
                ..self
            }
        } else {
            self
        }
    }

    /// The level that the coming tick reads on input `pin` of `gate`.
    pub open spec fn input_level(self, gate: GateView, pin: int) -> bool {
        level_on(self.read, gate, pin)
    }

    /// The level that `gate` drives in the coming tick.
    pub open spec fn gate_output(self, gate: GateView) -> bool {
        output_of(self.read, gate)
    }

    /// Why the pin cannot be disconnected, if it cannot.
    pub open spec fn disconnect_error(self, gate: GateKey, pin: usize, pin_type: PinType) -> Option<
        CircuitError,
    > {
        if !self.gates.contains_key(gate) {
            Some(CircuitError::InvalidKey)
        } else if pin >= self.gates[gate].pins(pin_type).len() {
            Some(CircuitError::InvalidPinIndex)
        } else {
            match self.pin_wire(gate, pin_type, pin) {
                None => None,
                Some(wire) => if !self.wires.contains_key(wire) {
                    Some(CircuitError::InvalidKey)
                } else if !lists(self.wires[wire], gate, pin, pin_type) {
                    Some(CircuitError::InconsistentWire)
                } else {
                    None
                },
            }
        }
    }

    /// The circuit after an input pin has left the wire `wire`, which has
    /// other sinks: the last entry of the pin among the sinks is gone and
    /// the pin is unbound.
    pub open spec fn without_sink(self, wire: WireKey, gate: GateKey, pin: usize) -> CircuitView
        recommends
            self.wires.contains_key(wire),
            self.wires[wire].connections.contains(end(gate, pin)),
            self.has_pin(gate, PinType::Input, pin),
    {
        let w = self.wires[wire];
        let at = last_match(w.connections, gate, pin).unwrap();
        CircuitView {
            wires: self.wires.insert(
                wire,
                WireView { connections: w.connections.remove(at), ..w },
            ),
            ..self
        }.bind(gate, PinType::Input, pin, None)
    }

    /// The circuit after the pin has been disconnected, where
    /// `disconnect_error` is `None`. An unbound pin changes nothing. The
    /// source of a wire, or its only sink, takes the whole wire with it.
    /// Another sink leaves the wire alone.
    pub open spec fn disconnected(self, gate: GateKey, pin: usize, pin_type: PinType) -> CircuitView
        recommends
            self.disconnect_error(gate, pin, pin_type) is None,
    {
        match self.pin_wire(gate, pin_type, pin) {
            None => self,
            Some(wire) => match pin_type {
                PinType::Output => self.without_wire(wire),
                PinType::Input => if self.wires[wire].connections.len() == 1 {
                    self.without_wire(wire)
                } else {
                    self.without_sink(wire, gate, pin)
                },
            },
        }
    }

    /// The circuit after an attempt to disconnect the pin: disconnected
    /// where that is possible, unchanged where it is not.
    pub open spec fn detached(self, gate: GateKey, pin: usize, pin_type: PinType) -> CircuitView {
        if self.disconnect_error(gate, pin, pin_type) is None {
            self.disconnected(gate, pin, pin_type)
        } else {
            self
        }
    }

    /// The circuit after the first `count` pins of one role of `gate` have
    /// been detached, in ordinal order.
    pub open spec fn detached_pins(self, gate: GateKey, pin_type: PinType, count: nat) -> CircuitView
        decreases count,
    {
        if count == 0 {
            self
        } else {
            self.detached_pins(gate, pin_type, (count - 1) as nat).detached(
                gate,
                (count - 1) as usize,
                pin_type,
            )
        }
    }

    /// Why `gate` cannot be removed, if it cannot: it is not present, or
    /// one of its pins cannot be disconnected as the circuit stands.
    pub open spec fn removal_error(self, gate: GateKey) -> Option<CircuitError> {
        if !self.gates.contains_key(gate) {
            Some(CircuitError::InvalidKey)
        } else if exists|pin: usize, pin_type: PinType|
            self.disconnect_error(gate, pin, pin_type) == Some(CircuitError::InvalidKey)
                && self.has_pin(gate, pin_type, pin) {
            Some(CircuitError::InvalidKey)
        } else if exists|pin: usize, pin_type: PinType|
            self.disconnect_error(gate, pin, pin_type) == Some(CircuitError::InconsistentWire)
                && self.has_pin(gate, pin_type, pin) {
            Some(CircuitError::InconsistentWire)
        } else {
            None
        }
    }

    /// The circuit after `gate` has been removed: its output pins, then its
    /// input pins, are detached in ordinal order, then `gate` itself is gone.
    pub open spec fn without_gate(self, gate: GateKey) -> CircuitView
        recommends
            self.gates.contains_key(gate),
    {
        let outputs = self.gates[gate].output.len();
        let inputs = self.gates[gate].input.len();
        let loose = self.detached_pins(gate, PinType::Output, outputs).detached_pins(
            gate,
            PinType::Input,
            inputs,
        );
        CircuitView { gates: loose.gates.remove(gate), ..loose }
    }

    /// Why the output pin `source` cannot be connected to the input pin
    /// `sink`, if it cannot. Where the two are connected already nothing
    /// stands in the way; otherwise the sink must be free to leave the wire
    /// it is on.
    pub open spec fn link_error(self, source: Connection, sink: Connection) -> Option<CircuitError> {
        if !self.gates.contains_key(source.gate_index) || !self.gates.contains_key(
            sink.gate_index,
        ) {
            Some(CircuitError::InvalidKey)
        } else if !self.has_pin(source.gate_index, PinType::Output, source.pin_index)
            || !self.has_pin(sink.gate_index, PinType::Input, sink.pin_index) {
            Some(CircuitError::InvalidPinIndex)
        } else {
            match self.pin_wire(source.gate_index, PinType::Output, source.pin_index) {
                Some(wire) => if !self.wires.contains_key(wire) {
                    Some(CircuitError::InvalidKey)
                } else if self.wires[wire].connections.contains(sink) {
                    None
                } else {
                    self.disconnect_error(sink.gate_index, sink.pin_index, PinType::Input)
                },
                None => self.disconnect_error(sink.gate_index, sink.pin_index, PinType::Input),
            }
        }
    }

    /// The circuit with `sink` appended to the sinks of `wire` and bound to
    /// it.
    pub open spec fn with_sink(self, wire: WireKey, sink: Connection) -> CircuitView {
        let w = self.wires[wire];
        CircuitView {
            wires: self.wires.insert(wire, WireView { connections: w.connections.push(sink), ..w }),
            ..self
        }.bind(sink.gate_index, PinType::Input, sink.pin_index, Some(wire))
    }

    /// The circuit after `sink` has joined `wire`, the wire of the source,
    /// where `link_error` is `None`. If the wire has the sink already,
    /// nothing changes. Otherwise the sink first leaves the wire it is on,
    /// then it is appended to the sinks of `wire` and bound to it.
    pub open spec fn joined(self, wire: WireKey, sink: Connection) -> CircuitView {
        if self.wires[wire].connections.contains(sink) {
            self
        } else {
            self.disconnected(sink.gate_index, sink.pin_index, PinType::Input).with_sink(wire, sink)
        }
    }

    /// The circuit after `source`, which has no wire, has been connected to
    /// `sink`, where `link_error` is `None`. The sink first leaves the wire
    /// it is on; then a wire from `source` to `sink` is stored under the key
    /// `fresh`, seeded to false, and both pins are bound to it.
    pub open spec fn joined_anew(
        self,
        source: Connection,
        sink: Connection,
        fresh: WireKey,
    ) -> CircuitView {
        self.disconnected(sink.gate_index, sink.pin_index, PinType::Input).with_wire(
            fresh,
            WireView { source, connections: seq![sink] },
        ).bind(source.gate_index, PinType::Output, source.pin_index, Some(fresh)).bind(
            sink.gate_index,
            PinType::Input,
            sink.pin_index,
            Some(fresh),
        )
    }

    /// The circuit after `source` has been connected to `sink`, where
    /// `link_error` is `None`; `fresh` is the key of the wire that is made
    /// where the source has none.
    pub open spec fn connected(
        self,
        source: Connection,
        sink: Connection,
        fresh: WireKey,
    ) -> CircuitView {
        match self.pin_wire(source.gate_index, PinType::Output, source.pin_index) {
            Some(wire) => self.joined(wire, sink),
            None => self.joined_anew(source, sink, fresh),
        }
    }

    /// The circuit after `source` has been connected to each pin of
    /// `sinks` in turn; `fresh` is the key of the wire that the first
    /// connection makes where the source has none.
    pub open spec fn fanned_out(
        self,
        source: Connection,
        sinks: Seq<Connection>,
        fresh: WireKey,
    ) -> CircuitView
        decreases sinks.len(),
    {
        if sinks.len() == 0 {
            self
        } else {
            self.fanned_out(source, sinks.drop_last(), fresh).connected(
                source,
                sinks.last(),
                fresh,
            )
        }
    }

    /// The circuit after `count` ticks, where each of them is possible.
    pub open spec fn ticked_times(self, count: nat) -> CircuitView
        decreases count,
    {
        if count == 0 {
            self
        } else {
            self.ticked_times((count - 1) as nat).ticked()
        }
    }

    /// Whether output `pin` of `gate` is bound to `wire`.
    pub open spec fn drives(self, gate: GateKey, pin: int, wire: WireKey) -> bool {
        drives_in(self.gates, gate, pin, wire)
    }

    /// Whether some output pin is bound to `wire`.
    pub open spec fn driven(self, wire: WireKey) -> bool {
        driven_in(self.gates, wire)
    }

    /// Whether two gates drive `wire` with different levels.
    pub open spec fn short_circuit(self, wire: WireKey) -> bool {
        exists|first_gate: GateKey, first_pin: int, second_gate: GateKey, second_pin: int|
            self.drives(first_gate, first_pin, wire) && self.drives(second_gate, second_pin, wire)
                && self.gate_output(self.gates[first_gate]) != self.gate_output(
                self.gates[second_gate],
            )
    }

    /// Whether some output pin is bound to a wire without a level.
    pub open spec fn stale_driver(self) -> bool {
        exists|gate: GateKey, pin: int, wire: WireKey|
            self.drives(gate, pin, wire) && !self.write.contains_key(wire)
    }

    /// Whether the circuit can tick: the buffers cover the same keys, every
    /// driven wire has a level, and no wire is short-circuited.
    pub open spec fn can_tick(self) -> bool {
        &&& self.read.dom() == self.write.dom()
        &&& !self.stale_driver()
        &&& forall|wire: WireKey| !self.short_circuit(wire)
    }

    /// The level of `wire` after the coming tick: what its driver puts on
    /// it, or, with no driver, what the write buffer holds.
    pub open spec fn next_level(self, wire: WireKey) -> bool {
        next_level_of(self.gates, self.read, self.write, wire)
    }

    /// The levels after the coming tick.
    pub open spec fn next_levels(self) -> Map<WireKey, bool> {
        Map::new(|wire: WireKey| self.write.contains_key(wire), |wire: WireKey| self.next_level(wire))
    }

    /// The circuit after one tick, where `can_tick` holds: the new levels
    /// become the read buffer, the old read buffer becomes the write
    /// buffer, and the circuit is settled if the two are equal.
    pub open spec fn ticked(self) -> CircuitView {
        CircuitView {
            read: self.next_levels(),
            write: self.read,
            emulation_done: self.next_levels() == self.read,
            ..self
        }
    }

    /// The circuit with every level in both buffers set to false.
    pub open spec fn reset(self) -> CircuitView {
        CircuitView {
            read: Map::new(|wire: WireKey| self.read.contains_key(wire), |wire: WireKey| false),
            write: Map::new(|wire: WireKey| self.write.contains_key(wire), |wire: WireKey| false),
            ..self
        }
    }
}

} // verus!
