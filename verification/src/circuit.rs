use vstd::prelude::*;
use vstd::set_lib::lemma_subset_equality;
use std::collections::HashMap;
use crate::error::CircuitError;
use crate::gate::{Gate, GateView, Rotation};
use crate::gate_table::{GateTable, MAX_ITEMS};
use crate::gate_type::GateType;
use crate::keys::{GateKey, WireKey};
use crate::invariants::{
    lemma_disconnected_well_formed, lemma_joined_anew_well_formed, lemma_joined_well_formed,
    lemma_levels_well_formed, lemma_removal_possible, lemma_reset_well_formed,
    lemma_ticked_well_formed,
    lemma_well_formed_can_tick, lemma_with_gate_well_formed, lemma_without_gate_well_formed,
    lemma_without_wire_well_formed, well_formed,
};
use crate::level_table::LevelTable;
use crate::seq_facts::lemma_push_contains;
use crate::frame::{lemma_bind_shape, lemma_disconnected_frame};
use crate::model::{
    drives_in, end, endpoints, issuable, names, release_gates, release_pin, CircuitView,
};
use crate::pin_type::PinType;
use crate::pins::Pin;
use crate::wire_table::WireTable;
use crate::wires::{lemma_last_match, Connection, ConnectionUtils, Wire, WireView};

verus! {

/// A circuit: gates, the wires between them, and two level buffers.
pub struct Circuit {
    /// Whether the last tick left every level as it was.
    pub emulation_done: bool,
    pub wires: WireTable,
    /// The levels that gates read in the coming tick.
    pub wires_read: LevelTable,
    /// The levels that the last tick read, and that the coming tick
    /// overwrites.
    pub wires_write: LevelTable,
    pub gates: GateTable,
}

impl View for Circuit {
    type V = CircuitView;

    open spec fn view(&self) -> CircuitView {
        CircuitView {
            gates: self.gates@,
            wires: self.wires@,
            read: self.wires_read@,
            write: self.wires_write@,
            emulation_done: self.emulation_done,
        }
    }
}

/// Listing one more pin adds that pin to what the list names.
proof fn lemma_names_push(listed: Seq<Connection>, next: Connection, gate: GateKey, pin: int)
    ensures
        names(listed.push(next), gate, pin) <==> names(listed, gate, pin) || (next.gate_index
            == gate && next.pin_index == pin),
{
    let more = listed.push(next);
    if names(listed, gate, pin) {
        let j = choose|j: int|
            0 <= j < listed.len() && (#[trigger] listed[j]).gate_index == gate
                && listed[j].pin_index == pin;
        assert(more[j] == listed[j]);
    }
    if next.gate_index == gate && next.pin_index == pin {
        assert(more[listed.len() as int] == next);
    }
    if names(more, gate, pin) {
        let j = choose|j: int|
            0 <= j < more.len() && (#[trigger] more[j]).gate_index == gate && more[j].pin_index
                == pin;
        if j < listed.len() {
            assert(listed[j] == more[j]);
        }
    }
}

/// Releasing one more listed pin is releasing that pin in the result.
proof fn lemma_release_one_more(
    gates: Map<GateKey, GateView>,
    outputs: Seq<Connection>,
    inputs: Seq<Connection>,
    pin_type: PinType,
    next: Connection,
    wire: WireKey,
)
    ensures
        release_pin(
            release_gates(gates, outputs, inputs, wire),
            next.gate_index,
            pin_type,
            next.pin_index,
            wire,
        ) == (match pin_type {
            PinType::Input => release_gates(gates, outputs, inputs.push(next), wire),
            PinType::Output => release_gates(gates, outputs.push(next), inputs, wire),
        }),
{
    let before = release_gates(gates, outputs, inputs, wire);
    let expected = release_pin(before, next.gate_index, pin_type, next.pin_index, wire);
    let after = match pin_type {
        PinType::Input => release_gates(gates, outputs, inputs.push(next), wire),
        PinType::Output => release_gates(gates, outputs.push(next), inputs, wire),
    };
    assert forall|k: GateKey| #[trigger] after.contains_key(k) implies after[k] == expected[k] by {
        assert forall|i: int| 0 <= i < after[k].input.len() implies after[k].input[i]
            == expected[k].input[i] by {
            lemma_names_push(inputs, next, k, i);
        }
        assert forall|i: int| 0 <= i < after[k].output.len() implies after[k].output[i]
            == expected[k].output[i] by {
            lemma_names_push(outputs, next, k, i);
        }
        assert(after[k].input =~= expected[k].input);
        assert(after[k].output =~= expected[k].output);
    }
    assert(after =~= expected);
}

/// Releasing no pin changes no gate.
proof fn lemma_release_none(gates: Map<GateKey, GateView>, wire: WireKey)
    ensures
        release_gates(gates, Seq::empty(), Seq::empty(), wire) == gates,
{
    let same = release_gates(gates, Seq::<Connection>::empty(), Seq::<Connection>::empty(), wire);
    assert forall|k: GateKey| #[trigger] same.contains_key(k) implies same[k] == gates[k] by {
        assert(same[k].input =~= gates[k].input);
        assert(same[k].output =~= gates[k].output);
    }
    assert(same =~= gates);
}

impl Circuit {
    /// A circuit with no gates and no wires.
    pub fn new() -> (circuit: Circuit)
        ensures
            circuit@ == (CircuitView {
                gates: Map::empty(),
                wires: Map::empty(),
                read: Map::empty(),
                write: Map::empty(),
                emulation_done: false,
            }),
            well_formed(circuit@),
    {
        Circuit {
            emulation_done: false,
            wires: WireTable::new(),
            wires_read: LevelTable::new(),
            wires_write: LevelTable::new(),
            gates: GateTable::new(),
        }
    }

    /// Adds a gate of the given kind, facing up, with all pins unbound.
    pub fn add_gate(&mut self, gate_type: GateType) -> (key: GateKey)
        requires
            old(self)@.gates.dom().len() < MAX_ITEMS,
        ensures
            !old(self)@.gates.contains_key(key),
            final(self)@ == old(self)@.with_gate(key, gate_type),
            well_formed(old(self)@) ==> well_formed(final(self)@),
    {
        let key = self.gates.insert(Gate::new(Rotation::Up, gate_type));
        proof {
            if well_formed(old(self)@) {
                lemma_with_gate_well_formed(old(self)@, key, gate_type);
            }
        }
        key
    }

    /// The pin of the given role and ordinal of a gate.
    ///
    /// Fails with `InvalidKey` if `key` is not present, and with
    /// `InvalidPinIndex` if the ordinal is not below the number of pins of
    /// that role.
    pub fn get_pin(&self, key: GateKey, pin_index: usize, pin_type: PinType) -> (r: Result<
        Pin,
        CircuitError,
    >)
        ensures
            r == (if !self@.gates.contains_key(key) {
                Err::<Pin, CircuitError>(CircuitError::InvalidKey)
            } else if pin_index < self@.gates[key].pins(pin_type).len() {
                Ok::<Pin, CircuitError>(self@.gates[key].pins(pin_type)[pin_index as int])
            } else {
                Err::<Pin, CircuitError>(CircuitError::InvalidPinIndex)
            }),
    {
        match self.gates.get(key) {
            Some(gate) => gate.get_pin(pin_index, pin_type),
            None => Err(CircuitError::InvalidKey),
        }
    }

    /// The level that the coming tick reads on input `pin` of `gate`.
    fn input_level(&self, gate: &Gate, pin: usize) -> (level: bool)
        ensures
            level == self@.input_level(gate@, pin as int),
    {
        if pin < gate.input.len() {
            match gate.input[pin].wire_index {
                Some(wire) => match self.wires_read.get(wire) {
                    Some(level) => level,
                    None => false,
                },
                None => false,
            }
        } else {
            false
        }
    }

    /// The level that `gate` drives in the coming tick: its truth table
    /// applied to the levels on its inputs, where an input without a level
    /// reads as false.
    pub fn evaluate(&self, gate: &Gate) -> (level: bool)
        ensures
            level == self@.gate_output(gate@),
    {
        let a = self.input_level(gate, 0);
        let b = self.input_level(gate, 1);
        gate.gate_type.apply(a, b)
    }

    /// The level of a wire as the coming tick reads it.
    pub fn get_wire(&self, key: WireKey) -> (r: Result<bool, CircuitError>)
        ensures
            r == (if self@.read.contains_key(key) {
                Ok::<bool, CircuitError>(self@.read[key])
            } else {
                Err::<bool, CircuitError>(CircuitError::InvalidKey)
            }),
    {
        match self.wires_read.get(key) {
            Some(level) => Ok(level),
            None => Err(CircuitError::InvalidKey),
        }
    }

    /// Puts `value` on a wire in both buffers.
    pub fn set_wire(&mut self, key: WireKey, value: bool) -> (r: Result<(), CircuitError>)
        ensures
            match r {
                Ok(_) => old(self)@.read.contains_key(key) && old(self)@.write.contains_key(key)
                    && final(self)@ == (CircuitView {
                    read: old(self)@.read.insert(key, value),
                    write: old(self)@.write.insert(key, value),
                    ..old(self)@
                }),
                Err(e) => e == CircuitError::InvalidKey && !(old(self)@.read.contains_key(key)
                    && old(self)@.write.contains_key(key)) && final(self)@ == old(self)@,
            },
            well_formed(old(self)@) ==> well_formed(final(self)@),
    {
        if self.wires_read.contains_key(key) && self.wires_write.contains_key(key) {
            self.wires_read.set(key, value);
            self.wires_write.set(key, value);
            proof {
                if well_formed(old(self)@) {
                    assert(self@.read.dom() =~= old(self)@.read.dom());
                    assert(self@.write.dom() =~= old(self)@.write.dom());
                    lemma_levels_well_formed(old(self)@, self@);
                }
            }
            Ok(())
        } else {
            Err(CircuitError::InvalidKey)
        }
    }

    /// Stores a wire and seeds its level to false in both buffers. The pins
    /// that the wire names are not touched, so the wire is not yet a part
    /// of a consistent circuit: `connect_wire` makes wires that are.
    pub fn new_wire(&mut self, wire: Wire) -> (key: WireKey)
        requires
            old(self)@.wires.dom().len() < MAX_ITEMS,
        ensures
            issuable(old(self)@.wires, key),
            final(self)@ == old(self)@.with_wire(key, wire@),
    {
        let key = self.wires.insert(wire);
        self.wires_read.insert(key, false);
        self.wires_write.insert(key, false);
        key
    }

    /// Binds a pin to `wire`, or unbinds it.
    fn set_pin_wire(&mut self, gate: GateKey, pin_type: PinType, pin: usize, wire: Option<WireKey>)
        requires
            old(self)@.has_pin(gate, pin_type, pin),
        ensures
            final(self)@ == old(self)@.bind(gate, pin_type, pin, wire),
    {
        match self.gates.get_mut(gate) {
            Some(g) => {
                match pin_type {
                    PinType::Input => {
                        let index = g.input[pin].index;
                        g.input.set(pin, Pin { index, wire_index: wire });
                    },
                    PinType::Output => {
                        let index = g.output[pin].index;
                        g.output.set(pin, Pin { index, wire_index: wire });
                    },
                }
            },
            None => {},
        }
    }

    /// The wire that a pin is bound to, where the pin exists.
    fn pin_wire(&self, gate: GateKey, pin_type: PinType, pin: usize) -> (r: Option<Option<WireKey>>)
        ensures
            r == (if self@.has_pin(gate, pin_type, pin) {
                Some(self@.pin_wire(gate, pin_type, pin))
            } else {
                None
            }),
    {
        match self.gates.get(gate) {
            Some(g) => match g.get_pin(pin, pin_type) {
                Ok(p) => Some(p.wire_index),
                Err(_) => None,
            },
            None => None,
        }
    }

    /// Unbinds a pin if it exists and is bound to `wire`.
    fn release_pin(&mut self, gate: GateKey, pin_type: PinType, pin: usize, wire: WireKey)
        ensures
            final(self)@ == (CircuitView {
                gates: release_pin(old(self)@.gates, gate, pin_type, pin, wire),
                ..old(self)@
            }),
    {
        match self.pin_wire(gate, pin_type, pin) {
            Some(Some(bound)) => {
                if bound == wire {
                    self.set_pin_wire(gate, pin_type, pin, None);
                }
            },
            _ => {},
        }
    }

    /// Deletes a wire: unbinds the pins it names, and takes the wire and its
    /// levels out. Where there is no such wire, nothing changes.
    pub fn remove_wire(&mut self, key: WireKey)
        ensures
            final(self)@ == old(self)@.without_wire(key),
            well_formed(old(self)@) ==> well_formed(final(self)@),
    {
        proof {
            if well_formed(old(self)@) {
                lemma_without_wire_well_formed(old(self)@, key);
            }
        }
        let (source, count) = match self.wires.get(key) {
            Some(wire) => (wire.source, wire.connections.len()),
            None => {
                return ;
            },
        };
        let ghost wire = self@.wires[key];
        proof {
            lemma_release_none(self@.gates, key);
            lemma_release_one_more(
                old(self)@.gates,
                Seq::empty(),
                Seq::empty(),
                PinType::Output,
                source,
                key,
            );
            assert(Seq::<Connection>::empty().push(source) =~= seq![source]);
            assert(wire.connections.take(0) =~= Seq::empty());
        }
        self.release_pin(source.gate_index, PinType::Output, source.pin_index, key);
        let mut done: usize = 0;
        while done < count
            invariant
                done <= count,
                count == wire.connections.len(),
                wire == old(self)@.wires[key],
                old(self)@.wires.contains_key(key),
                self@ == (CircuitView {
                    gates: release_gates(
                        old(self)@.gates,
                        seq![source],
                        wire.connections.take(done as int),
                        key,
                    ),
                    ..old(self)@
                }),
            decreases count - done,
        {
            let sink = match self.wires.get(key) {
                Some(w) => w.connections[done],
                None => source,
            };
            proof {
                lemma_release_one_more(
                    old(self)@.gates,
                    seq![source],
                    wire.connections.take(done as int),
                    PinType::Input,
                    sink,
                    key,
                );
                assert(wire.connections.take(done as int).push(sink) =~= wire.connections.take(
                    done + 1,
                ));
            }
            self.release_pin(sink.gate_index, PinType::Input, sink.pin_index, key);
            done = done + 1;
        }
        assert(wire.connections.take(count as int) =~= wire.connections);
        self.wires.remove(key);
        self.wires_read.remove(key);
        self.wires_write.remove(key);
    }

    /// Why a pin cannot be disconnected, if it cannot.
    fn check_disconnect(&self, gate: GateKey, pin: usize, pin_type: PinType) -> (r: Option<
        CircuitError,
    >)
        ensures
            r == self@.disconnect_error(gate, pin, pin_type),
    {
        let bound = match self.gates.get(gate) {
            None => {
                return Some(CircuitError::InvalidKey);
            },
            Some(g) => match g.get_pin(pin, pin_type) {
                Err(e) => {
                    return Some(e);
                },
                Ok(p) => p.wire_index,
            },
        };
        match bound {
            None => None,
            Some(key) => match self.wires.get(key) {
                None => Some(CircuitError::InvalidKey),
                Some(wire) => {
                    let listed = match pin_type {
                        PinType::Output => wire.source.gate_index == gate && wire.source.pin_index
                            == pin,
                        PinType::Input => wire.connections.as_slice().find_pin_index(
                            gate,
                            pin,
                        ).is_some(),
                    };
                    if listed {
                        None
                    } else {
                        Some(CircuitError::InconsistentWire)
                    }
                },
            },
        }
    }

    /// Takes the last entry of an input pin out of the sinks of a wire and
    /// unbinds the pin.
    fn remove_sink(&mut self, key: WireKey, gate: GateKey, pin: usize)
        requires
            old(self)@.wires.contains_key(key),
            old(self)@.wires[key].connections.contains(end(gate, pin)),
            old(self)@.has_pin(gate, PinType::Input, pin),
        ensures
            final(self)@ == old(self)@.without_sink(key, gate, pin),
    {
        match self.wires.get_mut(key) {
            Some(wire) => {
                match wire.connections.as_slice().find_pin_index(gate, pin) {
                    Some(at) => {
                        proof {
                            lemma_last_match(wire.connections@, gate, pin, at as int);
                        }
                        wire.connections.remove(at);
                    },
                    None => {},
                }
            },
            None => {},
        }
        self.set_pin_wire(gate, PinType::Input, pin, None);
    }

    /// Disconnects a pin that can be disconnected.
    fn apply_disconnect(&mut self, gate: GateKey, pin: usize, pin_type: PinType)
        requires
            old(self)@.disconnect_error(gate, pin, pin_type) is None,
        ensures
            final(self)@ == old(self)@.disconnected(gate, pin, pin_type),
    {
        let key = match self.pin_wire(gate, pin_type, pin) {
            Some(Some(key)) => key,
            _ => {
                return ;
            },
        };
        let only = match self.wires.get(key) {
            Some(wire) => wire.connections.len() == 1,
            None => false,
        };
        match pin_type {
            PinType::Output => self.remove_wire(key),
            PinType::Input => {
                if only {
                    self.remove_wire(key);
                } else {
                    self.remove_sink(key, gate, pin);
                }
            },
        }
    }

    /// Takes a pin off its wire. A pin without a wire stays as it is. If the
    /// pin is the source of its wire, or its only sink, the wire is deleted
    /// and every pin it names is unbound. Otherwise the pin leaves the sinks
    /// of the wire and the wire stays.
    ///
    /// Fails, and changes nothing, with `InvalidKey` if `gate` is not
    /// present or the pin's wire is not, with `InvalidPinIndex` if `gate`
    /// has no such pin, and with `InconsistentWire` if the pin's wire does
    /// not name the pin.
    pub fn disconnect(&mut self, gate: GateKey, pin: usize, pin_type: PinType) -> (r: Result<
        (),
        CircuitError,
    >)
        ensures
            match old(self)@.disconnect_error(gate, pin, pin_type) {
                Some(e) => r == Err::<(), CircuitError>(e) && final(self)@ == old(self)@,
                None => r is Ok && final(self)@ == old(self)@.disconnected(gate, pin, pin_type),
            },
            well_formed(old(self)@) ==> well_formed(final(self)@),
    {
        match self.check_disconnect(gate, pin, pin_type) {
            Some(e) => Err(e),
            None => {
                proof {
                    if well_formed(self@) {
                        lemma_disconnected_well_formed(self@, gate, pin, pin_type);
                    }
                }
                self.apply_disconnect(gate, pin, pin_type);
                Ok(())
            },
        }
    }

    /// Appends an input pin to the sinks of a wire and binds it to the wire.
    fn add_sink(&mut self, key: WireKey, sink: Connection)
        requires
            old(self)@.wires.contains_key(key),
            old(self)@.has_pin(sink.gate_index, PinType::Input, sink.pin_index),
        ensures
            final(self)@ == old(self)@.with_sink(key, sink),
    {
        match self.wires.get_mut(key) {
            Some(wire) => {
                wire.connections.push(sink);
            },
            None => {},
        }
        self.set_pin_wire(sink.gate_index, PinType::Input, sink.pin_index, Some(key));
    }

    /// Joins an output pin and an input pin by a wire. The two pins are
    /// given in either order, each with its role.
    ///
    /// If the output pin has a wire that has the input pin among its sinks,
    /// nothing changes. Otherwise the input pin first leaves the wire it is
    /// on, as `disconnect` does it. Then it joins the wire of the output
    /// pin, or, where that pin has none, a new wire from the output pin to
    /// the input pin is made, with the level false in both buffers.
    ///
    /// Fails, and changes nothing, with `SameRoleConnection` if both pins
    /// have the same role, with `InvalidKey` if a gate is not present or a
    /// wire that a pin refers to is not, with `InvalidPinIndex` if a gate has
    /// no such pin, and with `InconsistentWire` if the wire of the input pin
    /// does not name it.
    pub fn connect_wire(
        &mut self,
        from_gate_index: GateKey,
        to_gate_index: GateKey,
        from_pin_index: usize,
        from_pin_type: PinType,
        to_pin_index: usize,
        to_pin_type: PinType,
    ) -> (r: Result<(), CircuitError>)
        requires
            old(self)@.wires.dom().len() < MAX_ITEMS,
        ensures
            from_pin_type == to_pin_type ==> r == Err::<(), CircuitError>(
                CircuitError::SameRoleConnection,
            ) && final(self)@ == old(self)@,
            from_pin_type != to_pin_type ==> ({
                let (source, sink) = endpoints(
                    from_gate_index,
                    to_gate_index,
                    from_pin_index,
                    from_pin_type,
                    to_pin_index,
                );
                match old(self)@.link_error(source, sink) {
                    Some(e) => r == Err::<(), CircuitError>(e) && final(self)@ == old(self)@,
                    None => r is Ok && match old(self)@.pin_wire(
                        source.gate_index,
                        PinType::Output,
                        source.pin_index,
                    ) {
                        Some(wire) => final(self)@ == old(self)@.joined(wire, sink),
                        None => exists|fresh: WireKey|
                            issuable(
                                old(self)@.disconnected(
                                    sink.gate_index,
                                    sink.pin_index,
                                    PinType::Input,
                                ).wires,
                                fresh,
                            ) && final(self)@ == old(self)@.joined_anew(source, sink, fresh),
                    },
                }
            }),
            well_formed(old(self)@) ==> well_formed(final(self)@),
    {
        if from_pin_type == to_pin_type {
            return Err(CircuitError::SameRoleConnection);
        }
        let (source, sink) = match from_pin_type {
            PinType::Input => (
                Connection { pin_index: to_pin_index, gate_index: to_gate_index },
                Connection { pin_index: from_pin_index, gate_index: from_gate_index },
            ),
            PinType::Output => (
                Connection { pin_index: from_pin_index, gate_index: from_gate_index },
                Connection { pin_index: to_pin_index, gate_index: to_gate_index },
            ),
        };
        if !self.gates.contains_key(source.gate_index) || !self.gates.contains_key(
            sink.gate_index,
        ) {
            return Err(CircuitError::InvalidKey);
        }
        let source_wire = match self.pin_wire(
            source.gate_index,
            PinType::Output,
            source.pin_index,
        ) {
            Some(bound) => bound,
            None => {
                return Err(CircuitError::InvalidPinIndex);
            },
        };
        if self.pin_wire(sink.gate_index, PinType::Input, sink.pin_index).is_none() {
            return Err(CircuitError::InvalidPinIndex);
        }
        match source_wire {
            Some(key) => {
                let already = match self.wires.get(key) {
                    Some(wire) => wire.connections.as_slice().find_pin_index(
                        sink.gate_index,
                        sink.pin_index,
                    ).is_some(),
                    None => {
                        return Err(CircuitError::InvalidKey);
                    },
                };
                if already {
                    return Ok(());
                }
                match self.check_disconnect(sink.gate_index, sink.pin_index, PinType::Input) {
                    Some(e) => {
                        return Err(e);
                    },
                    None => {},
                }
                proof {
                    lemma_disconnected_frame(
                        self@,
                        sink.gate_index,
                        sink.pin_index,
                        PinType::Input,
                    );
                }
                self.apply_disconnect(sink.gate_index, sink.pin_index, PinType::Input);
                self.add_sink(key, sink);
                proof {
                    if well_formed(old(self)@) {
                        lemma_joined_well_formed(old(self)@, source, sink, key);
                    }
                }
                Ok(())
            },
            None => {
                match self.check_disconnect(sink.gate_index, sink.pin_index, PinType::Input) {
                    Some(e) => {
                        return Err(e);
                    },
                    None => {},
                }
                let _ = self.wires.len();
                proof {
                    lemma_disconnected_frame(
                        self@,
                        sink.gate_index,
                        sink.pin_index,
                        PinType::Input,
                    );
                }
                self.apply_disconnect(sink.gate_index, sink.pin_index, PinType::Input);
                let mut sinks: Vec<Connection> = Vec::new();
                sinks.push(sink);
                assert(sinks@ =~= seq![sink]);
                let key = self.new_wire(Wire::new(source, sinks));
                self.set_pin_wire(source.gate_index, PinType::Output, source.pin_index, Some(key));
                proof {
                    lemma_bind_shape(
                        old(self)@.disconnected(
                            sink.gate_index,
                            sink.pin_index,
                            PinType::Input,
                        ).gates,
                        source.gate_index,
                        PinType::Output,
                        source.pin_index,
                        Some(key),
                    );
                }
                self.set_pin_wire(sink.gate_index, PinType::Input, sink.pin_index, Some(key));
                assert(issuable(
                    old(self)@.disconnected(sink.gate_index, sink.pin_index, PinType::Input).wires,
                    key,
                ));
                assert(self@ == old(self)@.joined_anew(source, sink, key));
                proof {
                    if well_formed(old(self)@) {
                        lemma_joined_anew_well_formed(old(self)@, source, sink, key);
                    }
                }
                Ok(())
            },
        }
    }

    /// Looks for a pin of one role of `gate` that cannot be disconnected.
    /// Returns `Err` at the first pin whose wire is not present; otherwise
    /// says whether some pin is not named by its wire.
    fn check_pins(&self, gate: GateKey, pin_type: PinType, count: usize) -> (r: Result<
        bool,
        CircuitError,
    >)
        requires
            self@.gates.contains_key(gate),
            count == self@.gates[gate].pins(pin_type).len(),
        ensures
            match r {
                Ok(inconsistent) => {
                    &&& forall|p: usize|
                        p < count ==> self@.disconnect_error(gate, p, pin_type) != Some(
                            CircuitError::InvalidKey,
                        )
                    &&& inconsistent <==> exists|p: usize|
                        p < count && self@.disconnect_error(gate, p, pin_type) == Some(
                            CircuitError::InconsistentWire,
                        )
                },
                Err(e) => e == CircuitError::InvalidKey && exists|p: usize|
                    p < count && self@.disconnect_error(gate, p, pin_type) == Some(
                        CircuitError::InvalidKey,
                    ),
            },
    {
        let mut inconsistent = false;
        let mut pin: usize = 0;
        while pin < count
            invariant
                pin <= count,
                forall|p: usize|
                    p < pin ==> self@.disconnect_error(gate, p, pin_type) != Some(
                        CircuitError::InvalidKey,
                    ),
                inconsistent <==> exists|p: usize|
                    p < pin && self@.disconnect_error(gate, p, pin_type) == Some(
                        CircuitError::InconsistentWire,
                    ),
            decreases count - pin,
        {
            match self.check_disconnect(gate, pin, pin_type) {
                Some(CircuitError::InvalidKey) => {
                    return Err(CircuitError::InvalidKey);
                },
                Some(CircuitError::InconsistentWire) => {
                    inconsistent = true;
                },
                _ => {},
            }
            pin = pin + 1;
        }
        Ok(inconsistent)
    }

    /// Detaches the pins of one role of `gate` in ordinal order.
    fn detach_pins(&mut self, gate: GateKey, pin_type: PinType, count: usize)
        ensures
            final(self)@ == old(self)@.detached_pins(gate, pin_type, count as nat),
    {
        let mut pin: usize = 0;
        while pin < count
            invariant
                pin <= count,
                self@ == old(self)@.detached_pins(gate, pin_type, pin as nat),
            decreases count - pin,
        {
            let _ = self.disconnect(gate, pin, pin_type);
            pin = pin + 1;
        }
    }

    /// Removes a gate. Its output pins, then its input pins, are first
    /// taken off their wires in ordinal order, as `disconnect` does it.
    ///
    /// Fails, and changes nothing, with `InvalidKey` if `key` is not
    /// present or the wire of one of its pins is not, and otherwise with
    /// `InconsistentWire` if the wire of one of its pins does not name the
    /// pin.
    pub fn remove_gate(&mut self, key: GateKey) -> (r: Result<(), CircuitError>)
        ensures
            match old(self)@.removal_error(key) {
                Some(e) => r == Err::<(), CircuitError>(e) && final(self)@ == old(self)@,
                None => r is Ok && final(self)@ == old(self)@.without_gate(key),
            },
            well_formed(old(self)@) ==> well_formed(final(self)@) && (r is Ok
                <==> old(self)@.gates.contains_key(key)),
    {
        proof {
            if well_formed(old(self)@) && old(self)@.gates.contains_key(key) {
                lemma_removal_possible(old(self)@, key);
                lemma_without_gate_well_formed(old(self)@, key);
            }
        }
        let (outputs, inputs) = match self.gates.get(key) {
            Some(gate) => (gate.output.len(), gate.input.len()),
            None => {
                return Err(CircuitError::InvalidKey);
            },
        };
        let bad_output = match self.check_pins(key, PinType::Output, outputs) {
            Ok(inconsistent) => inconsistent,
            Err(e) => {
                return Err(e);
            },
        };
        let bad_input = match self.check_pins(key, PinType::Input, inputs) {
            Ok(inconsistent) => inconsistent,
            Err(e) => {
                return Err(e);
            },
        };
        assert forall|pin: usize, pin_type: PinType|
            self@.has_pin(key, pin_type, pin) implies self@.disconnect_error(key, pin, pin_type)
            != Some(CircuitError::InvalidKey) by {
            match pin_type {
                PinType::Input => {},
                PinType::Output => {},
            }
        }
        if bad_output || bad_input {
            return Err(CircuitError::InconsistentWire);
        }
        assert forall|pin: usize, pin_type: PinType|
            self@.has_pin(key, pin_type, pin) implies self@.disconnect_error(key, pin, pin_type)
            != Some(CircuitError::InconsistentWire) by {
            match pin_type {
                PinType::Input => {},
                PinType::Output => {},
            }
        }
        self.detach_pins(key, PinType::Output, outputs);
        self.detach_pins(key, PinType::Input, inputs);
        self.gates.remove(key);
        Ok(())
    }

    /// Whether the two buffers cover the same wire keys.
    fn buffers_match(&self) -> (r: bool)
        ensures
            r == (self@.read.dom() == self@.write.dom()),
    {
        if self.wires_read.len() != self.wires_write.len() {
            return false;
        }
        let keys = self.wires_read.keys();
        let mut i: usize = 0;
        while i < keys.len()
            invariant
                i <= keys.len(),
                keys@.to_set() == self@.read.dom(),
                forall|j: int| 0 <= j < i ==> self@.write.contains_key(#[trigger] keys@[j]),
            decreases keys.len() - i,
        {
            if !self.wires_write.contains_key(keys[i]) {
                assert(keys@.to_set().contains(keys@[i as int]));
                assert(self@.read.dom().contains(keys@[i as int]));
                return false;
            }
            i = i + 1;
        }
        proof {
            assert forall|wire: WireKey| self@.read.dom().contains(wire) implies self@.write.dom().contains(
                wire,
            ) by {
                assert(keys@.to_set().contains(wire));
                let j = choose|j: int| 0 <= j < keys@.len() && keys@[j] == wire;
                assert(self@.write.contains_key(keys@[j]));
            }
            lemma_subset_equality(self@.read.dom(), self@.write.dom());
        }
        true
    }

    /// The level that each driven wire gets in the coming tick, under the
    /// bits of its key.
    fn gather_drivers(&self) -> (r: Result<HashMap<u64, bool>, CircuitError>)
        ensures
            match r {
                Ok(levels) => {
                    &&& !self@.stale_driver()
                    &&& forall|wire: WireKey| !self@.short_circuit(wire)
                    &&& drivers_levels(self@, levels@)
                },
                Err(CircuitError::InvalidKey) => self@.stale_driver(),
                Err(CircuitError::ShortCircuit(wire)) => self@.short_circuit(wire),
                Err(_) => false,
            },
    {
        let keys = self.gates.keys();
        let mut levels: HashMap<u64, bool> = HashMap::new();
        let mut a: usize = 0;
        while a < keys.len()
            invariant
                a <= keys.len(),
                keys@.to_set() == self@.gates.dom(),
                gathered(self@, keys@, a as int, 0, levels@),
            decreases keys.len() - a,
        {
            let key = keys[a];
            assert(keys@.to_set().contains(key));
            assert(self@.gates.dom().contains(key));
            let gate = match self.gates.get(key) {
                Some(gate) => gate,
                None => {
                    return Err(CircuitError::InvalidKey);
                },
            };
            let level = self.evaluate(gate);
            let mut b: usize = 0;
            while b < gate.output.len()
                invariant
                    b <= gate.output.len(),
                    a < keys.len(),
                    key == keys@[a as int],
                    self@.gates.contains_key(key),
                    gate@ == self@.gates[key],
                    level == self@.gate_output(gate@),
                    gathered(self@, keys@, a as int, b as int, levels@),
                decreases gate.output.len() - b,
            {
                match gate.output[b].wire_index {
                    None => {},
                    Some(wire) => {
                        assert(self@.drives(key, b as int, wire));
                        if !self.wires_write.contains_key(wire) {
                            return Err(CircuitError::InvalidKey);
                        }
                        let bits = wire.to_bits();
                        let prior = match levels.get(&bits) {
                            Some(held) => Some(*held),
                            None => None,
                        };
                        match prior {
                            Some(held) => {
                                if held != level {
                                    proof {
                                        let (first_gate, first_pin, driven_wire) = choose|
                                            first_gate: GateKey,
                                            first_pin: int,
                                            driven_wire: WireKey,
                                        |
                                            driven_wire.raw() == bits && handled(
                                                keys@,
                                                a as int,
                                                b as int,
                                                first_gate,
                                                first_pin,
                                            ) && self@.drives(first_gate, first_pin, driven_wire);
                                        WireKey::lemma_raw_injective(driven_wire, wire);
                                        assert(self@.drives(first_gate, first_pin, wire));
                                    }
                                    return Err(CircuitError::ShortCircuit(wire));
                                }
                            },
                            None => {
                                levels.insert(bits, level);
                                proof {
                                    assert forall|g: GateKey, p: int, w: WireKey|
                                        handled(keys@, a as int, b as int, g, p)
                                            && #[trigger] self@.drives(g, p, w) implies w.raw()
                                        != bits by {}
                                }
                            },
                        }
                    },
                }
                proof {
                    lemma_gathered_step(self@, keys@, a as int, b as int, levels@, level);
                }
                b = b + 1;
            }
            proof {
                lemma_gathered_next_gate(self@, keys@, a as int, b as int, levels@);
            }
            a = a + 1;
        }
        proof {
            lemma_gathered_all(self@, keys@, levels@);
        }
        Ok(levels)
    }

    /// Writes the gathered levels into the write buffer.
    fn apply_levels(&mut self, levels: &HashMap<u64, bool>)
        requires
            drivers_levels(old(self)@, levels@),
        ensures
            final(self)@ == (CircuitView { write: old(self)@.next_levels(), ..old(self)@ }),
    {
        let keys = self.wires_write.keys();
        let mut i: usize = 0;
        assert(self@.write =~= applied(old(self)@, keys@.take(0)));
        while i < keys.len()
            invariant
                i <= keys.len(),
                keys@.to_set() == old(self)@.write.dom(),
                drivers_levels(old(self)@, levels@),
                self@ == (CircuitView {
                    write: applied(old(self)@, keys@.take(i as int)),
                    ..old(self)@
                }),
            decreases keys.len() - i,
        {
            let key = keys[i];
            assert(keys@.to_set().contains(key));
            assert(old(self)@.write.dom().contains(key));
            let bits = key.to_bits();
            match levels.get(&bits) {
                Some(level) => {
                    self.wires_write.set(key, *level);
                },
                None => {},
            }
            proof {
                let next = applied(old(self)@, keys@.take(i + 1));
                assert(keys@.take(i + 1) =~= keys@.take(i as int).push(key));
                assert(self@.write.dom() =~= next.dom());
                assert forall|wire: WireKey| #[trigger]
                    self@.write.contains_key(wire) implies self@.write[wire] == next[wire] by {
                    lemma_push_contains(keys@.take(i as int), key, wire);
                }
                assert(self@.write =~= next);
            }
            i = i + 1;
        }
        proof {
            assert(keys@.take(keys.len() as int) =~= keys@);
            let all = old(self)@.next_levels();
            assert(self@.write.dom() =~= all.dom());
            assert forall|wire: WireKey| #[trigger]
                self@.write.contains_key(wire) implies self@.write[wire] == all[wire] by {
                assert(keys@.to_set().contains(wire));
                assert(keys@.contains(wire));
            }
            assert(self@.write =~= all);
        }
    }

    /// Whether the two buffers hold the same levels.
    fn levels_settled(&self) -> (r: bool)
        requires
            self@.read.dom() == self@.write.dom(),
        ensures
            r == (self@.write == self@.read),
    {
        let keys = self.wires_read.keys();
        let mut i: usize = 0;
        while i < keys.len()
            invariant
                i <= keys.len(),
                keys@.to_set() == self@.read.dom(),
                self@.read.dom() == self@.write.dom(),
                forall|j: int|
                    0 <= j < i ==> self@.write[#[trigger] keys@[j]] == self@.read[keys@[j]],
            decreases keys.len() - i,
        {
            let key = keys[i];
            assert(keys@.to_set().contains(key));
            assert(self@.read.dom().contains(key));
            assert(self@.write.dom().contains(key));
            if self.wires_read.get(key) != self.wires_write.get(key) {
                assert(self@.write[key] != self@.read[key]);
                return false;
            }
            i = i + 1;
        }
        proof {
            assert forall|wire: WireKey| #[trigger]
                self@.read.contains_key(wire) implies self@.write[wire] == self@.read[wire] by {
                assert(keys@.to_set().contains(wire));
                let j = choose|j: int| 0 <= j < keys@.len() && keys@[j] == wire;
                assert(self@.write[keys@[j]] == self@.read[keys@[j]]);
            }
            assert(self@.write =~= self@.read);
        }
        true
    }

    /// Advances every wire by one unit delay. Each gate's output is
    /// computed from the read buffer and put on the wires of its bound
    /// output pins in the write buffer; wires that no gate drives keep
    /// the level the write buffer held. The circuit is settled if that
    /// leaves the two buffers equal. Then the buffers change places.
    ///
    /// Fails, and changes nothing, with `BufferMismatch` if the buffers do
    /// not cover the same keys; with `InvalidKey` if an output pin is bound
    /// to a wire that has no level; with `ShortCircuit` if two gates drive
    /// the named wire with different levels.
    pub fn tick(&mut self) -> (r: Result<(), CircuitError>)
        ensures
            match r {
                Ok(_) => old(self)@.can_tick() && final(self)@ == old(self)@.ticked(),
                Err(e) => !old(self)@.can_tick() && final(self)@ == old(self)@ && match e {
                    CircuitError::BufferMismatch => old(self)@.read.dom() != old(self)@.write.dom(),
                    CircuitError::InvalidKey => old(self)@.read.dom() == old(self)@.write.dom()
                        && old(self)@.stale_driver(),
                    CircuitError::ShortCircuit(wire) => old(self)@.read.dom()
                        == old(self)@.write.dom() && old(self)@.short_circuit(wire),
                    _ => false,
                },
            },
            well_formed(old(self)@) ==> r is Ok && well_formed(final(self)@),
    {
        proof {
            if well_formed(old(self)@) {
                lemma_well_formed_can_tick(old(self)@);
                lemma_ticked_well_formed(old(self)@);
            }
        }
        if !self.buffers_match() {
            return Err(CircuitError::BufferMismatch);
        }
        let levels = match self.gather_drivers() {
            Ok(levels) => levels,
            Err(e) => {
                return Err(e);
            },
        };
        self.apply_levels(&levels);
        assert(self@.write.dom() =~= old(self)@.write.dom());
        self.emulation_done = self.levels_settled();
        std::mem::swap(&mut self.wires_read, &mut self.wires_write);
        Ok(())
    }

    /// Sets every level in both buffers to false.
    pub fn reset_wires(&mut self)
        ensures
            final(self)@ == old(self)@.reset(),
            well_formed(old(self)@) ==> well_formed(final(self)@),
    {
        proof {
            if well_formed(old(self)@) {
                lemma_reset_well_formed(old(self)@);
            }
        }
        clear_levels(&mut self.wires_read);
        clear_levels(&mut self.wires_write);
    }
}

/// Whether output `pin` of `gate` has been looked at, when the gates
/// before place `gates_done` in `keys` are done, and of the one at that
/// place the pins before `pins_done`.
spec fn handled(keys: Seq<GateKey>, gates_done: int, pins_done: int, gate: GateKey, pin: int) -> bool {
    ||| exists|i: int| 0 <= i < gates_done && i < keys.len() && keys[i] == gate
    ||| (0 <= gates_done < keys.len() && keys[gates_done] == gate && pin < pins_done)
}

/// Whether `levels` holds what the pins looked at so far drive: each of
/// them drives a wire that has a level in the write buffer, `levels` has
/// its gate's output under the bits of that wire's key, and it has
/// nothing else.
spec fn gathered(
    c: CircuitView,
    keys: Seq<GateKey>,
    gates_done: int,
    pins_done: int,
    levels: Map<u64, bool>,
) -> bool {
    &&& forall|gate: GateKey, pin: int, wire: WireKey|
        handled(keys, gates_done, pins_done, gate, pin) && #[trigger] c.drives(gate, pin, wire)
            ==> c.write.contains_key(wire) && levels.contains_key(wire.raw()) && levels[wire.raw()]
            == c.gate_output(c.gates[gate])
    &&& forall|bits: u64| #[trigger]
        levels.contains_key(bits) ==> exists|gate: GateKey, pin: int, wire: WireKey|
            wire.raw() == bits && handled(keys, gates_done, pins_done, gate, pin)
                && #[trigger] c.drives(gate, pin, wire)
}

/// Whether `levels` holds, under the bits of its key, the coming level of
/// each driven wire, and nothing under the bits of any other wire key.
spec fn drivers_levels(c: CircuitView, levels: Map<u64, bool>) -> bool {
    forall|wire: WireKey|
        (#[trigger] levels.contains_key(wire.raw()) <==> c.driven(wire)) && (c.driven(wire)
            ==> levels[wire.raw()] == c.next_level(wire))
}

/// The write buffer after the wires in `done` have been given their coming
/// level.
spec fn applied(c: CircuitView, done: Seq<WireKey>) -> Map<WireKey, bool> {
    Map::new(
        |wire: WireKey| c.write.contains_key(wire),
        |wire: WireKey|
            if done.contains(wire) {
                c.next_level(wire)
            } else {
                c.write[wire]
            },
    )
}

/// After pin `pins_done` of gate number `gates_done` has been looked at,
/// and its level noted where it is bound, one more pin is done.
proof fn lemma_gathered_step(
    c: CircuitView,
    keys: Seq<GateKey>,
    gates_done: int,
    pins_done: int,
    levels: Map<u64, bool>,
    level: bool,
)
    requires
        0 <= gates_done < keys.len(),
        0 <= pins_done,
        c.gates.contains_key(keys[gates_done]),
        pins_done < c.gates[keys[gates_done]].output.len(),
        level == c.gate_output(c.gates[keys[gates_done]]),
        forall|gate: GateKey, pin: int, wire: WireKey|
            handled(keys, gates_done, pins_done, gate, pin) && #[trigger] c.drives(gate, pin, wire)
                ==> c.write.contains_key(wire) && levels.contains_key(wire.raw())
                && levels[wire.raw()] == c.gate_output(c.gates[gate]),
        forall|bits: u64| #[trigger]
            levels.contains_key(bits) ==> exists|gate: GateKey, pin: int, wire: WireKey|
                wire.raw() == bits && handled(keys, gates_done, pins_done + 1, gate, pin)
                    && #[trigger] c.drives(gate, pin, wire),
        forall|wire: WireKey| #[trigger]
            c.drives(keys[gates_done], pins_done, wire) ==> c.write.contains_key(wire)
                && levels.contains_key(wire.raw()) && levels[wire.raw()] == level,
    ensures
        gathered(c, keys, gates_done, pins_done + 1, levels),
{
    assert forall|gate: GateKey, pin: int, wire: WireKey|
        handled(keys, gates_done, pins_done + 1, gate, pin) && #[trigger] c.drives(
            gate,
            pin,
            wire,
        ) implies c.write.contains_key(wire) && levels.contains_key(wire.raw())
        && levels[wire.raw()] == c.gate_output(c.gates[gate]) by {
        if handled(keys, gates_done, pins_done, gate, pin) {
            assert(c.write.contains_key(wire) && levels.contains_key(wire.raw())
                && levels[wire.raw()] == c.gate_output(c.gates[gate]));
        } else {
            assert(gate == keys[gates_done] && pin == pins_done);
            assert(c.drives(keys[gates_done], pins_done, wire));
            assert(c.write.contains_key(wire) && levels.contains_key(wire.raw())
                && levels[wire.raw()] == level);
        }
    }
}

/// When all pins of gate number `gates_done` are done, it is done itself.
proof fn lemma_gathered_next_gate(
    c: CircuitView,
    keys: Seq<GateKey>,
    gates_done: int,
    pins_done: int,
    levels: Map<u64, bool>,
)
    requires
        0 <= gates_done < keys.len(),
        c.gates.contains_key(keys[gates_done]),
        pins_done == c.gates[keys[gates_done]].output.len(),
        gathered(c, keys, gates_done, pins_done, levels),
    ensures
        gathered(c, keys, gates_done + 1, 0, levels),
{
    assert forall|gate: GateKey, pin: int, wire: WireKey|
        handled(keys, gates_done + 1, 0, gate, pin) && #[trigger] c.drives(
            gate,
            pin,
            wire,
        ) implies handled(keys, gates_done, pins_done, gate, pin) by {
        let i = choose|i: int| 0 <= i < gates_done + 1 && i < keys.len() && keys[i] == gate;
        if i == gates_done {
        } else {
            assert(0 <= i < gates_done && keys[i] == gate);
        }
    }
    assert forall|bits: u64| #[trigger] levels.contains_key(bits) implies exists|
        gate: GateKey,
        pin: int,
        wire: WireKey,
    |
        wire.raw() == bits && handled(keys, gates_done + 1, 0, gate, pin) && #[trigger] c.drives(
            gate,
            pin,
            wire,
        ) by {
        let (gate, pin, wire) = choose|gate: GateKey, pin: int, wire: WireKey|
            wire.raw() == bits && handled(keys, gates_done, pins_done, gate, pin)
                && #[trigger] c.drives(gate, pin, wire);
        if exists|i: int| 0 <= i < gates_done && i < keys.len() && keys[i] == gate {
            let i = choose|i: int| 0 <= i < gates_done && i < keys.len() && keys[i] == gate;
            assert(0 <= i < gates_done + 1 && i < keys.len() && keys[i] == gate);
        } else {
            assert(0 <= gates_done < gates_done + 1 && keys[gates_done] == gate);
        }
        assert(handled(keys, gates_done + 1, 0, gate, pin));
    }
}

/// When every gate is done, `levels` holds the coming level of every
/// driven wire, every driven wire has a level, and none is
/// short-circuited.
proof fn lemma_gathered_all(c: CircuitView, keys: Seq<GateKey>, levels: Map<u64, bool>)
    requires
        keys.to_set() == c.gates.dom(),
        gathered(c, keys, keys.len() as int, 0, levels),
    ensures
        !c.stale_driver(),
        forall|wire: WireKey| !c.short_circuit(wire),
        drivers_levels(c, levels),
{
    let n = keys.len() as int;
    assert forall|gate: GateKey, pin: int, wire: WireKey| #[trigger]
        c.drives(gate, pin, wire) implies handled(keys, n, 0, gate, pin) by {
        assert(c.gates.dom().contains(gate));
        assert(keys.to_set().contains(gate));
        assert(keys.contains(gate));
        let i = choose|i: int| 0 <= i < keys.len() && keys[i] == gate;
        assert(0 <= i < n && i < keys.len() && keys[i] == gate);
    }
    assert forall|wire: WireKey|
        (#[trigger] levels.contains_key(wire.raw()) <==> c.driven(wire)) && (c.driven(wire)
            ==> levels[wire.raw()] == c.next_level(wire)) by {
        if levels.contains_key(wire.raw()) {
            let (g, p, w) = choose|g: GateKey, p: int, w: WireKey|
                w.raw() == wire.raw() && handled(keys, n, 0, g, p) && #[trigger] c.drives(g, p, w);
            WireKey::lemma_raw_injective(w, wire);
            assert(c.drives(g, p, wire));
        }
        if c.driven(wire) {
            let (g, p) = choose|g: GateKey, p: int| drives_in(c.gates, g, p, wire);
            assert(c.drives(g, p, wire));
        }
    }
}

/// The levels with those under the keys in `done` set to false.
spec fn cleared(levels: Map<WireKey, bool>, done: Seq<WireKey>) -> Map<WireKey, bool> {
    Map::new(
        |wire: WireKey| levels.contains_key(wire),
        |wire: WireKey|
            if done.contains(wire) {
                false
            } else {
                levels[wire]
            },
    )
}

/// Sets every level of a table to false.
fn clear_levels(levels: &mut LevelTable)
    ensures
        final(levels)@ == Map::new(
            |wire: WireKey| old(levels)@.contains_key(wire),
            |wire: WireKey| false,
        ),
{
    let keys = levels.keys();
    let mut i: usize = 0;
    assert(levels@ =~= cleared(old(levels)@, keys@.take(0)));
    while i < keys.len()
        invariant
            i <= keys.len(),
            keys@.to_set() == old(levels)@.dom(),
            levels@ == cleared(old(levels)@, keys@.take(i as int)),
        decreases keys.len() - i,
    {
        let key = keys[i];
        assert(keys@.to_set().contains(key));
        assert(levels@.contains_key(key));
        levels.set(key, false);
        proof {
            let next = cleared(old(levels)@, keys@.take(i + 1));
            assert(keys@.take(i + 1) =~= keys@.take(i as int).push(key));
            assert(levels@.dom() =~= next.dom());
            assert forall|wire: WireKey| #[trigger] levels@.contains_key(wire) implies levels@[wire]
                == next[wire] by {
                lemma_push_contains(keys@.take(i as int), key, wire);
            }
            assert(levels@ =~= next);
        }
        i = i + 1;
    }
    proof {
        let all = Map::new(
            |wire: WireKey| old(levels)@.contains_key(wire),
            |wire: WireKey| false,
        );
        assert(keys@.take(keys.len() as int) =~= keys@);
        assert forall|wire: WireKey| #[trigger] all.contains_key(wire) implies levels@[wire]
            == false by {
            assert(keys@.to_set().contains(wire));
            assert(keys@.contains(wire));
        }
        assert(levels@ =~= all);
    }
}

} // verus!
