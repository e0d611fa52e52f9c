use logic_sim::circuit::Circuit;
use logic_sim::error::CircuitError;
use logic_sim::gate_table::MAX_ITEMS;
use logic_sim::gate_type::GateType;
use logic_sim::keys::{GateKey, WireKey};
use logic_sim::pin_type::PinType;
use logic_sim::pins::Pin;
use logic_sim::wires::Connection;

fn gate(circuit: &mut Circuit, kind: GateType) -> GateKey {
    assert!(circuit.gates.len() < MAX_ITEMS);
    circuit.add_gate(kind)
}

fn link(circuit: &mut Circuit, from: GateKey, to: GateKey, to_pin: usize) -> Result<(), CircuitError> {
    assert!(circuit.wires.len() < MAX_ITEMS);
    circuit.connect_wire(from, to, 0, PinType::Output, to_pin, PinType::Input)
}

fn out_wire(circuit: &Circuit, gate: GateKey) -> Option<WireKey> {
    circuit.gates.get(gate).unwrap().output[0].wire_index
}

fn in_wire(circuit: &Circuit, gate: GateKey, pin: usize) -> Option<WireKey> {
    circuit.gates.get(gate).unwrap().input[pin].wire_index
}

fn sinks(circuit: &Circuit, wire: WireKey) -> Vec<Connection> {
    circuit.wires.get(wire).unwrap().connections.clone()
}

fn pin(gate: GateKey, index: usize) -> Connection {
    Connection { pin_index: index, gate_index: gate }
}

#[test]
fn connect_makes_a_wire_and_binds_both_pins() {
    let mut c = Circuit::new();
    let a = gate(&mut c, GateType::IN);
    let b = gate(&mut c, GateType::NOT);
    assert_eq!(link(&mut c, a, b, 0), Ok(()));
    let w = out_wire(&c, a).unwrap();
    assert_eq!(in_wire(&c, b, 0), Some(w));
    let wire = c.wires.get(w).unwrap();
    assert_eq!(wire.source, pin(a, 0));
    assert_eq!(wire.connections, vec![pin(b, 0)]);
    assert_eq!(c.wires.len(), 1);
    assert_eq!(c.get_wire(w), Ok(false));
    assert_eq!(c.wires_write.get(w), Some(false));
}

#[test]
fn connect_takes_the_pins_in_either_order() {
    let mut c = Circuit::new();
    let a = gate(&mut c, GateType::IN);
    let b = gate(&mut c, GateType::AND);
    assert_eq!(
        c.connect_wire(b, a, 1, PinType::Input, 0, PinType::Output),
        Ok(())
    );
    let w = out_wire(&c, a).unwrap();
    assert_eq!(in_wire(&c, b, 1), Some(w));
    assert_eq!(in_wire(&c, b, 0), None);
    assert_eq!(c.wires.get(w).unwrap().source, pin(a, 0));
    assert_eq!(sinks(&c, w), vec![pin(b, 1)]);
}

#[test]
fn connecting_twice_leaves_one_wire_with_one_entry() {
    let mut c = Circuit::new();
    let a = gate(&mut c, GateType::IN);
    let b = gate(&mut c, GateType::NOT);
    assert_eq!(link(&mut c, a, b, 0), Ok(()));
    let w = out_wire(&c, a).unwrap();
    assert_eq!(link(&mut c, a, b, 0), Ok(()));
    assert_eq!(
        c.connect_wire(b, a, 0, PinType::Input, 0, PinType::Output),
        Ok(())
    );
    assert_eq!(c.wires.len(), 1);
    assert_eq!(out_wire(&c, a), Some(w));
    assert_eq!(in_wire(&c, b, 0), Some(w));
    assert_eq!(sinks(&c, w), vec![pin(b, 0)]);
    assert_eq!(c.wires_read.len(), 1);
    assert_eq!(c.wires_write.len(), 1);
}

#[test]
fn one_output_fans_out_to_three_inputs() {
    let mut c = Circuit::new();
    let a = gate(&mut c, GateType::IN);
    let b = gate(&mut c, GateType::AND);
    let d = gate(&mut c, GateType::OUT);
    assert_eq!(link(&mut c, a, b, 0), Ok(()));
    assert_eq!(link(&mut c, a, b, 1), Ok(()));
    assert_eq!(link(&mut c, a, d, 0), Ok(()));
    let w = out_wire(&c, a).unwrap();
    assert_eq!(c.wires.len(), 1);
    assert_eq!(sinks(&c, w), vec![pin(b, 0), pin(b, 1), pin(d, 0)]);
    assert_eq!(in_wire(&c, b, 0), Some(w));
    assert_eq!(in_wire(&c, b, 1), Some(w));
    assert_eq!(in_wire(&c, d, 0), Some(w));
}

#[test]
fn an_input_pin_is_stolen_from_its_only_wire() {
    let mut c = Circuit::new();
    let a = gate(&mut c, GateType::IN);
    let b = gate(&mut c, GateType::IN);
    let n = gate(&mut c, GateType::NOT);
    assert_eq!(link(&mut c, a, n, 0), Ok(()));
    let first = out_wire(&c, a).unwrap();
    assert_eq!(link(&mut c, b, n, 0), Ok(()));
    let second = out_wire(&c, b).unwrap();
    assert_ne!(first, second);
    assert_eq!(in_wire(&c, n, 0), Some(second));
    assert_eq!(out_wire(&c, a), None);
    assert!(c.wires.get(first).is_none());
    assert_eq!(c.get_wire(first), Err(CircuitError::InvalidKey));
    assert_eq!(c.wires.len(), 1);
    assert_eq!(sinks(&c, second), vec![pin(n, 0)]);
}

#[test]
fn an_input_pin_is_stolen_from_a_wire_with_other_sinks() {
    let mut c = Circuit::new();
    let a = gate(&mut c, GateType::IN);
    let b = gate(&mut c, GateType::IN);
    let and = gate(&mut c, GateType::AND);
    assert_eq!(link(&mut c, a, and, 0), Ok(()));
    assert_eq!(link(&mut c, a, and, 1), Ok(()));
    let first = out_wire(&c, a).unwrap();
    assert_eq!(link(&mut c, b, and, 0), Ok(()));
    let second = out_wire(&c, b).unwrap();
    assert_eq!(out_wire(&c, a), Some(first));
    assert_eq!(sinks(&c, first), vec![pin(and, 1)]);
    assert_eq!(sinks(&c, second), vec![pin(and, 0)]);
    assert_eq!(in_wire(&c, and, 0), Some(second));
    assert_eq!(in_wire(&c, and, 1), Some(first));
    assert_eq!(c.wires.len(), 2);
}

#[test]
fn an_input_pin_joins_an_existing_wire_of_another_source() {
    let mut c = Circuit::new();
    let a = gate(&mut c, GateType::IN);
    let b = gate(&mut c, GateType::IN);
    let and = gate(&mut c, GateType::AND);
    let out = gate(&mut c, GateType::OUT);
    assert_eq!(link(&mut c, a, and, 0), Ok(()));
    assert_eq!(link(&mut c, b, out, 0), Ok(()));
    let first = out_wire(&c, a).unwrap();
    let second = out_wire(&c, b).unwrap();
    assert_eq!(link(&mut c, b, and, 0), Ok(()));
    assert!(c.wires.get(first).is_none());
    assert_eq!(out_wire(&c, a), None);
    assert_eq!(sinks(&c, second), vec![pin(out, 0), pin(and, 0)]);
    assert_eq!(in_wire(&c, and, 0), Some(second));
}

#[test]
fn connect_refuses_two_pins_of_one_role() {
    let mut c = Circuit::new();
    let a = gate(&mut c, GateType::IN);
    let b = gate(&mut c, GateType::NOT);
    assert_eq!(
        c.connect_wire(a, b, 0, PinType::Output, 0, PinType::Output),
        Err(CircuitError::SameRoleConnection)
    );
    assert_eq!(
        c.connect_wire(a, b, 0, PinType::Input, 0, PinType::Input),
        Err(CircuitError::SameRoleConnection)
    );
    assert_eq!(c.wires.len(), 0);
    assert_eq!(out_wire(&c, a), None);
}

#[test]
fn connect_refuses_a_pin_that_does_not_exist() {
    let mut c = Circuit::new();
    let a = gate(&mut c, GateType::IN);
    let b = gate(&mut c, GateType::NOT);
    let out = gate(&mut c, GateType::OUT);
    assert_eq!(link(&mut c, a, b, 1), Err(CircuitError::InvalidPinIndex));
    assert_eq!(
        c.connect_wire(a, b, 1, PinType::Output, 0, PinType::Input),
        Err(CircuitError::InvalidPinIndex)
    );
    assert_eq!(link(&mut c, out, b, 0), Err(CircuitError::InvalidPinIndex));
    assert_eq!(
        c.connect_wire(a, a, 0, PinType::Output, 0, PinType::Input),
        Err(CircuitError::InvalidPinIndex)
    );
    assert_eq!(c.wires.len(), 0);
}

#[test]
fn connect_refuses_a_removed_gate() {
    let mut c = Circuit::new();
    let a = gate(&mut c, GateType::IN);
    let b = gate(&mut c, GateType::NOT);
    assert_eq!(c.remove_gate(b), Ok(()));
    assert_eq!(link(&mut c, a, b, 0), Err(CircuitError::InvalidKey));
    assert_eq!(link(&mut c, b, a, 0), Err(CircuitError::InvalidKey));
    assert_eq!(c.wires.len(), 0);
    assert_eq!(out_wire(&c, a), None);
}

#[test]
fn connect_refuses_a_source_pin_with_a_stale_wire() {
    let mut c = Circuit::new();
    let a = gate(&mut c, GateType::IN);
    let b = gate(&mut c, GateType::NOT);
    let d = gate(&mut c, GateType::NOT);
    assert_eq!(link(&mut c, a, b, 0), Ok(()));
    let w = out_wire(&c, a).unwrap();
    assert!(c.wires.remove(w).is_some());
    assert_eq!(link(&mut c, a, d, 0), Err(CircuitError::InvalidKey));
    assert_eq!(in_wire(&c, d, 0), None);
}

#[test]
fn connect_refuses_a_sink_that_its_wire_does_not_name() {
    let mut c = Circuit::new();
    let a = gate(&mut c, GateType::IN);
    let b = gate(&mut c, GateType::IN);
    let n = gate(&mut c, GateType::NOT);
    let m = gate(&mut c, GateType::NOT);
    assert_eq!(link(&mut c, a, n, 0), Ok(()));
    let w = out_wire(&c, a).unwrap();
    c.gates.get_mut(m).unwrap().input[0].wire_index = Some(w);
    assert_eq!(link(&mut c, b, m, 0), Err(CircuitError::InconsistentWire));
    assert_eq!(out_wire(&c, b), None);
    assert_eq!(in_wire(&c, m, 0), Some(w));
    assert_eq!(sinks(&c, w), vec![pin(n, 0)]);
}

#[test]
fn disconnecting_the_only_sink_deletes_the_wire() {
    let mut c = Circuit::new();
    let a = gate(&mut c, GateType::IN);
    let b = gate(&mut c, GateType::NOT);
    assert_eq!(link(&mut c, a, b, 0), Ok(()));
    let w = out_wire(&c, a).unwrap();
    assert_eq!(c.disconnect(b, 0, PinType::Input), Ok(()));
    assert_eq!(c.get_wire(w), Err(CircuitError::InvalidKey));
    assert!(c.wires.get(w).is_none());
    assert_eq!(c.wires_write.get(w), None);
    assert_eq!(out_wire(&c, a), None);
    assert_eq!(in_wire(&c, b, 0), None);
    assert_eq!(c.wires.len(), 0);
}

#[test]
fn disconnecting_one_of_several_sinks_shrinks_the_wire() {
    let mut c = Circuit::new();
    let a = gate(&mut c, GateType::IN);
    let b = gate(&mut c, GateType::AND);
    let d = gate(&mut c, GateType::OUT);
    assert_eq!(link(&mut c, a, b, 0), Ok(()));
    assert_eq!(link(&mut c, a, b, 1), Ok(()));
    assert_eq!(link(&mut c, a, d, 0), Ok(()));
    let w = out_wire(&c, a).unwrap();
    assert_eq!(c.disconnect(b, 1, PinType::Input), Ok(()));
    assert_eq!(sinks(&c, w), vec![pin(b, 0), pin(d, 0)]);
    assert_eq!(in_wire(&c, b, 1), None);
    assert_eq!(in_wire(&c, b, 0), Some(w));
    assert_eq!(out_wire(&c, a), Some(w));
    assert_eq!(c.get_wire(w), Ok(false));
    assert_eq!(c.disconnect(b, 0, PinType::Input), Ok(()));
    assert_eq!(sinks(&c, w), vec![pin(d, 0)]);
    assert_eq!(c.disconnect(d, 0, PinType::Input), Ok(()));
    assert!(c.wires.get(w).is_none());
    assert_eq!(out_wire(&c, a), None);
}

#[test]
fn disconnecting_the_source_deletes_the_wire_and_frees_every_sink() {
    let mut c = Circuit::new();
    let a = gate(&mut c, GateType::IN);
    let b = gate(&mut c, GateType::AND);
    let d = gate(&mut c, GateType::OUT);
    assert_eq!(link(&mut c, a, b, 0), Ok(()));
    assert_eq!(link(&mut c, a, b, 1), Ok(()));
    assert_eq!(link(&mut c, a, d, 0), Ok(()));
    let w = out_wire(&c, a).unwrap();
    assert_eq!(c.disconnect(a, 0, PinType::Output), Ok(()));
    assert!(c.wires.get(w).is_none());
    assert_eq!(c.get_wire(w), Err(CircuitError::InvalidKey));
    assert_eq!(out_wire(&c, a), None);
    assert_eq!(in_wire(&c, b, 0), None);
    assert_eq!(in_wire(&c, b, 1), None);
    assert_eq!(in_wire(&c, d, 0), None);
}

#[test]
fn disconnecting_an_unbound_pin_changes_nothing() {
    let mut c = Circuit::new();
    let a = gate(&mut c, GateType::IN);
    let b = gate(&mut c, GateType::AND);
    assert_eq!(link(&mut c, a, b, 0), Ok(()));
    let w = out_wire(&c, a).unwrap();
    assert_eq!(c.disconnect(b, 1, PinType::Input), Ok(()));
    assert_eq!(c.disconnect(b, 0, PinType::Output), Ok(()));
    assert_eq!(sinks(&c, w), vec![pin(b, 0)]);
    assert_eq!(in_wire(&c, b, 0), Some(w));
}

#[test]
fn disconnect_reports_what_is_wrong() {
    let mut c = Circuit::new();
    let a = gate(&mut c, GateType::IN);
    let b = gate(&mut c, GateType::NOT);
    let gone = gate(&mut c, GateType::NOT);
    assert_eq!(c.remove_gate(gone), Ok(()));
    assert_eq!(link(&mut c, a, b, 0), Ok(()));
    let w = out_wire(&c, a).unwrap();
    assert_eq!(
        c.disconnect(gone, 0, PinType::Input),
        Err(CircuitError::InvalidKey)
    );
    assert_eq!(
        c.disconnect(b, 1, PinType::Input),
        Err(CircuitError::InvalidPinIndex)
    );
    assert_eq!(
        c.disconnect(a, 0, PinType::Input),
        Err(CircuitError::InvalidPinIndex)
    );
    // An output pin that claims a wire of which it is not the source.
    c.gates.get_mut(b).unwrap().output[0].wire_index = Some(w);
    assert_eq!(
        c.disconnect(b, 0, PinType::Output),
        Err(CircuitError::InconsistentWire)
    );
    assert_eq!(out_wire(&c, b), Some(w));
    assert_eq!(sinks(&c, w), vec![pin(b, 0)]);
    // A pin that refers to a wire that is gone.
    assert!(c.wires.remove(w).is_some());
    assert_eq!(
        c.disconnect(b, 0, PinType::Input),
        Err(CircuitError::InvalidKey)
    );
    assert_eq!(in_wire(&c, b, 0), Some(w));
}

#[test]
fn removing_a_gate_detaches_its_wires() {
    let mut c = Circuit::new();
    let a = gate(&mut c, GateType::IN);
    let n = gate(&mut c, GateType::NOT);
    let x = gate(&mut c, GateType::OUT);
    let y = gate(&mut c, GateType::OUT);
    assert_eq!(link(&mut c, a, n, 0), Ok(()));
    assert_eq!(link(&mut c, a, x, 0), Ok(()));
    assert_eq!(link(&mut c, n, y, 0), Ok(()));
    let from_a = out_wire(&c, a).unwrap();
    let from_n = out_wire(&c, n).unwrap();
    assert_eq!(c.remove_gate(n), Ok(()));
    assert!(c.gates.get(n).is_none());
    assert_eq!(c.gates.len(), 3);
    assert!(c.wires.get(from_n).is_none());
    assert_eq!(c.get_wire(from_n), Err(CircuitError::InvalidKey));
    assert_eq!(in_wire(&c, y, 0), None);
    assert_eq!(sinks(&c, from_a), vec![pin(x, 0)]);
    assert_eq!(in_wire(&c, x, 0), Some(from_a));
    assert_eq!(c.remove_gate(n), Err(CircuitError::InvalidKey));
    assert_eq!(c.tick(), Ok(()));
}

#[test]
fn removing_a_gate_that_feeds_itself() {
    let mut c = Circuit::new();
    let n = gate(&mut c, GateType::NOR);
    assert_eq!(link(&mut c, n, n, 0), Ok(()));
    assert_eq!(link(&mut c, n, n, 1), Ok(()));
    let w = out_wire(&c, n).unwrap();
    assert_eq!(sinks(&c, w), vec![pin(n, 0), pin(n, 1)]);
    assert_eq!(c.remove_gate(n), Ok(()));
    assert_eq!(c.gates.len(), 0);
    assert_eq!(c.wires.len(), 0);
    assert_eq!(c.wires_read.len(), 0);
    assert_eq!(c.wires_write.len(), 0);
}

#[test]
fn removing_a_gate_with_a_damaged_pin_is_refused() {
    let mut c = Circuit::new();
    let a = gate(&mut c, GateType::IN);
    let b = gate(&mut c, GateType::IN);
    let and = gate(&mut c, GateType::AND);
    let out = gate(&mut c, GateType::OUT);
    assert_eq!(link(&mut c, a, and, 0), Ok(()));
    assert_eq!(link(&mut c, b, out, 0), Ok(()));
    let from_a = out_wire(&c, a).unwrap();
    let from_b = out_wire(&c, b).unwrap();
    c.gates.get_mut(and).unwrap().input[1].wire_index = Some(from_b);
    assert_eq!(c.remove_gate(and), Err(CircuitError::InconsistentWire));
    assert!(c.gates.get(and).is_some());
    assert_eq!(in_wire(&c, and, 0), Some(from_a));
    assert_eq!(sinks(&c, from_a), vec![pin(and, 0)]);
    // A stale reference on an earlier pin is reported first.
    assert_eq!(link(&mut c, and, out, 0), Ok(()));
    let from_and = out_wire(&c, and).unwrap();
    assert!(c.wires.remove(from_and).is_some());
    assert_eq!(c.remove_gate(and), Err(CircuitError::InvalidKey));
    assert!(c.gates.get(and).is_some());
    assert_eq!(in_wire(&c, and, 0), Some(from_a));
}

#[test]
fn remove_wire_unbinds_the_pins_it_names() {
    let mut c = Circuit::new();
    let a = gate(&mut c, GateType::IN);
    let b = gate(&mut c, GateType::AND);
    assert_eq!(link(&mut c, a, b, 0), Ok(()));
    assert_eq!(link(&mut c, a, b, 1), Ok(()));
    let w = out_wire(&c, a).unwrap();
    c.remove_wire(w);
    assert_eq!(out_wire(&c, a), None);
    assert_eq!(in_wire(&c, b, 0), None);
    assert_eq!(in_wire(&c, b, 1), None);
    assert_eq!(c.wires.len(), 0);
    assert_eq!(c.wires_read.len(), 0);
    assert_eq!(c.wires_write.len(), 0);
    c.remove_wire(w);
    assert_eq!(c.wires.len(), 0);
}

#[test]
fn remove_wire_leaves_pins_on_other_wires_alone() {
    let mut c = Circuit::new();
    let a = gate(&mut c, GateType::IN);
    let b = gate(&mut c, GateType::IN);
    let and = gate(&mut c, GateType::AND);
    assert_eq!(link(&mut c, a, and, 0), Ok(()));
    assert_eq!(link(&mut c, b, and, 1), Ok(()));
    let from_a = out_wire(&c, a).unwrap();
    let from_b = out_wire(&c, b).unwrap();
    // The wire of `a` also names a pin that is on another wire.
    c.wires.get_mut(from_a).unwrap().connections.push(pin(and, 1));
    c.remove_wire(from_a);
    assert_eq!(in_wire(&c, and, 0), None);
    assert_eq!(in_wire(&c, and, 1), Some(from_b));
    assert_eq!(out_wire(&c, b), Some(from_b));
}

#[test]
fn a_key_of_a_removed_wire_stays_invalid_when_its_slot_is_used_again() {
    let mut c = Circuit::new();
    let a = gate(&mut c, GateType::IN);
    let b = gate(&mut c, GateType::NOT);
    assert_eq!(link(&mut c, a, b, 0), Ok(()));
    let first = out_wire(&c, a).unwrap();
    assert_eq!(c.disconnect(a, 0, PinType::Output), Ok(()));
    assert_eq!(link(&mut c, a, b, 0), Ok(()));
    let second = out_wire(&c, a).unwrap();
    assert_ne!(first, second);
    assert_eq!(first.to_bits() & 0xffff_ffff, second.to_bits() & 0xffff_ffff);
    assert_eq!(c.get_wire(first), Err(CircuitError::InvalidKey));
    assert_eq!(c.get_wire(second), Ok(false));
    assert!(c.wires.get(first).is_none());
}

#[test]
fn new_wire_stores_a_wire_without_touching_pins() {
    let mut c = Circuit::new();
    let a = gate(&mut c, GateType::IN);
    let b = gate(&mut c, GateType::NOT);
    let wire = logic_sim::wires::Wire::new(pin(a, 0), vec![pin(b, 0)]);
    assert!(c.wires.len() < MAX_ITEMS);
    let w = c.new_wire(wire.clone());
    assert_eq!(c.wires.get(w), Some(&wire));
    assert_eq!(c.get_wire(w), Ok(false));
    assert_eq!(c.wires_write.get(w), Some(false));
    assert_eq!(out_wire(&c, a), None);
    assert_eq!(in_wire(&c, b, 0), None);
}

#[test]
fn get_pin_resolves_the_key_and_checks_the_ordinal() {
    let mut c = Circuit::new();
    let a = gate(&mut c, GateType::IN);
    let b = gate(&mut c, GateType::AND);
    assert_eq!(link(&mut c, a, b, 1), Ok(()));
    let w = out_wire(&c, a).unwrap();
    assert_eq!(
        c.get_pin(b, 1, PinType::Input),
        Ok(Pin { index: 1, wire_index: Some(w) })
    );
    assert_eq!(
        c.get_pin(b, 0, PinType::Input),
        Ok(Pin { index: 0, wire_index: None })
    );
    assert_eq!(
        c.get_pin(a, 0, PinType::Output),
        Ok(Pin { index: 0, wire_index: Some(w) })
    );
    assert_eq!(c.get_pin(b, 2, PinType::Input), Err(CircuitError::InvalidPinIndex));
    assert_eq!(c.get_pin(a, 0, PinType::Input), Err(CircuitError::InvalidPinIndex));
    assert_eq!(c.remove_gate(a), Ok(()));
    assert_eq!(c.get_pin(a, 0, PinType::Output), Err(CircuitError::InvalidKey));
    assert_eq!(
        c.get_pin(b, 1, PinType::Input),
        Ok(Pin { index: 1, wire_index: None })
    );
}
