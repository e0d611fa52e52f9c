use logic_sim::error::CircuitError;
use logic_sim::gate::{Gate, Rotation};
use logic_sim::gate_type::GateType;
use logic_sim::keys::{GateKey, WireKey};
use logic_sim::pin_type::PinType;
use logic_sim::pins::Pin;
use logic_sim::wires::{Connection, ConnectionUtils, Wire};

const KINDS: [GateType; 9] = [
    GateType::NOT,
    GateType::OR,
    GateType::XOR,
    GateType::NOR,
    GateType::XNOR,
    GateType::AND,
    GateType::NAND,
    GateType::IN,
    GateType::OUT,
];

#[test]
fn kinds_have_their_labels_and_pin_counts() {
    let labels = ["not", "or", "xor", "nor", "xnor", "and", "nand", "in", "out"];
    let inputs = [1, 2, 2, 2, 2, 2, 2, 0, 1];
    let outputs = [1, 1, 1, 1, 1, 1, 1, 1, 0];
    for i in 0..9 {
        assert_eq!(KINDS[i].text(), labels[i]);
        assert_eq!(KINDS[i].input_count(), inputs[i]);
        assert_eq!(KINDS[i].output_count(), outputs[i]);
    }
}

#[test]
fn roles_and_directions_have_their_names() {
    assert_eq!(PinType::Input.to_string(), "input");
    assert_eq!(PinType::Output.to_string(), "output");
    assert_eq!(Rotation::Up.to_string(), "up");
    assert_eq!(Rotation::Right.to_string(), "right");
    assert_eq!(Rotation::Down.to_string(), "down");
    assert_eq!(Rotation::Left.to_string(), "left");
}

#[test]
fn a_new_gate_has_the_unbound_pins_of_its_kind() {
    for kind in KINDS.iter() {
        let gate = Gate::new(Rotation::Right, *kind);
        assert_eq!(gate.gate_type, *kind);
        assert_eq!(gate.rotation, Rotation::Right);
        assert!(gate.active);
        assert_eq!(gate.input.len(), kind.input_count());
        assert_eq!(gate.output.len(), kind.output_count());
        assert_eq!(gate.get_pin_count(PinType::Input), kind.input_count());
        assert_eq!(gate.get_pin_count(PinType::Output), kind.output_count());
        for (index, pin) in gate.input.iter().enumerate() {
            assert_eq!(*pin, Pin { index, wire_index: None });
        }
        for (index, pin) in gate.output.iter().enumerate() {
            assert_eq!(*pin, Pin { index, wire_index: None });
        }
        let (input, output) = Gate::get_pins(*kind);
        assert_eq!(input, gate.input);
        assert_eq!(output, gate.output);
    }
}

#[test]
fn get_pin_checks_the_ordinal() {
    let mut gate = Gate::new(Rotation::Up, GateType::AND);
    let wire = WireKey::from_bits(7);
    gate.input[1].wire_index = Some(wire);
    assert_eq!(
        gate.get_pin(0, PinType::Input),
        Ok(Pin { index: 0, wire_index: None })
    );
    assert_eq!(
        gate.get_pin(1, PinType::Input),
        Ok(Pin { index: 1, wire_index: Some(wire) })
    );
    assert_eq!(gate.get_pin(2, PinType::Input), Err(CircuitError::InvalidPinIndex));
    assert_eq!(
        gate.get_pin(0, PinType::Output),
        Ok(Pin { index: 0, wire_index: None })
    );
    assert_eq!(gate.get_pin(1, PinType::Output), Err(CircuitError::InvalidPinIndex));
    let sink = Gate::new(Rotation::Up, GateType::OUT);
    assert_eq!(sink.get_pin(0, PinType::Output), Err(CircuitError::InvalidPinIndex));
    assert_eq!(
        sink.get_pin(usize::MAX, PinType::Input),
        Err(CircuitError::InvalidPinIndex)
    );
}

#[test]
fn a_gate_turns_and_is_copied() {
    let mut gate = Gate::new(Rotation::Up, GateType::XOR);
    gate.input[0].wire_index = Some(WireKey::from_bits(3));
    gate.active = false;
    let copy = gate.duplicate();
    assert_eq!(copy, gate);
    gate.change_rotation(Rotation::Left);
    assert_eq!(gate.rotation, Rotation::Left);
    assert_eq!(gate.input, copy.input);
    assert_eq!(gate.output, copy.output);
    assert_eq!(gate.gate_type, GateType::XOR);
    assert!(!gate.active);
    assert_eq!(copy.rotation, Rotation::Up);
}

fn pin(gate: u64, pin_index: usize) -> Connection {
    Connection { pin_index, gate_index: GateKey::from_bits(gate) }
}

#[test]
fn a_wire_is_made_of_its_parts() {
    let wire = Wire::new(pin(1, 0), vec![pin(2, 0), pin(2, 1)]);
    assert_eq!(wire.source, pin(1, 0));
    assert_eq!(wire.connections, vec![pin(2, 0), pin(2, 1)]);
    let bare = Wire::new(pin(1, 0), Vec::new());
    assert!(bare.connections.is_empty());
}

#[test]
fn find_pin_index_gives_the_last_place() {
    let list = vec![pin(2, 0), pin(2, 1), pin(3, 0), pin(2, 1)];
    let two = GateKey::from_bits(2);
    let three = GateKey::from_bits(3);
    assert_eq!(list.find_pin_index(two, 0), Some(0));
    assert_eq!(list.find_pin_index(two, 1), Some(3));
    assert_eq!(list.find_pin_index(three, 0), Some(2));
    assert_eq!(list.find_pin_index(three, 1), None);
    assert_eq!(list.find_pin_index(GateKey::from_bits(4), 0), None);
    assert_eq!(list[..1].find_pin_index(two, 1), None);
    let none: Vec<Connection> = Vec::new();
    assert_eq!(none.find_pin_index(two, 0), None);
}
