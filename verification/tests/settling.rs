use logic_sim::circuit::Circuit;
use logic_sim::error::CircuitError;
use logic_sim::gate::{Gate, Rotation};
use logic_sim::gate_table::MAX_ITEMS;
use logic_sim::gate_type::GateType;
use logic_sim::keys::{GateKey, WireKey};
use logic_sim::pin_type::PinType;

fn place(circuit: &mut Circuit, kind: GateType) -> GateKey {
    assert!(circuit.gates.len() < MAX_ITEMS);
    circuit.add_gate(kind)
}

fn join(circuit: &mut Circuit, from: GateKey, to: GateKey, to_pin: usize) {
    assert!(circuit.wires.len() < MAX_ITEMS);
    circuit
        .connect_wire(from, to, 0, PinType::Output, to_pin, PinType::Input)
        .unwrap();
}

fn output_wire(circuit: &Circuit, gate: GateKey) -> WireKey {
    circuit.gates.get(gate).unwrap().output[0].wire_index.unwrap()
}

/// The levels of `wire` after each of `count` ticks, with the flag.
fn run(circuit: &mut Circuit, wire: WireKey, count: usize) -> Vec<(bool, bool)> {
    let mut seen = Vec::new();
    for _ in 0..count {
        assert_eq!(circuit.tick(), Ok(()));
        seen.push((circuit.get_wire(wire).unwrap(), circuit.emulation_done));
    }
    seen
}

#[test]
fn and_gate_settles_to_true() {
    let mut circuit = Circuit::new();
    let source = place(&mut circuit, GateType::IN);
    let and = place(&mut circuit, GateType::AND);
    let sink = place(&mut circuit, GateType::OUT);
    join(&mut circuit, source, and, 0);
    join(&mut circuit, source, and, 1);
    join(&mut circuit, and, sink, 0);
    let observed = circuit.gates.get(sink).unwrap().input[0].wire_index.unwrap();
    assert_eq!(observed, output_wire(&circuit, and));
    assert!(!circuit.emulation_done);

    assert_eq!(
        run(&mut circuit, observed, 4),
        vec![(false, false), (true, false), (true, true), (true, true)]
    );
    assert_eq!(circuit.get_wire(output_wire(&circuit, source)), Ok(true));
}

#[test]
fn not_gate_settles_to_false_and_again_after_reset() {
    let mut circuit = Circuit::new();
    let source = place(&mut circuit, GateType::IN);
    let not = place(&mut circuit, GateType::NOT);
    let sink = place(&mut circuit, GateType::OUT);
    join(&mut circuit, source, not, 0);
    join(&mut circuit, not, sink, 0);
    let observed = output_wire(&circuit, not);

    let first = run(&mut circuit, observed, 3);
    assert_eq!(first, vec![(true, false), (false, false), (false, true)]);

    circuit.reset_wires();
    assert_eq!(circuit.get_wire(observed), Ok(false));
    assert_eq!(circuit.get_wire(output_wire(&circuit, source)), Ok(false));
    assert_eq!(circuit.wires_write.get(observed), Some(false));
    assert_eq!(circuit.wires_write.get(output_wire(&circuit, source)), Some(false));
    let second = run(&mut circuit, observed, 3);
    assert_eq!(first, second);
}

#[test]
fn two_circuits_built_alike_tick_alike() {
    let mut runs: Vec<Vec<(bool, bool)>> = Vec::new();
    for _ in 0..2 {
        let mut circuit = Circuit::new();
        let source = place(&mut circuit, GateType::IN);
        let nor = place(&mut circuit, GateType::NOR);
        let xor = place(&mut circuit, GateType::XOR);
        join(&mut circuit, source, nor, 0);
        join(&mut circuit, nor, nor, 1);
        join(&mut circuit, nor, xor, 0);
        join(&mut circuit, source, xor, 1);
        let observed = output_wire(&circuit, xor_or(&circuit, xor, nor));
        runs.push(run(&mut circuit, observed, 6));
    }
    assert_eq!(runs[0], runs[1]);
    assert_eq!(
        runs[0],
        vec![
            (true, false),
            (false, false),
            (false, true),
            (false, true),
            (false, true),
            (false, true)
        ]
    );
}

/// The XOR gate has no wire on its output: the NOR gate's is observed.
fn xor_or(circuit: &Circuit, xor: GateKey, nor: GateKey) -> GateKey {
    if circuit.gates.get(xor).unwrap().output[0].wire_index.is_some() {
        xor
    } else {
        nor
    }
}

#[test]
fn a_ring_of_one_inverter_never_settles() {
    let mut circuit = Circuit::new();
    let not = place(&mut circuit, GateType::NOT);
    join(&mut circuit, not, not, 0);
    let wire = output_wire(&circuit, not);
    assert_eq!(
        run(&mut circuit, wire, 4),
        vec![(true, false), (false, false), (true, false), (false, false)]
    );
}

#[test]
fn two_drivers_on_one_wire_are_a_short_circuit() {
    let mut circuit = Circuit::new();
    let source = place(&mut circuit, GateType::IN);
    let not = place(&mut circuit, GateType::NOT);
    let sink = place(&mut circuit, GateType::OUT);
    join(&mut circuit, source, sink, 0);
    let wire = output_wire(&circuit, source);
    // The inverter has a floating input and drives true, as the source does.
    circuit.gates.get_mut(not).unwrap().output[0].wire_index = Some(wire);
    assert_eq!(circuit.tick(), Ok(()));
    assert_eq!(circuit.get_wire(wire), Ok(true));
    // Now its input reads the wire, which is true, so it drives false.
    circuit.gates.get_mut(not).unwrap().input[0].wire_index = Some(wire);
    let done = circuit.emulation_done;
    assert_eq!(circuit.tick(), Err(CircuitError::ShortCircuit(wire)));
    assert_eq!(circuit.get_wire(wire), Ok(true));
    assert_eq!(circuit.wires_write.get(wire), Some(false));
    assert_eq!(circuit.emulation_done, done);
}

#[test]
fn buffers_that_cover_different_keys_stop_the_tick() {
    let mut circuit = Circuit::new();
    let source = place(&mut circuit, GateType::IN);
    let sink = place(&mut circuit, GateType::OUT);
    let other = place(&mut circuit, GateType::OUT);
    join(&mut circuit, source, sink, 0);
    let wire = output_wire(&circuit, source);
    assert_eq!(circuit.wires_write.remove(wire), Some(false));
    assert_eq!(circuit.tick(), Err(CircuitError::BufferMismatch));
    assert_eq!(circuit.get_wire(wire), Ok(false));
    assert!(!circuit.emulation_done);
    // The same number of keys, but not the same keys.
    let mut spare = Circuit::new();
    for _ in 0..3 {
        place(&mut spare, GateType::IN);
    }
    let a = place(&mut spare, GateType::IN);
    let b = place(&mut spare, GateType::NOT);
    let d = place(&mut spare, GateType::NOT);
    join(&mut spare, a, b, 0);
    join(&mut spare, b, d, 0);
    let foreign = output_wire(&spare, b);
    assert_ne!(foreign.to_bits() & 0xffff_ffff, wire.to_bits() & 0xffff_ffff);
    assert_eq!(circuit.wires_write.insert(foreign, false), None);
    assert_eq!(circuit.wires_write.len(), circuit.wires_read.len());
    assert_eq!(circuit.tick(), Err(CircuitError::BufferMismatch));
    let _ = other;
}

#[test]
fn a_driver_of_a_wire_without_level_stops_the_tick() {
    let mut circuit = Circuit::new();
    let source = place(&mut circuit, GateType::IN);
    let sink = place(&mut circuit, GateType::OUT);
    join(&mut circuit, source, sink, 0);
    let wire = output_wire(&circuit, source);
    assert_eq!(circuit.wires_read.remove(wire), Some(false));
    assert_eq!(circuit.wires_write.remove(wire), Some(false));
    assert_eq!(circuit.tick(), Err(CircuitError::InvalidKey));
    assert_eq!(circuit.get_wire(wire), Err(CircuitError::InvalidKey));
}

#[test]
fn a_wire_without_driver_keeps_the_level_of_the_write_buffer() {
    let mut circuit = Circuit::new();
    let source = place(&mut circuit, GateType::IN);
    let sink = place(&mut circuit, GateType::OUT);
    join(&mut circuit, source, sink, 0);
    let wire = output_wire(&circuit, source);
    circuit.gates.get_mut(source).unwrap().output[0].wire_index = None;
    assert_eq!(circuit.set_wire(wire, true), Ok(()));
    assert_eq!(circuit.wires_write.set(wire, false), true);
    assert_eq!(circuit.tick(), Ok(()));
    assert_eq!(circuit.get_wire(wire), Ok(false));
    assert_eq!(circuit.wires_write.get(wire), Some(true));
    assert!(!circuit.emulation_done);
    assert_eq!(circuit.tick(), Ok(()));
    assert_eq!(circuit.get_wire(wire), Ok(true));
    assert!(!circuit.emulation_done);
}

#[test]
fn set_wire_and_get_wire() {
    let mut circuit = Circuit::new();
    let source = place(&mut circuit, GateType::IN);
    let sink = place(&mut circuit, GateType::OUT);
    join(&mut circuit, source, sink, 0);
    let wire = output_wire(&circuit, source);
    assert_eq!(circuit.get_wire(wire), Ok(false));
    assert_eq!(circuit.set_wire(wire, true), Ok(()));
    assert_eq!(circuit.get_wire(wire), Ok(true));
    assert_eq!(circuit.wires_write.get(wire), Some(true));
    assert_eq!(circuit.disconnect(sink, 0, PinType::Input), Ok(()));
    assert_eq!(circuit.set_wire(wire, true), Err(CircuitError::InvalidKey));
    assert_eq!(circuit.get_wire(wire), Err(CircuitError::InvalidKey));
}

fn level_of(kind: GateType, a: bool, b: bool) -> bool {
    let mut circuit = Circuit::new();
    let high = place(&mut circuit, GateType::IN);
    let gate = place(&mut circuit, kind);
    let sink = place(&mut circuit, GateType::OUT);
    let inputs = circuit.gates.get(gate).unwrap().input.len();
    if a && inputs > 0 {
        join(&mut circuit, high, gate, 0);
    }
    if b && inputs > 1 {
        join(&mut circuit, high, gate, 1);
    }
    join(&mut circuit, gate, sink, 0);
    let wire = output_wire(&circuit, gate);
    assert_eq!(circuit.tick(), Ok(()));
    assert_eq!(circuit.tick(), Ok(()));
    circuit.get_wire(wire).unwrap()
}

#[test]
fn every_kind_follows_its_truth_table() {
    let rows = [(false, false), (false, true), (true, false), (true, true)];
    let expect = |kind: GateType, want: [bool; 4]| {
        for (row, wanted) in rows.iter().zip(want.iter()) {
            assert_eq!(level_of(kind, row.0, row.1), *wanted);
            assert_eq!(kind.apply(row.0, row.1), *wanted);
        }
    };
    expect(GateType::AND, [false, false, false, true]);
    expect(GateType::OR, [false, true, true, true]);
    expect(GateType::NAND, [true, true, true, false]);
    expect(GateType::NOR, [true, false, false, false]);
    expect(GateType::XOR, [false, true, true, false]);
    expect(GateType::XNOR, [true, false, false, true]);
    expect(GateType::NOT, [true, true, false, false]);
    expect(GateType::IN, [true, true, true, true]);
    for row in rows.iter() {
        assert_eq!(GateType::OUT.apply(row.0, row.1), false);
    }
}

#[test]
fn evaluate_reads_floating_and_missing_inputs_as_false() {
    let mut circuit = Circuit::new();
    let high = place(&mut circuit, GateType::IN);
    let nand = place(&mut circuit, GateType::NAND);
    join(&mut circuit, high, nand, 0);
    let wire = output_wire(&circuit, high);
    assert_eq!(circuit.set_wire(wire, true), Ok(()));
    let gate = circuit.gates.get(nand).unwrap().clone();
    assert_eq!(circuit.evaluate(&gate), true);
    let mut both = gate.clone();
    both.input[1].wire_index = Some(wire);
    assert_eq!(circuit.evaluate(&both), false);
    // A pin whose wire has no level reads as false.
    let mut stale = both.clone();
    assert_eq!(circuit.wires_read.remove(wire), Some(true));
    assert_eq!(circuit.evaluate(&stale), true);
    // So does a pin that is not there.
    stale.input.clear();
    assert_eq!(circuit.evaluate(&stale), true);
    let loose = Gate::new(Rotation::Up, GateType::NOR);
    assert_eq!(circuit.evaluate(&loose), true);
    assert_eq!(circuit.evaluate(&Gate::new(Rotation::Up, GateType::OUT)), false);
    assert_eq!(circuit.evaluate(&Gate::new(Rotation::Up, GateType::IN)), true);
}

#[test]
fn an_empty_circuit_is_settled_after_one_tick() {
    let mut circuit = Circuit::new();
    assert!(!circuit.emulation_done);
    assert_eq!(circuit.gates.len(), 0);
    assert_eq!(circuit.wires.len(), 0);
    assert_eq!(circuit.tick(), Ok(()));
    assert!(circuit.emulation_done);
    circuit.reset_wires();
    assert!(circuit.emulation_done);
}
