use logic_sim::assemble::check_plans;
use logic_sim::blueprint::{GatePlan, Socket};
use logic_sim::circuit::Circuit;
use logic_sim::error::CircuitError;
use logic_sim::gate::Rotation;
use logic_sim::gate_table::MAX_ITEMS;
use logic_sim::gate_type::GateType;
use logic_sim::keys::GateKey;
use logic_sim::pin_type::PinType;
use logic_sim::wires::Connection;

fn put(circuit: &mut Circuit, kind: GateType) -> GateKey {
    assert!(circuit.gates.len() < MAX_ITEMS);
    circuit.add_gate(kind)
}

fn wire(circuit: &mut Circuit, from: GateKey, to: GateKey, to_pin: usize) {
    assert!(circuit.wires.len() < MAX_ITEMS);
    circuit
        .connect_wire(from, to, 0, PinType::Output, to_pin, PinType::Input)
        .unwrap();
}

fn build(circuit: &mut Circuit, plans: &Vec<GatePlan>) -> Result<Vec<GateKey>, CircuitError> {
    assert!(circuit.gates.len() + plans.len() <= MAX_ITEMS);
    assert!(circuit.wires.len() + plans.len() < MAX_ITEMS);
    circuit.assemble(plans)
}

fn plan(kind: GateType, inputs: Vec<Option<(usize, usize)>>) -> GatePlan {
    GatePlan {
        gate_type: kind,
        rotation: Rotation::Up,
        active: true,
        inputs: inputs
            .into_iter()
            .map(|s| s.map(|(gate, pin)| Socket { gate, pin }))
            .collect(),
    }
}

fn at(gate: GateKey, pin_index: usize) -> Connection {
    Connection { pin_index, gate_index: gate }
}

/// A latch of two NOR gates with a source on one side, and a sink.
fn latch(circuit: &mut Circuit) -> Vec<GateKey> {
    let set = put(circuit, GateType::IN);
    let upper = put(circuit, GateType::NOR);
    let lower = put(circuit, GateType::NOR);
    let seen = put(circuit, GateType::OUT);
    wire(circuit, set, upper, 0);
    wire(circuit, lower, upper, 1);
    wire(circuit, upper, lower, 0);
    wire(circuit, upper, seen, 0);
    vec![set, upper, lower, seen]
}

#[test]
fn describe_gives_each_gate_with_what_drives_it() {
    let mut c = Circuit::new();
    let keys = latch(&mut c);
    c.gates.get_mut(keys[2]).unwrap().change_rotation(Rotation::Left);
    c.gates.get_mut(keys[0]).unwrap().active = false;
    let plans = c.describe(&keys).unwrap();
    let mut lower = plan(GateType::NOR, vec![Some((1, 0)), None]);
    lower.rotation = Rotation::Left;
    let mut set = plan(GateType::IN, vec![]);
    set.active = false;
    assert_eq!(
        plans,
        vec![
            set,
            plan(GateType::NOR, vec![Some((0, 0)), Some((2, 0))]),
            lower,
            plan(GateType::OUT, vec![Some((1, 0))]),
        ]
    );
    assert!(check_plans(&plans));
}

#[test]
fn describe_leaves_out_wires_from_outside_the_selection() {
    let mut c = Circuit::new();
    let keys = latch(&mut c);
    let part = vec![keys[2], keys[1]];
    assert_eq!(
        c.describe(&part).unwrap(),
        vec![
            plan(GateType::NOR, vec![Some((1, 0)), None]),
            plan(GateType::NOR, vec![None, Some((0, 0))]),
        ]
    );
    assert_eq!(c.describe(&Vec::new()).unwrap(), Vec::new());
}

#[test]
fn describe_counts_a_gate_that_is_selected_twice_by_its_first_place() {
    let mut c = Circuit::new();
    let keys = latch(&mut c);
    let twice = vec![keys[3], keys[1], keys[1]];
    assert_eq!(
        c.describe(&twice).unwrap(),
        vec![
            plan(GateType::OUT, vec![Some((1, 0))]),
            plan(GateType::NOR, vec![None, None]),
            plan(GateType::NOR, vec![None, None]),
        ]
    );
}

#[test]
fn describe_skips_a_pin_whose_wire_is_gone() {
    let mut c = Circuit::new();
    let keys = latch(&mut c);
    let w = c.gates.get(keys[1]).unwrap().output[0].wire_index.unwrap();
    assert!(c.wires.remove(w).is_some());
    let plans = c.describe(&keys).unwrap();
    assert_eq!(plans[2], plan(GateType::NOR, vec![None, None]));
    assert_eq!(plans[3], plan(GateType::OUT, vec![None]));
    assert_eq!(plans[1], plan(GateType::NOR, vec![Some((0, 0)), Some((2, 0))]));
}

#[test]
fn describe_refuses_a_key_that_is_not_present() {
    let mut c = Circuit::new();
    let keys = latch(&mut c);
    assert_eq!(c.remove_gate(keys[3]), Ok(()));
    assert_eq!(c.describe(&keys), Err(CircuitError::InvalidKey));
    assert!(c.describe(&keys[..3].to_vec()).is_ok());
}

#[test]
fn assemble_adds_the_gates_and_wires_of_a_plan() {
    let mut c = Circuit::new();
    let old = latch(&mut c);
    let old_wires = c.wires.len();
    let plans = vec![
        plan(GateType::IN, vec![]),
        plan(GateType::AND, vec![Some((0, 0)), Some((2, 0))]),
        plan(GateType::NOT, vec![Some((0, 0))]),
        plan(GateType::OUT, vec![None]),
    ];
    let keys = build(&mut c, &plans).unwrap();
    assert_eq!(keys.len(), 4);
    for key in keys.iter() {
        assert!(!old.contains(key));
    }
    assert_eq!(c.gates.len(), 8);
    assert_eq!(c.wires.len(), old_wires + 2);
    let from_in = c.gates.get(keys[0]).unwrap().output[0].wire_index.unwrap();
    let from_not = c.gates.get(keys[2]).unwrap().output[0].wire_index.unwrap();
    assert_ne!(from_in, from_not);
    assert_eq!(c.gates.get(keys[1]).unwrap().output[0].wire_index, None);
    assert_eq!(c.gates.get(keys[1]).unwrap().input[0].wire_index, Some(from_in));
    assert_eq!(c.gates.get(keys[1]).unwrap().input[1].wire_index, Some(from_not));
    assert_eq!(c.gates.get(keys[2]).unwrap().input[0].wire_index, Some(from_in));
    assert_eq!(c.gates.get(keys[3]).unwrap().input[0].wire_index, None);
    assert_eq!(c.wires.get(from_in).unwrap().source, at(keys[0], 0));
    assert_eq!(
        c.wires.get(from_in).unwrap().connections,
        vec![at(keys[1], 0), at(keys[2], 0)]
    );
    assert_eq!(c.wires.get(from_not).unwrap().source, at(keys[2], 0));
    assert_eq!(c.wires.get(from_not).unwrap().connections, vec![at(keys[1], 1)]);
    assert_eq!(c.get_wire(from_in), Ok(false));
    assert_eq!(c.wires_write.get(from_not), Some(false));
    for (key, plan) in keys.iter().zip(plans.iter()) {
        let gate = c.gates.get(*key).unwrap();
        assert_eq!(gate.gate_type, plan.gate_type);
        assert_eq!(gate.rotation, plan.rotation);
        assert_eq!(gate.active, plan.active);
    }
    // What was there is as it was.
    assert_eq!(c.describe(&old).unwrap(), {
        let mut again = Circuit::new();
        let keys = latch(&mut again);
        again.describe(&keys).unwrap()
    });
}

#[test]
fn assemble_keeps_direction_and_activity() {
    let mut c = Circuit::new();
    let mut turned = plan(GateType::XOR, vec![None, None]);
    turned.rotation = Rotation::Down;
    turned.active = false;
    let keys = build(&mut c, &vec![turned.clone()]).unwrap();
    let gate = c.gates.get(keys[0]).unwrap();
    assert_eq!(gate.rotation, Rotation::Down);
    assert!(!gate.active);
    assert_eq!(c.describe(&keys).unwrap(), vec![turned]);
}

#[test]
fn assemble_refuses_a_plan_that_is_not_valid() {
    let mut c = Circuit::new();
    let old = latch(&mut c);
    let described = c.describe(&old).unwrap();
    let bad = vec![
        vec![plan(GateType::AND, vec![None])],
        vec![plan(GateType::NOT, vec![None, None])],
        vec![plan(GateType::IN, vec![None])],
        vec![plan(GateType::NOT, vec![Some((1, 0))])],
        vec![plan(GateType::NOT, vec![Some((0, 1))])],
        vec![
            plan(GateType::OUT, vec![None]),
            plan(GateType::NOT, vec![Some((0, 0))]),
        ],
    ];
    for plans in bad.iter() {
        assert!(!check_plans(plans));
        assert_eq!(build(&mut c, plans), Err(CircuitError::InvalidPinIndex));
        assert_eq!(c.gates.len(), 4);
        assert_eq!(c.wires.len(), 3);
        assert_eq!(c.describe(&old).unwrap(), described);
    }
    assert!(check_plans(&Vec::new()));
    assert_eq!(build(&mut c, &Vec::new()), Ok(Vec::new()));
    assert!(check_plans(&vec![plan(GateType::NOT, vec![Some((0, 0))])]));
}

#[test]
fn a_copy_of_a_selection_has_the_wires_among_its_gates() {
    let mut c = Circuit::new();
    let keys = latch(&mut c);
    let part = vec![keys[1], keys[2]];
    let plans = c.describe(&part).unwrap();
    let copies = build(&mut c, &plans).unwrap();
    assert_eq!(c.gates.len(), 6);
    assert_eq!(c.wires.len(), 5);
    let upper = c.gates.get(copies[0]).unwrap().clone();
    let lower = c.gates.get(copies[1]).unwrap().clone();
    assert_eq!(upper.input[0].wire_index, None);
    assert_eq!(upper.input[1].wire_index, lower.output[0].wire_index);
    assert_eq!(lower.input[0].wire_index, upper.output[0].wire_index);
    assert_eq!(lower.input[1].wire_index, None);
    let up = upper.output[0].wire_index.unwrap();
    assert_eq!(c.wires.get(up).unwrap().connections, vec![at(copies[1], 0)]);
    // The wires of the first gates are untouched.
    let first = c.gates.get(keys[1]).unwrap().output[0].wire_index.unwrap();
    assert_eq!(
        c.wires.get(first).unwrap().connections,
        vec![at(keys[2], 0), at(keys[3], 0)]
    );
    assert_eq!(c.tick(), Ok(()));
}

fn levels(circuit: &mut Circuit, keys: &Vec<GateKey>, ticks: usize) -> Vec<Vec<Option<bool>>> {
    let mut seen = Vec::new();
    for _ in 0..ticks {
        assert_eq!(circuit.tick(), Ok(()));
        let mut row = Vec::new();
        for key in keys.iter() {
            let gate = circuit.gates.get(*key).unwrap();
            row.push(gate.output.first().map(|pin| {
                circuit.get_wire(pin.wire_index.unwrap()).unwrap()
            }));
        }
        row.push(Some(circuit.emulation_done));
        seen.push(row);
    }
    seen
}

#[test]
fn a_circuit_built_from_the_plan_of_another_ticks_as_the_other_does() {
    let mut first = Circuit::new();
    let ring = put(&mut first, GateType::NOT);
    wire(&mut first, ring, ring, 0);
    let keys = {
        let mut keys = latch(&mut first);
        keys.push(ring);
        keys
    };
    let lower = keys[2];
    let xor = put(&mut first, GateType::XNOR);
    wire(&mut first, lower, xor, 0);
    wire(&mut first, ring, xor, 1);
    let out = put(&mut first, GateType::OUT);
    wire(&mut first, xor, out, 0);
    let mut all = keys.clone();
    all.push(xor);
    let driving: Vec<GateKey> = all.clone();
    all.push(out);

    let plans = first.describe(&all).unwrap();
    let mut second = Circuit::new();
    let copies = build(&mut second, &plans).unwrap();
    assert_eq!(second.describe(&copies).unwrap(), plans);
    assert_eq!(second.gates.len(), first.gates.len());
    assert_eq!(second.wires.len(), first.wires.len());

    let theirs: Vec<GateKey> = copies[..driving.len()].to_vec();
    let ours = driving_only(&first, &driving);
    let theirs = driving_only(&second, &theirs);
    assert_eq!(ours.len(), theirs.len());
    let a = levels(&mut first, &ours, 8);
    let b = levels(&mut second, &theirs, 8);
    assert_eq!(a, b);
    assert!(a.iter().any(|row| row.contains(&Some(true))));
}

/// The gates whose output pin is bound.
fn driving_only(circuit: &Circuit, keys: &Vec<GateKey>) -> Vec<GateKey> {
    keys.iter()
        .copied()
        .filter(|key| {
            let gate = circuit.gates.get(*key).unwrap();
            gate.output.iter().all(|pin| pin.wire_index.is_some())
        })
        .collect()
}
