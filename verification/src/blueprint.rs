use vstd::prelude::*;
use std::collections::HashMap;
use crate::circuit::Circuit;
use crate::error::CircuitError;
use crate::gate::{GateView, Rotation};
use crate::gate_type::GateType;
use crate::keys::GateKey;
use crate::assemble::{lemma_described_valid, plans_valid};
use crate::invariants::well_formed;
use crate::model::CircuitView;
use crate::pins::Pin;
use crate::seq_facts::lemma_push_contains;
use crate::wires::Connection;

verus! {

/// An output pin of a gate of a plan: its gate by the place in the plan,
/// the pin by its ordinal.
#[derive(Clone, Copy, Debug, PartialEq, Eq, Structural)]
pub struct Socket {
    pub gate: usize,
    pub pin: usize,
}

/// One gate of a plan: what kind of gate it is, and for each of its input
/// pins the output pin within the plan that drives it, if one does.
#[derive(Clone, Debug, PartialEq, Eq)]
pub struct GatePlan {
    pub gate_type: GateType,
    pub rotation: Rotation,
    pub active: bool,
    pub inputs: Vec<Option<Socket>>,
}

/// A gate of a plan as a mathematical value.
pub struct GatePlanView {
    pub gate_type: GateType,
    pub rotation: Rotation,
    pub active: bool,
    pub inputs: Seq<Option<Socket>>,
}

impl View for GatePlan {
    type V = GatePlanView;

    open spec fn view(&self) -> GatePlanView {
        GatePlanView {
            gate_type: self.gate_type,
            rotation: self.rotation,
            active: self.active,
            inputs: self.inputs@,
        }
    }
}

/// Whether `place` is the first place in `keys` that holds `key`.
pub open spec fn is_first_place(keys: Seq<GateKey>, key: GateKey, place: int) -> bool {
    &&& 0 <= place < keys.len()
    &&& keys[place] == key
    &&& forall|j: int| 0 <= j < place ==> keys[j] != key
}

/// The source of the wire of `pin`, where that wire is present and its
/// source is on one of the gates in `selection`.
pub open spec fn inner_source(c: CircuitView, selection: Seq<GateKey>, pin: Pin) -> Option<
    Connection,
> {
    match pin.wire_index {
        Some(wire) => if c.wires.contains_key(wire) && selection.contains(
            c.wires[wire].source.gate_index,
        ) {
            Some(c.wires[wire].source)
        } else {
            None
        },
        None => None,
    }
}

/// Whether `socket` says what drives `pin` from within `selection`: the
/// source of the pin's wire, with its gate given by its first place in
/// `selection`; or nothing, where there is no such source.
pub open spec fn socket_for(
    c: CircuitView,
    selection: Seq<GateKey>,
    pin: Pin,
    socket: Option<Socket>,
) -> bool {
    match inner_source(c, selection, pin) {
        Some(source) => socket matches Some(s) && is_first_place(
            selection,
            source.gate_index,
            s.gate as int,
        ) && s.pin == source.pin_index,
        None => socket is None,
    }
}

/// Whether `plan` describes `gate` as a part of `selection`.
pub open spec fn describes(
    c: CircuitView,
    selection: Seq<GateKey>,
    gate: GateView,
    plan: GatePlanView,
) -> bool {
    &&& plan.gate_type == gate.gate_type
    &&& plan.rotation == gate.rotation
    &&& plan.active == gate.active
    &&& plan.inputs.len() == gate.input.len()
    &&& forall|p: int|
        0 <= p < gate.input.len() ==> socket_for(c, selection, gate.input[p], #[trigger] plan.inputs[p])
}

/// For each key the first place that holds it, under the bits of the key.
fn first_places(keys: &Vec<GateKey>) -> (places: HashMap<u64, usize>)
    ensures
        forall|key: GateKey| #[trigger]
            places@.contains_key(key.raw()) <==> keys@.contains(key),
        forall|key: GateKey|
            keys@.contains(key) ==> is_first_place(keys@, key, #[trigger] places@[key.raw()] as int),
{
    let mut places: HashMap<u64, usize> = HashMap::new();
    for i in 0..keys.len()
        invariant
            forall|key: GateKey| #[trigger]
                places@.contains_key(key.raw()) <==> keys@.take(i as int).contains(key),
            forall|key: GateKey|
                keys@.take(i as int).contains(key) ==> is_first_place(
                    keys@,
                    key,
                    #[trigger] places@[key.raw()] as int,
                ),
    {
        let key = keys[i];
        let bits = key.to_bits();
        let ghost before = places@;
        let known = places.contains_key(&bits);
        if !known {
            places.insert(bits, i);
        }
        proof {
            assert(keys@.take(i + 1) =~= keys@.take(i as int).push(key));
            assert forall|k: GateKey| #[trigger]
                places@.contains_key(k.raw()) <==> keys@.take(i + 1).contains(k) by {
                lemma_push_contains(keys@.take(i as int), key, k);
                if k.raw() == bits {
                    GateKey::lemma_raw_injective(k, key);
                }
                assert(before.contains_key(k.raw()) <==> keys@.take(i as int).contains(k));
            }
            assert forall|k: GateKey| keys@.take(i + 1).contains(k) implies is_first_place(
                keys@,
                k,
                #[trigger] places@[k.raw()] as int,
            ) by {
                lemma_push_contains(keys@.take(i as int), key, k);
                if k.raw() == bits {
                    GateKey::lemma_raw_injective(k, key);
                }
                if keys@.take(i as int).contains(k) {
                    assert(before.contains_key(k.raw()));
                    assert(is_first_place(keys@, k, before[k.raw()] as int));
                } else {
                    assert(k == key);
                    assert forall|j: int| 0 <= j < i implies keys@[j] != k by {
                        if keys@[j] == k {
                            assert(keys@.take(i as int)[j] == k);
                        }
                    }
                }
            }
        }
    }
    assert(keys@.take(keys.len() as int) =~= keys@);
    places
}

impl Circuit {
    /// What drives an input pin from within the gates whose first places
    /// are in `places`.
    fn socket_of(&self, places: &HashMap<u64, usize>, pin: &Pin, Ghost(selection): Ghost<
        Seq<GateKey>,
    >) -> (socket: Option<Socket>)
        requires
            forall|key: GateKey| #[trigger]
                places@.contains_key(key.raw()) <==> selection.contains(key),
            forall|key: GateKey|
                selection.contains(key) ==> is_first_place(
                    selection,
                    key,
                    #[trigger] places@[key.raw()] as int,
                ),
        ensures
            socket_for(self@, selection, *pin, socket),
    {
        match pin.wire_index {
            Some(key) => match self.wires.get(key) {
                Some(wire) => {
                    let bits = wire.source.gate_index.to_bits();
                    match places.get(&bits) {
                        Some(place) => Some(Socket { gate: *place, pin: wire.source.pin_index }),
                        None => None,
                    }
                },
                None => None,
            },
            None => None,
        }
    }

    /// A plan of the gates in `selection`, in that order, with the wires
    /// among them: each gate with its kind, direction and activity, and
    /// each input pin with the output pin that drives it, where that pin
    /// is on a gate of the selection. Wires from outside do not appear.
    ///
    /// Fails with `InvalidKey` if a key of the selection is not present.
    pub fn describe(&self, selection: &Vec<GateKey>) -> (r: Result<Vec<GatePlan>, CircuitError>)
        ensures
            match r {
                Ok(plans) => {
                    &&& plans@.len() == selection@.len()
                    &&& forall|i: int|
                        0 <= i < selection@.len() ==> self@.gates.contains_key(
                            #[trigger] selection@[i],
                        )
                    &&& forall|i: int|
                        0 <= i < selection@.len() ==> describes(
                            self@,
                            selection@,
                            self@.gates[selection@[i]],
                            (#[trigger] plans@[i])@,
                        )
                },
                Err(e) => e == CircuitError::InvalidKey && exists|i: int|
                    0 <= i < selection@.len() && !self@.gates.contains_key(
                        #[trigger] selection@[i],
                    ),
            },
            well_formed(self@) && r is Ok ==> plans_valid(r->Ok_0@),
    {
        let places = first_places(selection);
        let mut plans: Vec<GatePlan> = Vec::new();
        let mut i: usize = 0;
        while i < selection.len()
            invariant
                i <= selection@.len(),
                forall|key: GateKey| #[trigger]
                    places@.contains_key(key.raw()) <==> selection@.contains(key),
                forall|key: GateKey|
                    selection@.contains(key) ==> is_first_place(
                        selection@,
                        key,
                        #[trigger] places@[key.raw()] as int,
                    ),
                plans@.len() == i,
                forall|k: int| 0 <= k < i ==> self@.gates.contains_key(#[trigger] selection@[k]),
                forall|k: int|
                    0 <= k < i ==> describes(
                        self@,
                        selection@,
                        self@.gates[selection@[k]],
                        (#[trigger] plans@[k])@,
                    ),
            decreases selection@.len() - i,
        {
            let gate = match self.gates.get(selection[i]) {
                Some(gate) => gate,
                None => {
                    assert(!self@.gates.contains_key(selection@[i as int]));
                    return Err(CircuitError::InvalidKey);
                },
            };
            let mut inputs: Vec<Option<Socket>> = Vec::new();
            let mut p: usize = 0;
            while p < gate.input.len()
                invariant
                    p <= gate.input@.len(),
                    forall|key: GateKey| #[trigger]
                        places@.contains_key(key.raw()) <==> selection@.contains(key),
                    forall|key: GateKey|
                        selection@.contains(key) ==> is_first_place(
                            selection@,
                            key,
                            #[trigger] places@[key.raw()] as int,
                        ),
                    inputs@.len() == p,
                    forall|q: int|
                        0 <= q < p ==> socket_for(
                            self@,
                            selection@,
                            gate@.input[q],
                            #[trigger] inputs@[q],
                        ),
                decreases gate.input@.len() - p,
            {
                let socket = self.socket_of(&places, &gate.input[p], Ghost(selection@));
                inputs.push(socket);
                p = p + 1;
            }
            let plan = GatePlan {
                gate_type: gate.gate_type,
                rotation: gate.rotation,
                active: gate.active,
                inputs,
            };
            assert(describes(self@, selection@, self@.gates[selection@[i as int]], plan@));
            let ghost before = plans@;
            plans.push(plan);
            proof {
                assert forall|k: int| 0 <= k < i + 1 implies describes(
                    self@,
                    selection@,
                    self@.gates[selection@[k]],
                    (#[trigger] plans@[k])@,
                ) by {
                    if k < i {
                        assert(plans@[k] == before[k]);
                    } else {
                        assert(plans@[k] == plan);
                    }
                }
            }
            i = i + 1;
        }
        proof {
            if well_formed(self@) {
                lemma_described_valid(self@, selection@, plans@);
            }
        }
        Ok(plans)
    }
}

} // verus!
