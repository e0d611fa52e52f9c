use vstd::prelude::*;
use crate::blueprint::{describes, is_first_place, socket_for, GatePlan, Socket};
use crate::circuit::Circuit;
use crate::error::CircuitError;
use crate::gate::Gate;
use crate::gate_table::MAX_ITEMS;
use crate::invariants::{
    bound, buffers_cover, lemma_insert_gate_well_formed, unbound_gate, well_formed,
};
use crate::keys::{GateKey, WireKey};
use crate::frame::same_shape;
use crate::invariants::{lemma_bind_reads, lemma_shape_pins};
use crate::model::issuable;
use crate::model::{end, pin_exists, wire_at, CircuitView};
use crate::wires::{Connection, WireView};
use crate::pin_type::PinType;

verus! {

/// Whether a socket, if there is one, names an output pin of a gate of the
/// plan.
pub open spec fn socket_valid(plans: Seq<GatePlan>, socket: Option<Socket>) -> bool {
    match socket {
        Some(s) => s.gate < plans.len() && s.pin < plans[s.gate as int].gate_type.outputs(),
        None => true,
    }
}

/// Whether a gate of a plan has one entry for each input pin of its kind,
/// and valid sockets.
pub open spec fn plan_valid(plans: Seq<GatePlan>, plan: GatePlan) -> bool {
    &&& plan.inputs@.len() == plan.gate_type.inputs()
    &&& forall|p: int|
        0 <= p < plan.inputs@.len() ==> socket_valid(plans, #[trigger] plan.inputs@[p])
}

/// Whether every gate of a plan is valid.
pub open spec fn plans_valid(plans: Seq<GatePlan>) -> bool {
    forall|i: int| 0 <= i < plans.len() ==> plan_valid(plans, #[trigger] plans[i])
}

/// Whether what a circuit held before is still there and as it was: the
/// gates are those from before and those under `keys`; the gates and wires
/// from before, and the levels of those wires, are unchanged; so is the
/// settlement flag.
pub open spec fn kept(before: CircuitView, now: CircuitView, keys: Seq<GateKey>) -> bool {
    &&& forall|g: GateKey| #[trigger]
        now.gates.contains_key(g) <==> before.gates.contains_key(g) || keys.contains(g)
    &&& forall|g: GateKey| #[trigger] before.gates.contains_key(g) ==> now.gates[g] == before.gates[g]
    &&& forall|w: WireKey| #[trigger]
        before.wires.contains_key(w) ==> now.wires.contains_key(w) && now.wires[w]
            == before.wires[w]
    &&& forall|w: WireKey|
        before.wires.contains_key(w) && #[trigger] before.read.contains_key(w)
            ==> now.read.contains_key(w) && now.read[w] == before.read[w]
    &&& forall|w: WireKey|
        before.wires.contains_key(w) && #[trigger] before.write.contains_key(w)
            ==> now.write.contains_key(w) && now.write[w] == before.write[w]
    &&& now.emulation_done == before.emulation_done
}

/// Whether the keys are distinct and none of them was in use.
pub open spec fn fresh_keys(before: CircuitView, keys: Seq<GateKey>) -> bool {
    &&& keys.no_duplicates()
    &&& forall|i: int| 0 <= i < keys.len() ==> !before.gates.contains_key(#[trigger] keys[i])
}

/// Whether under each key there is a well-formed gate with the kind,
/// direction and activity that the plan gives at that place.
pub open spec fn built(now: CircuitView, plans: Seq<GatePlan>, keys: Seq<GateKey>) -> bool {
    forall|i: int|
        0 <= i < keys.len() ==> {
            &&& now.gates.contains_key(#[trigger] keys[i])
            &&& now.gates[keys[i]].gate_type == plans[i].gate_type
            &&& now.gates[keys[i]].rotation == plans[i].rotation
            &&& now.gates[keys[i]].active == plans[i].active
            &&& now.gates[keys[i]].well_formed()
        }
}

/// Whether input `pin` of `gate` is on a wire that was made since
/// `before`, that has the socket's pin as its source and `pin` among its
/// sinks, and that the socket's pin is bound to.
pub open spec fn feeds(
    before: CircuitView,
    now: CircuitView,
    keys: Seq<GateKey>,
    socket: Socket,
    gate: GateKey,
    pin: usize,
) -> bool {
    let source = end(keys[socket.gate as int], socket.pin);
    match wire_at(now.gates, gate, PinType::Input, pin) {
        Some(w) => {
            &&& !before.wires.contains_key(w)
            &&& now.wires.contains_key(w)
            &&& now.wires[w].source == source
            &&& wire_at(now.gates, source.gate_index, PinType::Output, source.pin_index) == Some(w)
            &&& now.wires[w].connections.contains(end(gate, pin))
        },
        None => false,
    }
}

/// Whether input `pin` of gate number `gate` comes before input `p` of gate
/// number `i`, in the order in which a plan is wired.
pub open spec fn done_before(i: int, p: int, gate: int, pin: int) -> bool {
    gate < i || (gate == i && pin < p)
}

/// What a plan gives for input `pin` of its gate number `gate`.
pub open spec fn plan_socket(plans: Seq<GatePlan>, gate: int, pin: int) -> Option<Socket> {
    plans[gate].inputs@[pin]
}

/// Whether the input pins before input `p` of gate number `i` are wired as
/// the plan says, and the other input pins of the new gates are unbound.
pub open spec fn inputs_wired(
    before: CircuitView,
    now: CircuitView,
    plans: Seq<GatePlan>,
    keys: Seq<GateKey>,
    i: int,
    p: int,
) -> bool {
    forall|g: int, q: int|
        0 <= g < plans.len() && 0 <= q < plans[g].inputs@.len() ==> match #[trigger] plan_socket(
            plans,
            g,
            q,
        ) {
            Some(s) => if done_before(i, p, g, q) {
                feeds(before, now, keys, s, keys[g], q as usize)
            } else {
                wire_at(now.gates, keys[g], PinType::Input, q as usize) is None
            },
            None => wire_at(now.gates, keys[g], PinType::Input, q as usize) is None,
        }
}

/// Whether every wire made since `before` joins pins of the new gates that
/// are bound to it.
pub open spec fn new_wires_bound(before: CircuitView, now: CircuitView, keys: Seq<GateKey>) -> bool {
    &&& forall|w: WireKey| #[trigger]
        now.wires.contains_key(w) && !before.wires.contains_key(w) ==> keys.contains(
            now.wires[w].source.gate_index,
        ) && bound(
            now.gates,
            now.wires[w].source.gate_index,
            PinType::Output,
            now.wires[w].source.pin_index,
            w,
        )
    &&& forall|w: WireKey, j: int|
        now.wires.contains_key(w) && !before.wires.contains_key(w) && 0 <= j
            < now.wires[w].connections.len() ==> keys.contains(
            (#[trigger] now.wires[w].connections[j]).gate_index,
        ) && bound(
            now.gates,
            now.wires[w].connections[j].gate_index,
            PinType::Input,
            now.wires[w].connections[j].pin_index,
            w,
        )
}

/// Whether `pin` is an input pin of a new gate that comes before input `p`
/// of gate number `i`.
pub open spec fn wired_pin(keys: Seq<GateKey>, i: int, p: int, pin: Connection) -> bool {
    exists|g: int|
        0 <= g < keys.len() && (#[trigger] keys[g]) == pin.gate_index && done_before(
            i,
            p,
            g,
            pin.pin_index as int,
        )
}

/// Whether pin `a` comes before pin `b` in the order in which a plan is
/// wired: its gate has the earlier place, or the two are pins of one gate
/// and `a` has the lower ordinal.
pub open spec fn comes_before(keys: Seq<GateKey>, a: Connection, b: Connection) -> bool {
    exists|ga: int, gb: int|
        0 <= ga < keys.len() && 0 <= gb < keys.len() && (#[trigger] keys[ga]) == a.gate_index && (
        #[trigger] keys[gb]) == b.gate_index && (ga < gb || (ga == gb && a.pin_index
            < b.pin_index))
}

/// Whether the sinks of every wire made since `before` are input pins
/// that come before input `p` of gate number `i`, in the order in which a
/// plan is wired.
pub open spec fn new_sinks_ordered(
    before: CircuitView,
    now: CircuitView,
    keys: Seq<GateKey>,
    i: int,
    p: int,
) -> bool {
    &&& forall|w: WireKey, x: int|
        now.wires.contains_key(w) && !before.wires.contains_key(w) && 0 <= x
            < now.wires[w].connections.len() ==> wired_pin(
            keys,
            i,
            p,
            #[trigger] now.wires[w].connections[x],
        )
    &&& forall|w: WireKey, x: int, y: int|
        now.wires.contains_key(w) && !before.wires.contains_key(w) && 0 <= x < y
            < now.wires[w].connections.len() ==> comes_before(
            keys,
            #[trigger] now.wires[w].connections[x],
            #[trigger] now.wires[w].connections[y],
        )
}

/// Whether the plan gives `socket` for input `pin` of its gate number
/// `gate`.
pub open spec fn named_by(plans: Seq<GatePlan>, gate: int, pin: int, socket: Socket) -> bool {
    &&& 0 <= gate < plans.len()
    &&& 0 <= pin < plans[gate].inputs@.len()
    &&& plans[gate].inputs@[pin] == Some(socket)
}

/// Whether every bound output pin of a new gate is the source of a wire
/// made since `before`, and is named by the plan for an input pin before
/// input `p` of gate number `i`.
pub open spec fn outputs_wired(
    before: CircuitView,
    now: CircuitView,
    plans: Seq<GatePlan>,
    keys: Seq<GateKey>,
    i: int,
    p: int,
) -> bool {
    forall|j: int, q: usize, w: WireKey|
        0 <= j < keys.len() && #[trigger] bound(now.gates, keys[j], PinType::Output, q, w) ==> {
            &&& now.wires.contains_key(w)
            &&& !before.wires.contains_key(w)
            &&& now.wires[w].source == end(keys[j], q)
            &&& exists|g: int, r: int|
                done_before(i, p, g, r) && #[trigger] named_by(
                    plans,
                    g,
                    r,
                    Socket { gate: j as usize, pin: q },
                )
        }
}

/// Whether, if the buffers covered the wires before, they do now, with the
/// level false for each wire made since.
pub open spec fn new_levels_low(before: CircuitView, now: CircuitView) -> bool {
    buffers_cover(before) ==> buffers_cover(now) && forall|w: WireKey| #[trigger]
        now.wires.contains_key(w) && !before.wires.contains_key(w) ==> now.read[w] == false
            && now.write[w] == false
}

/// Whether `now` is `before` with the gates of the plan added under
/// `keys`, and wired as the plan says up to input `p` of gate number `i`.
pub open spec fn wired_up_to(
    before: CircuitView,
    now: CircuitView,
    plans: Seq<GatePlan>,
    keys: Seq<GateKey>,
    i: int,
    p: int,
) -> bool {
    &&& keys.len() == plans.len()
    &&& kept(before, now, keys)
    &&& fresh_keys(before, keys)
    &&& built(now, plans, keys)
    &&& inputs_wired(before, now, plans, keys, i, p)
    &&& new_wires_bound(before, now, keys)
    &&& new_sinks_ordered(before, now, keys, i, p)
    &&& outputs_wired(before, now, plans, keys, i, p)
    &&& new_levels_low(before, now)
}

/// Whether `now` is `before` with the gates of the plan added under `keys`
/// and wired as the plan says: what was there is kept; the keys are new and
/// distinct; each new gate is as its plan says; an input pin is bound
/// exactly if the plan gives it a socket, and then to a new wire from that
/// socket's pin, whose sinks are the pins for which the plan names that
/// socket, in the order of the plan; an output pin is bound only if the
/// plan names it; and each new wire has the level false, if the buffers
/// covered the wires before.
pub open spec fn assembled(
    before: CircuitView,
    now: CircuitView,
    plans: Seq<GatePlan>,
    keys: Seq<GateKey>,
) -> bool {
    wired_up_to(before, now, plans, keys, plans.len() as int, 0)
}

/// Whether a gate of a plan is valid.
fn check_plan(plans: &Vec<GatePlan>, plan: &GatePlan) -> (ok: bool)
    ensures
        ok == plan_valid(plans@, *plan),
{
    if plan.inputs.len() != plan.gate_type.input_count() {
        return false;
    }
    let mut p: usize = 0;
    while p < plan.inputs.len()
        invariant
            p <= plan.inputs@.len(),
            forall|q: int| 0 <= q < p ==> socket_valid(plans@, #[trigger] plan.inputs@[q]),
        decreases plan.inputs@.len() - p,
    {
        match plan.inputs[p] {
            Some(s) => {
                if s.gate >= plans.len() {
                    assert(!socket_valid(plans@, plan.inputs@[p as int]));
                    return false;
                }
                if s.pin >= plans[s.gate].gate_type.output_count() {
                    assert(!socket_valid(plans@, plan.inputs@[p as int]));
                    return false;
                }
            },
            None => {},
        }
        p = p + 1;
    }
    true
}

/// Whether every gate of a plan is valid.
pub fn check_plans(plans: &Vec<GatePlan>) -> (ok: bool)
    ensures
        ok == plans_valid(plans@),
{
    let mut i: usize = 0;
    while i < plans.len()
        invariant
            i <= plans@.len(),
            forall|k: int| 0 <= k < i ==> plan_valid(plans@, #[trigger] plans@[k]),
        decreases plans@.len() - i,
    {
        if !check_plan(plans, &plans[i]) {
            assert(!plan_valid(plans@, plans@[i as int]));
            return false;
        }
        i = i + 1;
    }
    true
}

impl Circuit {
    /// Adds the gates of a plan, without wires.
    fn add_planned(&mut self, plans: &Vec<GatePlan>) -> (keys: Vec<GateKey>)
        requires
            plans_valid(plans@),
            old(self)@.gates.dom().len() + plans@.len() <= MAX_ITEMS,
        ensures
            wired_up_to(old(self)@, final(self)@, plans@, keys@, 0, 0),
            final(self)@.wires == old(self)@.wires,
            final(self)@.read == old(self)@.read,
            final(self)@.write == old(self)@.write,
            well_formed(old(self)@) ==> well_formed(final(self)@),
    {
        let ghost start = self@.gates.dom().len();
        let count = self.gates.len();
        let mut keys: Vec<GateKey> = Vec::new();
        let mut k: usize = 0;
        while k < plans.len()
            invariant
                k <= plans@.len(),
                keys@.len() == k,
                start + plans@.len() <= MAX_ITEMS,
                self@.gates.dom().finite(),
                self@.gates.dom().len() == start + k,
                self@.wires == old(self)@.wires,
                self@.read == old(self)@.read,
                self@.write == old(self)@.write,
                self@.emulation_done == old(self)@.emulation_done,
                fresh_keys(old(self)@, keys@),
                forall|g: GateKey| #[trigger]
                    self@.gates.contains_key(g) <==> old(self)@.gates.contains_key(g)
                        || keys@.contains(g),
                forall|g: GateKey| #[trigger]
                    old(self)@.gates.contains_key(g) ==> self@.gates[g] == old(self)@.gates[g],
                built(self@, plans@, keys@),
                forall|i: int| 0 <= i < keys@.len() ==> unbound_gate(self@.gates[#[trigger] keys@[i]]),
                well_formed(old(self)@) ==> well_formed(self@),
            decreases plans@.len() - k,
        {
            let mut gate = Gate::new(plans[k].rotation, plans[k].gate_type);
            gate.active = plans[k].active;
            let ghost before = self@;
            let ghost held = keys@;
            let key = self.gates.insert(gate);
            keys.push(key);
            proof {
                assert(unbound_gate(gate@));
                assert(gate@.well_formed());
                if well_formed(old(self)@) {
                    lemma_insert_gate_well_formed(before, key, gate@);
                }
                assert(!old(self)@.gates.contains_key(key));
                assert forall|i: int, j: int|
                    0 <= i < keys@.len() && 0 <= j < keys@.len() && i != j implies keys@[i]
                    != keys@[j] by {
                    if i < k && j < k {
                        assert(held[i] != held[j]);
                    } else if i < k {
                        assert(held.contains(held[i]));
                        assert(before.gates.contains_key(held[i]));
                    } else if j < k {
                        assert(held.contains(held[j]));
                        assert(before.gates.contains_key(held[j]));
                    }
                }
                assert forall|g: GateKey| #[trigger]
                    self@.gates.contains_key(g) <==> old(self)@.gates.contains_key(g)
                        || keys@.contains(g) by {
                    crate::seq_facts::lemma_push_contains(held, key, g);
                }
                assert forall|i: int| 0 <= i < keys@.len() implies {
                    &&& self@.gates.contains_key(#[trigger] keys@[i])
                    &&& self@.gates[keys@[i]].gate_type == plans@[i].gate_type
                    &&& self@.gates[keys@[i]].rotation == plans@[i].rotation
                    &&& self@.gates[keys@[i]].active == plans@[i].active
                    &&& self@.gates[keys@[i]].well_formed()
                    &&& unbound_gate(self@.gates[keys@[i]])
                } by {
                    if i < k {
                        assert(keys@[i] == held[i]);
                        assert(held.contains(held[i]));
                        assert(before.gates.contains_key(held[i]));
                    }
                }
            }
            k = k + 1;
        }
        proof {
            assert forall|g: int, q: int|
                0 <= g < plans@.len() && 0 <= q < plans@[g].inputs@.len() implies match #[trigger] plan_socket(
                plans@,
                g,
                q,
            ) {
                Some(s) => if done_before(0, 0, g, q) {
                    feeds(old(self)@, self@, keys@, s, keys@[g], q as usize)
                } else {
                    wire_at(self@.gates, keys@[g], PinType::Input, q as usize) is None
                },
                None => wire_at(self@.gates, keys@[g], PinType::Input, q as usize) is None,
            } by {
                let gate = self@.gates[keys@[g]];
                assert(unbound_gate(gate));
                assert(gate.well_formed());
                assert(plan_valid(plans@, plans@[g]));
                assert(gate.input[q].wire_index is None);
            }
        }
        keys
    }
}

/// Whether `next` is `now` with the input pin `sink`, which was unbound,
/// put on the wire `w` from the output pin `source`: both pins are bound to
/// `w`, no other pin has changed, `w` has the sinks that it had, if it was
/// there, and then `sink`, and no other wire has changed.
spec fn rewired(
    now: CircuitView,
    next: CircuitView,
    source: Connection,
    sink: Connection,
    w: WireKey,
) -> bool {
    &&& same_shape(now.gates, next.gates)
    &&& forall|g: GateKey| #[trigger]
        now.gates.contains_key(g) && g != source.gate_index && g != sink.gate_index
            ==> next.gates[g] == now.gates[g]
    &&& forall|g: GateKey, r: PinType, q: usize|
        pin_exists(now.gates, g, r, q) ==> #[trigger] wire_at(next.gates, g, r, q) == (if g
            == sink.gate_index && r == PinType::Input && q == sink.pin_index {
            Some(w)
        } else if g == source.gate_index && r == PinType::Output && q == source.pin_index {
            Some(w)
        } else {
            wire_at(now.gates, g, r, q)
        })
    &&& next.wires == now.wires.insert(
        w,
        WireView {
            source,
            connections: (if now.wires.contains_key(w) {
                now.wires[w].connections
            } else {
                Seq::empty()
            }).push(sink),
        },
    )
    &&& next.emulation_done == now.emulation_done
}

/// Putting an unbound input pin of a plan on the wire of its socket keeps
/// what a circuit held before, and wires one pin more.
proof fn lemma_rewired_step(
    before: CircuitView,
    now: CircuitView,
    next: CircuitView,
    plans: Seq<GatePlan>,
    keys: Seq<GateKey>,
    i: int,
    p: int,
    s: Socket,
    w: WireKey,
)
    requires
        plans_valid(plans),
        wired_up_to(before, now, plans, keys, i, p),
        0 <= i < plans.len(),
        0 <= p < plans[i].inputs@.len(),
        plans[i].inputs@[p] == Some(s),
        rewired(now, next, end(keys[s.gate as int], s.pin), end(keys[i], p as usize), w),
        !before.wires.contains_key(w),
        now.wires.contains_key(w) ==> now.wires[w].source == end(keys[s.gate as int], s.pin),
        !now.wires.contains_key(w) ==> wire_at(
            now.gates,
            keys[s.gate as int],
            PinType::Output,
            s.pin,
        ) is None,
        forall|k: WireKey| #[trigger]
            before.wires.contains_key(k) && before.read.contains_key(k) ==> next.read.contains_key(
                k,
            ) && next.read[k] == before.read[k],
        forall|k: WireKey| #[trigger]
            before.wires.contains_key(k) && before.write.contains_key(k)
                ==> next.write.contains_key(k) && next.write[k] == before.write[k],
        new_levels_low(before, next),
    ensures
        wired_up_to(before, next, plans, keys, i, p + 1),
{
    let source = end(keys[s.gate as int], s.pin);
    let sink = end(keys[i], p as usize);
    let sj = s.gate as int;
    assert(plan_valid(plans, plans[i]));
    assert(socket_valid(plans, plans[i].inputs@[p]));
    assert(plan_valid(plans, plans[sj]));
    assert(now.gates[keys[i]].well_formed());
    assert(now.gates[keys[sj]].well_formed());
    assert(pin_exists(now.gates, sink.gate_index, PinType::Input, sink.pin_index));
    assert(pin_exists(now.gates, source.gate_index, PinType::Output, source.pin_index));
    lemma_shape_pins(now.gates, next.gates);
    assert(wire_at(now.gates, keys[i], PinType::Input, p as usize) is None) by {
        assert(plan_socket(plans, i, p) == Some(s));
    }
    // What was there is kept.
    assert(kept(before, next, keys)) by {
        assert forall|g: GateKey| #[trigger] before.gates.contains_key(g) implies next.gates[g]
            == before.gates[g] by {
            assert(now.gates.contains_key(g));
            assert(g != keys[i]);
            assert(g != keys[sj]);
        }
        assert forall|k: WireKey| #[trigger] before.wires.contains_key(k) implies next.wires.contains_key(
            k,
        ) && next.wires[k] == before.wires[k] by {
            assert(now.wires.contains_key(k));
        }
    }
    // The new gates are as the plan says.
    assert(built(next, plans, keys)) by {
        assert forall|j: int| 0 <= j < keys.len() implies {
            &&& next.gates.contains_key(#[trigger] keys[j])
            &&& next.gates[keys[j]].gate_type == plans[j].gate_type
            &&& next.gates[keys[j]].rotation == plans[j].rotation
            &&& next.gates[keys[j]].active == plans[j].active
            &&& next.gates[keys[j]].well_formed()
        } by {
            let g = keys[j];
            assert(now.gates.contains_key(g));
            assert(now.gates[g].well_formed());
            assert forall|x: int| 0 <= x < next.gates[g].input.len() implies (
            #[trigger] next.gates[g].input[x]).index == x by {
                assert(now.gates[g].input[x].index == x);
            }
            assert forall|x: int| 0 <= x < next.gates[g].output.len() implies (
            #[trigger] next.gates[g].output[x]).index == x by {
                assert(now.gates[g].output[x].index == x);
            }
        }
    }
    // The wires made since join bound pins of the new gates.
    assert(new_wires_bound(before, next, keys)) by {
        assert(keys.contains(keys[sj]));
        assert(keys.contains(keys[i]));
        assert forall|k: WireKey| #[trigger]
            next.wires.contains_key(k) && !before.wires.contains_key(k) implies keys.contains(
            next.wires[k].source.gate_index,
        ) && bound(
            next.gates,
            next.wires[k].source.gate_index,
            PinType::Output,
            next.wires[k].source.pin_index,
            k,
        ) by {
            if k != w {
                assert(now.wires.contains_key(k));
                let src = now.wires[k].source;
                assert(bound(now.gates, src.gate_index, PinType::Output, src.pin_index, k));
                assert(wire_at(next.gates, src.gate_index, PinType::Output, src.pin_index) == Some(
                    k,
                )) by {
                    if src == source {
                        if now.wires.contains_key(w) {
                            let j0 = sj;
                            assert(bound(now.gates, keys[j0], PinType::Output, s.pin, k));
                        }
                    }
                }
            } else {
                assert(wire_at(next.gates, source.gate_index, PinType::Output, source.pin_index)
                    == Some(w));
            }
        }
        assert forall|k: WireKey, x: int|
            next.wires.contains_key(k) && !before.wires.contains_key(k) && 0 <= x
                < next.wires[k].connections.len() implies keys.contains(
            (#[trigger] next.wires[k].connections[x]).gate_index,
        ) && bound(
            next.gates,
            next.wires[k].connections[x].gate_index,
            PinType::Input,
            next.wires[k].connections[x].pin_index,
            k,
        ) by {
            let c = next.wires[k].connections[x];
            if k == w && x == next.wires[k].connections.len() - 1 {
                assert(c == sink);
                assert(wire_at(next.gates, sink.gate_index, PinType::Input, sink.pin_index)
                    == Some(w));
            } else {
                assert(now.wires.contains_key(k));
                assert(now.wires[k].connections[x] == c);
                assert(bound(now.gates, c.gate_index, PinType::Input, c.pin_index, k));
                assert(wire_at(next.gates, c.gate_index, PinType::Input, c.pin_index) == Some(k));
            }
        }
    }
    // The input pins are wired as the plan says, one more than before.
    assert(inputs_wired(before, next, plans, keys, i, p + 1)) by {
        assert forall|g: int, q: int|
            0 <= g < plans.len() && 0 <= q < plans[g].inputs@.len() implies match #[trigger] plan_socket(
            plans,
            g,
            q,
        ) {
            Some(t) => if done_before(i, p + 1, g, q) {
                feeds(before, next, keys, t, keys[g], q as usize)
            } else {
                wire_at(next.gates, keys[g], PinType::Input, q as usize) is None
            },
            None => wire_at(next.gates, keys[g], PinType::Input, q as usize) is None,
        } by {
            assert(plan_valid(plans, plans[g]));
            assert(now.gates[keys[g]].well_formed());
            assert(pin_exists(now.gates, keys[g], PinType::Input, q as usize));
            if g == i && q == p {
                let more = next.wires[w].connections;
                assert(more[more.len() - 1] == sink);
            } else {
                assert(keys[g] != keys[i] || q != p) by {
                    if g != i {
                        assert(keys[g] != keys[i]);
                    }
                }
                match plan_socket(plans, g, q) {
                    Some(t) => {
                        if done_before(i, p, g, q) {
                            assert(feeds(before, now, keys, t, keys[g], q as usize));
                            let k = wire_at(now.gates, keys[g], PinType::Input, q as usize).unwrap();
                            assert(socket_valid(plans, plans[g].inputs@[q]));
                            let src = end(keys[t.gate as int], t.pin);
                            assert(now.gates[keys[t.gate as int]].well_formed());
                            assert(plan_valid(plans, plans[t.gate as int]));
                            assert(pin_exists(
                                now.gates,
                                src.gate_index,
                                PinType::Output,
                                src.pin_index,
                            ));
                            if k == w {
                                let had = now.wires[w].connections;
                                let x = choose|x: int|
                                    0 <= x < had.len() && had[x] == end(keys[g], q as usize);
                                assert(next.wires[w].connections[x] == end(keys[g], q as usize));
                            }
                        }
                    },
                    None => {},
                }
            }
        }
    }
    // The sinks of the wires made since are in the order of the plan.
    assert(new_sinks_ordered(before, next, keys, i, p + 1)) by {
        assert(wired_pin(keys, i, p + 1, sink)) by {
            assert(keys[i] == sink.gate_index && done_before(i, p + 1, i, sink.pin_index as int));
        }
        assert forall|k: WireKey, x: int|
            next.wires.contains_key(k) && !before.wires.contains_key(k) && 0 <= x
                < next.wires[k].connections.len() implies wired_pin(
            keys,
            i,
            p + 1,
            #[trigger] next.wires[k].connections[x],
        ) by {
            let c = next.wires[k].connections[x];
            if k == w && x == next.wires[k].connections.len() - 1 {
                assert(c == sink);
            } else {
                assert(now.wires.contains_key(k));
                assert(now.wires[k].connections[x] == c);
                assert(wired_pin(keys, i, p, c));
                let g = choose|g: int|
                    0 <= g < keys.len() && (#[trigger] keys[g]) == c.gate_index && done_before(
                        i,
                        p,
                        g,
                        c.pin_index as int,
                    );
                assert(keys[g] == c.gate_index && done_before(i, p + 1, g, c.pin_index as int));
            }
        }
        assert forall|k: WireKey, x: int, y: int|
            next.wires.contains_key(k) && !before.wires.contains_key(k) && 0 <= x < y
                < next.wires[k].connections.len() implies comes_before(
            keys,
            #[trigger] next.wires[k].connections[x],
            #[trigger] next.wires[k].connections[y],
        ) by {
            let a = next.wires[k].connections[x];
            let b = next.wires[k].connections[y];
            if k == w && y == next.wires[k].connections.len() - 1 {
                assert(b == sink);
                assert(now.wires.contains_key(k));
                assert(now.wires[k].connections[x] == a);
                assert(wired_pin(keys, i, p, a));
                let g = choose|g: int|
                    0 <= g < keys.len() && (#[trigger] keys[g]) == a.gate_index && done_before(
                        i,
                        p,
                        g,
                        a.pin_index as int,
                    );
                assert(keys[g] == a.gate_index && keys[i] == b.gate_index);
            } else {
                assert(now.wires.contains_key(k));
                assert(now.wires[k].connections[x] == a);
                assert(now.wires[k].connections[y] == b);
            }
        }
    }
    // The bound output pins are sources, and the plan names them.
    assert(outputs_wired(before, next, plans, keys, i, p + 1)) by {
        assert forall|j: int, q: usize, k: WireKey|
            0 <= j < keys.len() && #[trigger] bound(
                next.gates,
                keys[j],
                PinType::Output,
                q,
                k,
            ) implies {
            &&& next.wires.contains_key(k)
            &&& !before.wires.contains_key(k)
            &&& next.wires[k].source == end(keys[j], q)
            &&& exists|g: int, r: int|
                done_before(i, p + 1, g, r) && #[trigger] named_by(
                    plans,
                    g,
                    r,
                    Socket { gate: j as usize, pin: q },
                )
        } by {
            assert(pin_exists(now.gates, keys[j], PinType::Output, q));
            if keys[j] == source.gate_index && q == source.pin_index {
                assert(j == sj);
                assert(k == w);
                assert(named_by(plans, i, p, Socket { gate: j as usize, pin: q }));
                assert(done_before(i, p + 1, i, p));
            } else {
                assert(bound(now.gates, keys[j], PinType::Output, q, k));
                let (g, r) = choose|g: int, r: int|
                    done_before(i, p, g, r) && #[trigger] named_by(
                        plans,
                        g,
                        r,
                        Socket { gate: j as usize, pin: q },
                    );
                assert(done_before(i, p + 1, g, r));
                assert(k != w) by {
                    if k == w {
                        assert(now.wires[k].source == end(keys[j], q));
                    }
                }
            }
        }
    }
}

/// Connecting the socket of the next input pin of a plan to that pin is
/// possible, takes the pin off no wire, and wires one pin more. It makes
/// a wire exactly if the socket's pin has none.
proof fn lemma_connect_step(
    before: CircuitView,
    now: CircuitView,
    plans: Seq<GatePlan>,
    keys: Seq<GateKey>,
    i: int,
    p: int,
    s: Socket,
    fresh: WireKey,
)
    requires
        plans_valid(plans),
        wired_up_to(before, now, plans, keys, i, p),
        0 <= i < plans.len(),
        0 <= p < plans[i].inputs@.len(),
        plans[i].inputs@[p] == Some(s),
        wire_at(now.gates, keys[s.gate as int], PinType::Output, s.pin) is None ==> issuable(
            now.wires,
            fresh,
        ),
    ensures
        ({
            let source = end(keys[s.gate as int], s.pin);
            let sink = end(keys[i], p as usize);
            let next = now.connected(source, sink, fresh);
            &&& now.link_error(source, sink) is None
            &&& now.disconnected(sink.gate_index, sink.pin_index, PinType::Input) == now
            &&& wired_up_to(before, next, plans, keys, i, p + 1)
            &&& next.wires.dom() == (if now.pin_wire(
                source.gate_index,
                PinType::Output,
                source.pin_index,
            ) is None {
                now.wires.dom().insert(fresh)
            } else {
                now.wires.dom()
            })
            &&& now.pin_wire(source.gate_index, PinType::Output, source.pin_index) is None
                ==> !now.wires.contains_key(fresh)
            &&& pin_exists(next.gates, source.gate_index, PinType::Output, source.pin_index)
            &&& wire_at(next.gates, source.gate_index, PinType::Output, source.pin_index) is Some
            &&& forall|g: GateKey, q: usize|
                pin_exists(now.gates, g, PinType::Output, q) && wire_at(
                    now.gates,
                    g,
                    PinType::Output,
                    q,
                ) is Some ==> pin_exists(next.gates, g, PinType::Output, q) && (#[trigger] wire_at(
                    next.gates,
                    g,
                    PinType::Output,
                    q,
                )) is Some
        }),
{
    let source = end(keys[s.gate as int], s.pin);
    let sink = end(keys[i], p as usize);
    let sj = s.gate as int;
    let next = now.connected(source, sink, fresh);
    assert(plan_valid(plans, plans[i]));
    assert(socket_valid(plans, plans[i].inputs@[p]));
    assert(plan_valid(plans, plans[sj]));
    assert(now.gates[keys[i]].well_formed());
    assert(now.gates[keys[sj]].well_formed());
    assert(pin_exists(now.gates, sink.gate_index, PinType::Input, sink.pin_index));
    assert(pin_exists(now.gates, source.gate_index, PinType::Output, source.pin_index));
    assert(wire_at(now.gates, keys[i], PinType::Input, p as usize) is None) by {
        assert(plan_socket(plans, i, p) == Some(s));
    }
    assert(now.disconnect_error(sink.gate_index, sink.pin_index, PinType::Input) is None);
    assert(now.disconnected(sink.gate_index, sink.pin_index, PinType::Input) == now);
    match wire_at(now.gates, source.gate_index, PinType::Output, source.pin_index) {
        Some(w) => {
            assert(bound(now.gates, keys[sj], PinType::Output, s.pin, w));
            assert(now.wires.contains_key(w) && !before.wires.contains_key(w));
            let had = now.wires[w].connections;
            assert(!had.contains(sink)) by {
                if had.contains(sink) {
                    let x = choose|x: int| 0 <= x < had.len() && had[x] == sink;
                    assert(bound(
                        now.gates,
                        now.wires[w].connections[x].gate_index,
                        PinType::Input,
                        now.wires[w].connections[x].pin_index,
                        w,
                    ));
                }
            }
            assert(next == now.with_sink(w, sink));
            lemma_bind_reads(
                now.gates,
                sink.gate_index,
                PinType::Input,
                sink.pin_index,
                Some(w),
            );
            assert(rewired(now, next, source, sink, w));
            lemma_shape_pins(now.gates, next.gates);
            assert(next.wires.dom() =~= now.wires.dom());
            assert(new_levels_low(before, next)) by {
                if buffers_cover(before) {
                    assert(next.read.dom() =~= next.wires.dom());
                    assert(next.write.dom() =~= next.wires.dom());
                }
            }
            lemma_rewired_step(before, now, next, plans, keys, i, p, s, w);
        },
        None => {
            let wire = WireView { source, connections: seq![sink] };
            let e0 = now.with_wire(fresh, wire);
            let e1 = e0.bind(source.gate_index, PinType::Output, source.pin_index, Some(fresh));
            assert(next == e1.bind(sink.gate_index, PinType::Input, sink.pin_index, Some(fresh)));
            lemma_bind_reads(
                now.gates,
                source.gate_index,
                PinType::Output,
                source.pin_index,
                Some(fresh),
            );
            lemma_shape_pins(now.gates, e1.gates);
            lemma_bind_reads(
                e1.gates,
                sink.gate_index,
                PinType::Input,
                sink.pin_index,
                Some(fresh),
            );
            lemma_shape_pins(e1.gates, next.gates);
            crate::invariants::lemma_shape_trans(now.gates, e1.gates, next.gates);
            assert(Seq::<Connection>::empty().push(sink) =~= seq![sink]);
            assert(rewired(now, next, source, sink, fresh)) by {
                assert forall|g: GateKey, r: PinType, q: usize|
                    pin_exists(now.gates, g, r, q) implies #[trigger] wire_at(next.gates, g, r, q)
                    == (if g == sink.gate_index && r == PinType::Input && q == sink.pin_index {
                    Some(fresh)
                } else if g == source.gate_index && r == PinType::Output && q
                    == source.pin_index {
                    Some(fresh)
                } else {
                    wire_at(now.gates, g, r, q)
                }) by {
                    assert(pin_exists(e1.gates, g, r, q));
                }
            }
            assert(!before.wires.contains_key(fresh)) by {
                if before.wires.contains_key(fresh) {
                    assert(now.wires.contains_key(fresh));
                }
            }
            assert(next.wires.dom() =~= now.wires.dom().insert(fresh));
            assert forall|k: WireKey| #[trigger]
                before.wires.contains_key(k) && before.read.contains_key(k) implies next.read.contains_key(
                k,
            ) && next.read[k] == before.read[k] by {
                assert(now.wires.contains_key(k));
                assert(now.read.contains_key(k) && now.read[k] == before.read[k]);
            }
            assert forall|k: WireKey| #[trigger]
                before.wires.contains_key(k) && before.write.contains_key(k) implies next.write.contains_key(
                k,
            ) && next.write[k] == before.write[k] by {
                assert(now.wires.contains_key(k));
                assert(now.write.contains_key(k) && now.write[k] == before.write[k]);
            }
            assert(new_levels_low(before, next)) by {
                if buffers_cover(before) {
                    crate::level_table::lemma_seeded_free_slot(now.read, fresh, false);
                    crate::level_table::lemma_seeded_free_slot(now.write, fresh, false);
                    assert(next.read.dom() =~= next.wires.dom());
                    assert(next.write.dom() =~= next.wires.dom());
                }
            }
            lemma_rewired_step(before, now, next, plans, keys, i, p, s, fresh);
        },
    }
}

/// An input pin for which a plan has no socket needs no wiring.
proof fn lemma_skip_step(
    before: CircuitView,
    now: CircuitView,
    plans: Seq<GatePlan>,
    keys: Seq<GateKey>,
    i: int,
    p: int,
)
    requires
        wired_up_to(before, now, plans, keys, i, p),
        0 <= i < plans.len(),
        0 <= p < plans[i].inputs@.len(),
        plans[i].inputs@[p] is None,
    ensures
        wired_up_to(before, now, plans, keys, i, p + 1),
{
    assert forall|k: WireKey, x: int|
        now.wires.contains_key(k) && !before.wires.contains_key(k) && 0 <= x
            < now.wires[k].connections.len() implies wired_pin(
        keys,
        i,
        p + 1,
        #[trigger] now.wires[k].connections[x],
    ) by {
        let c = now.wires[k].connections[x];
        assert(wired_pin(keys, i, p, c));
        let g = choose|g: int|
            0 <= g < keys.len() && (#[trigger] keys[g]) == c.gate_index && done_before(
                i,
                p,
                g,
                c.pin_index as int,
            );
        assert(keys[g] == c.gate_index && done_before(i, p + 1, g, c.pin_index as int));
    }
    assert forall|g: int, q: int|
        0 <= g < plans.len() && 0 <= q < plans[g].inputs@.len() implies match #[trigger] plan_socket(
        plans,
        g,
        q,
    ) {
        Some(t) => if done_before(i, p + 1, g, q) {
            feeds(before, now, keys, t, keys[g], q as usize)
        } else {
            wire_at(now.gates, keys[g], PinType::Input, q as usize) is None
        },
        None => wire_at(now.gates, keys[g], PinType::Input, q as usize) is None,
    } by {}
    assert forall|j: int, q: usize, k: WireKey|
        0 <= j < keys.len() && #[trigger] bound(now.gates, keys[j], PinType::Output, q, k) implies {
        &&& now.wires.contains_key(k)
        &&& !before.wires.contains_key(k)
        &&& now.wires[k].source == end(keys[j], q)
        &&& exists|g: int, r: int|
            done_before(i, p + 1, g, r) && #[trigger] named_by(
                plans,
                g,
                r,
                Socket { gate: j as usize, pin: q },
            )
    } by {
        let (g, r) = choose|g: int, r: int|
            done_before(i, p, g, r) && #[trigger] named_by(
                plans,
                g,
                r,
                Socket { gate: j as usize, pin: q },
            );
        assert(done_before(i, p + 1, g, r));
    }
}

/// When the input pins of a gate of a plan are wired, the next gate is
/// next.
proof fn lemma_next_gate(
    before: CircuitView,
    now: CircuitView,
    plans: Seq<GatePlan>,
    keys: Seq<GateKey>,
    i: int,
    p: int,
)
    requires
        wired_up_to(before, now, plans, keys, i, p),
        0 <= i < plans.len(),
        p == plans[i].inputs@.len(),
    ensures
        wired_up_to(before, now, plans, keys, i + 1, 0),
{
    assert forall|k: WireKey, x: int|
        now.wires.contains_key(k) && !before.wires.contains_key(k) && 0 <= x
            < now.wires[k].connections.len() implies wired_pin(
        keys,
        i + 1,
        0,
        #[trigger] now.wires[k].connections[x],
    ) by {
        let c = now.wires[k].connections[x];
        assert(wired_pin(keys, i, p, c));
        let g = choose|g: int|
            0 <= g < keys.len() && (#[trigger] keys[g]) == c.gate_index && done_before(
                i,
                p,
                g,
                c.pin_index as int,
            );
        assert(keys[g] == c.gate_index && done_before(i + 1, 0, g, c.pin_index as int));
    }
    assert forall|g: int, q: int|
        0 <= g < plans.len() && 0 <= q < plans[g].inputs@.len() implies match #[trigger] plan_socket(
        plans,
        g,
        q,
    ) {
        Some(t) => if done_before(i + 1, 0, g, q) {
            feeds(before, now, keys, t, keys[g], q as usize)
        } else {
            wire_at(now.gates, keys[g], PinType::Input, q as usize) is None
        },
        None => wire_at(now.gates, keys[g], PinType::Input, q as usize) is None,
    } by {}
    assert forall|j: int, q: usize, k: WireKey|
        0 <= j < keys.len() && #[trigger] bound(now.gates, keys[j], PinType::Output, q, k) implies {
        &&& now.wires.contains_key(k)
        &&& !before.wires.contains_key(k)
        &&& now.wires[k].source == end(keys[j], q)
        &&& exists|g: int, r: int|
            done_before(i + 1, 0, g, r) && #[trigger] named_by(
                plans,
                g,
                r,
                Socket { gate: j as usize, pin: q },
            )
    } by {
        let (g, r) = choose|g: int, r: int|
            done_before(i, p, g, r) && #[trigger] named_by(
                plans,
                g,
                r,
                Socket { gate: j as usize, pin: q },
            );
        assert(done_before(i + 1, 0, g, r));
    }
}

/// Number of places that hold `true`.
spec fn count_true(marks: Seq<bool>) -> nat
    decreases marks.len(),
{
    if marks.len() == 0 {
        0
    } else {
        count_true(marks.drop_last()) + (if marks.last() {
            1nat
        } else {
            0nat
        })
    }
}

/// There are no more marks set than there are marks.
proof fn lemma_count_bound(marks: Seq<bool>)
    ensures
        count_true(marks) <= marks.len(),
    decreases marks.len(),
{
    if marks.len() > 0 {
        lemma_count_bound(marks.drop_last());
    }
}

/// Setting one mark more counts one more.
proof fn lemma_count_set(marks: Seq<bool>, at: int)
    requires
        0 <= at < marks.len(),
        !marks[at],
    ensures
        count_true(marks.update(at, true)) == count_true(marks) + 1,
    decreases marks.len(),
{
    let more = marks.update(at, true);
    if at == marks.len() - 1 {
        assert(more.drop_last() =~= marks.drop_last());
    } else {
        lemma_count_set(marks.drop_last(), at);
        assert(more.drop_last() =~= marks.drop_last().update(at, true));
    }
}

/// No mark is set in a row of cleared marks.
proof fn lemma_count_none(length: nat)
    ensures
        count_true(Seq::new(length, |j: int| false)) == 0,
    decreases length,
{
    if length > 0 {
        lemma_count_none((length - 1) as nat);
        assert(Seq::new(length, |j: int| false).drop_last() =~= Seq::new(
            (length - 1) as nat,
            |j: int| false,
        ));
    }
}

impl Circuit {
    /// Adds the gates of a plan to the circuit, and the wires among them.
    /// The gates are added in the order of the plan and their keys are
    /// returned in that order. Then each input pin for which the plan has
    /// a socket is connected to that socket's pin, as `connect_wire` does
    /// it, gate by gate and pin by pin. What the circuit held before is
    /// left as it was. The tables must have room for the gates and for one
    /// wire more than there are gates.
    ///
    /// Fails, and changes nothing, with `InvalidPinIndex` if the plan is
    /// not valid: a gate has not one entry for each input pin of its kind,
    /// or a socket names no output pin of a gate of the plan.
    pub fn assemble(&mut self, plans: &Vec<GatePlan>) -> (r: Result<Vec<GateKey>, CircuitError>)
        requires
            old(self)@.gates.dom().len() + plans@.len() <= MAX_ITEMS,
            old(self)@.wires.dom().len() + plans@.len() < MAX_ITEMS,
        ensures
            match r {
                Ok(keys) => plans_valid(plans@) && assembled(
                    old(self)@,
                    final(self)@,
                    plans@,
                    keys@,
                ),
                Err(e) => e == CircuitError::InvalidPinIndex && !plans_valid(plans@)
                    && final(self)@ == old(self)@,
            },
            well_formed(old(self)@) ==> well_formed(final(self)@),
    {
        if !check_plans(plans) {
            return Err(CircuitError::InvalidPinIndex);
        }
        let _ = self.wires.len();
        let ghost start = self@.wires.dom().len();
        let keys = self.add_planned(plans);
        let ghost mut marks = Seq::new(plans@.len(), |j: int| false);
        proof {
            lemma_count_none(plans@.len());
        }
        let mut i: usize = 0;
        while i < plans.len()
            invariant
                i <= plans@.len(),
                plans_valid(plans@),
                keys@.len() == plans@.len(),
                wired_up_to(old(self)@, self@, plans@, keys@, i as int, 0),
                marks.len() == plans@.len(),
                forall|j: int|
                    0 <= j < marks.len() && #[trigger] marks[j] ==> bound_output(self@, keys@[j]),
                self@.wires.dom().finite(),
                self@.wires.dom().len() == start + count_true(marks),
                start + plans@.len() < MAX_ITEMS,
                well_formed(old(self)@) ==> well_formed(self@),
            decreases plans@.len() - i,
        {
            let count = plans[i].inputs.len();
            let mut p: usize = 0;
            while p < count
                invariant
                    i < plans@.len(),
                    p <= count,
                    count == plans@[i as int].inputs@.len(),
                    plans_valid(plans@),
                    keys@.len() == plans@.len(),
                    wired_up_to(old(self)@, self@, plans@, keys@, i as int, p as int),
                    marks.len() == plans@.len(),
                    forall|j: int|
                        0 <= j < marks.len() && #[trigger] marks[j] ==> bound_output(
                            self@,
                            keys@[j],
                        ),
                    self@.wires.dom().finite(),
                    self@.wires.dom().len() == start + count_true(marks),
                    start + plans@.len() < MAX_ITEMS,
                    well_formed(old(self)@) ==> well_formed(self@),
                decreases count - p,
            {
                match plans[i].inputs[p] {
                    Some(s) => {
                        let ghost now = self@;
                        let ghost source = end(keys@[s.gate as int], s.pin);
                        let ghost sink = end(keys@[i as int], p);
                        proof {
                            lemma_count_bound(marks);
                            assert(plan_valid(plans@, plans@[i as int]));
                            assert(socket_valid(plans@, plans@[i as int].inputs@[p as int]));
                            lemma_connect_possible(
                                old(self)@,
                                now,
                                plans@,
                                keys@,
                                i as int,
                                p as int,
                                s,
                            );
                        }
                        let _ = self.connect_wire(
                            keys[s.gate],
                            keys[i],
                            s.pin,
                            PinType::Output,
                            p,
                            PinType::Input,
                        );
                        proof {
                            if now.pin_wire(source.gate_index, PinType::Output, source.pin_index)
                                is None {
                                let fresh = choose|fresh: WireKey|
                                    issuable(
                                        now.disconnected(
                                            sink.gate_index,
                                            sink.pin_index,
                                            PinType::Input,
                                        ).wires,
                                        fresh,
                                    ) && self@ == now.joined_anew(source, sink, fresh);
                                lemma_connect_step(
                                    old(self)@,
                                    now,
                                    plans@,
                                    keys@,
                                    i as int,
                                    p as int,
                                    s,
                                    fresh,
                                );
                                assert(plan_valid(plans@, plans@[s.gate as int]));
                                assert(s.pin == 0);
                                assert(!marks[s.gate as int]);
                                lemma_count_set(marks, s.gate as int);
                                marks = marks.update(s.gate as int, true);
                            } else {
                                let fresh = now.pin_wire(
                                    source.gate_index,
                                    PinType::Output,
                                    source.pin_index,
                                ).unwrap();
                                lemma_connect_step(
                                    old(self)@,
                                    now,
                                    plans@,
                                    keys@,
                                    i as int,
                                    p as int,
                                    s,
                                    fresh,
                                );
                            }
                        }
                    },
                    None => {
                        proof {
                            lemma_skip_step(
                                old(self)@,
                                self@,
                                plans@,
                                keys@,
                                i as int,
                                p as int,
                            );
                        }
                    },
                }
                p = p + 1;
            }
            proof {
                lemma_next_gate(old(self)@, self@, plans@, keys@, i as int, p as int);
            }
            i = i + 1;
        }
        Ok(keys)
    }
}

/// Whether the first output pin of a gate exists and is bound.
spec fn bound_output(c: CircuitView, gate: GateKey) -> bool {
    pin_exists(c.gates, gate, PinType::Output, 0) && wire_at(
        c.gates,
        gate,
        PinType::Output,
        0,
    ) is Some
}

/// Connecting the socket of the next input pin of a plan to that pin is
/// possible, and takes the pin off no wire.
proof fn lemma_connect_possible(
    before: CircuitView,
    now: CircuitView,
    plans: Seq<GatePlan>,
    keys: Seq<GateKey>,
    i: int,
    p: int,
    s: Socket,
)
    requires
        plans_valid(plans),
        wired_up_to(before, now, plans, keys, i, p),
        0 <= i < plans.len(),
        0 <= p < plans[i].inputs@.len(),
        plans[i].inputs@[p] == Some(s),
    ensures
        now.link_error(end(keys[s.gate as int], s.pin), end(keys[i], p as usize)) is None,
        now.disconnected(keys[i], p as usize, PinType::Input) == now,
{
    let fresh = choose|fresh: WireKey| issuable(now.wires, fresh);
    if wire_at(now.gates, keys[s.gate as int], PinType::Output, s.pin) is Some {
        lemma_connect_step(before, now, plans, keys, i, p, s, fresh);
    } else {
        let source = end(keys[s.gate as int], s.pin);
        let sink = end(keys[i], p as usize);
        assert(plan_valid(plans, plans[i]));
        assert(socket_valid(plans, plans[i].inputs@[p]));
        assert(plan_valid(plans, plans[s.gate as int]));
        assert(now.gates[keys[i]].well_formed());
        assert(now.gates[keys[s.gate as int]].well_formed());
        assert(pin_exists(now.gates, sink.gate_index, PinType::Input, sink.pin_index));
        assert(pin_exists(now.gates, source.gate_index, PinType::Output, source.pin_index));
        assert(wire_at(now.gates, keys[i], PinType::Input, p as usize) is None) by {
            assert(plan_socket(plans, i, p) == Some(s));
        }
    }
}

/// A plan that describes gates of a well-formed circuit is valid.
pub proof fn lemma_described_valid(c: CircuitView, selection: Seq<GateKey>, plans: Seq<GatePlan>)
    requires
        well_formed(c),
        plans.len() == selection.len(),
        forall|i: int| 0 <= i < selection.len() ==> c.gates.contains_key(#[trigger] selection[i]),
        forall|i: int|
            0 <= i < selection.len() ==> describes(
                c,
                selection,
                c.gates[selection[i]],
                (#[trigger] plans[i])@,
            ),
    ensures
        plans_valid(plans),
{
    assert forall|i: int| 0 <= i < plans.len() implies plan_valid(plans, #[trigger] plans[i]) by {
        let gate = c.gates[selection[i]];
        assert(c.gates.contains_key(selection[i]));
        assert(gate.well_formed());
        assert(describes(c, selection, gate, plans[i]@));
        assert forall|p: int| 0 <= p < plans[i].inputs@.len() implies socket_valid(
            plans,
            #[trigger] plans[i].inputs@[p],
        ) by {
            let socket = plans[i]@.inputs[p];
            assert(socket_for(c, selection, gate.input[p], socket));
            match socket {
                Some(s) => {
                    let w = gate.input[p].wire_index.unwrap();
                    let source = c.wires[w].source;
                    assert(is_first_place(selection, source.gate_index, s.gate as int));
                    assert(bound(
                        c.gates,
                        source.gate_index,
                        PinType::Output,
                        source.pin_index,
                        w,
                    ));
                    let driver = c.gates[selection[s.gate as int]];
                    assert(c.gates.contains_key(selection[s.gate as int]));
                    assert(driver.well_formed());
                    assert(describes(c, selection, driver, plans[s.gate as int]@));
                },
                None => {},
            }
        }
    }
}

/// What has been assembled from a valid plan is described by that plan:
/// describing the new gates gives the plan back.
pub proof fn lemma_assembled_described(
    before: CircuitView,
    now: CircuitView,
    plans: Seq<GatePlan>,
    keys: Seq<GateKey>,
)
    requires
        plans_valid(plans),
        assembled(before, now, plans, keys),
    ensures
        forall|i: int|
            0 <= i < keys.len() ==> now.gates.contains_key(keys[i]) && describes(
                now,
                keys,
                now.gates[keys[i]],
                (#[trigger] plans[i])@,
            ),
{
    assert forall|i: int| 0 <= i < keys.len() implies now.gates.contains_key(keys[i])
        && describes(now, keys, now.gates[keys[i]], (#[trigger] plans[i])@) by {
        let gate = now.gates[keys[i]];
        assert(now.gates.contains_key(keys[i]) && gate.well_formed());
        assert(plan_valid(plans, plans[i]));
        assert forall|p: int| 0 <= p < gate.input.len() implies socket_for(
            now,
            keys,
            gate.input[p],
            #[trigger] plans[i]@.inputs[p],
        ) by {
            assert(done_before(plans.len() as int, 0, i, p));
            match plan_socket(plans, i, p) {
                Some(s) => {
                    assert(socket_valid(plans, plans[i].inputs@[p]));
                    assert(feeds(before, now, keys, s, keys[i], p as usize));
                    let place = s.gate as int;
                    assert(keys.contains(keys[place]));
                    assert(is_first_place(keys, keys[place], place));
                },
                None => {},
            }
        }
    }
}

} // verus!
