use vstd::prelude::*;
use crate::blueprint::{describes, inner_source, is_first_place, socket_for, GatePlan};
use crate::invariants::{bound, lemma_ticked_well_formed, well_formed};
use crate::keys::GateKey;
use crate::laws::lemma_tick_by_source;
use crate::model::{level_on, output_of, CircuitView};
use crate::pin_type::PinType;

verus! {

/// Whether `plans` describes the whole circuit: `keys` holds the keys of
/// all its gates, and each gate is described by the plan at its place.
pub open spec fn described_by(c: CircuitView, keys: Seq<GateKey>, plans: Seq<GatePlan>) -> bool {
    &&& plans.len() == keys.len()
    &&& forall|g: GateKey| #[trigger] c.gates.contains_key(g) <==> keys.contains(g)
    &&& forall|i: int|
        0 <= i < keys.len() ==> describes(c, keys, c.gates[keys[i]], (#[trigger] plans[i])@)
}

/// Whether every input pin reads the same level in `a` as the input pin of
/// the same place and ordinal reads in `b`.
pub open spec fn inputs_agree(
    a: CircuitView,
    keys_a: Seq<GateKey>,
    b: CircuitView,
    keys_b: Seq<GateKey>,
) -> bool {
    forall|i: int, p: int|
        0 <= i < keys_a.len() ==> #[trigger] level_on(a.read, a.gates[keys_a[i]], p) == level_on(
            b.read,
            b.gates[keys_b[i]],
            p,
        )
}

/// In a well-formed circuit that a plan describes as a whole, the level
/// that an input pin reads after a tick is what its socket's gate drove,
/// and false where it has no socket.
proof fn lemma_input_after_tick(
    c: CircuitView,
    keys: Seq<GateKey>,
    plans: Seq<GatePlan>,
    i: int,
    p: int,
)
    requires
        well_formed(c),
        described_by(c, keys, plans),
        0 <= i < keys.len(),
    ensures
        level_on(c.ticked().read, c.gates[keys[i]], p) == (if 0 <= p < plans[i].inputs@.len() {
            match plans[i].inputs@[p] {
                Some(s) => 0 <= s.gate < keys.len() && output_of(c.read, c.gates[keys[s.gate as int]]),
                None => false,
            }
        } else {
            false
        }),
{
    let gate = c.gates[keys[i]];
    assert(describes(c, keys, gate, plans[i]@));
    assert(keys.contains(keys[i]));
    assert(c.gates.contains_key(keys[i]));
    if 0 <= p < gate.input.len() {
        let pin = gate.input[p];
        assert(socket_for(c, keys, pin, plans[i]@.inputs[p]));
        match pin.wire_index {
            Some(w) => {
                assert(gate.well_formed());
                assert(bound(c.gates, keys[i], PinType::Input, p as usize, w));
                let source = c.wires[w].source;
                assert(bound(c.gates, source.gate_index, PinType::Output, source.pin_index, w));
                assert(keys.contains(source.gate_index));
                assert(inner_source(c, keys, pin) == Some(source));
                let s = plans[i]@.inputs[p].unwrap();
                assert(is_first_place(keys, source.gate_index, s.gate as int));
                lemma_tick_by_source(c, w);
            },
            None => {},
        }
    }
}

/// Two well-formed circuits that one plan describes, and whose input pins
/// read the same levels, read the same levels after a tick; and the plan
/// still describes both.
pub proof fn lemma_tick_alike(
    a: CircuitView,
    keys_a: Seq<GateKey>,
    b: CircuitView,
    keys_b: Seq<GateKey>,
    plans: Seq<GatePlan>,
)
    requires
        well_formed(a),
        well_formed(b),
        described_by(a, keys_a, plans),
        described_by(b, keys_b, plans),
        inputs_agree(a, keys_a, b, keys_b),
    ensures
        well_formed(a.ticked()),
        well_formed(b.ticked()),
        described_by(a.ticked(), keys_a, plans),
        described_by(b.ticked(), keys_b, plans),
        inputs_agree(a.ticked(), keys_a, b.ticked(), keys_b),
{
    lemma_ticked_well_formed(a);
    lemma_ticked_well_formed(b);
    assert forall|i: int, p: int| 0 <= i < keys_a.len() implies #[trigger] level_on(
        a.ticked().read,
        a.ticked().gates[keys_a[i]],
        p,
    ) == level_on(b.ticked().read, b.ticked().gates[keys_b[i]], p) by {
        lemma_input_after_tick(a, keys_a, plans, i, p);
        lemma_input_after_tick(b, keys_b, plans, i, p);
        if 0 <= p < plans[i].inputs@.len() {
            match plans[i].inputs@[p] {
                Some(s) => {
                    if 0 <= s.gate < keys_a.len() {
                        let j = s.gate as int;
                        let ga = a.gates[keys_a[j]];
                        let gb = b.gates[keys_b[j]];
                        assert(describes(a, keys_a, ga, plans[j]@));
                        assert(describes(b, keys_b, gb, plans[j]@));
                        assert(level_on(a.read, ga, 0) == level_on(b.read, gb, 0));
                        assert(level_on(a.read, ga, 1) == level_on(b.read, gb, 1));
                    }
                },
                None => {},
            }
        }
    }
}

/// Two well-formed circuits that one plan describes, and whose input pins
/// read the same levels, read the same levels after any number of ticks.
pub proof fn lemma_ticks_alike(
    a: CircuitView,
    keys_a: Seq<GateKey>,
    b: CircuitView,
    keys_b: Seq<GateKey>,
    plans: Seq<GatePlan>,
    count: nat,
)
    requires
        well_formed(a),
        well_formed(b),
        described_by(a, keys_a, plans),
        described_by(b, keys_b, plans),
        inputs_agree(a, keys_a, b, keys_b),
    ensures
        well_formed(a.ticked_times(count)),
        well_formed(b.ticked_times(count)),
        described_by(a.ticked_times(count), keys_a, plans),
        described_by(b.ticked_times(count), keys_b, plans),
        inputs_agree(a.ticked_times(count), keys_a, b.ticked_times(count), keys_b),
    decreases count,
{
    if count > 0 {
        lemma_ticks_alike(a, keys_a, b, keys_b, plans, (count - 1) as nat);
        lemma_tick_alike(
            a.ticked_times((count - 1) as nat),
            keys_a,
            b.ticked_times((count - 1) as nat),
            keys_b,
            plans,
        );
    }
}

} // verus!
