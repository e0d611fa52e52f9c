use vstd::prelude::*;
use crate::frame::same_shape;
use crate::gate::GateView;
use crate::keys::{GateKey, WireKey};
use crate::model::{
    bind_pin, end, issuable, lists, names, pin_exists, release_gates, wire_at, CircuitView,
};
use crate::pin_type::PinType;
use crate::wires::{Connection, WireView};

verus! {

/// The list of pins of a role that `release_gates` is given.
pub open spec fn listed_for(
    pin_type: PinType,
    outputs: Seq<Connection>,
    inputs: Seq<Connection>,
) -> Seq<Connection> {
    match pin_type {
        PinType::Input => inputs,
        PinType::Output => outputs,
    }
}

/// Two tables of the same shape have the same pins.
pub proof fn lemma_shape_pins(a: Map<GateKey, GateView>, b: Map<GateKey, GateView>)
    requires
        same_shape(a, b),
    ensures
        forall|g: GateKey, r: PinType, p: usize| #[trigger]
            pin_exists(a, g, r, p) <==> pin_exists(b, g, r, p),
{
    assert forall|g: GateKey, r: PinType, p: usize| #[trigger]
        pin_exists(a, g, r, p) <==> pin_exists(b, g, r, p) by {
        if a.contains_key(g) {
            match r {
                PinType::Input => {},
                PinType::Output => {},
            }
        }
    }
}

/// What the pins are bound to after one of them has been bound.
pub proof fn lemma_bind_reads(
    gates: Map<GateKey, GateView>,
    gate: GateKey,
    pin_type: PinType,
    pin: usize,
    wire: Option<WireKey>,
)
    requires
        pin_exists(gates, gate, pin_type, pin),
    ensures
        same_shape(gates, bind_pin(gates, gate, pin_type, pin, wire)),
        forall|g: GateKey, r: PinType, p: usize|
            pin_exists(gates, g, r, p) ==> #[trigger] wire_at(
                bind_pin(gates, gate, pin_type, pin, wire),
                g,
                r,
                p,
            ) == (if g == gate && r == pin_type && p == pin {
                wire
            } else {
                wire_at(gates, g, r, p)
            }),
{
    let after = bind_pin(gates, gate, pin_type, pin, wire);
    assert forall|g: GateKey, r: PinType, p: usize| pin_exists(gates, g, r, p) implies #[trigger] wire_at(
        after,
        g,
        r,
        p,
    ) == (if g == gate && r == pin_type && p == pin {
        wire
    } else {
        wire_at(gates, g, r, p)
    }) by {
        match r {
            PinType::Input => {},
            PinType::Output => {},
        }
        match pin_type {
            PinType::Input => {},
            PinType::Output => {},
        }
    }
}

/// What the pins are bound to after the listed ones have been released.
pub proof fn lemma_release_reads(
    gates: Map<GateKey, GateView>,
    outputs: Seq<Connection>,
    inputs: Seq<Connection>,
    wire: WireKey,
)
    ensures
        same_shape(gates, release_gates(gates, outputs, inputs, wire)),
        forall|g: GateKey, r: PinType, p: usize|
            pin_exists(gates, g, r, p) ==> #[trigger] wire_at(
                release_gates(gates, outputs, inputs, wire),
                g,
                r,
                p,
            ) == (if names(listed_for(r, outputs, inputs), g, p as int) && wire_at(gates, g, r, p)
                == Some(wire) {
                None
            } else {
                wire_at(gates, g, r, p)
            }),
{
    let after = release_gates(gates, outputs, inputs, wire);
    assert forall|g: GateKey, r: PinType, p: usize| pin_exists(gates, g, r, p) implies #[trigger] wire_at(
        after,
        g,
        r,
        p,
    ) == (if names(listed_for(r, outputs, inputs), g, p as int) && wire_at(gates, g, r, p) == Some(
        wire,
    ) {
        None
    } else {
        wire_at(gates, g, r, p)
    }) by {
        match r {
            PinType::Input => {},
            PinType::Output => {},
        }
    }
}

/// Whether pin `pin` of `gate` exists and is bound to `wire`.
pub open spec fn bound(
    gates: Map<GateKey, GateView>,
    gate: GateKey,
    pin_type: PinType,
    pin: usize,
    wire: WireKey,
) -> bool {
    pin_exists(gates, gate, pin_type, pin) && wire_at(gates, gate, pin_type, pin) == Some(wire)
}

/// Every gate has the pin counts of its kind, and its pins carry their
/// ordinals.
pub open spec fn gates_well_formed(gates: Map<GateKey, GateView>) -> bool {
    forall|g: GateKey| #[trigger] gates.contains_key(g) ==> gates[g].well_formed()
}

/// Every bound pin is bound to a wire that is present and that names the
/// pin in the place of its role.
pub open spec fn pins_listed(c: CircuitView) -> bool {
    forall|g: GateKey, r: PinType, p: usize, w: WireKey| #[trigger]
        bound(c.gates, g, r, p, w) ==> c.wires.contains_key(w) && lists(c.wires[w], g, p, r)
}

/// The source of every wire is an output pin that is bound to the wire.
pub open spec fn sources_bound(c: CircuitView) -> bool {
    forall|w: WireKey| #[trigger]
        c.wires.contains_key(w) ==> bound(
            c.gates,
            c.wires[w].source.gate_index,
            PinType::Output,
            c.wires[w].source.pin_index,
            w,
        )
}

/// Every sink of every wire is an input pin that is bound to the wire.
pub open spec fn sinks_bound(c: CircuitView) -> bool {
    forall|w: WireKey, j: int|
        c.wires.contains_key(w) && 0 <= j < c.wires[w].connections.len() ==> bound(
            c.gates,
            (#[trigger] c.wires[w].connections[j]).gate_index,
            PinType::Input,
            c.wires[w].connections[j].pin_index,
            w,
        )
}

/// No wire names a sink twice.
pub open spec fn sinks_distinct(c: CircuitView) -> bool {
    forall|w: WireKey| #[trigger] c.wires.contains_key(w) ==> c.wires[w].connections.no_duplicates()
}

/// Both buffers hold a level for each wire and for nothing else.
pub open spec fn buffers_cover(c: CircuitView) -> bool {
    c.read.dom() == c.wires.dom() && c.write.dom() == c.wires.dom()
}

/// The consistency rules of a circuit: gates have the pins of their kind;
/// a pin is bound to a wire exactly if that wire names it, an output pin
/// as the source and an input pin once among the sinks; and both buffers
/// cover the wires.
pub open spec fn well_formed(c: CircuitView) -> bool {
    &&& gates_well_formed(c.gates)
    &&& pins_listed(c)
    &&& sources_bound(c)
    &&& sinks_bound(c)
    &&& sinks_distinct(c)
    &&& buffers_cover(c)
}

/// A table of the same shape as a well-formed one is well-formed.
pub proof fn lemma_shape_well_formed(a: Map<GateKey, GateView>, b: Map<GateKey, GateView>)
    requires
        same_shape(a, b),
        gates_well_formed(a),
    ensures
        gates_well_formed(b),
{
    assert forall|g: GateKey| #[trigger] b.contains_key(g) implies b[g].well_formed() by {
        assert(a.contains_key(g));
        assert(a[g].well_formed());
        assert forall|i: int| 0 <= i < b[g].input.len() implies (#[trigger] b[g].input[i]).index
            == i by {
            assert(a[g].input[i].index == i);
        }
        assert forall|i: int| 0 <= i < b[g].output.len() implies (#[trigger] b[g].output[i]).index
            == i by {
            assert(a[g].output[i].index == i);
        }
    }
}

/// What a wire's lists name.
pub proof fn lemma_names_lists(wire: WireView, gate: GateKey, pin: usize, pin_type: PinType)
    ensures
        lists(wire, gate, pin, pin_type) <==> names(
            listed_for(pin_type, seq![wire.source], wire.connections),
            gate,
            pin as int,
        ),
{
    match pin_type {
        PinType::Output => {
            let one = seq![wire.source];
            if wire.source == end(gate, pin) {
                assert(one[0].gate_index == gate && one[0].pin_index == pin);
            }
            if names(one, gate, pin as int) {
                let j = choose|j: int|
                    0 <= j < one.len() && (#[trigger] one[j]).gate_index == gate && one[j].pin_index
                        == pin as int;
                assert(one[j] == wire.source);
            }
        },
        PinType::Input => {
            let s = wire.connections;
            if s.contains(end(gate, pin)) {
                let j = choose|j: int| 0 <= j < s.len() && s[j] == end(gate, pin);
                assert(s[j].gate_index == gate && s[j].pin_index == pin);
            }
            if names(s, gate, pin as int) {
                let j = choose|j: int|
                    0 <= j < s.len() && (#[trigger] s[j]).gate_index == gate && s[j].pin_index
                        == pin as int;
                assert(s[j] == end(gate, pin));
            }
        },
    }
}

/// Deleting a wire keeps a circuit well-formed.
pub proof fn lemma_without_wire_well_formed(c: CircuitView, key: WireKey)
    requires
        well_formed(c),
    ensures
        well_formed(c.without_wire(key)),
{
    if c.wires.contains_key(key) {
        let wire = c.wires[key];
        let d = c.without_wire(key);
        lemma_release_reads(c.gates, seq![wire.source], wire.connections, key);
        lemma_shape_pins(c.gates, d.gates);
        lemma_shape_well_formed(c.gates, d.gates);
        assert forall|g: GateKey, r: PinType, p: usize, w: WireKey| #[trigger]
            bound(d.gates, g, r, p, w) implies d.wires.contains_key(w) && lists(d.wires[w], g, p, r) by {
            assert(pin_exists(c.gates, g, r, p));
            assert(bound(c.gates, g, r, p, w));
            if w == key {
                lemma_names_lists(wire, g, p, r);
            }
        }
        assert forall|w: WireKey| #[trigger] d.wires.contains_key(w) implies bound(
            d.gates,
            d.wires[w].source.gate_index,
            PinType::Output,
            d.wires[w].source.pin_index,
            w,
        ) by {
            assert(c.wires.contains_key(w));
            let s = c.wires[w].source;
            assert(bound(c.gates, s.gate_index, PinType::Output, s.pin_index, w));
        }
        assert forall|w: WireKey, j: int|
            d.wires.contains_key(w) && 0 <= j < d.wires[w].connections.len() implies bound(
            d.gates,
            (#[trigger] d.wires[w].connections[j]).gate_index,
            PinType::Input,
            d.wires[w].connections[j].pin_index,
            w,
        ) by {
            assert(c.wires.contains_key(w));
            let s = c.wires[w].connections[j];
            assert(bound(c.gates, s.gate_index, PinType::Input, s.pin_index, w));
        }
        assert(d.read.dom() =~= d.wires.dom());
        assert(d.write.dom() =~= d.wires.dom());
    }
}

/// Disconnecting a pin leaves that pin unbound, and every other pin either
/// as it was or unbound.
pub proof fn lemma_disconnected_reads(c: CircuitView, gate: GateKey, pin: usize, pin_type: PinType)
    requires
        c.disconnect_error(gate, pin, pin_type) is None,
    ensures
        same_shape(c.gates, c.disconnected(gate, pin, pin_type).gates),
        wire_at(c.disconnected(gate, pin, pin_type).gates, gate, pin_type, pin) is None,
        forall|g: GateKey, r: PinType, p: usize|
            pin_exists(c.gates, g, r, p) ==> {
                ||| (#[trigger] wire_at(c.disconnected(gate, pin, pin_type).gates, g, r, p)) is None
                ||| wire_at(c.disconnected(gate, pin, pin_type).gates, g, r, p) == wire_at(
                    c.gates,
                    g,
                    r,
                    p,
                )
            },
{
    let d = c.disconnected(gate, pin, pin_type);
    match c.pin_wire(gate, pin_type, pin) {
        None => {},
        Some(key) => {
            let wire = c.wires[key];
            lemma_release_reads(c.gates, seq![wire.source], wire.connections, key);
            lemma_names_lists(wire, gate, pin, pin_type);
            if pin_type == PinType::Input {
                lemma_bind_reads(c.gates, gate, PinType::Input, pin, None);
            }
        },
    }
}

/// Taking one sink out of a wire keeps a circuit well-formed.
pub proof fn lemma_without_sink_well_formed(c: CircuitView, key: WireKey, gate: GateKey, pin: usize)
    requires
        well_formed(c),
        bound(c.gates, gate, PinType::Input, pin, key),
    ensures
        well_formed(c.without_sink(key, gate, pin)),
{
    let d = c.without_sink(key, gate, pin);
    let sink = end(gate, pin);
    let old_sinks = c.wires[key].connections;
    assert(c.wires.contains_key(key) && lists(c.wires[key], gate, pin, PinType::Input));
    let at = choose|i: int| crate::wires::is_last_match(old_sinks, gate, pin, i);
    assert(crate::wires::is_last_match(old_sinks, gate, pin, at)) by {
        let j = choose|j: int| 0 <= j < old_sinks.len() && old_sinks[j] == sink;
        lemma_last_exists(old_sinks, gate, pin, j);
    }
    crate::wires::lemma_last_match(old_sinks, gate, pin, at);
    let new_sinks = old_sinks.remove(at);
    assert(d.wires[key].connections == new_sinks);
    lemma_bind_reads(c.gates, gate, PinType::Input, pin, None);
    lemma_shape_pins(c.gates, d.gates);
    lemma_shape_well_formed(c.gates, d.gates);
    assert forall|j: int| 0 <= j < new_sinks.len() implies #[trigger] new_sinks[j] != sink
        && old_sinks.contains(new_sinks[j]) by {
        if j < at {
            assert(new_sinks[j] == old_sinks[j]);
        } else {
            assert(new_sinks[j] == old_sinks[j + 1]);
        }
    }
    assert forall|g: GateKey, r: PinType, p: usize, w: WireKey| #[trigger]
        bound(d.gates, g, r, p, w) implies d.wires.contains_key(w) && lists(d.wires[w], g, p, r) by {
        assert(pin_exists(c.gates, g, r, p));
        assert(bound(c.gates, g, r, p, w));
        if w == key && r == PinType::Input {
            let j = choose|j: int| 0 <= j < old_sinks.len() && old_sinks[j] == end(g, p);
            assert(j != at);
            if j < at {
                assert(new_sinks[j] == end(g, p));
            } else {
                assert(new_sinks[j - 1] == end(g, p));
            }
        }
    }
    assert forall|w: WireKey| #[trigger] d.wires.contains_key(w) implies bound(
        d.gates,
        d.wires[w].source.gate_index,
        PinType::Output,
        d.wires[w].source.pin_index,
        w,
    ) by {
        assert(c.wires.contains_key(w));
        let s = c.wires[w].source;
        assert(bound(c.gates, s.gate_index, PinType::Output, s.pin_index, w));
    }
    assert forall|w: WireKey, j: int|
        d.wires.contains_key(w) && 0 <= j < d.wires[w].connections.len() implies bound(
        d.gates,
        (#[trigger] d.wires[w].connections[j]).gate_index,
        PinType::Input,
        d.wires[w].connections[j].pin_index,
        w,
    ) by {
        assert(c.wires.contains_key(w));
        if w == key {
            let i = if j < at {
                j
            } else {
                j + 1
            };
            assert(new_sinks[j] == old_sinks[i]);
            let s = c.wires[w].connections[i];
            assert(bound(c.gates, s.gate_index, PinType::Input, s.pin_index, w));
            assert(new_sinks[j] != sink);
        } else {
            let s = c.wires[w].connections[j];
            assert(bound(c.gates, s.gate_index, PinType::Input, s.pin_index, w));
        }
    }
    assert forall|w: WireKey| #[trigger] d.wires.contains_key(w) implies d.wires[w].connections.no_duplicates() by {
        assert(c.wires.contains_key(w));
        if w == key {
            assert forall|i: int, j: int|
                0 <= i < new_sinks.len() && 0 <= j < new_sinks.len() && i != j implies new_sinks[i]
                != new_sinks[j] by {
                let i0 = if i < at {
                    i
                } else {
                    i + 1
                };
                let j0 = if j < at {
                    j
                } else {
                    j + 1
                };
                assert(new_sinks[i] == old_sinks[i0]);
                assert(new_sinks[j] == old_sinks[j0]);
            }
        }
    }
    assert(d.read.dom() =~= d.wires.dom());
    assert(d.write.dom() =~= d.wires.dom());
}

/// A list that holds a pin has a last place that holds it.
pub proof fn lemma_last_exists(s: Seq<Connection>, gate: GateKey, pin: usize, from: int)
    requires
        0 <= from < s.len(),
        s[from] == end(gate, pin),
    ensures
        exists|i: int| crate::wires::is_last_match(s, gate, pin, i),
    decreases s.len() - from,
{
    if exists|j: int| from < j < s.len() && s[j] == end(gate, pin) {
        let j = choose|j: int| from < j < s.len() && s[j] == end(gate, pin);
        lemma_last_exists(s, gate, pin, j);
    } else {
        assert(crate::wires::is_last_match(s, gate, pin, from));
    }
}

/// Disconnecting a pin keeps a circuit well-formed.
pub proof fn lemma_disconnected_well_formed(
    c: CircuitView,
    gate: GateKey,
    pin: usize,
    pin_type: PinType,
)
    requires
        well_formed(c),
        c.disconnect_error(gate, pin, pin_type) is None,
    ensures
        well_formed(c.disconnected(gate, pin, pin_type)),
{
    match c.pin_wire(gate, pin_type, pin) {
        None => {},
        Some(key) => {
            lemma_without_wire_well_formed(c, key);
            if pin_type == PinType::Input {
                assert(bound(c.gates, gate, PinType::Input, pin, key));
                lemma_without_sink_well_formed(c, key, gate, pin);
            }
        },
    }
}

/// Appending an unbound input pin to the sinks of a wire keeps a circuit
/// well-formed.
pub proof fn lemma_with_sink_well_formed(c: CircuitView, key: WireKey, sink: Connection)
    requires
        well_formed(c),
        c.wires.contains_key(key),
        pin_exists(c.gates, sink.gate_index, PinType::Input, sink.pin_index),
        wire_at(c.gates, sink.gate_index, PinType::Input, sink.pin_index) is None,
    ensures
        well_formed(c.with_sink(key, sink)),
{
    let d = c.with_sink(key, sink);
    let old_sinks = c.wires[key].connections;
    let new_sinks = old_sinks.push(sink);
    lemma_bind_reads(c.gates, sink.gate_index, PinType::Input, sink.pin_index, Some(key));
    lemma_shape_pins(c.gates, d.gates);
    lemma_shape_well_formed(c.gates, d.gates);
    assert forall|w: WireKey, j: int|
        c.wires.contains_key(w) && 0 <= j < c.wires[w].connections.len() implies (
    #[trigger] c.wires[w].connections[j]) != sink by {
        let s = c.wires[w].connections[j];
        assert(bound(c.gates, s.gate_index, PinType::Input, s.pin_index, w));
    }
    assert forall|g: GateKey, r: PinType, p: usize, w: WireKey| #[trigger]
        bound(d.gates, g, r, p, w) implies d.wires.contains_key(w) && lists(d.wires[w], g, p, r) by {
        assert(pin_exists(c.gates, g, r, p));
        if g == sink.gate_index && r == PinType::Input && p == sink.pin_index {
            assert(new_sinks[old_sinks.len() as int] == sink);
        } else {
            assert(bound(c.gates, g, r, p, w));
            if w == key && r == PinType::Input {
                let j = choose|j: int| 0 <= j < old_sinks.len() && old_sinks[j] == end(g, p);
                assert(new_sinks[j] == end(g, p));
            }
        }
    }
    assert forall|w: WireKey| #[trigger] d.wires.contains_key(w) implies bound(
        d.gates,
        d.wires[w].source.gate_index,
        PinType::Output,
        d.wires[w].source.pin_index,
        w,
    ) by {
        assert(c.wires.contains_key(w));
        let s = c.wires[w].source;
        assert(bound(c.gates, s.gate_index, PinType::Output, s.pin_index, w));
    }
    assert forall|w: WireKey, j: int|
        d.wires.contains_key(w) && 0 <= j < d.wires[w].connections.len() implies bound(
        d.gates,
        (#[trigger] d.wires[w].connections[j]).gate_index,
        PinType::Input,
        d.wires[w].connections[j].pin_index,
        w,
    ) by {
        assert(c.wires.contains_key(w));
        if w == key && j == old_sinks.len() {
        } else {
            let s = c.wires[w].connections[j];
            assert(d.wires[w].connections[j] == s);
            assert(bound(c.gates, s.gate_index, PinType::Input, s.pin_index, w));
        }
    }
    assert forall|w: WireKey| #[trigger] d.wires.contains_key(w) implies d.wires[w].connections.no_duplicates() by {
        assert(c.wires.contains_key(w));
        if w == key {
            assert forall|i: int, j: int|
                0 <= i < new_sinks.len() && 0 <= j < new_sinks.len() && i != j implies new_sinks[i]
                != new_sinks[j] by {
                if i < old_sinks.len() {
                    assert(c.wires[key].connections[i] != sink);
                }
                if j < old_sinks.len() {
                    assert(c.wires[key].connections[j] != sink);
                }
            }
        }
    }
    assert(d.read.dom() =~= d.wires.dom());
    assert(d.write.dom() =~= d.wires.dom());
}

/// Joining an input pin to the wire of an output pin keeps a circuit
/// well-formed.
pub proof fn lemma_joined_well_formed(
    c: CircuitView,
    source: Connection,
    sink: Connection,
    key: WireKey,
)
    requires
        well_formed(c),
        c.link_error(source, sink) is None,
        c.pin_wire(source.gate_index, PinType::Output, source.pin_index) == Some(key),
    ensures
        well_formed(c.joined(key, sink)),
{
    if !c.wires[key].connections.contains(sink) {
        let d = c.disconnected(sink.gate_index, sink.pin_index, PinType::Input);
        lemma_disconnected_well_formed(c, sink.gate_index, sink.pin_index, PinType::Input);
        lemma_disconnected_reads(c, sink.gate_index, sink.pin_index, PinType::Input);
        crate::frame::lemma_disconnected_frame(c, sink.gate_index, sink.pin_index, PinType::Input);
        lemma_shape_pins(c.gates, d.gates);
        lemma_with_sink_well_formed(d, key, sink);
    }
}

/// Joining an output pin without a wire and an input pin by a new wire
/// keeps a circuit well-formed.
pub proof fn lemma_joined_anew_well_formed(
    c: CircuitView,
    source: Connection,
    sink: Connection,
    fresh: WireKey,
)
    requires
        well_formed(c),
        c.link_error(source, sink) is None,
        c.pin_wire(source.gate_index, PinType::Output, source.pin_index) is None,
        issuable(c.disconnected(sink.gate_index, sink.pin_index, PinType::Input).wires, fresh),
    ensures
        well_formed(c.joined_anew(source, sink, fresh)),
{
    let d = c.disconnected(sink.gate_index, sink.pin_index, PinType::Input);
    lemma_disconnected_well_formed(c, sink.gate_index, sink.pin_index, PinType::Input);
    lemma_disconnected_reads(c, sink.gate_index, sink.pin_index, PinType::Input);
    lemma_shape_pins(c.gates, d.gates);
    let wire = WireView { source, connections: seq![sink] };
    let e = d.with_wire(fresh, wire);
    let e1 = e.bind(source.gate_index, PinType::Output, source.pin_index, Some(fresh));
    let f = c.joined_anew(source, sink, fresh);
    assert(f == e1.bind(sink.gate_index, PinType::Input, sink.pin_index, Some(fresh)));
    lemma_bind_reads(d.gates, source.gate_index, PinType::Output, source.pin_index, Some(fresh));
    lemma_shape_pins(d.gates, e1.gates);
    lemma_bind_reads(e1.gates, sink.gate_index, PinType::Input, sink.pin_index, Some(fresh));
    lemma_shape_pins(e1.gates, f.gates);
    lemma_shape_well_formed(d.gates, e1.gates);
    lemma_shape_well_formed(e1.gates, f.gates);
    crate::level_table::lemma_seeded_free_slot(d.read, fresh, false);
    crate::level_table::lemma_seeded_free_slot(d.write, fresh, false);
    assert(wire_at(d.gates, source.gate_index, PinType::Output, source.pin_index) is None);
    assert forall|g: GateKey, r: PinType, p: usize, w: WireKey| #[trigger]
        bound(f.gates, g, r, p, w) implies f.wires.contains_key(w) && lists(f.wires[w], g, p, r) by {
        assert(pin_exists(d.gates, g, r, p));
        assert(pin_exists(e1.gates, g, r, p));
        if g == sink.gate_index && r == PinType::Input && p == sink.pin_index {
            assert(wire.connections[0] == sink);
        } else if g == source.gate_index && r == PinType::Output && p == source.pin_index {
        } else {
            assert(bound(d.gates, g, r, p, w));
        }
    }
    assert forall|w: WireKey| #[trigger] f.wires.contains_key(w) implies bound(
        f.gates,
        f.wires[w].source.gate_index,
        PinType::Output,
        f.wires[w].source.pin_index,
        w,
    ) by {
        if w != fresh {
            assert(d.wires.contains_key(w));
            let s = d.wires[w].source;
            assert(bound(d.gates, s.gate_index, PinType::Output, s.pin_index, w));
            assert(pin_exists(e1.gates, s.gate_index, PinType::Output, s.pin_index));
        } else {
            assert(pin_exists(e1.gates, source.gate_index, PinType::Output, source.pin_index));
        }
    }
    assert forall|w: WireKey, j: int|
        f.wires.contains_key(w) && 0 <= j < f.wires[w].connections.len() implies bound(
        f.gates,
        (#[trigger] f.wires[w].connections[j]).gate_index,
        PinType::Input,
        f.wires[w].connections[j].pin_index,
        w,
    ) by {
        if w != fresh {
            assert(d.wires.contains_key(w));
            let s = d.wires[w].connections[j];
            assert(bound(d.gates, s.gate_index, PinType::Input, s.pin_index, w));
            assert(pin_exists(e1.gates, s.gate_index, PinType::Input, s.pin_index));
        } else {
            assert(pin_exists(e1.gates, sink.gate_index, PinType::Input, sink.pin_index));
        }
    }
    assert forall|w: WireKey| #[trigger] f.wires.contains_key(w) implies f.wires[w].connections.no_duplicates() by {
        if w != fresh {
            assert(d.wires.contains_key(w));
        }
    }
    assert(f.read.dom() =~= f.wires.dom());
    assert(f.write.dom() =~= f.wires.dom());
}

/// Whether no pin of a gate is bound.
pub open spec fn unbound_gate(gate: GateView) -> bool {
    &&& forall|i: int| 0 <= i < gate.input.len() ==> (#[trigger] gate.input[i]).wire_index is None
    &&& forall|i: int| 0 <= i < gate.output.len() ==> (#[trigger] gate.output[i]).wire_index is None
}

/// Storing a well-formed gate without bound pins under an unused key keeps
/// a circuit well-formed.
pub proof fn lemma_insert_gate_well_formed(c: CircuitView, key: GateKey, gate: GateView)
    requires
        well_formed(c),
        !c.gates.contains_key(key),
        gate.well_formed(),
        unbound_gate(gate),
    ensures
        well_formed(CircuitView { gates: c.gates.insert(key, gate), ..c }),
{
    let d = CircuitView { gates: c.gates.insert(key, gate), ..c };
    assert forall|g: GateKey, r: PinType, p: usize| #[trigger]
        pin_exists(d.gates, g, r, p) && g != key implies pin_exists(c.gates, g, r, p) && wire_at(
        d.gates,
        g,
        r,
        p,
    ) == wire_at(c.gates, g, r, p) by {}
    assert forall|g: GateKey, r: PinType, p: usize, w: WireKey| #[trigger]
        bound(d.gates, g, r, p, w) implies d.wires.contains_key(w) && lists(d.wires[w], g, p, r) by {
        if g == key {
            match r {
                PinType::Input => {
                    assert(gate.input[p as int].wire_index is None);
                },
                PinType::Output => {
                    assert(gate.output[p as int].wire_index is None);
                },
            }
        } else {
            assert(bound(c.gates, g, r, p, w));
        }
    }
    assert forall|w: WireKey| #[trigger] d.wires.contains_key(w) implies bound(
        d.gates,
        d.wires[w].source.gate_index,
        PinType::Output,
        d.wires[w].source.pin_index,
        w,
    ) by {
        let s = c.wires[w].source;
        assert(bound(c.gates, s.gate_index, PinType::Output, s.pin_index, w));
    }
    assert forall|w: WireKey, j: int|
        d.wires.contains_key(w) && 0 <= j < d.wires[w].connections.len() implies bound(
        d.gates,
        (#[trigger] d.wires[w].connections[j]).gate_index,
        PinType::Input,
        d.wires[w].connections[j].pin_index,
        w,
    ) by {
        let s = c.wires[w].connections[j];
        assert(bound(c.gates, s.gate_index, PinType::Input, s.pin_index, w));
    }
}

/// Adding a gate under an unused key keeps a circuit well-formed.
pub proof fn lemma_with_gate_well_formed(
    c: CircuitView,
    key: GateKey,
    gate_type: crate::gate_type::GateType,
)
    requires
        well_formed(c),
        !c.gates.contains_key(key),
    ensures
        well_formed(c.with_gate(key, gate_type)),
{
    lemma_insert_gate_well_formed(
        c,
        key,
        GateView::fresh(crate::gate::Rotation::Up, gate_type),
    );
}

/// Whether every pin exists in both tables and is bound in `after` as in
/// `before`, or not at all.
pub open spec fn only_released(
    before: Map<GateKey, GateView>,
    after: Map<GateKey, GateView>,
) -> bool {
    &&& same_shape(before, after)
    &&& forall|g: GateKey, r: PinType, p: usize|
        pin_exists(before, g, r, p) ==> {
            ||| (#[trigger] wire_at(after, g, r, p)) is None
            ||| wire_at(after, g, r, p) == wire_at(before, g, r, p)
        }
}

/// Detaching the first pins of one role of a gate keeps a circuit
/// well-formed, leaves those pins unbound, and binds no pin.
pub proof fn lemma_detached_pins(c: CircuitView, gate: GateKey, pin_type: PinType, count: nat)
    requires
        well_formed(c),
        c.gates.contains_key(gate),
        count <= c.gates[gate].pins(pin_type).len(),
        count <= usize::MAX,
    ensures
        well_formed(c.detached_pins(gate, pin_type, count)),
        only_released(c.gates, c.detached_pins(gate, pin_type, count).gates),
        forall|p: usize|
            p < count ==> (#[trigger] wire_at(
                c.detached_pins(gate, pin_type, count).gates,
                gate,
                pin_type,
                p,
            )) is None,
    decreases count,
{
    if count > 0 {
        let before = c.detached_pins(gate, pin_type, (count - 1) as nat);
        let pin = (count - 1) as usize;
        lemma_detached_pins(c, gate, pin_type, (count - 1) as nat);
        lemma_shape_pins(c.gates, before.gates);
        let after = before.detached(gate, pin, pin_type);
        assert(after == c.detached_pins(gate, pin_type, count));
        assert(pin_exists(c.gates, gate, pin_type, pin));
        assert(pin_exists(before.gates, gate, pin_type, pin));
        assert(before.disconnect_error(gate, pin, pin_type) is None) by {
            match before.pin_wire(gate, pin_type, pin) {
                None => {},
                Some(w) => {
                    assert(bound(before.gates, gate, pin_type, pin, w));
                },
            }
        }
        lemma_disconnected_well_formed(before, gate, pin, pin_type);
        lemma_disconnected_reads(before, gate, pin, pin_type);
        lemma_shape_pins(before.gates, after.gates);
        assert forall|g: GateKey, r: PinType, p: usize| pin_exists(c.gates, g, r, p) implies {
            ||| (#[trigger] wire_at(after.gates, g, r, p)) is None
            ||| wire_at(after.gates, g, r, p) == wire_at(c.gates, g, r, p)
        } by {
            assert(pin_exists(before.gates, g, r, p));
            assert(wire_at(before.gates, g, r, p) is None || wire_at(before.gates, g, r, p)
                == wire_at(c.gates, g, r, p));
        }
        assert forall|p: usize| p < count implies (#[trigger] wire_at(
            after.gates,
            gate,
            pin_type,
            p,
        )) is None by {
            if p < count - 1 {
                assert(wire_at(before.gates, gate, pin_type, p) is None);
                assert(pin_exists(before.gates, gate, pin_type, p));
            }
        }
        lemma_shape_trans(c.gates, before.gates, after.gates);
    } else {
        lemma_shape_refl(c.gates);
    }
}

/// Every table has its own shape.
pub proof fn lemma_shape_refl(a: Map<GateKey, GateView>)
    ensures
        same_shape(a, a),
{
}

/// Having the same shape is transitive.
pub proof fn lemma_shape_trans(
    a: Map<GateKey, GateView>,
    b: Map<GateKey, GateView>,
    c: Map<GateKey, GateView>,
)
    requires
        same_shape(a, b),
        same_shape(b, c),
    ensures
        same_shape(a, c),
{
    assert forall|g: GateKey| #[trigger] a.contains_key(g) implies {
        &&& a[g].gate_type == c[g].gate_type
        &&& a[g].rotation == c[g].rotation
        &&& a[g].active == c[g].active
        &&& a[g].input.len() == c[g].input.len()
        &&& a[g].output.len() == c[g].output.len()
        &&& forall|i: int|
            0 <= i < a[g].input.len() ==> (#[trigger] a[g].input[i]).index == c[g].input[i].index
        &&& forall|i: int|
            0 <= i < a[g].output.len() ==> (#[trigger] a[g].output[i]).index == c[g].output[i].index
    } by {
        assert(b.contains_key(g));
        assert forall|i: int| 0 <= i < a[g].input.len() implies (#[trigger] a[g].input[i]).index
            == c[g].input[i].index by {
            assert(a[g].input[i].index == b[g].input[i].index);
            assert(b[g].input[i].index == c[g].input[i].index);
        }
        assert forall|i: int| 0 <= i < a[g].output.len() implies (#[trigger] a[g].output[i]).index
            == c[g].output[i].index by {
            assert(a[g].output[i].index == b[g].output[i].index);
            assert(b[g].output[i].index == c[g].output[i].index);
        }
    }
}

/// Removing a gate keeps a circuit well-formed.
pub proof fn lemma_without_gate_well_formed(c: CircuitView, gate: GateKey)
    requires
        well_formed(c),
        c.gates.contains_key(gate),
    ensures
        well_formed(c.without_gate(gate)),
{
    let outputs = c.gates[gate].output.len();
    let inputs = c.gates[gate].input.len();
    assert(c.gates[gate].well_formed());
    let c1 = c.detached_pins(gate, PinType::Output, outputs);
    lemma_detached_pins(c, gate, PinType::Output, outputs);
    lemma_shape_pins(c.gates, c1.gates);
    let c2 = c1.detached_pins(gate, PinType::Input, inputs);
    lemma_detached_pins(c1, gate, PinType::Input, inputs);
    lemma_shape_pins(c1.gates, c2.gates);
    let d = c.without_gate(gate);
    assert(d.gates == c2.gates.remove(gate));
    assert forall|r: PinType, p: usize| pin_exists(c2.gates, gate, r, p) implies (#[trigger] wire_at(
        c2.gates,
        gate,
        r,
        p,
    )) is None by {
        match r {
            PinType::Input => {},
            PinType::Output => {
                assert(pin_exists(c1.gates, gate, r, p));
                assert(wire_at(c1.gates, gate, r, p) is None);
            },
        }
    }
    assert forall|g: GateKey, r: PinType, p: usize, w: WireKey| #[trigger]
        bound(d.gates, g, r, p, w) implies d.wires.contains_key(w) && lists(d.wires[w], g, p, r) by {
        assert(bound(c2.gates, g, r, p, w));
    }
    assert forall|w: WireKey| #[trigger] d.wires.contains_key(w) implies bound(
        d.gates,
        d.wires[w].source.gate_index,
        PinType::Output,
        d.wires[w].source.pin_index,
        w,
    ) by {
        let s = c2.wires[w].source;
        assert(bound(c2.gates, s.gate_index, PinType::Output, s.pin_index, w));
    }
    assert forall|w: WireKey, j: int|
        d.wires.contains_key(w) && 0 <= j < d.wires[w].connections.len() implies bound(
        d.gates,
        (#[trigger] d.wires[w].connections[j]).gate_index,
        PinType::Input,
        d.wires[w].connections[j].pin_index,
        w,
    ) by {
        let s = c2.wires[w].connections[j];
        assert(bound(c2.gates, s.gate_index, PinType::Input, s.pin_index, w));
    }
}

/// In a well-formed circuit a gate that is present can be removed.
pub proof fn lemma_removal_possible(c: CircuitView, gate: GateKey)
    requires
        well_formed(c),
        c.gates.contains_key(gate),
    ensures
        c.removal_error(gate) is None,
{
    assert forall|pin: usize, pin_type: PinType|
        c.has_pin(gate, pin_type, pin) implies c.disconnect_error(gate, pin, pin_type) is None by {
        match c.pin_wire(gate, pin_type, pin) {
            None => {},
            Some(w) => {
                assert(bound(c.gates, gate, pin_type, pin, w));
            },
        }
    }
}

/// A well-formed circuit can tick.
pub proof fn lemma_well_formed_can_tick(c: CircuitView)
    requires
        well_formed(c),
    ensures
        c.can_tick(),
{
    assert forall|gate: GateKey, pin: int, wire: WireKey| #[trigger]
        c.drives(gate, pin, wire) implies c.wires.contains_key(wire) && c.wires[wire].source.gate_index
        == gate by {
        assert(c.gates[gate].well_formed());
        assert(bound(c.gates, gate, PinType::Output, pin as usize, wire));
    }
    assert(!c.stale_driver());
    assert forall|wire: WireKey| !c.short_circuit(wire) by {}
}

/// A circuit stays well-formed when only its levels change, and no key
/// enters or leaves a buffer.
pub proof fn lemma_levels_well_formed(c: CircuitView, d: CircuitView)
    requires
        well_formed(c),
        d.gates == c.gates,
        d.wires == c.wires,
        d.read.dom() == c.read.dom(),
        d.write.dom() == c.write.dom(),
    ensures
        well_formed(d),
{
    assert forall|g: GateKey, r: PinType, p: usize, w: WireKey| #[trigger]
        bound(d.gates, g, r, p, w) implies d.wires.contains_key(w) && lists(d.wires[w], g, p, r) by {
        assert(bound(c.gates, g, r, p, w));
    }
}

/// A tick keeps a circuit well-formed.
pub proof fn lemma_ticked_well_formed(c: CircuitView)
    requires
        well_formed(c),
    ensures
        well_formed(c.ticked()),
{
    let d = c.ticked();
    assert(d.read.dom() =~= d.wires.dom());
    assert forall|g: GateKey, r: PinType, p: usize, w: WireKey| #[trigger]
        bound(d.gates, g, r, p, w) implies d.wires.contains_key(w) && lists(d.wires[w], g, p, r) by {
        assert(bound(c.gates, g, r, p, w));
    }
}

/// Clearing the levels keeps a circuit well-formed.
pub proof fn lemma_reset_well_formed(c: CircuitView)
    requires
        well_formed(c),
    ensures
        well_formed(c.reset()),
{
    let d = c.reset();
    assert(d.read.dom() =~= d.wires.dom());
    assert(d.write.dom() =~= d.wires.dom());
    assert forall|g: GateKey, r: PinType, p: usize, w: WireKey| #[trigger]
        bound(d.gates, g, r, p, w) implies d.wires.contains_key(w) && lists(d.wires[w], g, p, r) by {
        assert(bound(c.gates, g, r, p, w));
    }
}

/// Whether no input pin is named as a sink in two places, be it of two
/// wires or of one.
pub open spec fn fan_in_exclusive(c: CircuitView) -> bool {
    forall|w1: WireKey, j1: int, w2: WireKey, j2: int|
        c.wires.contains_key(w1) && 0 <= j1 < c.wires[w1].connections.len()
            && c.wires.contains_key(w2) && 0 <= j2 < c.wires[w2].connections.len()
            && #[trigger] c.wires[w1].connections[j1] == #[trigger] c.wires[w2].connections[j2]
            ==> w1 == w2 && j1 == j2
}

/// Whether no output pin is the source of two wires.
pub open spec fn single_driver(c: CircuitView) -> bool {
    forall|w1: WireKey, w2: WireKey|
        #![trigger c.wires[w1], c.wires[w2]]
        c.wires.contains_key(w1) && c.wires.contains_key(w2) && c.wires[w1].source
            == c.wires[w2].source ==> w1 == w2
}

/// In a well-formed circuit every input pin is a sink of one wire at most,
/// and is named once among the sinks of that wire; and every output pin is
/// the source of one wire at most.
pub proof fn lemma_fan_in_exclusive(c: CircuitView)
    requires
        well_formed(c),
    ensures
        fan_in_exclusive(c),
        single_driver(c),
{
    assert forall|w1: WireKey, j1: int, w2: WireKey, j2: int|
        c.wires.contains_key(w1) && 0 <= j1 < c.wires[w1].connections.len()
            && c.wires.contains_key(w2) && 0 <= j2 < c.wires[w2].connections.len()
            && #[trigger] c.wires[w1].connections[j1]
            == #[trigger] c.wires[w2].connections[j2] implies w1 == w2 && j1 == j2 by {
        let s = c.wires[w1].connections[j1];
        assert(bound(c.gates, s.gate_index, PinType::Input, s.pin_index, w1));
        assert(bound(c.gates, s.gate_index, PinType::Input, s.pin_index, w2));
        assert(c.wires[w1].connections.no_duplicates());
    }
    assert forall|w1: WireKey, w2: WireKey|
        #![trigger c.wires[w1], c.wires[w2]]
        c.wires.contains_key(w1) && c.wires.contains_key(w2) && c.wires[w1].source
            == c.wires[w2].source implies w1 == w2 by {
        let s = c.wires[w1].source;
        assert(bound(c.gates, s.gate_index, PinType::Output, s.pin_index, w1));
        assert(bound(c.gates, s.gate_index, PinType::Output, s.pin_index, w2));
    }
}

} // verus!
