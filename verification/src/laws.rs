use vstd::prelude::*;
use crate::frame::{lemma_disconnected_frame, same_shape};
use crate::invariants::{
    bound, lemma_bind_reads, lemma_disconnected_reads, lemma_fan_in_exclusive,
    lemma_joined_anew_well_formed, lemma_joined_well_formed, lemma_shape_pins, well_formed,
};
use crate::keys::WireKey;
use crate::model::{issuable, pin_exists, wire_at, CircuitView};
use crate::pin_type::PinType;
use crate::wires::{Connection, WireView};

verus! {

/// After an output pin has been connected to an input pin, the output pin
/// has a wire, the wire has the input pin among its sinks, and connecting
/// the two again is possible and changes nothing.
pub proof fn lemma_connect_idempotent(
    c: CircuitView,
    source: Connection,
    sink: Connection,
    fresh: WireKey,
)
    requires
        c.link_error(source, sink) is None,
    ensures
        ({
            let once = c.connected(source, sink, fresh);
            &&& once.link_error(source, sink) is None
            &&& once.pin_wire(source.gate_index, PinType::Output, source.pin_index) is Some
            &&& once.wires[once.pin_wire(
                source.gate_index,
                PinType::Output,
                source.pin_index,
            ).unwrap()].connections.contains(sink)
            &&& once.connected(source, sink, fresh) == once
        }),
{
    let once = c.connected(source, sink, fresh);
    let d = c.disconnected(sink.gate_index, sink.pin_index, PinType::Input);
    match c.pin_wire(source.gate_index, PinType::Output, source.pin_index) {
        Some(key) => {
            if !c.wires[key].connections.contains(sink) {
                lemma_disconnected_reads(c, sink.gate_index, sink.pin_index, PinType::Input);
                lemma_disconnected_frame(c, sink.gate_index, sink.pin_index, PinType::Input);
                lemma_shape_pins(c.gates, d.gates);
                lemma_bind_reads(
                    d.gates,
                    sink.gate_index,
                    PinType::Input,
                    sink.pin_index,
                    Some(key),
                );
                lemma_shape_pins(d.gates, once.gates);
                lemma_source_kept(c, source, sink, key);
                assert(c.pin_wire(sink.gate_index, PinType::Input, sink.pin_index) != Some(key));
                let sinks = d.wires[key].connections.push(sink);
                assert(sinks[sinks.len() - 1] == sink);
                assert(once.wires[key].connections == sinks);
            }
        },
        None => {
            lemma_disconnected_reads(c, sink.gate_index, sink.pin_index, PinType::Input);
            lemma_disconnected_frame(c, sink.gate_index, sink.pin_index, PinType::Input);
            lemma_shape_pins(c.gates, d.gates);
            let wire = WireView { source, connections: seq![sink] };
            let e1 = d.with_wire(fresh, wire).bind(
                source.gate_index,
                PinType::Output,
                source.pin_index,
                Some(fresh),
            );
            lemma_bind_reads(
                d.gates,
                source.gate_index,
                PinType::Output,
                source.pin_index,
                Some(fresh),
            );
            lemma_shape_pins(d.gates, e1.gates);
            lemma_bind_reads(
                e1.gates,
                sink.gate_index,
                PinType::Input,
                sink.pin_index,
                Some(fresh),
            );
            lemma_shape_pins(e1.gates, once.gates);
            assert(wire.connections[0] == sink);
            assert(once.wires[fresh] == wire);
        },
    }
}

/// Taking an input pin off its wire leaves an output pin on another wire
/// as it was.
proof fn lemma_source_kept(c: CircuitView, source: Connection, sink: Connection, key: WireKey)
    requires
        c.link_error(source, sink) is None,
        c.pin_wire(source.gate_index, PinType::Output, source.pin_index) == Some(key),
        !c.wires[key].connections.contains(sink),
    ensures
        wire_at(
            c.disconnected(sink.gate_index, sink.pin_index, PinType::Input).gates,
            source.gate_index,
            PinType::Output,
            source.pin_index,
        ) == Some(key),
{
    match c.pin_wire(sink.gate_index, PinType::Input, sink.pin_index) {
        None => {},
        Some(other) => {
            let wire = c.wires[other];
            assert(other != key);
            crate::invariants::lemma_release_reads(
                c.gates,
                seq![wire.source],
                wire.connections,
                other,
            );
            lemma_bind_reads(c.gates, sink.gate_index, PinType::Input, sink.pin_index, None);
        },
    }
}

/// In a well-formed circuit, after an output pin has been connected to an
/// input pin, the circuit is well-formed, the wire of the output pin names
/// the input pin in one place, and no other wire names it.
pub proof fn lemma_connect_single_entry(
    c: CircuitView,
    source: Connection,
    sink: Connection,
    fresh: WireKey,
)
    requires
        well_formed(c),
        c.link_error(source, sink) is None,
        issuable(c.disconnected(sink.gate_index, sink.pin_index, PinType::Input).wires, fresh),
    ensures
        ({
            let once = c.connected(source, sink, fresh);
            let key = once.pin_wire(source.gate_index, PinType::Output, source.pin_index).unwrap();
            &&& well_formed(once)
            &&& once.wires.contains_key(key)
            &&& exists|at: int|
                0 <= at < once.wires[key].connections.len() && once.wires[key].connections[at]
                    == sink
            &&& forall|w: WireKey, j: int, k: int|
                once.wires.contains_key(w) && 0 <= j < once.wires[w].connections.len() && 0 <= k
                    < once.wires[key].connections.len() && #[trigger] once.wires[w].connections[j]
                    == sink && #[trigger] once.wires[key].connections[k] == sink ==> w == key && j
                    == k
        }),
{
    let once = c.connected(source, sink, fresh);
    lemma_connect_idempotent(c, source, sink, fresh);
    match c.pin_wire(source.gate_index, PinType::Output, source.pin_index) {
        Some(key) => {
            lemma_joined_well_formed(c, source, sink, key);
        },
        None => {
            lemma_joined_anew_well_formed(c, source, sink, fresh);
        },
    }
    lemma_fan_in_exclusive(once);
    let key = once.pin_wire(source.gate_index, PinType::Output, source.pin_index).unwrap();
    assert(bound(once.gates, source.gate_index, PinType::Output, source.pin_index, key));
    let at = choose|at: int|
        0 <= at < once.wires[key].connections.len() && once.wires[key].connections[at] == sink;
    assert(once.wires[key].connections[at] == sink);
}

/// Connecting an output pin that has a wire to an input pin that is not
/// among its sinks appends the input pin to the sinks of that wire: the
/// wire has one sink more, and the output pin keeps its wire.
pub proof fn lemma_fan_out_grows(c: CircuitView, source: Connection, sink: Connection, key: WireKey)
    requires
        c.link_error(source, sink) is None,
        c.pin_wire(source.gate_index, PinType::Output, source.pin_index) == Some(key),
        !c.wires[key].connections.contains(sink),
    ensures
        c.joined(key, sink).wires.contains_key(key),
        c.joined(key, sink).wires[key].source == c.wires[key].source,
        c.joined(key, sink).wires[key].connections == c.wires[key].connections.push(sink),
        c.joined(key, sink).pin_wire(source.gate_index, PinType::Output, source.pin_index) == Some(
            key,
        ),
{
    let d = c.disconnected(sink.gate_index, sink.pin_index, PinType::Input);
    lemma_disconnected_frame(c, sink.gate_index, sink.pin_index, PinType::Input);
    lemma_disconnected_reads(c, sink.gate_index, sink.pin_index, PinType::Input);
    lemma_shape_pins(c.gates, d.gates);
    lemma_source_kept(c, source, sink, key);
    lemma_bind_reads(d.gates, sink.gate_index, PinType::Input, sink.pin_index, Some(key));
    assert(c.pin_wire(sink.gate_index, PinType::Input, sink.pin_index) != Some(key)) by {
        if c.pin_wire(sink.gate_index, PinType::Input, sink.pin_index) == Some(key) {
            assert(c.disconnect_error(sink.gate_index, sink.pin_index, PinType::Input) is Some);
        }
    }
}

/// Connecting an output pin without a wire to an input pin makes a wire
/// with that one sink, and binds the output pin to it.
pub proof fn lemma_fan_out_starts(
    c: CircuitView,
    source: Connection,
    sink: Connection,
    fresh: WireKey,
)
    requires
        c.link_error(source, sink) is None,
        c.pin_wire(source.gate_index, PinType::Output, source.pin_index) is None,
    ensures
        c.joined_anew(source, sink, fresh).wires.contains_key(fresh),
        c.joined_anew(source, sink, fresh).wires[fresh] == (WireView {
            source,
            connections: seq![sink],
        }),
        c.joined_anew(source, sink, fresh).pin_wire(
            source.gate_index,
            PinType::Output,
            source.pin_index,
        ) == Some(fresh),
{
    lemma_connect_idempotent(c, source, sink, fresh);
}

/// In a well-formed circuit an output pin and an input pin that exist can
/// be connected.
pub proof fn lemma_link_possible(c: CircuitView, source: Connection, sink: Connection)
    requires
        well_formed(c),
        c.has_pin(source.gate_index, PinType::Output, source.pin_index),
        c.has_pin(sink.gate_index, PinType::Input, sink.pin_index),
    ensures
        c.link_error(source, sink) is None,
{
    match c.pin_wire(source.gate_index, PinType::Output, source.pin_index) {
        Some(w) => {
            assert(bound(c.gates, source.gate_index, PinType::Output, source.pin_index, w));
        },
        None => {},
    }
    match c.pin_wire(sink.gate_index, PinType::Input, sink.pin_index) {
        Some(w) => {
            assert(bound(c.gates, sink.gate_index, PinType::Input, sink.pin_index, w));
        },
        None => {},
    }
}

/// Connecting two pins keeps the shape of the gates.
pub proof fn lemma_connected_shape(
    c: CircuitView,
    source: Connection,
    sink: Connection,
    fresh: WireKey,
)
    requires
        c.link_error(source, sink) is None,
    ensures
        same_shape(c.gates, c.connected(source, sink, fresh).gates),
{
    let once = c.connected(source, sink, fresh);
    let d = c.disconnected(sink.gate_index, sink.pin_index, PinType::Input);
    match c.pin_wire(source.gate_index, PinType::Output, source.pin_index) {
        Some(key) => {
            if c.wires[key].connections.contains(sink) {
                crate::invariants::lemma_shape_refl(c.gates);
            } else {
                lemma_disconnected_reads(c, sink.gate_index, sink.pin_index, PinType::Input);
                lemma_shape_pins(c.gates, d.gates);
                lemma_bind_reads(
                    d.gates,
                    sink.gate_index,
                    PinType::Input,
                    sink.pin_index,
                    Some(key),
                );
                crate::invariants::lemma_shape_trans(c.gates, d.gates, once.gates);
            }
        },
        None => {
            lemma_disconnected_reads(c, sink.gate_index, sink.pin_index, PinType::Input);
            lemma_shape_pins(c.gates, d.gates);
            let wire = WireView { source, connections: seq![sink] };
            let e1 = d.with_wire(fresh, wire).bind(
                source.gate_index,
                PinType::Output,
                source.pin_index,
                Some(fresh),
            );
            lemma_bind_reads(
                d.gates,
                source.gate_index,
                PinType::Output,
                source.pin_index,
                Some(fresh),
            );
            lemma_shape_pins(d.gates, e1.gates);
            lemma_bind_reads(
                e1.gates,
                sink.gate_index,
                PinType::Input,
                sink.pin_index,
                Some(fresh),
            );
            crate::invariants::lemma_shape_trans(c.gates, d.gates, e1.gates);
            crate::invariants::lemma_shape_trans(c.gates, e1.gates, once.gates);
        },
    }
}

/// In a well-formed circuit, connecting an output pin without a wire to
/// each of several distinct input pins in turn makes one wire, whose sinks
/// are those pins in that order: as many sinks as there were pins.
pub proof fn lemma_fan_out(c: CircuitView, source: Connection, sinks: Seq<Connection>, fresh: WireKey)
    requires
        well_formed(c),
        c.has_pin(source.gate_index, PinType::Output, source.pin_index),
        c.pin_wire(source.gate_index, PinType::Output, source.pin_index) is None,
        sinks.len() > 0,
        sinks.no_duplicates(),
        forall|i: int|
            0 <= i < sinks.len() ==> pin_exists(
                c.gates,
                (#[trigger] sinks[i]).gate_index,
                PinType::Input,
                sinks[i].pin_index,
            ),
        issuable(c.disconnected(sinks[0].gate_index, sinks[0].pin_index, PinType::Input).wires, fresh),
    ensures
        ({
            let after = c.fanned_out(source, sinks, fresh);
            &&& well_formed(after)
            &&& same_shape(c.gates, after.gates)
            &&& after.pin_wire(source.gate_index, PinType::Output, source.pin_index) == Some(fresh)
            &&& after.wires.contains_key(fresh)
            &&& after.wires[fresh].source == source
            &&& after.wires[fresh].connections == sinks
        }),
    decreases sinks.len(),
{
    let after = c.fanned_out(source, sinks, fresh);
    let last = sinks.last();
    let rest = sinks.drop_last();
    if sinks.len() == 1 {
        assert(rest.len() == 0);
        assert(c.fanned_out(source, rest, fresh) == c);
        assert(last == sinks[0]);
        lemma_link_possible(c, source, last);
        lemma_fan_out_starts(c, source, last, fresh);
        lemma_joined_anew_well_formed(c, source, last, fresh);
        lemma_connected_shape(c, source, last, fresh);
        assert(seq![last] =~= sinks);
    } else {
        assert(rest[0] == sinks[0]);
        assert forall|i: int| 0 <= i < rest.len() implies pin_exists(
            c.gates,
            (#[trigger] rest[i]).gate_index,
            PinType::Input,
            rest[i].pin_index,
        ) by {
            assert(rest[i] == sinks[i]);
        }
        assert(rest.no_duplicates()) by {
            assert forall|i: int, j: int|
                0 <= i < rest.len() && 0 <= j < rest.len() && i != j implies rest[i] != rest[j] by {
                assert(rest[i] == sinks[i] && rest[j] == sinks[j]);
            }
        }
        lemma_fan_out(c, source, rest, fresh);
        let before = c.fanned_out(source, rest, fresh);
        lemma_shape_pins(c.gates, before.gates);
        assert(pin_exists(c.gates, last.gate_index, PinType::Input, last.pin_index)) by {
            assert(sinks[sinks.len() - 1] == last);
        }
        lemma_link_possible(before, source, last);
        assert(!before.wires[fresh].connections.contains(last)) by {
            if rest.contains(last) {
                let j = choose|j: int| 0 <= j < rest.len() && rest[j] == last;
                assert(sinks[j] == last && sinks[sinks.len() - 1] == last);
            }
        }
        lemma_fan_out_grows(before, source, last, fresh);
        lemma_joined_well_formed(before, source, last, fresh);
        lemma_connected_shape(before, source, last, fresh);
        crate::invariants::lemma_shape_trans(c.gates, before.gates, after.gates);
        assert(rest.push(last) =~= sinks);
    }
}

/// Disconnecting the source of a wire, or its only sink, deletes the wire:
/// neither the table of wires nor a buffer has its key any more.
pub proof fn lemma_disconnect_deletes(
    c: CircuitView,
    gate: crate::keys::GateKey,
    pin: usize,
    pin_type: PinType,
    key: WireKey,
)
    requires
        c.disconnect_error(gate, pin, pin_type) is None,
        c.pin_wire(gate, pin_type, pin) == Some(key),
        pin_type == PinType::Output || c.wires[key].connections.len() == 1,
    ensures
        !c.disconnected(gate, pin, pin_type).wires.contains_key(key),
        !c.disconnected(gate, pin, pin_type).read.contains_key(key),
        !c.disconnected(gate, pin, pin_type).write.contains_key(key),
        c.disconnected(gate, pin, pin_type).wires == c.wires.remove(key),
{
}

/// Disconnecting one of several sinks of a wire leaves the wire in place
/// with the same source and one sink less, and leaves the other wires and
/// the buffers as they were.
pub proof fn lemma_disconnect_shrinks(c: CircuitView, gate: crate::keys::GateKey, pin: usize, key: WireKey)
    requires
        c.disconnect_error(gate, pin, PinType::Input) is None,
        c.pin_wire(gate, PinType::Input, pin) == Some(key),
        c.wires[key].connections.len() != 1,
    ensures
        ({
            let after = c.disconnected(gate, pin, PinType::Input);
            &&& after.wires.contains_key(key)
            &&& after.wires[key].source == c.wires[key].source
            &&& after.wires[key].connections.len() == c.wires[key].connections.len() - 1
            &&& after.wires.dom() == c.wires.dom()
            &&& after.read == c.read
            &&& after.write == c.write
            &&& after.pin_wire(gate, PinType::Input, pin) is None
        }),
{
    let after = c.disconnected(gate, pin, PinType::Input);
    let sinks = c.wires[key].connections;
    let j = choose|j: int| 0 <= j < sinks.len() && sinks[j] == crate::model::end(gate, pin);
    crate::invariants::lemma_last_exists(sinks, gate, pin, j);
    let at = choose|i: int| crate::wires::is_last_match(sinks, gate, pin, i);
    crate::wires::lemma_last_match(sinks, gate, pin, at);
    lemma_bind_reads(c.gates, gate, PinType::Input, pin, None);
    assert(after.wires.dom() =~= c.wires.dom());
}

/// In a well-formed circuit a tick puts on every wire what its source's
/// gate drives.
pub proof fn lemma_tick_by_source(c: CircuitView, wire: WireKey)
    requires
        well_formed(c),
        c.wires.contains_key(wire),
    ensures
        c.driven(wire),
        c.ticked().read.contains_key(wire),
        c.ticked().read[wire] == c.gate_output(c.gates[c.wires[wire].source.gate_index]),
{
    let source = c.wires[wire].source;
    assert(bound(c.gates, source.gate_index, PinType::Output, source.pin_index, wire));
    assert(c.drives(source.gate_index, source.pin_index as int, wire));
    let (g, p) = choose|g: crate::keys::GateKey, p: int|
        crate::model::drives_in(c.gates, g, p, wire);
    assert(c.gates[g].well_formed());
    assert(bound(c.gates, g, PinType::Output, p as usize, wire));
    assert(c.write.dom().contains(wire));
}

/// The levels that ticks produce depend on the gates and the two buffers
/// alone: two circuits that agree on these have the same levels after any
/// number of ticks.
pub proof fn lemma_ticks_agree(a: CircuitView, b: CircuitView, count: nat)
    requires
        a.gates == b.gates,
        a.read == b.read,
        a.write == b.write,
    ensures
        a.ticked_times(count).gates == b.ticked_times(count).gates,
        a.ticked_times(count).read == b.ticked_times(count).read,
        a.ticked_times(count).write == b.ticked_times(count).write,
        count > 0 ==> a.ticked_times(count).emulation_done == b.ticked_times(
            count,
        ).emulation_done,
    decreases count,
{
    if count > 0 {
        lemma_ticks_agree(a, b, (count - 1) as nat);
        let x = a.ticked_times((count - 1) as nat);
        let y = b.ticked_times((count - 1) as nat);
        lemma_tick_reads(x, y);
    }
}

/// One tick of two circuits that agree on gates and buffers.
proof fn lemma_tick_reads(x: CircuitView, y: CircuitView)
    requires
        x.gates == y.gates,
        x.read == y.read,
        x.write == y.write,
    ensures
        x.ticked().gates == y.ticked().gates,
        x.ticked().read == y.ticked().read,
        x.ticked().write == y.ticked().write,
        x.ticked().emulation_done == y.ticked().emulation_done,
{
    assert(x.next_levels() =~= y.next_levels());
}

} // verus!
