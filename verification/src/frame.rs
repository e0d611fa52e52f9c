use vstd::prelude::*;
use crate::gate::GateView;
use crate::keys::{GateKey, WireKey};
use crate::model::{bind_pin, pin_exists, release_gates, CircuitView};
use crate::pin_type::PinType;
use crate::wires::Connection;

verus! {

/// Whether two gate tables hold the same gates up to what their pins are
/// bound to: the same keys, and under each key the same kind, direction,
/// activity, pin counts and pin ordinals.
pub open spec fn same_shape(a: Map<GateKey, GateView>, b: Map<GateKey, GateView>) -> bool {
    &&& forall|g: GateKey| a.contains_key(g) <==> b.contains_key(g)
    &&& forall|g: GateKey| #[trigger]
        a.contains_key(g) ==> {
            &&& a[g].gate_type == b[g].gate_type
            &&& a[g].rotation == b[g].rotation
            &&& a[g].active == b[g].active
            &&& a[g].input.len() == b[g].input.len()
            &&& a[g].output.len() == b[g].output.len()
            &&& forall|i: int|
                0 <= i < a[g].input.len() ==> (#[trigger] a[g].input[i]).index == b[g].input[i].index
            &&& forall|i: int|
                0 <= i < a[g].output.len() ==> (#[trigger] a[g].output[i]).index
                    == b[g].output[i].index
        }
}

/// Binding a pin that exists keeps the shape of the gates.
pub proof fn lemma_bind_shape(
    gates: Map<GateKey, GateView>,
    gate: GateKey,
    pin_type: PinType,
    pin: usize,
    wire: Option<WireKey>,
)
    requires
        pin_exists(gates, gate, pin_type, pin),
    ensures
        same_shape(gates, bind_pin(gates, gate, pin_type, pin, wire)),
{
}

/// Releasing pins keeps the shape of the gates.
pub proof fn lemma_release_shape(
    gates: Map<GateKey, GateView>,
    outputs: Seq<Connection>,
    inputs: Seq<Connection>,
    wire: WireKey,
)
    ensures
        same_shape(gates, release_gates(gates, outputs, inputs, wire)),
{
}

/// Disconnecting a pin keeps the shape of the gates, adds no wire, and
/// leaves every wire but the pin's own as it was.
pub proof fn lemma_disconnected_frame(c: CircuitView, gate: GateKey, pin: usize, pin_type: PinType)
    requires
        c.disconnect_error(gate, pin, pin_type) is None,
    ensures
        same_shape(c.gates, c.disconnected(gate, pin, pin_type).gates),
        forall|k: WireKey| #[trigger]
            c.disconnected(gate, pin, pin_type).wires.contains_key(k) ==> c.wires.contains_key(k),
        forall|k: WireKey| #[trigger]
            c.wires.contains_key(k) && c.pin_wire(gate, pin_type, pin) != Some(k) ==> c.disconnected(
                gate,
                pin,
                pin_type,
            ).wires.contains_key(k) && c.disconnected(gate, pin, pin_type).wires[k] == c.wires[k],
        c.wires.dom().finite() ==> c.disconnected(gate, pin, pin_type).wires.dom().finite()
            && c.disconnected(gate, pin, pin_type).wires.dom().len() <= c.wires.dom().len(),
{
    let d = c.disconnected(gate, pin, pin_type);
    match c.pin_wire(gate, pin_type, pin) {
        None => {},
        Some(wire) => {
            let w = c.wires[wire];
            lemma_release_shape(c.gates, seq![w.source], w.connections, wire);
            lemma_bind_shape(c.gates, gate, pin_type, pin, None);
            if d.wires == c.wires.remove(wire) {
                assert(d.wires.dom() =~= c.wires.dom().remove(wire));
            } else {
                assert(d.wires.dom() =~= c.wires.dom());
            }
        },
    }
}

} // verus!
