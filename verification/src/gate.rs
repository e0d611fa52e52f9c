use vstd::prelude::*;
use crate::error::CircuitError;
use crate::gate_type::GateType;
use crate::pin_type::PinType;
use crate::pins::{Pin, unbound_pins};

verus! {

/// The direction a gate faces on the board.
#[derive(Clone, Copy, Debug, PartialEq, Eq, Structural)]
pub enum Rotation {
    Up,
    Right,
    Down,
    Left,
}

impl Rotation {
    /// The direction's name in lower case.
    pub open spec fn name(self) -> Seq<char> {
        match self {
            Rotation::Up => "up"@,
            Rotation::Right => "right"@,
            Rotation::Down => "down"@,
            Rotation::Left => "left"@,
        }
    }

    pub fn to_string(&self) -> (s: &'static str)
        ensures
            s@ == self.name(),
    {
        match self {
            Rotation::Up => "up",
            Rotation::Right => "right",
            Rotation::Down => "down",
            Rotation::Left => "left",
        }
    }
}

/// A Boolean function unit with its pins.
#[derive(Clone, Debug, PartialEq, Eq)]
pub struct Gate {
    pub rotation: Rotation,
    pub input: Vec<Pin>,
    pub output: Vec<Pin>,
    pub gate_type: GateType,
    pub active: bool,
}

/// A gate as a mathematical value.
pub struct GateView {
    pub rotation: Rotation,
    pub input: Seq<Pin>,
    pub output: Seq<Pin>,
    pub gate_type: GateType,
    pub active: bool,
}

impl View for Gate {
    type V = GateView;

    open spec fn view(&self) -> GateView {
        GateView {
            rotation: self.rotation,
            input: self.input@,
            output: self.output@,
            gate_type: self.gate_type,
            active: self.active,
        }
    }
}

impl GateView {
    /// The pins of the given role.
    pub open spec fn pins(self, pin_type: PinType) -> Seq<Pin> {
        match pin_type {
            PinType::Input => self.input,
            PinType::Output => self.output,
        }
    }

    /// This gate with the pins of the given role replaced.
    pub open spec fn with_pins(self, pin_type: PinType, pins: Seq<Pin>) -> GateView {
        match pin_type {
            PinType::Input => GateView { input: pins, ..self },
            PinType::Output => GateView { output: pins, ..self },
        }
    }

    /// A gate of the given kind as `Gate::new` makes it.
    pub open spec fn fresh(rotation: Rotation, gate_type: GateType) -> GateView {
        GateView {
            rotation,
            input: unbound_pins(gate_type.inputs()),
            output: unbound_pins(gate_type.outputs()),
            gate_type,
            active: true,
        }
    }

    /// The pin counts are those of the kind, and each pin carries its own
    /// ordinal.
    pub open spec fn well_formed(self) -> bool {
        &&& self.input.len() == self.gate_type.inputs()
        &&& self.output.len() == self.gate_type.outputs()
        &&& forall|i: int| 0 <= i < self.input.len() ==> (#[trigger] self.input[i]).index == i
        &&& forall|i: int| 0 <= i < self.output.len() ==> (#[trigger] self.output[i]).index == i
    }
}

/// The vector of `count` unbound pins numbered from zero.
fn make_pins(count: usize) -> (pins: Vec<Pin>)
    ensures
        pins@ == unbound_pins(count as nat),
{
    let mut pins: Vec<Pin> = Vec::new();
    for index in 0..count
        invariant
            pins@ == unbound_pins(index as nat),
    {
        pins.push(Pin { index, wire_index: None });
        assert(pins@ =~= unbound_pins((index + 1) as nat));
    }
    pins
}

impl Gate {
    /// A gate of the given kind with all its pins unbound.
    pub fn new(rotation: Rotation, gate_type: GateType) -> (gate: Gate)
        ensures
            gate@ == GateView::fresh(rotation, gate_type),
            gate@.well_formed(),
    {
        let (input, output) = Self::get_pins(gate_type);
        Gate { rotation, input, output, gate_type, active: true }
    }

    /// The unbound input pins and output pins of a gate of the given kind.
    pub fn get_pins(gate_type: GateType) -> (pins: (Vec<Pin>, Vec<Pin>))
        ensures
            pins.0@ == unbound_pins(gate_type.inputs()),
            pins.1@ == unbound_pins(gate_type.outputs()),
    {
        let input = make_pins(gate_type.input_count());
        let output = make_pins(gate_type.output_count());
        (input, output)
    }

    /// Turns this gate to face `new_rotation`.
    pub fn change_rotation(&mut self, new_rotation: Rotation)
        ensures
            final(self)@ == (GateView { rotation: new_rotation, ..old(self)@ }),
    {
        self.rotation = new_rotation;
    }

    /// Number of pins of the given role.
    pub fn get_pin_count(&self, pin_type: PinType) -> (n: usize)
        ensures
            n == self@.pins(pin_type).len(),
    {
        match pin_type {
            PinType::Input => self.input.len(),
            PinType::Output => self.output.len(),
        }
    }

    /// The pin of the given role and ordinal.
    pub fn get_pin(&self, pin_index: usize, pin_type: PinType) -> (r: Result<Pin, CircuitError>)
        ensures
            r == (if pin_index < self@.pins(pin_type).len() {
                Ok::<Pin, CircuitError>(self@.pins(pin_type)[pin_index as int])
            } else {
                Err::<Pin, CircuitError>(CircuitError::InvalidPinIndex)
            }),
    {
        match pin_type {
            PinType::Input => {
                if pin_index < self.input.len() {
                    Ok(self.input[pin_index])
                } else {
                    Err(CircuitError::InvalidPinIndex)
                }
            },
            PinType::Output => {
                if pin_index < self.output.len() {
                    Ok(self.output[pin_index])
                } else {
                    Err(CircuitError::InvalidPinIndex)
                }
            },
        }
    }

    /// A copy of this gate.
    pub fn duplicate(&self) -> (gate: Gate)
        ensures
            gate@ == self@,
    {
        Gate {
            rotation: self.rotation,
            input: copy_pins(&self.input),
            output: copy_pins(&self.output),
            gate_type: self.gate_type,
            active: self.active,
        }
    }
}

/// A copy of a pin vector.
fn copy_pins(pins: &Vec<Pin>) -> (copy: Vec<Pin>)
    ensures
        copy@ == pins@,
{
    let mut copy: Vec<Pin> = Vec::new();
    for i in 0..pins.len()
        invariant
            copy@ == pins@.take(i as int),
    {
        copy.push(pins[i]);
        assert(copy@ =~= pins@.take(i + 1));
    }
    assert(pins@.take(pins.len() as int) =~= pins@);
    copy
}

} // verus!
