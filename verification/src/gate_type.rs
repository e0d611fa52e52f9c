use vstd::prelude::*;

verus! {

/// The kind of a gate. `IN` is a signal source and `OUT` an observation
/// point.
#[derive(Clone, Copy, Debug, PartialEq, Eq, Structural)]
pub enum GateType {
    NOT,
    OR,
    XOR,
    NOR,
    XNOR,
    AND,
    NAND,
    IN,
    OUT,
}

impl GateType {
    /// The kind's label in lower case.
    pub open spec fn label(self) -> Seq<char> {
        match self {
            GateType::NOT => "not"@,
            GateType::OR => "or"@,
            GateType::XOR => "xor"@,
            GateType::XNOR => "xnor"@,
            GateType::NOR => "nor"@,
            GateType::AND => "and"@,
            GateType::NAND => "nand"@,
            GateType::IN => "in"@,
            GateType::OUT => "out"@,
        }
    }

    pub fn text(&self) -> (s: &'static str)
        ensures
            s@ == self.label(),
    {
        match self {
            GateType::NOT => "not",
            GateType::OR => "or",
            GateType::XOR => "xor",
            GateType::XNOR => "xnor",
            GateType::NOR => "nor",
            GateType::AND => "and",
            GateType::NAND => "nand",
            GateType::IN => "in",
            GateType::OUT => "out",
        }
    }

    /// Number of input pins of a gate of this kind.
    pub open spec fn inputs(self) -> nat {
        match self {
            GateType::NOT | GateType::OUT => 1,
            GateType::IN => 0,
            _ => 2,
        }
    }

    /// Number of output pins of a gate of this kind.
    pub open spec fn outputs(self) -> nat {
        match self {
            GateType::OUT => 0,
            _ => 1,
        }
    }

    /// The kind's truth table on the levels of its first and second input.
    /// A kind with fewer inputs ignores the rest. `OUT` drives nothing and
    /// is given `false`.
    pub open spec fn truth(self, a: bool, b: bool) -> bool {
        match self {
            GateType::NOT => !a,
            GateType::OR => a || b,
            GateType::XOR => a != b,
            GateType::XNOR => a == b,
            GateType::NOR => !(a || b),
            GateType::AND => a && b,
            GateType::NAND => !(a && b),
            GateType::IN => true,
            GateType::OUT => false,
        }
    }

    pub fn input_count(&self) -> (n: usize)
        ensures
            n == self.inputs(),
    {
        match self {
            GateType::NOT => 1,
            GateType::OR => 2,
            GateType::XOR => 2,
            GateType::XNOR => 2,
            GateType::NOR => 2,
            GateType::AND => 2,
            GateType::NAND => 2,
            GateType::IN => 0,
            GateType::OUT => 1,
        }
    }

    pub fn output_count(&self) -> (n: usize)
        ensures
            n == self.outputs(),
    {
        match self {
            GateType::NOT => 1,
            GateType::OR => 1,
            GateType::XOR => 1,
            GateType::XNOR => 1,
            GateType::NOR => 1,
            GateType::AND => 1,
            GateType::NAND => 1,
            GateType::IN => 1,
            GateType::OUT => 0,
        }
    }

    /// Applies the truth table.
    pub fn apply(&self, a: bool, b: bool) -> (level: bool)
        ensures
            level == self.truth(a, b),
    {
        match self {
            GateType::NOT => !a,
            GateType::OR => a || b,
            GateType::XOR => a != b,
            GateType::XNOR => a == b,
            GateType::NOR => !(a || b),
            GateType::AND => a && b,
            GateType::NAND => !(a && b),
            GateType::IN => true,
            GateType::OUT => false,
        }
    }
}

} // verus!
