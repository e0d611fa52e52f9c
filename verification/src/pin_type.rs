use vstd::prelude::*;

verus! {

/// The role of a pin on its gate.
#[derive(Debug, Clone, Copy, PartialEq, Eq, Structural)]
pub enum PinType {
    Input,
    Output,
}

impl PinType {
    /// The role's name in lower case.
    pub open spec fn name(self) -> Seq<char> {
        match self {
            PinType::Input => "input"@,
            PinType::Output => "output"@,
        }
    }

    pub fn to_string(self) -> (s: String)
        ensures
            s@ == self.name(),
    {
        match self {
            PinType::Input => "input".to_owned(),
            PinType::Output => "output".to_owned(),
        }
    }
}

} // verus!
