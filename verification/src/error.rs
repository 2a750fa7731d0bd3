//! The one way in which building a component can fail.
use vstd::prelude::*;

verus! {

/// What can go wrong when a component count is chosen.
#[derive(Debug, Clone, Copy, PartialEq, Eq, Structural)]
pub enum Error {
    /// A component count outside `1..=9`; the field is the offending count.
    ComponentOutOfBounds(u8),
}

/// The text that describes a count out of bounds.
pub open spec fn out_of_bounds_text() -> Seq<char> {
    "The component value must fall in the range (1..=9)"@
}

impl Error {
    /// A description of the error for a reader.
    pub fn message(&self) -> (text: String)
        ensures
            text@ == out_of_bounds_text(),
    {
        match self {
            Error::ComponentOutOfBounds(_) => {
                "The component value must fall in the range (1..=9)".to_owned()
            },
        }
    }
}

} // verus!
