//! Units of length and the automatic size marker.
use vstd::prelude::*;

verus! {

/// The unit of a length: pixels, or a fraction of the parent.
#[derive(Clone, Copy, Debug, PartialEq, Eq, Structural)]
pub enum LengthUnit {
    Pixels,
    Percent,
}

/// The marker of a size left for the layout to decide.
#[derive(Clone, Copy, Debug, PartialEq, Eq, Structural)]
pub struct AutoValue;

/// The automatic size.
pub fn auto() -> (r: AutoValue)
    ensures
        r == AutoValue,
{
    AutoValue
}

} // verus!
