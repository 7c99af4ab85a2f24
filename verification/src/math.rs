//! Layout axes.

use vstd::prelude::*;

verus! {

/// A direction in which things are laid out.
#[derive(Clone, Copy, Debug, PartialEq, Eq, Structural)]
pub enum Axis {
    Horizontal,
    Vertical,
}

/// The other axis.
pub open spec fn cross_spec(axis: Axis) -> Axis {
    match axis {
        Axis::Horizontal => Axis::Vertical,
        Axis::Vertical => Axis::Horizontal,
    }
}

impl Axis {
    /// The other axis.
    pub fn cross(&self) -> (r: Self)
        ensures
            r == cross_spec(*self),
    {
        match self {
            Axis::Horizontal => Axis::Vertical,
            Axis::Vertical => Axis::Horizontal,
        }
    }
}

/// Law: crossing twice gives the axis back, and crossing once never does.
pub proof fn law_cross_is_an_involution(axis: Axis)
    ensures
        cross_spec(cross_spec(axis)) == axis,
        cross_spec(axis) != axis,
{
}

} // verus!
