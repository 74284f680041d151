use vstd::prelude::*;

verus! {

/// One of the three components of a vector.
#[derive(Clone, Copy, Debug, PartialEq, Eq, Structural)]
pub enum Axis {
    X,
    Y,
    Z,
}

impl Axis {
    /// The axis at position `i` of `(x, y, z)`.
    pub open spec fn at_spec(i: nat) -> Option<Axis> {
        if i == 0 {
            Some(Axis::X)
        } else if i == 1 {
            Some(Axis::Y)
        } else if i == 2 {
            Some(Axis::Z)
        } else {
            None
        }
    }

    /// The axis that component index `i` names. An index past the third
    /// component names none: it is not wrapped around.
    pub fn from_index(i: u32) -> (r: Option<Axis>)
        ensures
            r == Self::at_spec(i as nat),
            r.is_some() <==> i < 3,
    {
        match i {
            0 => Some(Axis::X),
            1 => Some(Axis::Y),
            2 => Some(Axis::Z),
            _ => None,
        }
    }
}

} // verus!
