use vstd::prelude::*;

verus! {

/// Measure in which a BSDF or a phase function is evaluated.
#[derive(PartialEq, Eq, Structural, Clone, Copy, Debug)]
pub enum Domain {
    SolidAngle,
    Discrete,
}

impl Domain {
    /// Whether the value is a density over directions.
    pub fn is_solid_angle(&self) -> (r: bool)
        ensures
            r == (*self == Domain::SolidAngle),
    {
        match self {
            Domain::SolidAngle => true,
            Domain::Discrete => false,
        }
    }
}

} // verus!
