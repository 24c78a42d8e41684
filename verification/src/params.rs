use vstd::prelude::*;
use vstd::string::StringSliceAdditionalSpecFns;

verus! {

/// A tunable parameter of the engine, addressed by name from the host page.
#[derive(Clone, Copy, Debug, PartialEq, Eq, Structural)]
pub enum Param {
    /// Point sprite size.
    Size,
    /// Brightness of each particle.
    Intensity,
    /// Tone-mapping exposure.
    Exposure,
    /// Fade of the accumulation buffer per frame (motion trails).
    Trail,
    /// Extra glow per unit of speed.
    SpeedGlow,
    /// SPH gravity.
    Gravity,
    /// SPH linear viscosity (sigma).
    Viscosity,
    /// SPH quadratic viscosity.
    Beta,
    /// SPH pressure stiffness.
    Stiffness,
    /// SPH near-pressure stiffness.
    StiffnessNear,
    /// Mouse repulsion, for both modes.
    Mouse,
    /// Morph spring toward the targets.
    Spring,
    /// Morph velocity damping.
    Damp,
    /// Morph turbulence.
    Turb,
}

/// The parameter a name selects; names are compared byte for byte, and an unknown name
/// selects nothing.
pub open spec fn param_named(name: Seq<u8>) -> Option<Param> {
    if name == "size".spec_bytes() {
        Some(Param::Size)
    } else if name == "intensity".spec_bytes() {
        Some(Param::Intensity)
    } else if name == "exposure".spec_bytes() {
        Some(Param::Exposure)
    } else if name == "trail".spec_bytes() {
        Some(Param::Trail)
    } else if name == "speed_glow".spec_bytes() {
        Some(Param::SpeedGlow)
    } else if name == "gravity".spec_bytes() {
        Some(Param::Gravity)
    } else if name == "viscosity".spec_bytes() {
        Some(Param::Viscosity)
    } else if name == "beta".spec_bytes() {
        Some(Param::Beta)
    } else if name == "stiffness".spec_bytes() {
        Some(Param::Stiffness)
    } else if name == "stiffness_near".spec_bytes() {
        Some(Param::StiffnessNear)
    } else if name == "mouse".spec_bytes() {
        Some(Param::Mouse)
    } else if name == "spring".spec_bytes() {
        Some(Param::Spring)
    } else if name == "damp".spec_bytes() {
        Some(Param::Damp)
    } else if name == "turb".spec_bytes() {
        Some(Param::Turb)
    } else {
        None
    }
}

/// Byte-wise equality of two slices.
fn bytes_eq(a: &[u8], b: &[u8]) -> (r: bool)
    ensures
        r == (a@ == b@),
{
    if a.len() != b.len() {
        return false;
    }
    let mut i: usize = 0;
    while i < a.len()
        invariant
            a@.len() == b@.len(),
            i <= a@.len(),
            forall|j: int| 0 <= j < i ==> a@[j] == b@[j],
        decreases a@.len() - i,
    {
        if a[i] != b[i] {
            return false;
        }
        i += 1;
    }
    proof {
        assert(a@ =~= b@);
    }
    true
}

impl Param {
    /// The parameter called `name`, if any.
    pub fn from_name(name: &str) -> (r: Option<Param>)
        ensures
            r == param_named(name.spec_bytes()),
    {
        let b = name.as_bytes();
        if bytes_eq(b, "size".as_bytes()) {
            Some(Param::Size)
        } else if bytes_eq(b, "intensity".as_bytes()) {
            Some(Param::Intensity)
        } else if bytes_eq(b, "exposure".as_bytes()) {
            Some(Param::Exposure)
        } else if bytes_eq(b, "trail".as_bytes()) {
            Some(Param::Trail)
        } else if bytes_eq(b, "speed_glow".as_bytes()) {
            Some(Param::SpeedGlow)
        } else if bytes_eq(b, "gravity".as_bytes()) {
            Some(Param::Gravity)
        } else if bytes_eq(b, "viscosity".as_bytes()) {
            Some(Param::Viscosity)
        } else if bytes_eq(b, "beta".as_bytes()) {
            Some(Param::Beta)
        } else if bytes_eq(b, "stiffness".as_bytes()) {
            Some(Param::Stiffness)
        } else if bytes_eq(b, "stiffness_near".as_bytes()) {
            Some(Param::StiffnessNear)
        } else if bytes_eq(b, "mouse".as_bytes()) {
            Some(Param::Mouse)
        } else if bytes_eq(b, "spring".as_bytes()) {
            Some(Param::Spring)
        } else if bytes_eq(b, "damp".as_bytes()) {
            Some(Param::Damp)
        } else if bytes_eq(b, "turb".as_bytes()) {
            Some(Param::Turb)
        } else {
            None
        }
    }
}

} // verus!
