//! Fuel requirement for a module of a given mass.

use vstd::prelude::*;

verus! {

/// The fuel needed to lift a mass: a third of the mass, rounded toward
/// zero, less two. The result may be negative for very small masses.
pub open spec fn spec_fuel(mass: int) -> int {
    if mass >= 0 {
        mass / 3 - 2
    } else {
        -((-mass) / 3) - 2
    }
}

/// Fuel required for one module of mass `mass`.
pub fn calculate_fuel(mass: i32) -> (r: i32)
    ensures
        r == spec_fuel(mass as int),
{
    if mass >= 0 {
        ((mass as u32) / 3) as i32 - 2
    } else {
        let mag = (-(mass as i64)) as u64;
        let third = (mag / 3) as i64;
        (-third - 2) as i32
    }
}

} // verus!
