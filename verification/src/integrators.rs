use vstd::prelude::*;

verus! {

/// Forward Euler: accelerations from the current positions, then positions
/// and velocities both advanced from the old state.
#[derive(Clone, Copy, Debug)]
pub struct Euler;

/// Velocity-Verlet: half kick with the stored accelerations, drift, one force
/// evaluation at the new positions, second half kick.
#[derive(Clone, Copy, Debug)]
pub struct VelocityVerlet;

} // verus!
