use vstd::prelude::*;

pub mod cell_pairs;
pub mod cells;
pub mod drift;
pub mod integrators;
pub mod lattice;
pub mod pairs;
pub mod schedule;
pub mod system;

pub use cell_pairs::cell_list_pairs;
pub use cells::{bin_cell, build_cells, neighbour_cells, wrap_coord};
pub use drift::averaging_window;
pub use integrators::{Euler, VelocityVerlet};
pub use lattice::{lattice_side, lattice_sites};
pub use pairs::{all_pairs, pair_plan, unique_pairs, use_cells, PairPlan};
pub use schedule::{
    equilibration_actions, equilibration_schedule, production_actions, production_schedule,
    StepActions, EQ_RESCALE_EVERY, PROD_RESCALE_EVERY,
};
pub use system::{thermo_degrees_of_freedom, ForceMode};

verus! {

/// The fixed salutation of the crate.
pub fn greeting() -> (s: &'static str)
    ensures
        s@ == "Hello, world!"@,
{
    "Hello, world!"
}

} // verus!
