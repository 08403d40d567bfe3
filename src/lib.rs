//! Consolidates the fuel left in partly used canisters into the lightest set of canisters
//! that can carry it, with a plan of which canister pours how much into which.

pub mod canister;
pub mod plan;
pub mod steps;
pub mod sums;
pub mod weights;

pub use canister::{assign_ids, build_cans_from_gross, total_fuel, Can, CanSize, CanSpec, GrossInput, InputError};
pub use plan::{can_plan, solve_plan, Plan, PlanError};
pub use steps::{donors_in_order, recipients_in_order};
pub use weights::{read_gross_for_size, WeightError};
