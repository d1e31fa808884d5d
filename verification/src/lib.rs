//! The search coordinator's decision logic: the archive of retained basins,
//! the work-budget meter, the action queue's bookkeeping, and the audit
//! tallies, each with the contract it keeps.
use vstd::prelude::*;

pub mod bits;
pub mod text;
pub mod order;
pub mod portfolio;
pub mod round_envelope_gate;
pub mod shadow_rescore;

verus! {

} // verus!
