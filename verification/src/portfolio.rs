//! The anytime portfolio coordinator's decision logic: what each phase and
//! action is called, the archive of retained basins, the crossover's
//! combinatorial half, the work meter, the action queue's own bookkeeping,
//! and the basin race's judging and halving.
use vstd::prelude::*;

pub mod kinds;
pub mod ledger;
pub mod archive;
pub mod crossover;
pub mod meter;
pub mod queue;
pub mod race;

verus! {

} // verus!
