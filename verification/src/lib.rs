//! An incremental Game-of-Life engine over an unbounded integer grid.
//!
//! Live cells are split into an *active* partition (re-evaluated every tick)
//! and a *stable* partition (skipped until a nearby birth or death wakes
//! them).  A pool of reusable render placeholders is reconciled against the
//! live cells once per render sync, growing on demand and shrinking under a
//! hysteresis policy.

use vstd::prelude::*;

pub mod cell_store;
pub mod input;
pub mod pool;
pub mod sched;
pub mod stepper;
pub mod uvec3;

verus! {

/// Ticks a newly activated cell stays active without changing before it is
/// demoted to the stable partition.
pub const UPDATE_COUNT_LIMIT: u32 = 20;

/// Chebyshev radius around a birth or death within which stable cells are
/// woken back into the active partition.
pub const UNSTABLE_CHANGER_LIMIT: i32 = 3;

} // verus!
