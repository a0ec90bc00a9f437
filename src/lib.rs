//! Chunk planning and pairwise haplotype painting along a chromosome.
//!
//! The library models genetic distances, memory budgets and HMM costs as
//! integers: genetic distances are in fixed map units, painting costs are
//! negative log-probabilities on a fixed integer scale.
use vstd::prelude::*;

pub mod genetic_map;
pub mod planner;
pub mod store;
pub mod paint;
pub mod pipeline;

verus! {

} // verus!
