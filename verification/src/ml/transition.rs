//! One remembered move.
use vstd::prelude::*;

verus! {

/// A move and what came of it. Observations are the three planes of
/// `Observation` one after another, in eighths (see `obs_to_vec`); the reward is in hundredths.
pub struct Transition {
    pub obs: Vec<i32>,
    pub next_obs: Vec<i32>,
    pub action: usize,
    pub reward: i32,
    pub done: bool,
}

} // verus!
