//! The counting behind the training dashboard: episode tallies and bounded histories.
use vstd::prelude::*;

verus! {

/// A request from the dashboard to the trainer.
#[derive(Clone, Copy, Debug, PartialEq, Eq, Structural)]
pub enum Command {
    Save,
}

/// `s` with `val` appended, then its oldest entry dropped if it has grown past `cap`.
pub open spec fn capped<T>(s: Seq<T>, val: T, cap: nat) -> Seq<T> {
    if s.len() + 1 > cap {
        s.push(val).drop_first()
    } else {
        s.push(val)
    }
}

/// Appends `val`, then drops the oldest entry if `v` has grown past `cap`.
pub fn push_capped<T>(v: &mut Vec<T>, val: T, cap: usize)
    ensures
        final(v)@ == capped(old(v)@, val, cap as nat),
{
    v.push(val);
    if v.len() > cap {
        v.remove(0);
    }
}

/// Episode counters of the dashboard.
#[derive(Clone, Copy, Debug, PartialEq, Eq, Structural)]
pub struct EpisodeTally {
    pub episode: usize,
    pub wins: usize,
    pub losses: usize,
    pub total_steps: usize,
}

impl EpisodeTally {
    pub fn new() -> (t: Self)
        ensures
            t == (EpisodeTally { episode: 0, wins: 0, losses: 0, total_steps: 0 }),
    {
        EpisodeTally { episode: 0, wins: 0, losses: 0, total_steps: 0 }
    }

    /// Records an ended episode: its number becomes the current one, its steps are added
    /// to the total, and it counts as a win or a loss.
    pub fn record(&mut self, episode: usize, steps: usize, win: bool)
        requires
            old(self).total_steps + steps <= usize::MAX,
            old(self).wins < usize::MAX,
            old(self).losses < usize::MAX,
        ensures
            final(self).episode == episode,
            final(self).total_steps == old(self).total_steps + steps,
            final(self).wins == old(self).wins + (if win { 1int } else { 0int }),
            final(self).losses == old(self).losses + (if win { 0int } else { 1int }),
    {
        self.episode = episode;
        self.total_steps += steps;
        if win {
            self.wins += 1;
        } else {
            self.losses += 1;
        }
    }
}

} // verus!
