//! The board as an environment: actions are cell indices, steps give observations and rewards.
use vstd::prelude::*;

use crate::game::{Action, ActionOutcome, Cell, Game};

verus! {

/// Three planes over the board, row by row: whether each cell is hidden (1) or not (0),
/// whether it is revealed (1) or not (0), and its hint where revealed (-1 where hidden).
pub struct Observation {
    pub hidden: Vec<i8>,
    pub revealed: Vec<i8>,
    pub hints: Vec<i8>,
    pub width: usize,
    pub height: usize,
}

/// The result of one step: what is seen now, the reward in hundredths, and whether the game is over.
pub struct StepResult {
    pub observation: Observation,
    pub reward: i32,
    pub done: bool,
}

pub open spec fn hidden_value(c: Cell) -> int {
    if c.revealed {
        0
    } else {
        1
    }
}

pub open spec fn revealed_value(c: Cell) -> int {
    if c.revealed {
        1
    } else {
        0
    }
}

pub open spec fn hint_value(c: Cell) -> int {
    if c.revealed {
        c.nearby_bombs as int
    } else {
        -1
    }
}

impl Observation {
    /// `self` shows the board `g`: each plane has one entry per cell, cell `(x, y)` at `y * width + x`.
    pub open spec fn observes(&self, g: &Game) -> bool {
        &&& self.width == g.width
        &&& self.height == g.height
        &&& self.hidden@.len() == g.height * g.width
        &&& self.revealed@.len() == g.height * g.width
        &&& self.hints@.len() == g.height * g.width
        &&& forall|x: int, y: int|
            g.in_bounds(x, y) ==> {
                &&& self.hidden@[y * g.width + x] == hidden_value(#[trigger] g.cell(x, y))
                &&& self.revealed@[y * g.width + x] == revealed_value(g.cell(x, y))
                &&& self.hints@[y * g.width + x] == hint_value(g.cell(x, y))
            }
    }

    /// The three planes one after another.
    pub fn platten(&self) -> (v: Vec<i8>)
        ensures
            v@ == self.hidden@ + self.revealed@ + self.hints@,
    {
        let mut v: Vec<i8> = Vec::new();
        append_all(&mut v, &self.hidden);
        append_all(&mut v, &self.revealed);
        append_all(&mut v, &self.hints);
        v
    }
}

/// Appends every element of `src` to `v`.
fn append_all(v: &mut Vec<i8>, src: &Vec<i8>)
    ensures
        final(v)@ == old(v)@ + src@,
{
    let n = src.len();
    for i in 0..n
        invariant
            n == src@.len(),
            v@ == old(v)@ + src@.take(i as int),
    {
        v.push(src[i]);
        assert(src@.take(i + 1) =~= src@.take(i as int).push(src@[i as int]));
    }
    assert(src@.take(n as int) =~= src@);
}


/// The reward of a move, in hundredths: 5 for each cell a flood took, -50 for an invalid
/// move, -100 for hitting a bomb, 200 for a win.
pub open spec fn reward_of(outcome: ActionOutcome) -> int {
    match outcome {
        ActionOutcome::RevealCell(n) => 5 * n,
        ActionOutcome::Invalid => -50,
        ActionOutcome::HitBomb => -100,
        ActionOutcome::Win => 200,
    }
}

/// A move ends the game when it hits a bomb or wins.
pub open spec fn done_of(outcome: ActionOutcome) -> bool {
    outcome == ActionOutcome::HitBomb || outcome == ActionOutcome::Win
}

/// A board game played by numbered actions.
pub trait Environment: Sized {
    /// The environment's state is well formed: enough to read it.
    spec fn well_formed(&self) -> bool;

    /// The environment can be played.
    spec fn playable(&self) -> bool;

    /// Number of actions; every action below it may be played.
    spec fn action_space(&self) -> nat;

    /// Playing action `action` stays within the machine's limits.
    spec fn can_play(&self, action: nat) -> bool;

    /// The move that action number `action` stands for.
    fn decode(&self, action: usize) -> Action
        requires
            self.well_formed(),
            action < self.action_space(),
    ;

    /// Starts a new game of the same size and returns what is seen of it.
    fn reset(&mut self) -> (obs: Observation)
        requires
            old(self).playable(),
        ensures
            final(self).playable(),
            final(self).action_space() == old(self).action_space(),
    ;

    /// Plays action number `action`.
    fn step(&mut self, action: usize) -> (r: StepResult)
        requires
            old(self).well_formed(),
            action < old(self).action_space(),
            old(self).can_play(action as nat),
        ensures
            final(self).well_formed(),
            old(self).playable() ==> final(self).playable(),
            final(self).action_space() == old(self).action_space(),
    ;

    /// For each action, whether playing it is allowed.
    fn action_mask(&self) -> (mask: Vec<bool>)
        requires
            self.well_formed(),
        ensures
            mask@.len() == self.action_space(),
    ;
}

pub proof fn lemma_div_in_range(a: int, w: int, h: int)
    requires
        0 <= a < w * h,
        0 < w,
    ensures
        0 <= a / w < h,
        0 <= a % w < w,
{
    assert(0 <= a / w < h) by (nonlinear_arith)
        requires
            0 <= a < w * h,
            0 < w,
    ;
}

impl Environment for Game {
    /// The board has its rows and cells in place (`Game::wf`).
    open spec fn well_formed(&self) -> bool {
        self.wf()
    }

    /// A well-formed board whose hints are right, small enough for the neighbour arithmetic,
    /// with at most as many bombs as cells.
    open spec fn playable(&self) -> bool {
        &&& self.wf()
        &&& self.fits_offsets()
        &&& self.area_fits()
        &&& self.num_bombs <= self.height * self.width
        &&& self.hints_correct()
    }

    /// One action per cell: revealing it.
    open spec fn action_space(&self) -> nat {
        (self.width * self.height) as nat
    }

    /// The board's cell count fits (the observation is sized by it), and revealing the cell
    /// of `action` stays within the machine's limits (`Game::can_reveal`).
    open spec fn can_play(&self, action: nat) -> bool {
        self.area_fits() && self.can_reveal(action as int % self.width as int, action as int / self.width as int)
    }

    /// Action `y * width + x` reveals the cell at column `x`, row `y`.
    fn decode(&self, action: usize) -> (a: Action)
        ensures
            a == Action::Reveal(action % self.width, action / self.width),
            self.in_bounds((action % self.width) as int, (action / self.width) as int),
    {
        proof {
            assert(self.width > 0) by (nonlinear_arith)
                requires
                    action < self.width * self.height,
            ;
            lemma_div_in_range(action as int, self.width as int, self.height as int);
        }
        // An action below the board's size is its own index on the board.
        let x = action % self.width;
        let y = action / self.width;
        Action::Reveal(x, y)
    }

    /// A new board of the same size and bomb budget, with no bombs placed yet.
    fn reset(&mut self) -> (obs: Observation)
        ensures
            final(self).height == old(self).height,
            final(self).width == old(self).width,
            final(self).num_bombs == old(self).num_bombs,
            !final(self).bombs_generated,
            final(self).step_count == 0,
            forall|x: int, y: int|
                final(self).in_bounds(x, y) ==> #[trigger] final(self).cell(x, y) == crate::game::fresh_cell(x, y),
            obs.observes(final(self)),
    {
        *self = Game::new(self.height, self.width, self.num_bombs);
        self.to_observation()
    }

    /// Decodes and plays the action; the reward and the end of the game follow from the outcome.
    fn step(&mut self, action: usize) -> (r: StepResult)
        ensures
            exists|outcome: ActionOutcome|
                Game::move_effect(old(self), final(self), Action::Reveal(action % old(self).width, action / old(self).width), outcome)
                    && r.reward == reward_of(outcome) && r.done == done_of(outcome),
            r.observation.observes(final(self)),
            final(self).bombs_generated == old(self).bombs_generated,
            final(self).step_count == old(self).step_count,
    {
        let action = self.decode(action);
        let outcome = self.apply_action(action);
        let (reward, done) = match outcome {
            ActionOutcome::RevealCell(n) => (5 * n as i32, false),
            ActionOutcome::Invalid => (-50, false),
            ActionOutcome::HitBomb => (-100, true),
            ActionOutcome::Win => (200, true),
        };
        let observation = self.to_observation();
        proof {
            assert(reward == reward_of(outcome) && done == done_of(outcome));
        }
        StepResult { observation, reward, done }
    }

    /// Cell `y * width + x` may be revealed unless it is already revealed or flagged.
    fn action_mask(&self) -> (mask: Vec<bool>)
        ensures
            forall|x: int, y: int|
                self.in_bounds(x, y) ==> mask@[y * self.width + x] == !((#[trigger] self.cell(x, y)).revealed
                    || self.cell(x, y).flagged),
    {
        let height = self.height;
        let width = self.width;
        let mut mask: Vec<bool> = Vec::new();
        assert(0 * width == 0);
        for y in 0..height
            invariant
                self.wf(),
                width == self.width,
                height == self.height,
                mask@.len() == y * width,
                forall|xx: int, yy: int|
                    0 <= yy < y && 0 <= xx < width ==> mask@[yy * width + xx] == !((#[trigger] self.cell(xx, yy)).revealed
                        || self.cell(xx, yy).flagged),
        {
            for x in 0..width
                invariant
                    self.wf(),
                    width == self.width,
                    height == self.height,
                    y < height,
                    mask@.len() == y * width + x,
                    forall|xx: int, yy: int|
                        ((0 <= yy < y && 0 <= xx < width) || (yy == y && 0 <= xx < x)) ==> mask@[yy * width + xx] == !(
                        (#[trigger] self.cell(xx, yy)).revealed || self.cell(xx, yy).flagged),
            {
                proof {
                    crate::game::lemma_below_area(width as int, height as int, y as int, x as int);
                }
                let cell = self.get_cell(x, y);
                mask.push(!(cell.revealed || cell.flagged));
                proof {
                    assert forall|xx: int, yy: int|
                        ((0 <= yy < y && 0 <= xx < width) || (yy == y && 0 <= xx < x + 1)) implies mask@[yy * width
                        + xx] == !((#[trigger] self.cell(xx, yy)).revealed || self.cell(xx, yy).flagged) by {
                        if yy != y || xx != x {
                            crate::game::lemma_row_major_index(width as int, y as int, x as int, yy, xx);
                        }
                    }
                }
            }
            proof {
                crate::game::lemma_next_row(width as int, y as int);
            }
        }
        proof {
            assert(self.width * self.height == self.height * self.width) by (nonlinear_arith);
        }
        mask
    }
}

} // verus!
