//! The game side of training: the boards being played, the replay memory, and the
//! bookkeeping of steps and episodes. The network and its optimiser live with the caller,
//! which hands in the moves it picked and gets back what training work is due.
use vstd::prelude::*;

use crate::game::{Action, ActionOutcome, Game, COUNT_LIMIT};
use crate::ml::env::{done_of, hidden_value, hint_value, reward_of, revealed_value, Environment, Observation};
use crate::ml::replay::{pushed, ReplayBuffer};
use crate::ml::transition::Transition;
use crate::random::{random_below, Draw};

verus! {

/// The three observation planes one after another, on a scale of eighths: hidden and
/// revealed marks become 0 or 8, hints stay as they are (a hint of `h` stands for `h / 8`).
pub fn obs_to_vec(obs: &Observation) -> (v: Vec<i32>)
    ensures
        v@.len() == obs.hidden@.len() + obs.revealed@.len() + obs.hints@.len(),
        forall|i: int| 0 <= i < obs.hidden@.len() ==> v@[i] == 8 * obs.hidden@[i],
        forall|i: int| 0 <= i < obs.revealed@.len() ==> v@[obs.hidden@.len() + i] == 8 * obs.revealed@[i],
        forall|i: int|
            0 <= i < obs.hints@.len() ==> v@[obs.hidden@.len() + obs.revealed@.len() + i] == obs.hints@[i],
{
    let mut v: Vec<i32> = Vec::new();
    let n1 = obs.hidden.len();
    for i in 0..n1
        invariant
            n1 == obs.hidden@.len(),
            v@.len() == i,
            forall|j: int| 0 <= j < i ==> v@[j] == 8 * obs.hidden@[j],
    {
        v.push(8 * obs.hidden[i] as i32);
    }
    let n2 = obs.revealed.len();
    for i in 0..n2
        invariant
            n1 == obs.hidden@.len(),
            n2 == obs.revealed@.len(),
            v@.len() == n1 + i,
            forall|j: int| 0 <= j < n1 ==> v@[j] == 8 * obs.hidden@[j],
            forall|j: int| 0 <= j < i ==> v@[n1 + j] == 8 * obs.revealed@[j],
    {
        v.push(8 * obs.revealed[i] as i32);
    }
    let n3 = obs.hints.len();
    for i in 0..n3
        invariant
            n1 == obs.hidden@.len(),
            n2 == obs.revealed@.len(),
            n3 == obs.hints@.len(),
            v@.len() == n1 + n2 + i,
            forall|j: int| 0 <= j < n1 ==> v@[j] == 8 * obs.hidden@[j],
            forall|j: int| 0 <= j < n2 ==> v@[n1 + j] == 8 * obs.revealed@[j],
            forall|j: int| 0 <= j < i ==> v@[n1 + n2 + j] == obs.hints@[j],
    {
        v.push(obs.hints[i] as i32);
    }
    v
}

/// What an ended episode is reported as.
#[derive(Clone, Copy, Debug, PartialEq, Eq, Structural)]
pub struct EpisodeSummary {
    pub episode: usize,
    /// Sum of the episode's rewards, in hundredths.
    pub total_reward: i64,
    pub steps: usize,
    pub win: bool,
}

/// What one move on one board produced.
#[derive(Clone, Copy, Debug, PartialEq, Eq, Structural)]
pub struct MoveReport {
    /// The move's reward, in hundredths.
    pub reward: i32,
    /// The move ended the game.
    pub done: bool,
    /// A training batch is due now.
    pub train: bool,
}

/// The boards being played and what training remembers of them.
pub struct Model {
    pub games: Vec<Game>,
    pub replay_buffer: ReplayBuffer,
    pub step_count: usize,
    pub target_update_freq: usize,
    pub episode_count: usize,
    /// Reward gathered so far in each board's current episode, in hundredths.
    pub episode_rewards: Vec<i64>,
    pub last_win: bool,
    /// Total reward of the last episode that ended, in hundredths.
    pub last_total_reward: i64,
    pub last_steps: usize,
}

/// Batch size of a training step, and the replay memory it waits for.
pub const BATCH_SIZE: usize = 256;

/// Moves between training steps.
pub const TRAIN_EVERY: usize = 4;

/// An episode total that one more move cannot push out of an `i64`.
pub open spec fn reward_room(total: i64) -> bool {
    i64::MIN + 100 <= total <= i64::MAX - 5 * COUNT_LIMIT
}

impl Game {
    /// Number of cells.
    pub open spec fn area(&self) -> int {
        self.width * self.height
    }

    /// Action `a` may be played: its cell is neither revealed nor flagged.
    pub open spec fn allows(&self, a: int) -> bool {
        &&& 0 <= a < self.area()
        &&& !self.cell(a % self.width as int, a / self.width as int).revealed
        &&& !self.cell(a % self.width as int, a / self.width as int).flagged
    }

    /// `after` is `before` with one more move counted and nothing else changed.
    pub open spec fn counted_move(before: &Game, after: &Game) -> bool {
        &&& after.map == before.map
        &&& after.height == before.height
        &&& after.width == before.width
        &&& after.num_bombs == before.num_bombs
        &&& after.bombs_generated == before.bombs_generated
        &&& after.step_count == before.step_count + 1
    }

    /// `after` is the board `before` once its bombs are placed away from a first move,
    /// marked as generated, and that first move played.
    pub open spec fn opened(before: &Game, after: &Game) -> bool {
        exists|a: int, mid: Game, outcome: ActionOutcome|
            #![trigger Game::bombs_placed(before, &mid, a), Game::move_effect(&mid, after, Action::Reveal((a % before.width as int) as usize, (a / before.width as int) as usize), outcome)]
            0 <= a < before.area() && Game::bombs_placed(before, &mid, a) && mid.bombs_generated && mid.step_count
                == before.step_count && Game::move_effect(
                &mid,
                after,
                Action::Reveal((a % before.width as int) as usize, (a / before.width as int) as usize),
                outcome,
            )
    }
}

impl Model {
    /// Every board can be played, has room for its bombs away from any first move, and is
    /// bomb-free until its bombs are generated; one running reward per board; the target
    /// network is synchronised every `target_update_freq > 0` training steps.
    pub open spec fn wf(&self) -> bool {
        &&& self.games@.len() == self.episode_rewards@.len()
        &&& self.target_update_freq > 0
        &&& self.replay_buffer.wf()
        &&& forall|i: int| 0 <= i < self.games@.len() ==> Model::board_ok(#[trigger] self.games@[i])
    }

    pub open spec fn board_ok(g: Game) -> bool {
        &&& g.playable()
        &&& g.room_for_bombs()
        &&& !g.bombs_generated ==> g.bomb_free()
    }

    /// Eight 5x5 boards with 5 bombs each, none placed yet; an empty replay memory of
    /// 50 000 moves; the target network synchronised every 1000 training steps.
    pub fn new() -> (m: Self)
        ensures
            m.wf(),
            m.games@.len() == 8,
            forall|i: int|
                0 <= i < 8 ==> {
                    &&& (#[trigger] m.games@[i]).height == 5
                    &&& m.games@[i].width == 5
                    &&& m.games@[i].num_bombs == 5
                    &&& !m.games@[i].bombs_generated
                    &&& m.games@[i].step_count == 0
                    &&& forall|x: int, y: int|
                        m.games@[i].in_bounds(x, y) ==> m.games@[i].cell(x, y) == crate::game::fresh_cell(x, y)
                },
            m.episode_rewards@ == seq![0i64; 8],
            m.replay_buffer.transitions@.len() == 0,
            m.replay_buffer.capacity == 50_000,
            m.step_count == 0,
            m.target_update_freq == 1000,
            m.episode_count == 0,
            !m.last_win,
            m.last_total_reward == 0,
            m.last_steps == 0,
    {
        let num_games: usize = 8;
        let height: usize = 5;
        let width: usize = 5;
        let mut games: Vec<Game> = Vec::new();
        let mut episode_rewards: Vec<i64> = Vec::new();
        for k in 0..num_games
            invariant
                height == 5,
                width == 5,
                games@.len() == k,
                episode_rewards@.len() == k,
                forall|j: int| 0 <= j < k ==> episode_rewards@[j] == 0,
                forall|j: int|
                    0 <= j < k ==> {
                        &&& Model::board_ok(#[trigger] games@[j])
                        &&& games@[j].height == 5
                        &&& games@[j].width == 5
                        &&& games@[j].num_bombs == 5
                        &&& !games@[j].bombs_generated
                        &&& games@[j].step_count == 0
                        &&& forall|x: int, y: int|
                            games@[j].in_bounds(x, y) ==> games@[j].cell(x, y) == crate::game::fresh_cell(x, y)
                    },
        {
            let g = Game::new(height, width, 5);
            proof {
                assert forall|x: int, y: int| g.in_bounds(x, y) implies !(#[trigger] g.cell(x, y)).is_bomb by {
                    assert(g.cell(x, y) == crate::game::fresh_cell(x, y));
                }
                assert(g.playable());
                assert forall|a: int| 0 <= a < g.width * g.height implies g.num_bombs + #[trigger] g.zone_size(a)
                    <= g.width * g.height by {
                    g.lemma_zone_at_most_nine(a);
                }
            }
            let ghost before = games@;
            games.push(g);
            proof {
                assert forall|j: int| 0 <= j < k + 1 implies games@[j] == (if j < k { before[j] } else { g }) by {}
            }
            episode_rewards.push(0);
        }
        let m = Model {
            games,
            replay_buffer: ReplayBuffer::new(50_000),
            step_count: 0,
            target_update_freq: 1000,
            episode_count: 0,
            episode_rewards,
            last_win: false,
            last_total_reward: 0,
            last_steps: 0,
        };
        assert(m.episode_rewards@ =~= seq![0i64; 8]);
        m
    }
}


impl Model {
    /// Everything but the boards is the same in `a` and `b`.
    pub open spec fn same_but_games(a: &Model, b: &Model) -> bool {
        &&& a.replay_buffer == b.replay_buffer
        &&& a.step_count == b.step_count
        &&& a.target_update_freq == b.target_update_freq
        &&& a.episode_count == b.episode_count
        &&& a.episode_rewards == b.episode_rewards
        &&& a.last_win == b.last_win
        &&& a.last_total_reward == b.last_total_reward
        &&& a.last_steps == b.last_steps
    }

    /// Board `idx` is `opened` and every other board is unchanged.
    pub open spec fn only_opened(a: &Model, b: &Model, idx: int) -> bool {
        &&& b.games@.len() == a.games@.len()
        &&& Game::opened(&a.games@[idx], &b.games@[idx])
        &&& forall|j: int| 0 <= j < a.games@.len() && j != idx ==> #[trigger] b.games@[j] == a.games@[j]
    }

    /// A first move for board `idx`, drawn over all of its cells.
    fn draw_first_move(&self, idx: usize) -> (action: Draw)
        requires
            self.wf(),
            idx < self.games@.len(),
        ensures
            action.range() == self.games@[idx as int].area(),
            action.drawn() < self.games@[idx as int].area(),
    {
        proof {
            let g = self.games@[idx as int];
            assert(Model::board_ok(g));
            assert(g.width * g.height > 0) by (nonlinear_arith)
                requires
                    g.width > 0,
                    g.height > 0,
            ;
            assert(g.width * g.height <= usize::MAX) by (nonlinear_arith)
                requires
                    g.height * g.width <= usize::MAX,
            ;
        }
        let action: Draw = random_below(self.games[idx].width * self.games[idx].height);
        action
    }

    /// Places the bombs of board `idx` away from a first move chosen at random, marks them
    /// generated, and plays that first move.
    pub fn initialise_game(&mut self, idx: usize)
        requires
            old(self).wf(),
            idx < old(self).games@.len(),
            old(self).games@[idx as int].can_place_bombs(),
        ensures
            final(self).wf(),
            Model::same_but_games(old(self), final(self)),
            Model::only_opened(old(self), final(self), idx as int),
    {
        let ghost m0 = *self;
        let ghost g0 = self.games@[idx as int];
        proof {
            assert(Model::board_ok(m0.games@[idx as int]));
            assert(g0.width * g0.height == g0.height * g0.width) by (nonlinear_arith);
            assert(g0.width * g0.height > 0) by (nonlinear_arith)
                requires
                    g0.width > 0,
                    g0.height > 0,
            ;
        }
        let action: usize = self.draw_first_move(idx).value();
        self.games[idx].generate_bombs(action);
        let ghost placed = self.games@[idx as int];
        self.games[idx].bombs_generated = true;
        let ghost mid = self.games@[idx as int];
        proof {
            assert(Game::bombs_placed(&g0, &placed, action as int));
            assert(mid.map == placed.map && mid.height == placed.height && mid.width == placed.width && mid.num_bombs == placed.num_bombs && mid.step_count == placed.step_count);
            assert forall|x: int, y: int| g0.in_bounds(x, y) implies #[trigger] mid.cell(x, y) == placed.cell(x, y) by {}
            assert(mid.grid() == placed.grid());
            assert(mid.wf());
            Game::lemma_hints_kept(&placed, &mid);
            assert(Game::bombs_placed(&g0, &mid, action as int));
        }
        let result = self.games[idx].step(action);
        proof {
            let g1 = self.games@[idx as int];
            let outcome = choose|outcome: ActionOutcome|
                Game::move_effect(&mid, &g1, Action::Reveal(action % mid.width, action / mid.width), outcome)
                    && result.reward == reward_of(outcome) && result.done == done_of(outcome);
            assert(Game::move_effect(
                &mid,
                &g1,
                Action::Reveal((action as int % g0.width as int) as usize, (action as int / g0.width as int) as usize),
                outcome,
            ));
            assert(Game::opened(&g0, &g1));
            Game::lemma_room_same_size(&g0, &g1);
            assert forall|j: int| 0 <= j < self.games@.len() implies Model::board_ok(#[trigger] self.games@[j]) by {
                if j != idx {
                    assert(self.games@[j] == m0.games@[j]);
                }
            }
        }
    }

    /// Opens every board (see `initialise_game`).
    pub fn initialise_games(&mut self)
        requires
            old(self).wf(),
            forall|i: int| 0 <= i < old(self).games@.len() ==> (#[trigger] old(self).games@[i]).can_place_bombs(),
        ensures
            final(self).wf(),
            Model::same_but_games(old(self), final(self)),
            final(self).games@.len() == old(self).games@.len(),
            forall|i: int|
                0 <= i < old(self).games@.len() ==> Game::opened(&old(self).games@[i], &#[trigger] final(self).games@[i]),
    {
        let ghost m0 = *self;
        let n = self.games.len();
        for i in 0..n
            invariant
                n == self.games@.len(),
                n == m0.games@.len(),
                self.wf(),
                Model::same_but_games(&m0, self),
                forall|j: int| 0 <= j < i ==> Game::opened(&m0.games@[j], &#[trigger] self.games@[j]),
                forall|j: int| i <= j < n ==> #[trigger] self.games@[j] == m0.games@[j],
                forall|j: int| 0 <= j < n ==> (#[trigger] m0.games@[j]).can_place_bombs(),
        {
            let ghost before = *self;
            self.initialise_game(i);
            proof {
                assert forall|j: int| 0 <= j < i + 1 implies Game::opened(&m0.games@[j], &#[trigger] self.games@[j]) by {
                    if j < i {
                        assert(self.games@[j] == before.games@[j]);
                    }
                }
                assert forall|j: int| i + 1 <= j < n implies #[trigger] self.games@[j] == m0.games@[j] by {
                    assert(self.games@[j] == before.games@[j]);
                }
            }
        }
    }
}


/// `v` is the board `g` as `obs_to_vec` encodes its observation.
pub open spec fn encodes(v: Seq<i32>, g: &Game) -> bool {
    let n = g.height * g.width;
    &&& v.len() == 3 * n
    &&& forall|x: int, y: int|
        g.in_bounds(x, y) ==> {
            &&& v[y * g.width + x] == 8 * hidden_value(#[trigger] g.cell(x, y))
            &&& v[n + y * g.width + x] == 8 * revealed_value(g.cell(x, y))
            &&& v[2 * n + y * g.width + x] == hint_value(g.cell(x, y))
        }
}

/// Encodes what is seen of board `g`.
fn encode_board(g: &Game) -> (v: Vec<i32>)
    requires
        g.wf(),
        g.height > 0,
        g.area_fits(),
    ensures
        encodes(v@, g),
{
    let obs = g.to_observation();
    let v = obs_to_vec(&obs);
    proof {
        let n = g.height * g.width;
        assert forall|x: int, y: int| g.in_bounds(x, y) implies {
            &&& v@[y * g.width + x] == 8 * hidden_value(#[trigger] g.cell(x, y))
            &&& v@[n + y * g.width + x] == 8 * revealed_value(g.cell(x, y))
            &&& v@[2 * n + y * g.width + x] == hint_value(g.cell(x, y))
        } by {
            crate::game::lemma_below_area(g.width as int, g.height as int, y, x);
            assert(0 <= y * g.width) by (nonlinear_arith)
                requires
                    0 <= y,
                    0 <= g.width,
            ;
            assert(v@[obs.hidden@.len() + (y * g.width + x)] == 8 * obs.revealed@[y * g.width + x]);
            assert(v@[obs.hidden@.len() + obs.revealed@.len() + (y * g.width + x)] == obs.hints@[y * g.width + x]);
        }
    }
    v
}

impl Game {
    /// `f` is the board `g` starts again as: same size and bomb budget, every cell fresh.
    pub open spec fn fresh_version(f: &Game, g: &Game) -> bool {
        &&& f.wf()
        &&& f.hints_correct()
        &&& f.height == g.height
        &&& f.width == g.width
        &&& f.num_bombs == g.num_bombs
        &&& !f.bombs_generated
        &&& f.step_count == 0
        &&& forall|x: int, y: int| f.in_bounds(x, y) ==> #[trigger] f.cell(x, y) == crate::game::fresh_cell(x, y)
    }

    /// `after` is `before` started again and opened.
    pub open spec fn restarted(before: &Game, after: &Game) -> bool {
        exists|f: Game| #[trigger] Game::fresh_version(&f, before) && Game::opened(&f, after)
    }
}

impl Model {
    /// Board `idx` is `restarted` and every other board is unchanged.
    pub open spec fn only_restarted(a: &Model, b: &Model, idx: int) -> bool {
        &&& b.games@.len() == a.games@.len()
        &&& Game::restarted(&a.games@[idx], &b.games@[idx])
        &&& forall|j: int| 0 <= j < a.games@.len() && j != idx ==> #[trigger] b.games@[j] == a.games@[j]
    }

    /// The action at position `r` of the actions board `i` allows, in increasing order
    /// (`Game::allowed_list`), or `None` when it allows no more than `r` actions.
    pub fn allowed_action_at(&self, i: usize, r: usize) -> (a: Option<usize>)
        requires
            self.wf(),
            i < self.games@.len(),
        ensures
            a == (if r < self.games@[i as int].allowed_list(self.games@[i as int].area()).len() {
                Some(self.games@[i as int].allowed_list(self.games@[i as int].area())[r as int])
            } else {
                None::<usize>
            }),
    {
        proof {
            assert(Model::board_ok(self.games@[i as int]));
        }
        let valid = self.games[i].allowed_actions();
        if r < valid.len() {
            Some(valid[r])
        } else {
            None
        }
    }

    /// An action chosen at random among those board `i` allows (`Game::allowed_actions`),
    /// or `None` when it allows none.
    pub fn random_valid_action(&self, i: usize) -> (a: Option<usize>)
        requires
            self.wf(),
            i < self.games@.len(),
        ensures
            match a {
                None => forall|k: int| !#[trigger] self.games@[i as int].allows(k),
                Some(k) => self.games@[i as int].allows(k as int) && self.games@[i as int].allowed_list(
                    self.games@[i as int].area(),
                ).contains(k),
            },
    {
        let ghost list = self.games@[i as int].allowed_list(self.games@[i as int].area());
        match self.draw_allowed_position(i) {
            None => {
                proof {
                    let g = self.games@[i as int];
                    assert(Model::board_ok(g));
                    assert(g.width * g.height == g.height * g.width) by (nonlinear_arith);
                    g.lemma_allowed_listed();
                    assert forall|k: int| !#[trigger] g.allows(k) by {
                        if g.allows(k) {
                            assert(list.contains(k as usize));
                        }
                    }
                }
                None
            },
            Some(r) => {
                let a = self.allowed_action_at(i, r.value());
                proof {
                    let g = self.games@[i as int];
                    assert(Model::board_ok(g));
                    assert(g.width * g.height == g.height * g.width) by (nonlinear_arith);
                    g.lemma_allowed_listed();
                    assert(list.contains(list[r.drawn() as int]));
                }
                a
            },
        }
    }

    /// A position among the actions board `i` allows (`Game::allowed_list`), drawn over all
    /// of them; `None` when the board allows none.
    fn draw_allowed_position(&self, i: usize) -> (r: Option<Draw>)
        requires
            self.wf(),
            i < self.games@.len(),
        ensures
            match r {
                None => self.games@[i as int].allowed_list(self.games@[i as int].area()).len() == 0,
                Some(d) => {
                    &&& d.range() == self.games@[i as int].allowed_list(self.games@[i as int].area()).len()
                    &&& d.drawn() < d.range()
                },
            },
    {
        proof {
            assert(Model::board_ok(self.games@[i as int]));
        }
        let n = self.games[i].allowed_actions().len();
        if n == 0 {
            return None;
        }
        let r = random_below(n);
        Some(r)
    }

    /// A board that allows no move: counts the episode as ended, starts the board again,
    /// restarts the step count, opens the board, and reports the last finished episode.
    pub fn restart_stuck_game(&mut self, i: usize) -> (summary: EpisodeSummary)
        requires
            old(self).wf(),
            i < old(self).games@.len(),
            old(self).episode_count < usize::MAX,
        ensures
            final(self).wf(),
            Model::only_restarted(old(self), final(self), i as int),
            final(self).episode_count == old(self).episode_count + 1,
            final(self).step_count == 0,
            final(self).replay_buffer == old(self).replay_buffer,
            final(self).target_update_freq == old(self).target_update_freq,
            final(self).episode_rewards == old(self).episode_rewards,
            final(self).last_win == old(self).last_win,
            final(self).last_total_reward == old(self).last_total_reward,
            final(self).last_steps == old(self).last_steps,
            summary == (EpisodeSummary {
                episode: final(self).episode_count,
                total_reward: old(self).last_total_reward,
                steps: old(self).last_steps,
                win: old(self).last_win,
            }),
    {
        self.episode_count += 1;
        self.step_count = 0;
        self.reset_and_open(i);
        EpisodeSummary {
            episode: self.episode_count,
            total_reward: self.last_total_reward,
            steps: self.last_steps,
            win: self.last_win,
        }
    }
}


impl Model {
    /// Starts board `i` again and opens it.
    fn reset_and_open(&mut self, i: usize)
        requires
            old(self).wf(),
            i < old(self).games@.len(),
        ensures
            final(self).wf(),
            Model::same_but_games(old(self), final(self)),
            Model::only_restarted(old(self), final(self), i as int),
    {
        let ghost m0 = *self;
        proof {
            assert(Model::board_ok(m0.games@[i as int]));
        }
        let _ = self.games[i].reset();
        let ghost fresh = self.games@[i as int];
        proof {
            assert forall|x: int, y: int| fresh.in_bounds(x, y) implies !(#[trigger] fresh.cell(x, y)).is_bomb by {
                assert(fresh.cell(x, y) == crate::game::fresh_cell(x, y));
            }
            Game::lemma_room_same_size(&m0.games@[i as int], &fresh);
            assert(Model::board_ok(fresh));
            fresh.lemma_bomb_free_can_place();
            assert forall|j: int| 0 <= j < self.games@.len() implies Model::board_ok(#[trigger] self.games@[j]) by {
                if j != i {
                    assert(self.games@[j] == m0.games@[j]);
                }
            }
            assert(Game::fresh_version(&fresh, &m0.games@[i as int]));
        }
        self.initialise_game(i);
        proof {
            assert(Game::opened(&fresh, &self.games@[i as int]));
            assert(Game::restarted(&m0.games@[i as int], &self.games@[i as int]));
        }
    }
}


impl Model {
    /// Plays `action` on board `i` and remembers it: the move's reward joins the episode's
    /// total, the transition (what was seen before and after, the action, reward and end)
    /// goes into the replay memory, and both step counts grow by one. A training batch is
    /// due when the memory holds at least `BATCH_SIZE` moves and the step count is a
    /// multiple of `TRAIN_EVERY`.
    pub fn play_move(&mut self, i: usize, action: usize) -> (report: MoveReport)
        requires
            old(self).wf(),
            i < old(self).games@.len(),
            action < old(self).games@[i as int].area(),
            old(self).step_count < usize::MAX,
            old(self).games@[i as int].step_count < usize::MAX,
            reward_room(old(self).episode_rewards@[i as int]),
        ensures
            final(self).wf(),
            final(self).games@.len() == old(self).games@.len(),
            forall|j: int| 0 <= j < old(self).games@.len() && j != i ==> #[trigger] final(self).games@[j] == old(self).games@[j],
            exists|mid: Game, outcome: ActionOutcome|
                #![trigger Game::move_effect(&old(self).games@[i as int], &mid, Action::Reveal(action % old(self).games@[i as int].width, action / old(self).games@[i as int].width), outcome)]
                Game::move_effect(
                    &old(self).games@[i as int],
                    &mid,
                    Action::Reveal(action % old(self).games@[i as int].width, action / old(self).games@[i as int].width),
                    outcome,
                ) && Game::counted_move(&mid, &final(self).games@[i as int]) && report.reward == reward_of(outcome)
                    && report.done == done_of(outcome),
            final(self).episode_rewards@ == old(self).episode_rewards@.update(
                i as int,
                (old(self).episode_rewards@[i as int] + report.reward) as i64,
            ),
            exists|t: Transition|
                #![trigger pushed(old(self).replay_buffer.transitions@, old(self).replay_buffer.capacity as nat, t)]
                t.action == action && t.reward == report.reward && t.done == report.done && encodes(
                    t.obs@,
                    &old(self).games@[i as int],
                ) && encodes(t.next_obs@, &final(self).games@[i as int]) && final(self).replay_buffer.transitions@
                    == pushed(old(self).replay_buffer.transitions@, old(self).replay_buffer.capacity as nat, t),
            final(self).replay_buffer.capacity == old(self).replay_buffer.capacity,
            final(self).step_count == old(self).step_count + 1,
            report.train == (final(self).replay_buffer.transitions@.len() >= BATCH_SIZE && final(self).step_count
                % TRAIN_EVERY == 0),
            final(self).target_update_freq == old(self).target_update_freq,
            final(self).episode_count == old(self).episode_count,
            final(self).last_win == old(self).last_win,
            final(self).last_total_reward == old(self).last_total_reward,
            final(self).last_steps == old(self).last_steps,
    {
        let ghost m0 = *self;
        let ghost g0 = self.games@[i as int];
        proof {
            assert(Model::board_ok(g0));
            assert(g0.width * g0.height == g0.height * g0.width) by (nonlinear_arith);
        }
        let obs_vec = encode_board(&self.games[i]);
        let result = self.games[i].step(action);
        let ghost mid = self.games@[i as int];
        let ghost outcome = choose|outcome: ActionOutcome|
            Game::move_effect(&g0, &mid, Action::Reveal(action % g0.width, action / g0.width), outcome)
                && result.reward == reward_of(outcome) && result.done == done_of(outcome);
        proof {
            assert(Game::move_effect(&g0, &mid, Action::Reveal(action % g0.width, action / g0.width), outcome));
            assert(-100 <= result.reward <= 5 * COUNT_LIMIT);
        }
        let total = self.episode_rewards[i] + result.reward as i64;
        self.episode_rewards[i] = total;
        let next_obs = encode_board(&self.games[i]);
        let t = Transition { obs: obs_vec, action, reward: result.reward, next_obs, done: result.done };
        let ghost tg = t;
        self.replay_buffer.push(t);
        self.step_count += 1;
        self.games[i].step_count += 1;
        proof {
            let g2 = self.games@[i as int];
            assert(Game::counted_move(&mid, &g2));
            assert forall|x: int, y: int| mid.in_bounds(x, y) implies #[trigger] g2.cell(x, y) == mid.cell(x, y) by {}
            assert(g2.grid() == mid.grid());
            Game::lemma_hints_kept(&mid, &g2);
            Game::lemma_room_same_size(&g0, &mid);
            assert(Model::board_ok(mid));
            Game::lemma_room_same_size(&mid, &g2);
            assert(Model::board_ok(g2));
            assert forall|j: int| 0 <= j < self.games@.len() implies Model::board_ok(#[trigger] self.games@[j]) by {
                if j != i {
                    assert(self.games@[j] == m0.games@[j]);
                }
            }
            assert(encodes(tg.next_obs@, &g2));
        }
        let train = self.replay_buffer.len() >= BATCH_SIZE && self.step_count % TRAIN_EVERY == 0;
        MoveReport { reward: result.reward, done: result.done, train }
    }

    /// Ends the episode of board `i`, whose last move had reward `reward` (in hundredths):
    /// the episode is counted, remembered as won when that reward is at least 100, with the
    /// board's moves and the episode's total reward; the board's running reward goes back to
    /// 0 and the board is started again and opened.
    pub fn finish_episode(&mut self, i: usize, reward: i32) -> (summary: EpisodeSummary)
        requires
            old(self).wf(),
            i < old(self).games@.len(),
            old(self).episode_count < usize::MAX,
        ensures
            final(self).wf(),
            Model::only_restarted(old(self), final(self), i as int),
            final(self).episode_count == old(self).episode_count + 1,
            final(self).last_win == (reward >= 100),
            final(self).last_steps == old(self).games@[i as int].step_count,
            final(self).last_total_reward == old(self).episode_rewards@[i as int],
            final(self).episode_rewards@ == old(self).episode_rewards@.update(i as int, 0),
            final(self).step_count == old(self).step_count,
            final(self).replay_buffer == old(self).replay_buffer,
            final(self).target_update_freq == old(self).target_update_freq,
            summary == (EpisodeSummary {
                episode: final(self).episode_count,
                total_reward: final(self).last_total_reward,
                steps: final(self).last_steps,
                win: final(self).last_win,
            }),
    {
        self.episode_count += 1;
        self.last_win = reward >= 100;
        self.last_steps = self.games[i].step_count;
        self.last_total_reward = self.episode_rewards[i];
        self.episode_rewards[i] = 0;
        self.reset_and_open(i);
        EpisodeSummary {
            episode: self.episode_count,
            total_reward: self.last_total_reward,
            steps: self.last_steps,
            win: self.last_win,
        }
    }

    /// Counts a finished training batch; returns whether the target network is due to be
    /// synchronised (the step count is a multiple of `target_update_freq`).
    pub fn batch_trained(&mut self) -> (sync: bool)
        requires
            old(self).wf(),
            old(self).step_count < usize::MAX,
        ensures
            final(self).wf(),
            final(self).step_count == old(self).step_count + 1,
            sync == (final(self).step_count % final(self).target_update_freq == 0),
            final(self).games == old(self).games,
            final(self).replay_buffer == old(self).replay_buffer,
            final(self).target_update_freq == old(self).target_update_freq,
            final(self).episode_count == old(self).episode_count,
            final(self).episode_rewards == old(self).episode_rewards,
            final(self).last_win == old(self).last_win,
            final(self).last_total_reward == old(self).last_total_reward,
            final(self).last_steps == old(self).last_steps,
    {
        self.step_count += 1;
        self.step_count % self.target_update_freq == 0
    }
}


impl Game {
    /// The actions below `n` that the board allows, in increasing order.
    pub open spec fn allowed_list(&self, n: int) -> Seq<usize>
        decreases n,
    {
        if n <= 0 {
            Seq::empty()
        } else {
            self.allowed_list(n - 1) + if self.allows(n - 1) {
                seq![(n - 1) as usize]
            } else {
                Seq::empty()
            }
        }
    }

    /// The actions below `n` the board allows are exactly those `allowed_list(n)` holds.
    pub proof fn lemma_allowed_list_upto(&self, n: int)
        requires
            n <= usize::MAX,
        ensures
            forall|k: int| 0 <= k < n && #[trigger] self.allows(k) ==> self.allowed_list(n).contains(k as usize),
            forall|j: int|
                0 <= j < self.allowed_list(n).len() ==> self.allows(#[trigger] self.allowed_list(n)[j] as int)
                    && self.allowed_list(n)[j] < n,
        decreases n,
    {
        if n > 0 {
            self.lemma_allowed_list_upto(n - 1);
            let prev = self.allowed_list(n - 1);
            let list = self.allowed_list(n);
            assert forall|j: int| 0 <= j < prev.len() implies list[j] == prev[j] by {}
            assert forall|k: int| 0 <= k < n && #[trigger] self.allows(k) implies list.contains(k as usize) by {
                if k < n - 1 {
                    let j = choose|j: int| 0 <= j < prev.len() && prev[j] == k as usize;
                    assert(list[j] == k as usize);
                } else {
                    assert(list[prev.len() as int] == k as usize);
                }
            }
        }
    }

    /// The actions the board allows are exactly those `allowed_list(area())` holds.
    pub proof fn lemma_allowed_listed(&self)
        requires
            self.area() <= usize::MAX,
        ensures
            forall|k: int| #[trigger] self.allows(k) ==> self.allowed_list(self.area()).contains(k as usize),
            forall|j: int|
                0 <= j < self.allowed_list(self.area()).len() ==> self.allows(
                    #[trigger] self.allowed_list(self.area())[j] as int,
                ),
    {
        self.lemma_allowed_list_upto(self.area());
    }

    /// Every action the board allows (see `allows`), in increasing order: the indices where
    /// the action mask says yes.
    pub fn allowed_actions(&self) -> (valid: Vec<usize>)
        requires
            self.wf(),
        ensures
            valid@ == self.allowed_list(self.area()),
            forall|k: usize| #[trigger] self.allows(k as int) <==> valid@.contains(k),
    {
        let mask = self.action_mask();
        let mut valid: Vec<usize> = Vec::new();
        let n = mask.len();
        proof {
            assert(self.width * self.height == self.height * self.width) by (nonlinear_arith);
        }
        for k in 0..n
            invariant
                n == mask@.len(),
                n == self.area(),
                self.wf(),
                forall|x: int, y: int|
                    self.in_bounds(x, y) ==> mask@[y * self.width + x] == !((#[trigger] self.cell(x, y)).revealed
                        || self.cell(x, y).flagged),
                valid@ == self.allowed_list(k as int),
                forall|j: int| 0 <= j < valid@.len() ==> self.allows(#[trigger] valid@[j] as int) && valid@[j] < k,
                forall|kk: int| 0 <= kk < k && #[trigger] self.allows(kk) ==> valid@.contains(kk as usize),
        {
            proof {
                assert(self.width > 0) by (nonlinear_arith)
                    requires
                        0 <= k < self.width * self.height,
                ;
                let x = k as int % self.width as int;
                let y = k as int / self.width as int;
                vstd::arithmetic::div_mod::lemma_fundamental_div_mod(k as int, self.width as int);
                crate::ml::env::lemma_div_in_range(k as int, self.width as int, self.height as int);
                assert(y * self.width == self.width * y) by (nonlinear_arith);
                assert(mask@[y * self.width + x] == !(self.cell(x, y).revealed || self.cell(x, y).flagged));
                assert(mask@[k as int] == self.allows(k as int));
            }
            let ghost before = valid@;
            if mask[k] {
                valid.push(k);
                proof {
                    assert(valid@ =~= before + seq![k]);
                    assert forall|kk: int| 0 <= kk < k + 1 && #[trigger] self.allows(kk) implies valid@.contains(kk as usize) by {
                        if kk < k {
                            let j = choose|j: int| 0 <= j < before.len() && before[j] == kk as usize;
                            assert(valid@[j] == kk as usize);
                        } else {
                            assert(valid@[before.len() as int] == k);
                        }
                    }
                }
            } else {
                assert(before + Seq::<usize>::empty() =~= before);
            }
        }
        proof {
            assert forall|k: usize| #[trigger] self.allows(k as int) <==> valid@.contains(k) by {
                if valid@.contains(k) {
                    let j = choose|j: int| 0 <= j < valid@.len() && valid@[j] == k;
                    assert(self.allows(valid@[j] as int));
                }
            }
        }
        valid
    }
}

} // verus!
