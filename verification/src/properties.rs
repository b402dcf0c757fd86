//! Properties of the library that span several of its functions.
use vstd::prelude::*;

use crate::count::lemma_grid_count_none;
use crate::game::{
    in_zone, is_bomb_pred, offset_dx, offset_dy, Action, ActionOutcome, Game, COUNT_LIMIT,
};
use crate::ml::env::{done_of, hidden_value, reward_of, Observation};
use crate::ml::replay::pushed;
use crate::ml::transition::Transition;
use crate::tui::capped;

verus! {

/// The first move is safe: on a board without bombs, after `generate_bombs` with first
/// move `a`, the cell of `a` holds no bomb and has no bomb around it, so revealing it
/// neither loses nor stops at that cell.
pub proof fn first_move_is_safe(before: &Game, after: &Game, a: int)
    requires
        before.wf(),
        before.bomb_free(),
        0 <= a < before.width * before.height,
        Game::bombs_placed(before, after, a),
    ensures
        !after.cell(a % before.width as int, a / before.width as int).is_bomb,
        after.cell(a % before.width as int, a / before.width as int).nearby_bombs == 0,
        after.expands(a % before.width as int, a / before.width as int),
{
    let sx = a % before.width as int;
    let sy = a / before.width as int;
    crate::ml::env::lemma_div_in_range(a, before.width as int, before.height as int);
    assert(before.in_bounds(sx, sy));
    assert(!before.cell(sx, sy).is_bomb);
    assert(!after.cell(sx, sy).is_bomb) by {
        assert(in_zone(sx, sy, sx, sy));
    }
    assert forall|j: int| 0 <= j < 8 implies after.bomb_at(sx + offset_dx(j), sy + offset_dy(j)) == 0 by {
        let x = sx + offset_dx(j);
        let y = sy + offset_dy(j);
        if after.in_bounds(x, y) {
            assert(!before.cell(x, y).is_bomb);
            assert(in_zone(x, y, sx, sy));
            assert(!after.cell(x, y).is_bomb);
        }
    }
    reveal_with_fuel(Game::bombs_near, 9);
    assert(after.bomb_neighbours(sx, sy) == 0);
}

/// A move never changes where the bombs are or hides a revealed cell; so once a bomb is
/// revealed it stays revealed, and the board keeps its number of bombs.
pub proof fn moves_keep_bombs_and_reveals(before: &Game, after: &Game, action: Action, outcome: ActionOutcome)
    requires
        before.wf(),
        Game::move_effect(before, after, action, outcome),
    ensures
        after.width == before.width,
        after.height == before.height,
        forall|x: int, y: int|
            before.in_bounds(x, y) ==> (#[trigger] after.cell(x, y)).is_bomb == before.cell(x, y).is_bomb && (
            before.cell(x, y).revealed ==> after.cell(x, y).revealed),
        before.bomb_revealed() ==> after.bomb_revealed(),
        after.bomb_count() == before.bomb_count(),
{
    match action {
        Action::Reveal(x0, y0) => {
            let c = before.cell(x0 as int, y0 as int);
            if c.flagged || c.revealed {
            } else {
                if before.bomb_revealed() {
                    let (x, y) = choose|x: int, y: int|
                        before.in_bounds(x, y) && #[trigger] before.cell(x, y).is_bomb && before.cell(x, y).revealed;
                    assert(after.cell(x, y).is_bomb && after.cell(x, y).revealed);
                }
                assert forall|xx: int, yy: int| after.in_bounds(xx, yy) implies (#[trigger] after.cell(xx, yy)).is_bomb
                    == before.cell(xx, yy).is_bomb by {}
                Game::lemma_same_bombs_same_count(after, before);
            }
        },
    }
}

/// Every cell a flood opens is safe: the start of a flood has no bomb around it, and each
/// further cell is a hidden cell without a bomb.
pub proof fn flood_opens_no_bomb(g: &Game, sx: int, sy: int, x: int, y: int)
    requires
        g.expands(sx, sy),
        g.in_flood(sx, sy, x, y),
    ensures
        g.in_bounds(x, y),
        !g.cell(x, y).is_bomb,
{
    let path = choose|path: Seq<(int, int)>| #[trigger] g.flood_path(sx, sy, path) && path.last() == (x, y);
    if path.len() > 1 {
        let n = path.len() - 2;
        assert(g.step_at(path, n));
        assert(path[n + 1] == path.last());
    }
}

/// A move on a cell that the action mask allows is never invalid, and an action the mask
/// forbids is always invalid. Action `a` stands for column `a % width`, row `a / width`.
pub proof fn allowed_moves_are_valid(before: &Game, after: &Game, a: int, outcome: ActionOutcome)
    requires
        before.wf(),
        0 <= a < before.width * before.height,
        Game::move_effect(
            before,
            after,
            Action::Reveal((a % before.width as int) as usize, (a / before.width as int) as usize),
            outcome,
        ),
    ensures
        (outcome == ActionOutcome::Invalid) == !before.allows(a),
{
    crate::ml::env::lemma_div_in_range(a, before.width as int, before.height as int);
}

/// A move ends the game with a reward of at least one (100 hundredths) exactly when it wins,
/// and with a negative reward exactly when it hits a bomb.
pub proof fn game_ending_rewards(outcome: ActionOutcome)
    requires
        outcome matches ActionOutcome::RevealCell(n) ==> n <= COUNT_LIMIT,
    ensures
        (done_of(outcome) && reward_of(outcome) >= 100) == (outcome == ActionOutcome::Win),
        (done_of(outcome) && reward_of(outcome) < 0) == (outcome == ActionOutcome::HitBomb),
{
}

/// Each cell of an observation is shown either hidden or revealed, and its hint is -1
/// exactly when it is hidden.
pub proof fn observation_planes_agree(obs: &Observation, g: &Game, x: int, y: int)
    requires
        obs.observes(g),
        g.in_bounds(x, y),
        g.wf(),
    ensures
        obs.hidden@[y * g.width + x] + obs.revealed@[y * g.width + x] == 1,
        (obs.hints@[y * g.width + x] == -1) == (obs.hidden@[y * g.width + x] == 1),
{
    assert(obs.hidden@[y * g.width + x] == hidden_value(g.cell(x, y)));
}

/// The replay memory always keeps the newest transition, drops at most the oldest one,
/// and never grows past its capacity (or past one transition when the capacity is 0).
pub proof fn replay_memory_bounded(s: Seq<Transition>, cap: nat, t: Transition)
    requires
        s.len() <= cap || s.len() <= 1,
    ensures
        pushed(s, cap, t).len() <= cap || pushed(s, cap, t).len() <= 1,
        pushed(s, cap, t).last() == t,
        s.len() < cap ==> pushed(s, cap, t) == s.push(t),
        s.len() >= cap && s.len() > 0 ==> pushed(s, cap, t) == s.drop_first().push(t),
{
}


/// Opening a board without bombs, every cell hidden and unflagged, never loses: no bomb
/// is revealed afterwards, and the board then holds exactly `num_bombs` bombs.
pub proof fn opening_is_safe(before: &Game, after: &Game)
    requires
        before.wf(),
        before.bomb_free(),
        forall|x: int, y: int|
            before.in_bounds(x, y) ==> !(#[trigger] before.cell(x, y)).revealed && !before.cell(x, y).flagged,
        Game::opened(before, after),
    ensures
        !after.bomb_revealed(),
        after.outcome_state() != Some(false),
        after.bomb_count() == before.num_bombs,
{
    let (a, mid, outcome) = choose|a: int, mid: Game, outcome: ActionOutcome|
        #![trigger Game::bombs_placed(before, &mid, a), Game::move_effect(&mid, after, Action::Reveal((a % before.width as int) as usize, (a / before.width as int) as usize), outcome)]
        0 <= a < before.area() && Game::bombs_placed(before, &mid, a) && mid.bombs_generated && mid.step_count
            == before.step_count && Game::move_effect(
            &mid,
            after,
            Action::Reveal((a % before.width as int) as usize, (a / before.width as int) as usize),
            outcome,
        );
    let sx = a % before.width as int;
    let sy = a / before.width as int;
    first_move_is_safe(before, &mid, a);
    crate::ml::env::lemma_div_in_range(a, before.width as int, before.height as int);
    assert(!mid.cell(sx, sy).revealed && !mid.cell(sx, sy).flagged);
    moves_keep_bombs_and_reveals(&mid, after, Action::Reveal(sx as usize, sy as usize), outcome);
    assert forall|x: int, y: int|
        after.in_bounds(x, y) && #[trigger] after.cell(x, y).is_bomb implies !after.cell(x, y).revealed by {
        assert(!mid.cell(x, y).revealed);
        if mid.in_flood(sx, sy, x, y) {
            flood_opens_no_bomb(&mid, sx, sy, x, y);
        }
    }
    let g = before.grid();
    assert forall|y: int, x: int| 0 <= y < g.len() && 0 <= x < g[y].len() implies !is_bomb_pred()(#[trigger] g[y][x]) by {
        assert(g[y][x] == before.cell(x, y));
    }
    lemma_grid_count_none(g, is_bomb_pred());
}


/// A history kept with `push_capped` never grows past its cap, and (for a positive cap)
/// always ends with the newest value, the others keeping their order.
pub proof fn capped_history_bounded<T>(s: Seq<T>, val: T, cap: nat)
    requires
        s.len() <= cap,
    ensures
        capped(s, val, cap).len() <= cap,
        cap > 0 ==> capped(s, val, cap).last() == val,
        cap > 0 ==> capped(s, val, cap).drop_last() =~= (if s.len() == cap {
            s.drop_first()
        } else {
            s
        }),
{
    if cap > 0 && s.len() == cap {
        assert(s.push(val).drop_first().drop_last() =~= s.drop_first());
    }
}

/// A board that has just been started again is seen as all hidden, with no hints.
pub proof fn fresh_board_seen_hidden(obs: &Observation, g: &Game, x: int, y: int)
    requires
        obs.observes(g),
        g.in_bounds(x, y),
        g.cell(x, y) == crate::game::fresh_cell(x, y),
    ensures
        obs.hidden@[y * g.width + x] == 1,
        obs.revealed@[y * g.width + x] == 0,
        obs.hints@[y * g.width + x] == -1,
{
}

/// A game is never won while a safe cell is still hidden and the flags do not account
/// for every bomb: on a board holding at least `num_bombs` bombs, a hidden safe cell
/// `(x, y)` and a flagged-bomb count other than `num_bombs` leave the game lost or going on.
pub proof fn hidden_safe_cell_blocks_win(g: &Game, x: int, y: int)
    requires
        g.wf(),
        g.num_bombs <= g.bomb_count(),
        g.in_bounds(x, y),
        !g.cell(x, y).is_bomb,
        !g.cell(x, y).revealed,
        g.bombs_flagged() != g.num_bombs,
    ensures
        g.outcome_state() != Some(true),
        !g.bomb_revealed() ==> g.outcome_state() == None::<bool>,
{
    g.lemma_cells_partition();
    g.lemma_hidden_safe_counted(x, y);
}

/// On a board holding exactly `num_bombs` bombs, none of them revealed, revealing every
/// safe cell wins the game.
pub proof fn opening_every_safe_cell_wins(g: &Game)
    requires
        g.wf(),
        g.bomb_count() == g.num_bombs,
        !g.bomb_revealed(),
        forall|x: int, y: int| g.in_bounds(x, y) && !(#[trigger] g.cell(x, y)).is_bomb ==> g.cell(x, y).revealed,
    ensures
        g.outcome_state() == Some(true),
{
    g.lemma_cells_partition();
    g.lemma_no_hidden_safe();
}

} // verus!
