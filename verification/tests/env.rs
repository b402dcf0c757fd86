use minesweeper::game::{Action, Game, Rgb};
use minesweeper::ml::env::Environment;
use minesweeper::ml::model::obs_to_vec;

fn board_with_bombs(height: usize, width: usize, bombs: &[(usize, usize)]) -> Game {
    let mut game = Game::new(height, width, bombs.len());
    for &(x, y) in bombs {
        game.map[y][x].is_bomb = true;
        game.map[y][x].color = Rgb { r: 255, g: 50, b: 50 };
    }
    game.recalculate_hints();
    game.bombs_generated = true;
    game
}

fn wall() -> Game {
    board_with_bombs(4, 5, &[(2, 0), (2, 1), (2, 2), (2, 3)])
}

#[test]
fn decode_maps_index_to_cell() {
    let game = wall();
    assert_eq!(game.decode(0), Action::Reveal(0, 0));
    assert_eq!(game.decode(7), Action::Reveal(2, 1));
    assert_eq!(game.decode(19), Action::Reveal(4, 3));
}

#[test]
fn step_rewards_flood_in_hundredths() {
    let mut game = wall();
    let r = game.step(0);
    assert_eq!(r.reward, 60);
    assert!(!r.done);
    assert_eq!(r.observation.revealed[5], 1);
}

#[test]
fn step_rewards_hint_cell_with_zero() {
    let mut game = wall();
    let r = game.step(1);
    assert_eq!(r.reward, 0);
    assert!(!r.done);
}

#[test]
fn step_penalises_invalid_move() {
    let mut game = wall();
    game.step(1);
    let r = game.step(1);
    assert_eq!(r.reward, -50);
    assert!(!r.done);
}

#[test]
fn step_penalises_bomb_and_ends() {
    let mut game = wall();
    let r = game.step(2);
    assert_eq!(r.reward, -100);
    assert!(r.done);
}

#[test]
fn step_rewards_win_and_ends() {
    let mut game = board_with_bombs(3, 3, &[(2, 2)]);
    let r = game.step(0);
    assert_eq!(r.reward, 200);
    assert!(r.done);
}

#[test]
fn action_mask_forbids_revealed_and_flagged() {
    let mut game = wall();
    game.step(1);
    game.map[3][4].flagged = true;
    let mask = game.action_mask();
    assert_eq!(mask.len(), 20);
    for k in 0..20 {
        assert_eq!(mask[k], k != 1 && k != 19);
    }
}

#[test]
fn allowed_action_is_never_invalid() {
    let mut game = wall();
    game.step(0);
    let mask = game.action_mask();
    for k in 0..20 {
        let mut copy = wall();
        copy.step(0);
        let r = copy.step(k);
        assert_eq!(r.reward == -50, !mask[k]);
    }
}

#[test]
fn reset_starts_a_fresh_board() {
    let mut game = wall();
    game.step(0);
    game.step_count = 3;
    let obs = game.reset();
    assert_eq!((game.height, game.width, game.num_bombs), (4, 5, 4));
    assert!(!game.bombs_generated);
    assert_eq!(game.step_count, 0);
    assert!(game.map.iter().all(|r| r.iter().all(|c| !c.is_bomb && !c.revealed)));
    assert!(obs.hidden.iter().all(|&h| h == 1));
    assert!(obs.hints.iter().all(|&h| h == -1));
}

#[test]
fn platten_concatenates_planes() {
    let mut game = wall();
    game.step(6);
    let obs = game.to_observation();
    let flat = obs.platten();
    assert_eq!(flat.len(), 60);
    assert_eq!(&flat[0..20], &obs.hidden[..]);
    assert_eq!(&flat[20..40], &obs.revealed[..]);
    assert_eq!(&flat[40..60], &obs.hints[..]);
    assert_eq!(flat[46], 3);
}

#[test]
fn obs_to_vec_scales_marks_to_eighths() {
    let mut game = wall();
    game.step(6);
    let obs = game.to_observation();
    let v = obs_to_vec(&obs);
    assert_eq!(v.len(), 60);
    assert_eq!(v[6], 0);
    assert_eq!(v[0], 8);
    assert_eq!(v[26], 8);
    assert_eq!(v[20], 0);
    assert_eq!(v[46], 3);
    assert_eq!(v[40], -1);
}

#[test]
fn allowed_actions_lists_the_mask() {
    let mut game = wall();
    game.step(0);
    game.map[3][4].flagged = true;
    let allowed = game.allowed_actions();
    assert_eq!(allowed, vec![2, 3, 4, 7, 8, 9, 12, 13, 14, 17, 18]);
}
