use minesweeper::game::{Action, ActionOutcome, Game, Rgb, COUNT_LIMIT};

fn board_with_bombs(height: usize, width: usize, bombs: &[(usize, usize)]) -> Game {
    let mut game = Game::new(height, width, bombs.len());
    for &(x, y) in bombs {
        game.map[y][x].is_bomb = true;
        game.map[y][x].color = Rgb { r: 255, g: 50, b: 50 };
    }
    game.recalculate_hints();
    game.bombs_generated = true;
    game
}

fn revealed_grid(game: &Game) -> Vec<Vec<u8>> {
    game.map.iter().map(|row| row.iter().map(|c| c.revealed as u8).collect()).collect()
}

fn count_bombs(game: &Game) -> usize {
    game.map.iter().map(|row| row.iter().filter(|c| c.is_bomb).count()).sum()
}

#[test]
fn new_board_is_fresh() {
    let game = Game::new(3, 4, 2);
    assert_eq!(game.height, 3);
    assert_eq!(game.width, 4);
    assert_eq!(game.num_bombs, 2);
    assert!(!game.bombs_generated);
    assert_eq!(game.step_count, 0);
    assert_eq!(game.map.len(), 3);
    for (y, row) in game.map.iter().enumerate() {
        assert_eq!(row.len(), 4);
        for (x, cell) in row.iter().enumerate() {
            assert_eq!((cell.x, cell.y), (x, y));
            assert!(!cell.is_bomb && !cell.revealed && !cell.flagged);
            assert_eq!(cell.nearby_bombs, 0);
            let expected = if (x + y) % 2 == 0 {
                Rgb { r: 170, g: 215, b: 81 }
            } else {
                Rgb { r: 142, g: 189, b: 53 }
            };
            assert_eq!(cell.color, expected);
        }
    }
}

#[test]
fn hints_count_neighbouring_bombs() {
    let game = board_with_bombs(4, 5, &[(2, 0), (2, 1), (2, 2), (2, 3)]);
    let hints: Vec<Vec<usize>> = game.map.iter().map(|r| r.iter().map(|c| c.nearby_bombs).collect()).collect();
    assert_eq!(hints, vec![vec![0, 2, 0, 2, 0], vec![0, 3, 0, 3, 0], vec![0, 3, 0, 3, 0], vec![0, 2, 0, 2, 0]]);
}

#[test]
fn get_cell_and_get_cell_mut() {
    let mut game = Game::new(2, 3, 0);
    assert_eq!(game.get_cell(2, 1).x, 2);
    assert_eq!(game.get_cell(2, 1).y, 1);
    game.get_cell_mut(1, 0).flagged = true;
    assert!(game.map[0][1].flagged);
    assert!(!game.map[1][1].flagged);
}

#[test]
fn generate_bombs_keeps_first_move_clear() {
    for action in 0..25 {
        let mut game = Game::new(5, 5, 5);
        game.generate_bombs(action);
        let (sx, sy) = (action % 5, action / 5);
        assert_eq!(count_bombs(&game), 5);
        for row in &game.map {
            for cell in row {
                if cell.is_bomb {
                    let near = cell.x.abs_diff(sx) <= 1 && cell.y.abs_diff(sy) <= 1;
                    assert!(!near);
                    assert_eq!(cell.color, Rgb { r: 255, g: 50, b: 50 });
                }
            }
        }
        // The first cell has no bomb around it.
        assert_eq!(game.get_cell(sx, sy).nearby_bombs, 0);
        assert!(!game.get_cell(sx, sy).is_bomb);
    }
}

#[test]
fn generate_bombs_fills_all_room() {
    // A 4x4 board with the first move in a corner leaves 12 cells for 12 bombs.
    let mut game = Game::new(4, 4, 12);
    game.generate_bombs(0);
    assert_eq!(count_bombs(&game), 12);
    assert!(!game.map[0][0].is_bomb && !game.map[0][1].is_bomb && !game.map[1][0].is_bomb && !game.map[1][1].is_bomb);
    assert_eq!(game.map[0][0].nearby_bombs, 0);
    assert_eq!(game.map[1][1].nearby_bombs, 5);
}

#[test]
fn flood_stops_at_hints() {
    let mut game = board_with_bombs(4, 5, &[(2, 0), (2, 1), (2, 2), (2, 3)]);
    let n = game.reveal_non_zero(0, 0);
    assert_eq!(n, 12);
    assert_eq!(
        revealed_grid(&game),
        vec![vec![1, 1, 0, 0, 0], vec![1, 1, 0, 0, 0], vec![1, 1, 0, 0, 0], vec![1, 1, 0, 0, 0]]
    );
}

#[test]
fn flood_counts_each_dequeue() {
    let mut game = Game::new(3, 3, 0);
    assert_eq!(game.reveal_non_zero(1, 1), 22);
    assert!(game.map.iter().all(|r| r.iter().all(|c| c.revealed)));
}

#[test]
fn flood_does_nothing_from_a_hint_or_bomb() {
    let mut game = board_with_bombs(3, 3, &[(2, 2)]);
    assert_eq!(game.reveal_non_zero(1, 1), 0);
    assert_eq!(game.reveal_non_zero(2, 2), 0);
    assert!(game.map.iter().all(|r| r.iter().all(|c| !c.revealed)));
}

#[test]
fn flood_never_opens_a_bomb() {
    let mut game = board_with_bombs(5, 5, &[(4, 4), (0, 4)]);
    let n = game.reveal_non_zero(0, 0);
    assert!(n >= 2 && n <= COUNT_LIMIT);
    assert_eq!(
        revealed_grid(&game),
        vec![vec![1, 1, 1, 1, 1], vec![1, 1, 1, 1, 1], vec![1, 1, 1, 1, 1], vec![1, 1, 1, 1, 1], vec![0, 1, 1, 1, 0]]
    );
}

#[test]
fn reveal_zero_cell_wins_small_board() {
    let mut game = board_with_bombs(3, 3, &[(2, 2)]);
    assert_eq!(game.apply_action(Action::Reveal(0, 0)), ActionOutcome::Win);
    assert_eq!(revealed_grid(&game), vec![vec![1, 1, 1], vec![1, 1, 1], vec![1, 1, 0]]);
    assert_eq!(game.check_win(), Some(true));
}

#[test]
fn reveal_hint_cell_opens_only_it() {
    let mut game = board_with_bombs(4, 5, &[(2, 0), (2, 1), (2, 2), (2, 3)]);
    assert_eq!(game.apply_action(Action::Reveal(1, 0)), ActionOutcome::RevealCell(0));
    assert_eq!(revealed_grid(&game)[0], vec![0, 1, 0, 0, 0]);
    assert_eq!(revealed_grid(&game).iter().flatten().filter(|&&r| r == 1).count(), 1);
}

#[test]
fn reveal_zero_cell_reports_flood_count() {
    let mut game = board_with_bombs(4, 5, &[(2, 0), (2, 1), (2, 2), (2, 3)]);
    assert_eq!(game.apply_action(Action::Reveal(0, 0)), ActionOutcome::RevealCell(12));
}

#[test]
fn revealing_twice_is_invalid() {
    let mut game = board_with_bombs(4, 5, &[(2, 0), (2, 1), (2, 2), (2, 3)]);
    game.apply_action(Action::Reveal(1, 0));
    let before = revealed_grid(&game);
    assert_eq!(game.apply_action(Action::Reveal(1, 0)), ActionOutcome::Invalid);
    assert_eq!(revealed_grid(&game), before);
}

#[test]
fn revealing_a_flagged_cell_is_invalid() {
    let mut game = board_with_bombs(3, 3, &[(2, 2)]);
    game.map[1][1].flagged = true;
    assert_eq!(game.apply_action(Action::Reveal(1, 1)), ActionOutcome::Invalid);
    assert!(!game.map[1][1].revealed);
}

#[test]
fn revealing_a_bomb_loses() {
    let mut game = board_with_bombs(3, 3, &[(2, 2)]);
    assert_eq!(game.apply_action(Action::Reveal(2, 2)), ActionOutcome::HitBomb);
    assert!(game.map[2][2].revealed);
    assert_eq!(game.check_win(), Some(false));
    // Losing stays losing whatever is played next.
    game.apply_action(Action::Reveal(0, 0));
    assert_eq!(game.check_win(), Some(false));
    assert_eq!(count_bombs(&game), 1);
}

#[test]
fn check_win_states() {
    let mut game = board_with_bombs(3, 3, &[(2, 2)]);
    assert_eq!(game.check_win(), None);
    game.map[2][2].flagged = true;
    assert_eq!(game.check_win(), Some(true));
    game.map[2][2].flagged = false;
    game.map[0][0].revealed = true;
    assert_eq!(game.check_win(), None);
}

#[test]
fn observation_shows_the_board() {
    let mut game = board_with_bombs(4, 5, &[(2, 0), (2, 1), (2, 2), (2, 3)]);
    game.apply_action(Action::Reveal(1, 1));
    let obs = game.to_observation();
    assert_eq!((obs.width, obs.height), (5, 4));
    assert_eq!(obs.hidden.len(), 20);
    let i = 1 * 5 + 1;
    assert_eq!((obs.hidden[i], obs.revealed[i], obs.hints[i]), (0, 1, 3));
    assert_eq!((obs.hidden[0], obs.revealed[0], obs.hints[0]), (1, 0, -1));
    for k in 0..20 {
        assert_eq!(obs.hidden[k] + obs.revealed[k], 1);
        assert_eq!(obs.hints[k] == -1, obs.hidden[k] == 1);
    }
}

#[test]
fn bomb_candidates_skip_the_first_move_square() {
    let game = Game::new(3, 4, 0);
    // First move at column 0, row 1: columns 0 and 1 of every row are too close.
    let cands = game.bomb_candidates(4);
    assert_eq!(cands, vec![(2, 0), (3, 0), (2, 1), (3, 1), (2, 2), (3, 2)]);
}

#[test]
fn place_bombs_follows_the_draws() {
    let mut game = Game::new(3, 3, 2);
    // First draw takes index 2, (2, 2); the last item moves there, so the second draw,
    // index 0, takes (0, 0).
    game.place_bombs(vec![(0, 0), (1, 1), (2, 2)], &vec![2, 0]);
    assert!(game.map[2][2].is_bomb && game.map[0][0].is_bomb);
    assert_eq!(count_bombs(&game), 2);
    assert_eq!(game.map[1][1].nearby_bombs, 2);
    assert_eq!(game.map[0][1].nearby_bombs, 1);
    // Draw 0 of what is left after taking index 0: the last item, (2, 2), moved to the front.
    let mut game = Game::new(3, 3, 2);
    game.place_bombs(vec![(0, 0), (1, 1), (2, 2)], &vec![0, 0]);
    assert!(game.map[0][0].is_bomb && game.map[2][2].is_bomb && !game.map[1][1].is_bomb);
}
