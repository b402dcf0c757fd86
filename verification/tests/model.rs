use minesweeper::game::Action;
use minesweeper::ml::env::Environment;
use minesweeper::ml::model::{Model, BATCH_SIZE};

fn bombs(model: &Model, i: usize) -> usize {
    model.games[i].map.iter().map(|r| r.iter().filter(|c| c.is_bomb).count()).sum()
}

#[test]
fn model_starts_with_eight_fresh_boards() {
    let m = Model::new();
    assert_eq!(m.games.len(), 8);
    for g in &m.games {
        assert_eq!((g.height, g.width, g.num_bombs), (5, 5, 5));
        assert!(!g.bombs_generated);
    }
    assert_eq!(m.episode_rewards, vec![0; 8]);
    assert_eq!(m.replay_buffer.capacity, 50_000);
    assert_eq!(m.replay_buffer.len(), 0);
    assert_eq!((m.step_count, m.target_update_freq, m.episode_count), (0, 1000, 0));
    assert!(!m.last_win);
}

#[test]
fn opening_is_safe_and_places_all_bombs() {
    for _ in 0..20 {
        let mut m = Model::new();
        m.initialise_games();
        for i in 0..8 {
            let g = &m.games[i];
            assert!(g.bombs_generated);
            assert_eq!(bombs(&m, i), 5);
            assert!(g.map.iter().all(|r| r.iter().all(|c| !(c.is_bomb && c.revealed))));
            assert!(g.map.iter().any(|r| r.iter().any(|c| c.revealed)));
            assert_ne!(g.check_win(), Some(false));
        }
    }
}

#[test]
fn random_valid_action_is_allowed() {
    let mut m = Model::new();
    m.initialise_games();
    for i in 0..8 {
        let mask = m.games[i].action_mask();
        match m.random_valid_action(i) {
            Some(a) => assert!(mask[a]),
            None => assert!(mask.iter().all(|&b| !b)),
        }
    }
}

#[test]
fn no_valid_action_when_everything_is_open() {
    let mut m = Model::new();
    for row in m.games[0].map.iter_mut() {
        for c in row.iter_mut() {
            c.revealed = true;
        }
    }
    assert_eq!(m.random_valid_action(0), None);
    let s = m.restart_stuck_game(0);
    assert_eq!(s.episode, 1);
    assert_eq!(m.step_count, 0);
    assert!(m.games[0].bombs_generated);
    assert_eq!(bombs(&m, 0), 5);
}

#[test]
fn play_move_records_transition() {
    let mut m = Model::new();
    m.initialise_games();
    let a = m.random_valid_action(0).unwrap_or(0);
    let before = m.games[0].to_observation();
    let report = m.play_move(0, a);
    assert_eq!(m.step_count, 1);
    assert_eq!(m.games[0].step_count, 1);
    assert_eq!(m.replay_buffer.len(), 1);
    let t = &m.replay_buffer.transitions[0];
    assert_eq!(t.action, a);
    assert_eq!(t.reward, report.reward);
    assert_eq!(t.done, report.done);
    assert_eq!(t.obs.len(), 75);
    assert_eq!(t.obs[a], 8 * before.hidden[a] as i32);
    assert_eq!(m.episode_rewards[0], report.reward as i64);
    assert!(!report.train);
    assert!(report.reward != -50);
}

#[test]
fn training_is_due_every_fourth_step_once_memory_is_full() {
    let mut m = Model::new();
    m.initialise_games();
    let mut trains = 0;
    for _ in 0..(BATCH_SIZE + 8) {
        let a = match m.random_valid_action(0) {
            Some(a) => a,
            None => {
                m.restart_stuck_game(0);
                continue;
            },
        };
        let r = m.play_move(0, a);
        if r.train {
            trains += 1;
            assert!(m.replay_buffer.len() >= BATCH_SIZE);
            assert_eq!(m.step_count % 4, 0);
        }
        if r.done {
            m.finish_episode(0, r.reward);
        }
    }
    assert!(trains >= 1);
}

#[test]
fn finish_episode_resets_running_reward() {
    let mut m = Model::new();
    m.initialise_games();
    m.episode_rewards[2] = 345;
    m.games[2].step_count = 9;
    let s = m.finish_episode(2, 200);
    assert_eq!(s.episode, 1);
    assert_eq!(s.total_reward, 345);
    assert_eq!(s.steps, 9);
    assert!(s.win);
    assert_eq!(m.episode_rewards[2], 0);
    assert_eq!(m.last_total_reward, 345);
    assert_eq!(m.games[2].step_count, 0);
    assert!(m.games[2].bombs_generated);
    let s = m.finish_episode(2, -100);
    assert!(!s.win);
    assert_eq!(s.episode, 2);
}

#[test]
fn target_sync_every_thousand_batches() {
    let mut m = Model::new();
    let mut syncs = Vec::new();
    for _ in 0..2000 {
        if m.batch_trained() {
            syncs.push(m.step_count);
        }
    }
    assert_eq!(syncs, vec![1000, 2000]);
}

#[test]
fn decoded_first_move_matches_reveal() {
    let m = Model::new();
    assert_eq!(m.games[0].decode(12), Action::Reveal(2, 2));
}

#[test]
fn allowed_action_at_indexes_the_allowed_list() {
    let mut m = Model::new();
    // Cells 0 and 1 of the first 5x5 board are open and cell 7 is flagged.
    m.games[0].map[0][0].revealed = true;
    m.games[0].map[0][1].revealed = true;
    m.games[0].map[1][2].flagged = true;
    assert_eq!(m.allowed_action_at(0, 0), Some(2));
    assert_eq!(m.allowed_action_at(0, 4), Some(6));
    assert_eq!(m.allowed_action_at(0, 5), Some(8));
    assert_eq!(m.allowed_action_at(0, 21), Some(24));
    assert_eq!(m.allowed_action_at(0, 22), None);
    assert_eq!(m.allowed_action_at(1, 24), Some(24));
    assert_eq!(m.allowed_action_at(1, 25), None);
}
