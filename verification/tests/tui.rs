use minesweeper::tui::{push_capped, Command, EpisodeTally};

#[test]
fn push_capped_keeps_newest() {
    let mut v: Vec<f64> = Vec::new();
    push_capped(&mut v, 1.0, 2);
    push_capped(&mut v, 2.0, 2);
    assert_eq!(v, vec![1.0, 2.0]);
    push_capped(&mut v, 3.0, 2);
    assert_eq!(v, vec![2.0, 3.0]);
}

#[test]
fn push_capped_with_zero_cap_keeps_nothing() {
    let mut v: Vec<u8> = Vec::new();
    push_capped(&mut v, 1, 0);
    assert!(v.is_empty());
}

#[test]
fn tally_counts_wins_and_losses() {
    let mut t = EpisodeTally::new();
    t.record(1, 10, true);
    t.record(2, 5, false);
    t.record(3, 7, false);
    assert_eq!(t, EpisodeTally { episode: 3, wins: 1, losses: 2, total_steps: 22 });
}

#[test]
fn command_save_exists() {
    assert_eq!(Command::Save, Command::Save);
}
