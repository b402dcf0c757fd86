use minesweeper::ml::replay::ReplayBuffer;
use minesweeper::ml::transition::Transition;

fn transition(action: usize) -> Transition {
    Transition { obs: vec![action as i32], next_obs: vec![], action, reward: 5, done: false }
}

#[test]
fn replay_drops_oldest_when_full() {
    let mut buf = ReplayBuffer::new(2);
    assert_eq!(buf.len(), 0);
    buf.push(transition(1));
    buf.push(transition(2));
    assert_eq!(buf.len(), 2);
    buf.push(transition(3));
    assert_eq!(buf.len(), 2);
    let actions: Vec<usize> = buf.transitions.iter().map(|t| t.action).collect();
    assert_eq!(actions, vec![2, 3]);
    assert_eq!(buf.capacity, 2);
}

#[test]
fn replay_with_zero_capacity_keeps_newest() {
    let mut buf = ReplayBuffer::new(0);
    buf.push(transition(1));
    buf.push(transition(2));
    assert_eq!(buf.len(), 1);
    assert_eq!(buf.transitions[0].action, 2);
}

#[test]
fn sample_draws_held_transitions() {
    let mut buf = ReplayBuffer::new(10);
    buf.push(transition(7));
    let batch = buf.sample(5);
    assert_eq!(batch.len(), 5);
    assert!(batch.iter().all(|t| t.action == 7));
    for a in 0..4 {
        buf.push(transition(a));
    }
    let batch = buf.sample(100);
    assert_eq!(batch.len(), 100);
    assert!(batch.iter().all(|t| t.action == 7 || t.action < 4));
}

#[test]
fn sample_of_nothing_is_empty() {
    let buf = ReplayBuffer::new(3);
    assert!(buf.sample(0).is_empty());
}

#[test]
fn pick_takes_the_given_positions_in_order() {
    let mut buf = ReplayBuffer::new(3);
    for a in 0..4 {
        buf.push(transition(a));
    }
    let batch = buf.pick(&vec![2, 0, 0, 1]);
    let actions: Vec<usize> = batch.iter().map(|t| t.action).collect();
    assert_eq!(actions, vec![3, 1, 1, 2]);
    assert!(buf.pick(&vec![]).is_empty());
}
