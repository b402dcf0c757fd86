//! A bounded memory of past moves, oldest first.
use std::collections::VecDeque;

use vstd::prelude::*;

use crate::ml::transition::Transition;
use crate::random::{drawn_values, random_below, Draw};

verus! {

/// Keeps at most `capacity` transitions (at least the newest one), dropping the oldest first.
pub struct ReplayBuffer {
    pub transitions: VecDeque<Transition>,
    pub capacity: usize,
}

/// The contents of a buffer of capacity `cap` holding `old` after `t` is pushed.
pub open spec fn pushed(old: Seq<Transition>, cap: nat, t: Transition) -> Seq<Transition> {
    if old.len() >= cap && old.len() > 0 {
        old.drop_first().push(t)
    } else {
        old.push(t)
    }
}

impl ReplayBuffer {
    /// The buffer never holds more than its capacity, or one transition when the capacity is 0.
    pub open spec fn wf(&self) -> bool {
        self.transitions@.len() <= self.capacity || self.transitions@.len() <= 1
    }

    /// An empty buffer of the given capacity.
    pub fn new(capacity: usize) -> (buf: Self)
        ensures
            buf.wf(),
            buf.transitions@ == Seq::<Transition>::empty(),
            buf.capacity == capacity,
    {
        ReplayBuffer { transitions: VecDeque::with_capacity(capacity), capacity }
    }

    /// Appends `transition`, first dropping the oldest one when the buffer is full.
    pub fn push(&mut self, transition: Transition)
        requires
            old(self).wf(),
        ensures
            final(self).wf(),
            final(self).capacity == old(self).capacity,
            final(self).transitions@ == pushed(old(self).transitions@, old(self).capacity as nat, transition),
    {
        if self.transitions.len() >= self.capacity {
            let ghost before = self.transitions@;
            self.transitions.pop_front();
            proof {
                if before.len() > 0 {
                    assert(self.transitions@ =~= before.drop_first());
                }
            }
        }
        self.transitions.push_back(transition);
    }

    /// `t` is one of the transitions held.
    pub open spec fn holds(&self, t: Transition) -> bool {
        exists|i: int| 0 <= i < self.transitions@.len() && self.transitions@[i] == t
    }

    /// The transitions at positions `indices` (oldest first is position 0), in that order.
    pub fn pick(&self, indices: &Vec<usize>) -> (batch: Vec<&Transition>)
        requires
            forall|j: int| 0 <= j < indices@.len() ==> #[trigger] indices@[j] < self.transitions@.len(),
        ensures
            batch@.len() == indices@.len(),
            forall|j: int| 0 <= j < indices@.len() ==> *#[trigger] batch@[j] == self.transitions@[indices@[j] as int],
    {
        let mut batch: Vec<&Transition> = Vec::new();
        for j in 0..indices.len()
            invariant
                forall|m: int| 0 <= m < indices@.len() ==> #[trigger] indices@[m] < self.transitions@.len(),
                batch@.len() == j,
                forall|m: int| 0 <= m < j ==> *#[trigger] batch@[m] == self.transitions@[indices@[m] as int],
        {
            let k = indices[j];
            assert(k < self.transitions@.len());
            batch.push(&self.transitions[k]);
        }
        batch
    }

    /// `k` independent draws, each over every position of the buffer.
    fn draw_positions(&self, k: usize) -> (indices: Vec<Draw>)
        requires
            k > 0 ==> self.transitions@.len() > 0,
        ensures
            indices@.len() == k,
            forall|j: int| 0 <= j < k ==> (#[trigger] indices@[j]).range() == self.transitions@.len(),
            forall|j: int| 0 <= j < k ==> (#[trigger] indices@[j]).drawn() < self.transitions@.len(),
    {
        let mut indices: Vec<Draw> = Vec::new();
        for j in 0..k
            invariant
                k > 0 ==> self.transitions@.len() > 0,
                indices@.len() == j,
                forall|m: int| 0 <= m < j ==> (#[trigger] indices@[m]).range() == self.transitions@.len(),
                forall|m: int| 0 <= m < j ==> (#[trigger] indices@[m]).drawn() < self.transitions@.len(),
        {
            indices.push(random_below(self.transitions.len()));
        }
        indices
    }

    /// `batch_size` transitions drawn at random from the buffer, each independently over
    /// every position (`draw_positions`, then `pick`).
    pub fn sample(&self, batch_size: usize) -> (batch: Vec<&Transition>)
        requires
            batch_size > 0 ==> self.transitions@.len() > 0,
        ensures
            batch@.len() == batch_size,
            forall|j: int| 0 <= j < batch_size ==> self.holds(*#[trigger] batch@[j]),
    {
        let draws = self.draw_positions(batch_size);
        let indices = drawn_values(&draws);
        let batch = self.pick(&indices);
        assert forall|j: int| 0 <= j < batch_size implies self.holds(*#[trigger] batch@[j]) by {
            assert(indices@[j] == draws@[j].drawn());
            assert(*batch@[j] == self.transitions@[indices@[j] as int]);
        }
        batch
    }

    /// Number of transitions held.
    pub fn len(&self) -> (n: usize)
        ensures
            n == self.transitions@.len(),
    {
        self.transitions.len()
    }
}

} // verus!
