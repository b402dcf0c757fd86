//! The flood that opens the area around a cell with no bomb next to it.
use std::collections::VecDeque;

use vstd::prelude::*;

use crate::count::{grid_count, indicator, lemma_grid_count_update};
use crate::game::{
    neighbour_offset, offset_dx, offset_dy, same_but_revealed, unrevealed_pred, Game, COUNT_LIMIT,
};

verus! {

pub open spec fn nx(x: int, k: int) -> int {
    x + offset_dx(k)
}

pub open spec fn ny(y: int, k: int) -> int {
    y + offset_dy(k)
}

/// `(x, y)` occurs in the queue `q`.
pub open spec fn queued(q: Seq<(usize, usize)>, x: int, y: int) -> bool {
    exists|i: int| 0 <= i < q.len() && (#[trigger] q[i]).0 == x && q[i].1 == y
}

/// A state of the flood: the revealed cells and the queue of cells waiting to be taken.
pub type FloodState = (Set<(int, int)>, Seq<(usize, usize)>);

impl Game {
    /// The neighbours, among the first `k` directions, that a cell at `(cx, cy)` puts on the
    /// queue when every cell of `revealed` is revealed: on the board, safe and not revealed.
    pub open spec fn flood_pushes(&self, revealed: Set<(int, int)>, cx: int, cy: int, k: int) -> Seq<(usize, usize)>
        decreases k,
    {
        if k <= 0 {
            Seq::empty()
        } else {
            let x = nx(cx, k - 1);
            let y = ny(cy, k - 1);
            self.flood_pushes(revealed, cx, cy, k - 1) + if self.in_bounds(x, y) && !self.cell(x, y).is_bomb
                && !revealed.contains((x, y)) {
                seq![(x as usize, y as usize)]
            } else {
                Seq::empty()
            }
        }
    }

    /// One step of the flood: the first cell leaves the queue and is revealed; when it has no
    /// bomb around it, its neighbours that may still be opened join the end of the queue.
    pub open spec fn flood_advance(&self, s: FloodState) -> FloodState {
        if s.1.len() == 0 {
            s
        } else {
            let cx = s.1[0].0 as int;
            let cy = s.1[0].1 as int;
            let revealed = s.0.insert((cx, cy));
            let rest = s.1.drop_first();
            if self.cell(cx, cy).nearby_bombs != 0 {
                (revealed, rest)
            } else {
                (revealed, rest + self.flood_pushes(revealed, cx, cy, 8))
            }
        }
    }

    /// The flood after `j` steps from `s`.
    pub open spec fn flood_iter(&self, s: FloodState, j: nat) -> FloodState
        decreases j,
    {
        if j == 0 {
            s
        } else {
            self.flood_advance(self.flood_iter(s, (j - 1) as nat))
        }
    }

    /// The flood from `s` empties its queue after exactly `n` steps.
    pub open spec fn flood_length(&self, s: FloodState, n: nat) -> bool {
        &&& self.flood_iter(s, n).1.len() == 0
        &&& forall|j: nat| j < n ==> #[trigger] self.flood_iter(s, j).1.len() > 0
    }

    /// The flood as it starts from `(sx, sy)`: that cell and every revealed cell count as
    /// revealed, and only `(sx, sy)` waits.
    pub open spec fn flood_start(&self, sx: int, sy: int) -> FloodState {
        (
            Set::new(|p: (int, int)| self.in_bounds(p.0, p.1) && (self.cell(p.0, p.1).revealed || p == (sx, sy))),
            seq![(sx as usize, sy as usize)],
        )
    }
}

/// A flood has one length.
pub proof fn lemma_flood_length_unique(g: &Game, s: FloodState, n: nat, m: nat)
    requires
        g.flood_length(s, n),
        g.flood_length(s, m),
    ensures
        n == m,
{
    if n < m {
        assert(g.flood_iter(s, n).1.len() > 0);
    } else if m < n {
        assert(g.flood_iter(s, m).1.len() > 0);
    }
}

impl Game {
    /// Revealing `(x, y)` opens its neighbours: a safe cell with no bomb around it.
    pub open spec fn expands(&self, x: int, y: int) -> bool {
        self.in_bounds(x, y) && !self.cell(x, y).is_bomb && self.cell(x, y).nearby_bombs == 0
    }

    /// A flood may open `(x, y)`: a hidden safe cell of the board.
    pub open spec fn enterable(&self, x: int, y: int) -> bool {
        self.in_bounds(x, y) && !self.cell(x, y).is_bomb && !self.cell(x, y).revealed
    }

    /// One flood step: from `p`, a cell with no bomb around it, to `q`, a hidden safe neighbour.
    pub open spec fn flood_step(&self, p: (int, int), q: (int, int)) -> bool {
        &&& self.expands(p.0, p.1)
        &&& self.enterable(q.0, q.1)
        &&& exists|k: int| 0 <= k < 8 && q.0 == nx(p.0, k) && q.1 == ny(p.1, k)
    }

    pub open spec fn step_at(&self, path: Seq<(int, int)>, i: int) -> bool {
        self.flood_step(path[i], path[i + 1])
    }

    /// `path` is a flood from `(sx, sy)`: it starts there and each next cell is one flood step on.
    pub open spec fn flood_path(&self, sx: int, sy: int, path: Seq<(int, int)>) -> bool {
        &&& path.len() >= 1
        &&& path[0] == (sx, sy)
        &&& forall|i: int| 0 <= i < path.len() - 1 ==> #[trigger] self.step_at(path, i)
    }

    /// A flood started at `(sx, sy)` reaches `(x, y)`.
    pub open spec fn in_flood(&self, sx: int, sy: int, x: int, y: int) -> bool {
        exists|path: Seq<(int, int)>| #[trigger] self.flood_path(sx, sy, path) && path.last() == (x, y)
    }

    /// Number of hidden cells.
    pub open spec fn hidden_count(&self) -> nat {
        grid_count(self.grid(), unrevealed_pred())
    }

    /// Each queue entry weighs 9 when its cell is already revealed and 1 otherwise.
    pub open spec fn queue_weight(&self, q: Seq<(usize, usize)>) -> nat
        decreases q.len(),
    {
        if q.len() == 0 {
            0
        } else {
            (if self.cell(q[0].0 as int, q[0].1 as int).revealed {
                9nat
            } else {
                1nat
            }) + self.queue_weight(q.drop_first())
        }
    }

    pub open spec fn entry_weight(&self, e: (usize, usize)) -> nat {
        if self.cell(e.0 as int, e.1 as int).revealed {
            9
        } else {
            1
        }
    }

    pub proof fn lemma_queue_weight_push(&self, q: Seq<(usize, usize)>, e: (usize, usize))
        ensures
            self.queue_weight(q.push(e)) == self.queue_weight(q) + self.entry_weight(e),
        decreases q.len(),
    {
        if q.len() > 0 {
            assert(q.push(e).drop_first() =~= q.drop_first().push(e));
            self.lemma_queue_weight_push(q.drop_first(), e);
        } else {
            assert(q.push(e).drop_first() =~= q);
        }
    }

    /// Every neighbour of `(x, y)` that a flood may enter is revealed in `g` or waits in `q`.
    pub open spec fn neighbours_covered(&self, g: &Game, q: Seq<(usize, usize)>, x: int, y: int) -> bool {
        forall|k: int|
            0 <= k < 8 && #[trigger] self.enterable(nx(x, k), ny(y, k)) ==> g.cell(nx(x, k), ny(y, k)).revealed
                || queued(q, nx(x, k), ny(y, k))
    }

    /// A cell the flood has taken: the start, or a cell hidden in `self` and revealed in `g`.
    pub open spec fn taken(&self, g: &Game, sx: int, sy: int, x: int, y: int) -> bool {
        (x == sx && y == sy) || (g.cell(x, y).revealed && !self.cell(x, y).revealed)
    }

    /// Every taken cell with no bomb around it waits in `q` or has its neighbours covered.
    pub open spec fn flood_closed(&self, g: &Game, q: Seq<(usize, usize)>, sx: int, sy: int) -> bool {
        forall|x: int, y: int|
            #![trigger self.taken(g, sx, sy, x, y)]
            self.in_bounds(x, y) && self.taken(g, sx, sy, x, y) && self.expands(x, y) ==> queued(q, x, y)
                || self.neighbours_covered(g, q, x, y)
    }

    /// A flood that reaches a cell with no bomb around it reaches each of its hidden safe neighbours.
    proof fn lemma_flood_extend(&self, sx: int, sy: int, cx: int, cy: int, k: int)
        requires
            0 <= k < 8,
            self.in_flood(sx, sy, cx, cy),
            self.expands(cx, cy),
            self.enterable(nx(cx, k), ny(cy, k)),
        ensures
            self.in_flood(sx, sy, nx(cx, k), ny(cy, k)),
    {
        let path = choose|path: Seq<(int, int)>| #[trigger] self.flood_path(sx, sy, path) && path.last() == (cx, cy);
        let q = (nx(cx, k), ny(cy, k));
        let p2 = path.push(q);
        assert forall|i: int| 0 <= i < p2.len() - 1 implies #[trigger] self.step_at(p2, i) by {
            if i < path.len() - 1 {
                assert(self.step_at(path, i));
                assert(p2[i] == path[i] && p2[i + 1] == path[i + 1]);
            } else {
                assert(i == path.len() - 1);
                assert(p2[i] == path.last());
                assert(p2[i + 1] == q);
                assert(p2[i + 1].0 == nx(p2[i].0, k) && p2[i + 1].1 == ny(p2[i].1, k));
                assert(self.flood_step(p2[i], p2[i + 1]));
            }
        }
        assert(self.flood_path(sx, sy, p2) && p2.last() == q);
    }

    /// When nothing waits any more, every cell on a flood path has been taken and revealed.
    proof fn lemma_flood_complete(&self, g: &Game, sx: int, sy: int, path: Seq<(int, int)>)
        requires
            self.in_bounds(sx, sy),
            g.cell(sx, sy).revealed,
            self.flood_closed(g, Seq::empty(), sx, sy),
            self.flood_path(sx, sy, path),
        ensures
            self.in_bounds(path.last().0, path.last().1),
            g.cell(path.last().0, path.last().1).revealed,
            self.taken(g, sx, sy, path.last().0, path.last().1),
        decreases path.len(),
    {
        if path.len() > 1 {
            let prev = path.drop_last();
            assert forall|i: int| 0 <= i < prev.len() - 1 implies #[trigger] self.step_at(prev, i) by {
                assert(self.step_at(path, i));
            }
            self.lemma_flood_complete(g, sx, sy, prev);
            let n = path.len() - 2;
            assert(self.step_at(path, n));
            let p = path[n];
            let q = path[n + 1];
            assert(prev.last() == p);
            let k = choose|k: int| 0 <= k < 8 && q.0 == nx(p.0, k) && q.1 == ny(p.1, k);
            assert(self.taken(g, sx, sy, p.0, p.1));
            assert(!queued(Seq::empty(), p.0, p.1));
            assert(self.enterable(nx(p.0, k), ny(p.1, k)));
            assert(!queued(Seq::empty(), q.0, q.1));
        }
    }
}


impl Game {
    /// Like `flood_closed`, but saying nothing of the cell `(cx, cy)`.
    pub open spec fn flood_closed_except(
        &self,
        g: &Game,
        q: Seq<(usize, usize)>,
        sx: int,
        sy: int,
        cx: int,
        cy: int,
    ) -> bool {
        forall|x: int, y: int|
            #![trigger self.taken(g, sx, sy, x, y)]
            self.in_bounds(x, y) && self.taken(g, sx, sy, x, y) && self.expands(x, y) && (x != cx || y != cy)
                ==> queued(q, x, y) || self.neighbours_covered(g, q, x, y)
    }

    proof fn lemma_queued_grow(q: Seq<(usize, usize)>, q2: Seq<(usize, usize)>, x: int, y: int)
        requires
            queued(q, x, y),
            q.len() <= q2.len(),
            forall|i: int| 0 <= i < q.len() ==> q2[i] == q[i],
        ensures
            queued(q2, x, y),
    {
        let i = choose|i: int| 0 <= i < q.len() && (#[trigger] q[i]).0 == x && q[i].1 == y;
        assert(q2[i] == q[i]);
    }

    /// Taking the first cell off the queue and revealing it keeps every other cell closed.
    proof fn lemma_closed_after_pop(
        &self,
        g_old: &Game,
        g_new: &Game,
        q_old: Seq<(usize, usize)>,
        sx: int,
        sy: int,
    )
        requires
            q_old.len() > 0,
            self.flood_closed(g_old, q_old, sx, sy),
            forall|x: int, y: int|
                self.in_bounds(x, y) ==> (#[trigger] g_new.cell(x, y)).revealed == (g_old.cell(x, y).revealed || (
                x == q_old[0].0 && y == q_old[0].1)),
        ensures
            self.flood_closed_except(g_new, q_old.drop_first(), sx, sy, q_old[0].0 as int, q_old[0].1 as int),
    {
        let rest = q_old.drop_first();
        let cx = q_old[0].0 as int;
        let cy = q_old[0].1 as int;
        assert forall|x: int, y: int|
            #![trigger self.taken(g_new, sx, sy, x, y)]
            self.in_bounds(x, y) && self.taken(g_new, sx, sy, x, y) && self.expands(x, y) && (x != cx || y != cy)
                implies queued(rest, x, y) || self.neighbours_covered(g_new, rest, x, y) by {
            assert(g_new.cell(x, y).revealed == g_old.cell(x, y).revealed);
            assert(self.taken(g_old, sx, sy, x, y));
            if queued(q_old, x, y) {
                let i = choose|i: int| 0 <= i < q_old.len() && (#[trigger] q_old[i]).0 == x && q_old[i].1 == y;
                assert(i != 0);
                assert(rest[i - 1] == q_old[i]);
            } else {
                assert(self.neighbours_covered(g_old, q_old, x, y));
                assert forall|k: int|
                    0 <= k < 8 && #[trigger] self.enterable(nx(x, k), ny(y, k)) implies g_new.cell(nx(x, k), ny(y, k)).revealed
                        || queued(rest, nx(x, k), ny(y, k)) by {
                    let a = nx(x, k);
                    let b = ny(y, k);
                    assert(g_new.cell(a, b).revealed == (g_old.cell(a, b).revealed || (a == cx && b == cy)));
                    if !g_old.cell(a, b).revealed && queued(q_old, a, b) && (a != cx || b != cy) {
                        let i = choose|i: int| 0 <= i < q_old.len() && (#[trigger] q_old[i]).0 == a && q_old[i].1 == b;
                        assert(i != 0);
                        assert(rest[i - 1] == q_old[i]);
                    }
                }
            }
        }
    }

    /// Adding to the end of the queue keeps every closed cell closed.
    proof fn lemma_closed_except_grow(
        &self,
        g: &Game,
        q: Seq<(usize, usize)>,
        q2: Seq<(usize, usize)>,
        sx: int,
        sy: int,
        cx: int,
        cy: int,
    )
        requires
            self.flood_closed_except(g, q, sx, sy, cx, cy),
            q.len() <= q2.len(),
            forall|i: int| 0 <= i < q.len() ==> q2[i] == q[i],
        ensures
            self.flood_closed_except(g, q2, sx, sy, cx, cy),
    {
        assert forall|x: int, y: int|
            #![trigger self.taken(g, sx, sy, x, y)]
            self.in_bounds(x, y) && self.taken(g, sx, sy, x, y) && self.expands(x, y) && (x != cx || y != cy)
                implies queued(q2, x, y) || self.neighbours_covered(g, q2, x, y) by {
            if queued(q, x, y) {
                Game::lemma_queued_grow(q, q2, x, y);
            } else {
                assert(self.neighbours_covered(g, q, x, y));
                assert forall|k: int|
                    0 <= k < 8 && #[trigger] self.enterable(nx(x, k), ny(y, k)) implies g.cell(nx(x, k), ny(y, k)).revealed
                        || queued(q2, nx(x, k), ny(y, k)) by {
                    if queued(q, nx(x, k), ny(y, k)) {
                        Game::lemma_queued_grow(q, q2, nx(x, k), ny(y, k));
                    }
                }
            }
        }
    }

    /// Queue weights only look at whether the queued cells are revealed.
    proof fn lemma_queue_weight_same(a: &Game, b: &Game, q: Seq<(usize, usize)>)
        requires
            forall|i: int|
                0 <= i < q.len() ==> a.cell((#[trigger] q[i]).0 as int, q[i].1 as int).revealed == b.cell(
                    q[i].0 as int,
                    q[i].1 as int,
                ).revealed,
        ensures
            a.queue_weight(q) == b.queue_weight(q),
        decreases q.len(),
    {
        if q.len() > 0 {
            assert(a.cell(q[0].0 as int, q[0].1 as int).revealed == b.cell(q[0].0 as int, q[0].1 as int).revealed);
            assert forall|i: int| 0 <= i < q.drop_first().len() implies a.cell(
                (#[trigger] q.drop_first()[i]).0 as int,
                q.drop_first()[i].1 as int,
            ).revealed == b.cell(q.drop_first()[i].0 as int, q.drop_first()[i].1 as int).revealed by {
                assert(q.drop_first()[i] == q[i + 1]);
            }
            Game::lemma_queue_weight_same(a, b, q.drop_first());
        }
    }

    /// Opens the area around `(x, y)` when that cell is safe with no bomb next to it:
    /// the cell and every cell a flood from it reaches (see `in_flood`) become revealed,
    /// and nothing else on the board changes. Otherwise nothing changes and 0 is returned.
    ///
    /// The count returned is one more than the number of times a cell was taken off the
    /// flood's queue (a cell can be queued more than once), capped at `COUNT_LIMIT`.
    pub fn reveal_non_zero(&mut self, x: usize, y: usize) -> (count: u32)
        requires
            old(self).wf(),
            old(self).in_bounds(x as int, y as int),
            old(self).expands(x as int, y as int) ==> old(self).fits_offsets(),
        ensures
            !old(self).expands(x as int, y as int) ==> count == 0 && *final(self) == *old(self),
            old(self).expands(x as int, y as int) ==> {
                &&& final(self).wf()
                &&& final(self).same_shape(old(self))
                &&& forall|xx: int, yy: int|
                    old(self).in_bounds(xx, yy) ==> {
                        &&& same_but_revealed(old(self).cell(xx, yy), #[trigger] final(self).cell(xx, yy))
                        &&& final(self).cell(xx, yy).revealed == (old(self).cell(xx, yy).revealed || old(
                            self,
                        ).in_flood(x as int, y as int, xx, yy))
                    }
                &&& exists|n: nat|
                    #![trigger old(self).flood_length(old(self).flood_start(x as int, y as int), n)]
                    old(self).flood_length(old(self).flood_start(x as int, y as int), n) && count == (if 1 + n
                        < COUNT_LIMIT {
                        1 + n as int
                    } else {
                        COUNT_LIMIT as int
                    })
                &&& 2 <= count <= COUNT_LIMIT
                &&& count as int >= {
                    let opened = old(self).hidden_count() - final(self).hidden_count();
                    let bound = 1 + opened - indicator(!old(self).cell(x as int, y as int).revealed);
                    if bound < COUNT_LIMIT {
                        bound
                    } else {
                        COUNT_LIMIT as int
                    }
                }
            },
    {
        let ghost g0 = *self;
        let ghost sx = x as int;
        let ghost sy = y as int;
        let c0 = *self.get_cell(x, y);
        if c0.nearby_bombs != 0 || c0.is_bomb {
            return 0;
        }
        let mut cells_revealed: u32 = 1;
        let mut start = c0;
        start.revealed = true;
        self.set_cell(x, y, start);
        proof {
            lemma_grid_count_update(g0.grid(), sy, sx, start, unrevealed_pred());
            assert(g0.grid()[sy][sx] == g0.cell(sx, sy));
        }
        let mut queue: VecDeque<(usize, usize)> = VecDeque::new();
        queue.push_back((start.x, start.y));
        let ghost u_start = self.hidden_count();
        let ghost mut pops: nat = 0;
        let ghost init = g0.flood_start(sx, sy);
        proof {
            assert(queue@ =~= init.1);
            assert forall|xx: int, yy: int| g0.in_bounds(xx, yy) implies (#[trigger] self.cell(xx, yy)).revealed
                == init.0.contains((xx, yy)) by {
                if xx != sx || yy != sy {
                    assert(self.cell(xx, yy) == g0.cell(xx, yy));
                }
            }
            assert(g0.flood_path(sx, sy, seq![(sx, sy)]));
            assert(g0.in_flood(sx, sy, sx, sy));
            assert(queue@[0] == (x, y));
            assert(queued(queue@, sx, sy));
            assert forall|xx: int, yy: int|
                #![trigger g0.taken(self, sx, sy, xx, yy)]
                g0.in_bounds(xx, yy) && g0.taken(self, sx, sy, xx, yy) && g0.expands(xx, yy)
                    implies queued(queue@, xx, yy) || g0.neighbours_covered(self, queue@, xx, yy) by {
                if xx != sx || yy != sy {
                    assert(self.cell(xx, yy) == g0.cell(xx, yy));
                }
            }
        }
        while queue.len() != 0
            invariant
                g0.wf(),
                g0.fits_offsets(),
                g0.in_bounds(sx, sy),
                g0.expands(sx, sy),
                sx == x,
                sy == y,
                self.wf(),
                self.fits_offsets(),
                self.same_shape(&g0),
                forall|xx: int, yy: int|
                    g0.in_bounds(xx, yy) ==> {
                        &&& same_but_revealed(g0.cell(xx, yy), #[trigger] self.cell(xx, yy))
                        &&& g0.cell(xx, yy).revealed ==> self.cell(xx, yy).revealed
                        &&& self.cell(xx, yy).revealed && !g0.cell(xx, yy).revealed ==> g0.in_flood(sx, sy, xx, yy)
                    },
                self.cell(sx, sy).revealed,
                forall|i: int|
                    0 <= i < queue@.len() ==> {
                        &&& g0.in_bounds((#[trigger] queue@[i]).0 as int, queue@[i].1 as int)
                        &&& g0.in_flood(sx, sy, queue@[i].0 as int, queue@[i].1 as int)
                        &&& !g0.cell(queue@[i].0 as int, queue@[i].1 as int).is_bomb
                    },
                g0.flood_closed(self, queue@, sx, sy),
                cells_revealed == (if 1 + pops < COUNT_LIMIT {
                    1 + pops as int
                } else {
                    COUNT_LIMIT as int
                }),
                pops + self.hidden_count() >= u_start,
                self.hidden_count() <= u_start,
                queue@.len() > 0 || pops >= 1,
                init == g0.flood_start(sx, sy),
                queue@ == g0.flood_iter(init, pops).1,
                forall|xx: int, yy: int|
                    g0.in_bounds(xx, yy) ==> (#[trigger] self.cell(xx, yy)).revealed == g0.flood_iter(init, pops).0.contains(
                        (xx, yy),
                    ),
                forall|j: nat| j < pops ==> #[trigger] g0.flood_iter(init, j).1.len() > 0,
            decreases self.hidden_count(), self.queue_weight(queue@),
        {
            let ghost q_old = queue@;
            let ghost g_old = *self;
            let ghost st = g0.flood_iter(init, pops);
            let ghost st_next = g0.flood_advance(st);
            let ghost pops_old = pops;
            let ghost hidden_old = self.hidden_count();
            let ghost weight_old = self.queue_weight(queue@);
            let (cell_x, cell_y) = queue.pop_front().unwrap();
            let ghost rest = queue@;
            let ghost cx = cell_x as int;
            let ghost cy = cell_y as int;
            proof {
                assert(rest =~= q_old.drop_first());
                assert(q_old[0] == (cell_x, cell_y));
            }
            let mut cur = *self.get_cell(cell_x, cell_y);
            let ghost was_revealed = cur.revealed;
            cur.revealed = true;
            self.set_cell(cell_x, cell_y, cur);
            if cells_revealed < COUNT_LIMIT {
                cells_revealed += 1;
            }
            proof {
                pops = pops + 1;
                assert(g0.flood_iter(init, pops) == st_next);
                assert forall|j: nat| j < pops implies #[trigger] g0.flood_iter(init, j).1.len() > 0 by {
                    if j == pops_old {
                        assert(g0.flood_iter(init, j) == st);
                    }
                }
                assert forall|xx: int, yy: int| g0.in_bounds(xx, yy) implies (#[trigger] self.cell(xx, yy)).revealed
                    == st_next.0.contains((xx, yy)) by {
                    if xx != cx || yy != cy {
                        assert(self.cell(xx, yy) == g_old.cell(xx, yy));
                    }
                }
                lemma_grid_count_update(g_old.grid(), cy, cx, cur, unrevealed_pred());
                assert(g_old.grid()[cy][cx] == g_old.cell(cx, cy));
                assert forall|xx: int, yy: int| g0.in_bounds(xx, yy) implies (#[trigger] self.cell(xx, yy)).revealed == (
                g_old.cell(xx, yy).revealed || (xx == q_old[0].0 && yy == q_old[0].1)) by {
                    if xx != cx || yy != cy {
                        assert(self.cell(xx, yy) == g_old.cell(xx, yy));
                    }
                }
                g0.lemma_closed_after_pop(&g_old, self, q_old, sx, sy);
                if was_revealed {
                    assert forall|i: int| 0 <= i < rest.len() implies self.cell(
                        (#[trigger] rest[i]).0 as int,
                        rest[i].1 as int,
                    ).revealed == g_old.cell(rest[i].0 as int, rest[i].1 as int).revealed by {
                        assert(self.cell(rest[i].0 as int, rest[i].1 as int).revealed == (g_old.cell(
                            rest[i].0 as int,
                            rest[i].1 as int,
                        ).revealed || (rest[i].0 == cx && rest[i].1 == cy)));
                    }
                    Game::lemma_queue_weight_same(self, &g_old, rest);
                    assert(weight_old == 9 + g_old.queue_weight(rest));
                }
            }
            if cur.nearby_bombs != 0 {
                proof {
                    assert(!g0.expands(cx, cy));
                    assert(queue@ =~= st_next.1);
                }
                continue;
            }
            let ghost g_mid = *self;
            for k in 0..8
                invariant
                    *self == g_mid,
                    g0.wf(),
                    g0.fits_offsets(),
                    self.wf(),
                    self.fits_offsets(),
                    self.same_shape(&g0),
                    g0.in_bounds(cx, cy),
                    g0.expands(cx, cy),
                    g0.in_flood(sx, sy, cx, cy),
                    cx == cell_x,
                    cy == cell_y,
                    forall|xx: int, yy: int|
                        g0.in_bounds(xx, yy) ==> {
                            &&& same_but_revealed(g0.cell(xx, yy), #[trigger] self.cell(xx, yy))
                            &&& g0.cell(xx, yy).revealed ==> self.cell(xx, yy).revealed
                        },
                    rest.len() <= queue@.len() <= rest.len() + k,
                    forall|i: int| 0 <= i < rest.len() ==> queue@[i] == rest[i],
                    forall|i: int|
                        0 <= i < queue@.len() ==> {
                            &&& g0.in_bounds((#[trigger] queue@[i]).0 as int, queue@[i].1 as int)
                            &&& g0.in_flood(sx, sy, queue@[i].0 as int, queue@[i].1 as int)
                            &&& !g0.cell(queue@[i].0 as int, queue@[i].1 as int).is_bomb
                        },
                    forall|i: int|
                        rest.len() <= i < queue@.len() ==> !self.cell(
                            (#[trigger] queue@[i]).0 as int,
                            queue@[i].1 as int,
                        ).revealed,
                    self.queue_weight(queue@) == self.queue_weight(rest) + (queue@.len() - rest.len()),
                    g0.flood_closed_except(self, queue@, sx, sy, cx, cy),
                    forall|j: int|
                        0 <= j < k && #[trigger] g0.enterable(nx(cx, j), ny(cy, j)) ==> self.cell(
                            nx(cx, j),
                            ny(cy, j),
                        ).revealed || queued(queue@, nx(cx, j), ny(cy, j)),
                    g0.cell(cx, cy).nearby_bombs == 0,
                    st_next.0 == st.0.insert((cx, cy)),
                    st.1.len() > 0 && st.1[0] == (cell_x, cell_y),
                    rest == st.1.drop_first(),
                    forall|xx: int, yy: int|
                        g0.in_bounds(xx, yy) ==> (#[trigger] self.cell(xx, yy)).revealed == st_next.0.contains((xx, yy)),
                    queue@ == rest + g0.flood_pushes(st_next.0, cx, cy, k as int),
            {
                let (offset_y, offset_x) = neighbour_offset(k);
                let ghost q_in = queue@;
                proof {
                    assert(g0.flood_pushes(st_next.0, cx, cy, k + 1) == g0.flood_pushes(st_next.0, cx, cy, k as int) + (
                    if g0.in_bounds(nx(cx, k as int), ny(cy, k as int)) && !g0.cell(nx(cx, k as int), ny(cy, k as int)).is_bomb
                        && !st_next.0.contains((nx(cx, k as int), ny(cy, k as int))) {
                        seq![(nx(cx, k as int) as usize, ny(cy, k as int) as usize)]
                    } else {
                        Seq::empty()
                    }));
                }
                let pos = self.calculate_offset(cell_x, cell_y, offset_x, offset_y);
                match pos {
                    Some((world_x, world_y)) => {
                        let n = self.get_cell(world_x, world_y);
                        if !n.revealed && !n.is_bomb {
                            let ghost q_before = queue@;
                            proof {
                                g0.lemma_flood_extend(sx, sy, cx, cy, k as int);
                                self.lemma_queue_weight_push(q_before, (world_x, world_y));
                            }
                            queue.push_back((world_x, world_y));
                            proof {
                                assert(queue@[q_before.len() as int] == (world_x, world_y));
                                g0.lemma_closed_except_grow(self, q_before, queue@, sx, sy, cx, cy);
                                assert forall|j: int|
                                    0 <= j < k && #[trigger] g0.enterable(nx(cx, j), ny(cy, j)) implies self.cell(
                                        nx(cx, j),
                                        ny(cy, j),
                                    ).revealed || queued(queue@, nx(cx, j), ny(cy, j)) by {
                                    if queued(q_before, nx(cx, j), ny(cy, j)) {
                                        Game::lemma_queued_grow(q_before, queue@, nx(cx, j), ny(cy, j));
                                    }
                                }
                                assert(queued(queue@, nx(cx, k as int), ny(cy, k as int)));
                                assert(queue@ =~= rest + g0.flood_pushes(st_next.0, cx, cy, k + 1));
                            }
                        } else {
                            proof {
                                assert(q_in + Seq::<(usize, usize)>::empty() =~= q_in);
                                assert(queue@ =~= rest + g0.flood_pushes(st_next.0, cx, cy, k + 1));
                            }
                        }
                    },
                    None => {
                        proof {
                            assert(q_in + Seq::<(usize, usize)>::empty() =~= q_in);
                            assert(queue@ =~= rest + g0.flood_pushes(st_next.0, cx, cy, k + 1));
                        }
                    },
                }
            }
            proof {
                assert(g0.neighbours_covered(self, queue@, cx, cy));
                if !was_revealed {
                    assert(self.hidden_count() < hidden_old);
                } else {
                    assert(self.queue_weight(queue@) < weight_old);
                }
            }
        }
        proof {
            assert(queue@ =~= Seq::<(usize, usize)>::empty());
            assert forall|xx: int, yy: int| g0.in_bounds(xx, yy) && g0.in_flood(sx, sy, xx, yy) implies (#[trigger] self.cell(
                xx,
                yy,
            )).revealed by {
                let path = choose|path: Seq<(int, int)>| #[trigger] g0.flood_path(sx, sy, path) && path.last() == (xx, yy);
                g0.lemma_flood_complete(self, sx, sy, path);
            }
            assert(g0.flood_length(init, pops));
        }
        cells_revealed
    }
}

impl Game {
    /// A flood path on `g0` is also one on `g1` when `g1` only has more revealed cells.
    pub(crate) proof fn lemma_flood_path_back(g0: &Game, g1: &Game, sx: int, sy: int, path: Seq<(int, int)>)
        requires
            g1.flood_path(sx, sy, path),
            g0.width == g1.width,
            g0.height == g1.height,
            forall|x: int, y: int|
                g0.in_bounds(x, y) ==> same_but_revealed(g0.cell(x, y), #[trigger] g1.cell(x, y)) && (g1.cell(x, y).revealed
                    || !g0.cell(x, y).revealed),
        ensures
            g0.flood_path(sx, sy, path),
    {
        assert forall|i: int| 0 <= i < path.len() - 1 implies #[trigger] g0.step_at(path, i) by {
            assert(g1.step_at(path, i));
            let p = path[i];
            let q = path[i + 1];
            assert(g1.cell(p.0, p.1) == g1.cell(p.0, p.1));
            assert(g1.cell(q.0, q.1) == g1.cell(q.0, q.1));
        }
    }

    /// Revealing the start of a flood does not change which cells the flood reaches.
    pub(crate) proof fn lemma_flood_reroot(g0: &Game, g1: &Game, sx: int, sy: int, path: Seq<(int, int)>)
        requires
            g0.flood_path(sx, sy, path),
            g0.width == g1.width,
            g0.height == g1.height,
            forall|x: int, y: int|
                g0.in_bounds(x, y) ==> same_but_revealed(g0.cell(x, y), #[trigger] g1.cell(x, y)) && g1.cell(x, y).revealed
                    == (g0.cell(x, y).revealed || (x == sx && y == sy)),
        ensures
            g1.in_flood(sx, sy, path.last().0, path.last().1),
        decreases path.len(),
    {
        if exists|i: int| 1 <= i < path.len() && #[trigger] path[i] == (sx, sy) {
            let i = choose|i: int| 1 <= i < path.len() && #[trigger] path[i] == (sx, sy);
            let p2 = path.subrange(i, path.len() as int);
            assert forall|j: int| 0 <= j < p2.len() - 1 implies #[trigger] g0.step_at(p2, j) by {
                assert(g0.step_at(path, i + j));
                assert(p2[j] == path[i + j] && p2[j + 1] == path[i + j + 1]);
            }
            assert(g0.flood_path(sx, sy, p2));
            Game::lemma_flood_reroot(g0, g1, sx, sy, p2);
            assert(p2.last() == path.last());
        } else {
            assert forall|j: int| 0 <= j < path.len() - 1 implies #[trigger] g1.step_at(path, j) by {
                assert(g0.step_at(path, j));
                let p = path[j];
                let q = path[j + 1];
                assert(q != (sx, sy));
                assert(g1.cell(p.0, p.1) == g1.cell(p.0, p.1));
                assert(g1.cell(q.0, q.1) == g1.cell(q.0, q.1));
            }
            assert(g1.flood_path(sx, sy, path));
        }
    }
}


impl Game {
    /// The flood process only looks at where the bombs are and at the hints.
    pub proof fn lemma_flood_same_board(a: &Game, b: &Game, s: FloodState, j: nat)
        requires
            a.width == b.width,
            a.height == b.height,
            forall|x: int, y: int|
                a.in_bounds(x, y) ==> (#[trigger] b.cell(x, y)).is_bomb == a.cell(x, y).is_bomb && b.cell(x, y).nearby_bombs
                    == a.cell(x, y).nearby_bombs,
            forall|i: int| 0 <= i < s.1.len() ==> a.in_bounds((#[trigger] s.1[i]).0 as int, s.1[i].1 as int),
        ensures
            a.flood_iter(s, j) == b.flood_iter(s, j),
            forall|i: int|
                0 <= i < a.flood_iter(s, j).1.len() ==> a.in_bounds(
                    (#[trigger] a.flood_iter(s, j).1[i]).0 as int,
                    a.flood_iter(s, j).1[i].1 as int,
                ),
        decreases j,
    {
        if j > 0 {
            Game::lemma_flood_same_board(a, b, s, (j - 1) as nat);
            let t = a.flood_iter(s, (j - 1) as nat);
            if t.1.len() > 0 {
                let cx = t.1[0].0 as int;
                let cy = t.1[0].1 as int;
                let revealed = t.0.insert((cx, cy));
                assert(a.in_bounds(cx, cy));
                Game::lemma_flood_pushes_same(a, b, revealed, cx, cy, 8);
                let r = a.flood_iter(s, j);
                assert forall|i: int| 0 <= i < r.1.len() implies a.in_bounds((#[trigger] r.1[i]).0 as int, r.1[i].1 as int) by {
                    if i < t.1.len() - 1 {
                        assert(r.1[i] == t.1[i + 1]);
                    }
                }
            }
        }
    }

    proof fn lemma_flood_pushes_same(a: &Game, b: &Game, revealed: Set<(int, int)>, cx: int, cy: int, k: int)
        requires
            a.width == b.width,
            a.height == b.height,
            forall|x: int, y: int|
                a.in_bounds(x, y) ==> (#[trigger] b.cell(x, y)).is_bomb == a.cell(x, y).is_bomb && b.cell(x, y).nearby_bombs
                    == a.cell(x, y).nearby_bombs,
        ensures
            a.flood_pushes(revealed, cx, cy, k) == b.flood_pushes(revealed, cx, cy, k),
            forall|i: int|
                0 <= i < a.flood_pushes(revealed, cx, cy, k).len() ==> a.in_bounds(
                    (#[trigger] a.flood_pushes(revealed, cx, cy, k)[i]).0 as int,
                    a.flood_pushes(revealed, cx, cy, k)[i].1 as int,
                ),
        decreases k,
    {
        if k > 0 {
            Game::lemma_flood_pushes_same(a, b, revealed, cx, cy, k - 1);
            let x = nx(cx, k - 1);
            let y = ny(cy, k - 1);
            if a.in_bounds(x, y) {
                assert(b.cell(x, y).is_bomb == a.cell(x, y).is_bomb);
            }
            let p = a.flood_pushes(revealed, cx, cy, k);
            let p0 = a.flood_pushes(revealed, cx, cy, k - 1);
            assert forall|i: int| 0 <= i < p.len() implies a.in_bounds((#[trigger] p[i]).0 as int, p[i].1 as int) by {
                if i < p0.len() {
                    assert(p[i] == p0[i]);
                }
            }
        }
    }
}

} // verus!
