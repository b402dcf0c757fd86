//! The Minesweeper board: cells, bomb placement, hints, moves and win detection.
use vstd::prelude::*;

use crate::count::{
    grid_count, grid_list, band, lemma_band_at_most_three, lemma_cell_total_uniform, lemma_grid_count_complement,
    lemma_grid_count_ext, lemma_grid_count_none, lemma_grid_count_positive, lemma_grid_count_split,
    lemma_grid_count_update, lemma_grid_zone, row_count, row_list,
};
use crate::ml::env::{hidden_value, hint_value, revealed_value, Observation};
use crate::random::{drawn_values, random_below, Draw};

verus! {

/// A colour as its red, green and blue bytes.
#[derive(Clone, Copy, Debug, PartialEq, Eq, Structural)]
pub struct Rgb {
    pub r: u8,
    pub g: u8,
    pub b: u8,
}

/// One square of the board.
#[derive(Clone, Copy, Debug)]
pub struct Cell {
    pub x: usize,
    pub y: usize,
    pub is_bomb: bool,
    pub nearby_bombs: usize,
    pub color: Rgb,
    pub revealed: bool,
    pub flagged: bool,
}

/// A board of `height` rows of `width` cells, stored row by row in `map`.
pub struct Game {
    pub map: Vec<Vec<Cell>>,
    pub height: usize,
    pub width: usize,
    pub num_bombs: usize,
    pub bombs_generated: bool,
    /// Moves made on this board since it was last created.
    pub step_count: usize,
}

/// A move on the board.
#[derive(Clone, Copy, Debug, PartialEq, Eq, Structural)]
pub enum Action {
    Reveal(usize, usize),
}

/// What a move did.
#[derive(PartialEq, Eq, Structural, Debug, Clone, Copy)]
pub enum ActionOutcome {
    /// A safe cell was opened; the number is the flood count of
    /// `Game::reveal_non_zero` (zero when the opened cell has a bomb next to it).
    RevealCell(u32),
    HitBomb,
    Invalid,
    Win,
}

/// Counts of opened cells stop growing at 2^24: past it a single-precision
/// float, in which rewards are finally expressed, no longer represents every integer.
pub const COUNT_LIMIT: u32 = 16777216;

/// The checkerboard colour of an unexploded cell.
pub open spec fn grass_color(x: int, y: int) -> Rgb {
    if (x + y) % 2 == 0 {
        Rgb { r: 170, g: 215, b: 81 }
    } else {
        Rgb { r: 142, g: 189, b: 53 }
    }
}

pub open spec fn bomb_color() -> Rgb {
    Rgb { r: 255, g: 50, b: 50 }
}

/// A cell as a new board holds it.
pub open spec fn fresh_cell(x: int, y: int) -> Cell {
    Cell {
        x: x as usize,
        y: y as usize,
        is_bomb: false,
        nearby_bombs: 0,
        color: grass_color(x, y),
        revealed: false,
        flagged: false,
    }
}

/// Row offset of the `k`-th of the eight neighbours.
pub open spec fn offset_dy(k: int) -> int {
    if k < 3 {
        -1
    } else if k < 5 {
        0
    } else {
        1
    }
}

/// Column offset of the `k`-th of the eight neighbours.
pub open spec fn offset_dx(k: int) -> int {
    if k == 0 || k == 3 || k == 5 {
        -1
    } else if k == 1 || k == 6 {
        0
    } else {
        1
    }
}

/// `(x, y)` lies in the 3x3 square centred on `(sx, sy)`.
pub open spec fn in_zone(x: int, y: int, sx: int, sy: int) -> bool {
    -1 <= x - sx <= 1 && -1 <= y - sy <= 1
}

pub open spec fn is_bomb_pred() -> spec_fn(Cell) -> bool {
    |c: Cell| c.is_bomb
}

pub open spec fn unrevealed_pred() -> spec_fn(Cell) -> bool {
    |c: Cell| !c.revealed
}

/// A cell on which a bomb may still be placed when the first move is at `(sx, sy)`.
pub open spec fn eligible_pred(sx: int, sy: int) -> spec_fn(Cell) -> bool {
    |c: Cell| !c.is_bomb && !in_zone(c.x as int, c.y as int, sx, sy)
}

/// The offsets of the eight neighbours, as (row, column).
pub(crate) fn neighbour_offset(k: usize) -> (o: (i16, i16))
    requires
        k < 8,
    ensures
        o.0 == offset_dy(k as int),
        o.1 == offset_dx(k as int),
{
    match k {
        0 => (-1, -1),
        1 => (-1, 0),
        2 => (-1, 1),
        3 => (0, -1),
        4 => (0, 1),
        5 => (1, -1),
        6 => (1, 0),
        _ => (1, 1),
    }
}

fn grass(x: usize, y: usize) -> (c: Rgb)
    ensures
        c == grass_color(x as int, y as int),
{
    if (x % 2 + y % 2) % 2 == 0 {
        Rgb { r: 170, g: 215, b: 81 }
    } else {
        Rgb { r: 142, g: 189, b: 53 }
    }
}

fn bomb_rgb() -> (c: Rgb)
    ensures
        c == bomb_color(),
{
    Rgb { r: 255, g: 50, b: 50 }
}

/// Each draw `j` indexes into what is left after the earlier draws (`n - j` items).
pub open spec fn valid_picks(n: nat, picks: Seq<usize>) -> bool {
    &&& picks.len() <= n
    &&& forall|j: int| 0 <= j < picks.len() ==> #[trigger] picks[j] < n - j
}

/// What is left of `cands` after the first `j` draws of `picks`; each draw removes the item at
/// its index, the last item moving into its place.
pub open spec fn remaining_after(cands: Seq<(usize, usize)>, picks: Seq<usize>, j: nat) -> Seq<(usize, usize)>
    decreases j,
{
    if j == 0 {
        cands
    } else {
        let r = remaining_after(cands, picks, (j - 1) as nat);
        r.update(picks[j - 1] as int, r.last()).drop_last()
    }
}

/// The items the first `j` draws of `picks` take from `cands`, in draw order.
pub open spec fn picked_cells(cands: Seq<(usize, usize)>, picks: Seq<usize>, j: nat) -> Seq<(usize, usize)>
    decreases j,
{
    if j == 0 {
        Seq::empty()
    } else {
        picked_cells(cands, picks, (j - 1) as nat).push(
            remaining_after(cands, picks, (j - 1) as nat)[picks[j - 1] as int],
        )
    }
}

/// `k` draws at random, draw `j` over the `n - j` positions left after the earlier draws.
fn draw_picks(n: usize, k: usize) -> (picks: Vec<Draw>)
    requires
        k <= n,
    ensures
        picks@.len() == k,
        forall|j: int| 0 <= j < k ==> (#[trigger] picks@[j]).range() == n - j && picks@[j].drawn() < n - j,
{
    let mut picks: Vec<Draw> = Vec::new();
    for j in 0..k
        invariant
            k <= n,
            picks@.len() == j,
            forall|m: int| 0 <= m < j ==> (#[trigger] picks@[m]).range() == n - m && picks@[m].drawn() < n - m,
    {
        picks.push(random_below(n - j));
    }
    picks
}

impl Game {
    /// The board as a sequence of rows.
    pub open spec fn grid(&self) -> Seq<Seq<Cell>> {
        self.map@.map_values(|row: Vec<Cell>| row@)
    }

    pub open spec fn in_bounds(&self, x: int, y: int) -> bool {
        0 <= x < self.width && 0 <= y < self.height
    }

    pub open spec fn cell(&self, x: int, y: int) -> Cell {
        self.map@[y]@[x]
    }

    /// The board has `height` rows of `width` cells, each cell knows its own position and
    /// holds a hint of at most eight.
    pub open spec fn wf(&self) -> bool {
        &&& self.map@.len() == self.height
        &&& forall|y: int| 0 <= y < self.height ==> (#[trigger] self.map@[y])@.len() == self.width
        &&& forall|x: int, y: int|
            self.in_bounds(x, y) ==> {
                &&& (#[trigger] self.cell(x, y)).x == x
                &&& self.cell(x, y).y == y
                &&& self.cell(x, y).nearby_bombs <= 8
            }
    }

    /// The neighbour arithmetic works on 16-bit signed coordinates.
    pub open spec fn fits_offsets(&self) -> bool {
        0 < self.width <= 32768 && 0 < self.height <= 32768
    }

    /// 1 where `(x, y)` is on the board and holds a bomb, 0 otherwise.
    pub open spec fn bomb_at(&self, x: int, y: int) -> int {
        if self.in_bounds(x, y) && self.cell(x, y).is_bomb {
            1
        } else {
            0
        }
    }

    /// Bombs among the first `k` neighbours of `(x, y)`.
    pub open spec fn bombs_near(&self, x: int, y: int, k: int) -> int
        decreases k,
    {
        if k <= 0 {
            0
        } else {
            self.bombs_near(x, y, k - 1) + self.bomb_at(x + offset_dx(k - 1), y + offset_dy(k - 1))
        }
    }

    /// Bombs among the eight cells around `(x, y)`.
    pub open spec fn bomb_neighbours(&self, x: int, y: int) -> int {
        self.bombs_near(x, y, 8)
    }

    /// Every safe cell's hint is the number of bombs around it.
    pub open spec fn hints_correct(&self) -> bool {
        forall|x: int, y: int|
            self.in_bounds(x, y) && !(#[trigger] self.cell(x, y)).is_bomb ==> self.cell(x, y).nearby_bombs
                == self.bomb_neighbours(x, y)
    }

    /// Creates a board with no bombs yet: every cell hidden, unflagged, with hint 0.
    pub fn new(height: usize, width: usize, num_bombs: usize) -> (game: Self)
        ensures
            game.wf(),
            game.hints_correct(),
            game.height == height,
            game.width == width,
            game.num_bombs == num_bombs,
            !game.bombs_generated,
            game.step_count == 0,
            forall|x: int, y: int| game.in_bounds(x, y) ==> #[trigger] game.cell(x, y) == fresh_cell(x, y),
    {
        let mut map: Vec<Vec<Cell>> = Vec::new();
        for y in 0..height
            invariant
                map@.len() == y,
                forall|yy: int| 0 <= yy < y ==> (#[trigger] map@[yy])@.len() == width,
                forall|xx: int, yy: int|
                    0 <= yy < y && 0 <= xx < width ==> #[trigger] map@[yy]@[xx] == fresh_cell(xx, yy),
        {
            let mut row: Vec<Cell> = Vec::new();
            for x in 0..width
                invariant
                    row@.len() == x,
                    forall|xx: int| 0 <= xx < x ==> #[trigger] row@[xx] == fresh_cell(xx, y as int),
            {
                row.push(
                    Cell {
                        x,
                        y,
                        is_bomb: false,
                        nearby_bombs: 0,
                        color: grass(x, y),
                        revealed: false,
                        flagged: false,
                    },
                );
            }
            map.push(row);
        }
        let game = Game { map, height, width, num_bombs, bombs_generated: false, step_count: 0 };
        assert forall|x: int, y: int| game.in_bounds(x, y) && !(#[trigger] game.cell(x, y)).is_bomb implies game.cell(x, y).nearby_bombs
            == game.bomb_neighbours(x, y) by {
            reveal_with_fuel(Game::bombs_near, 9);
        }
        game
    }
}


/// `b` is `a` with at most its hint changed.
pub open spec fn same_but_hint(a: Cell, b: Cell) -> bool {
    &&& a.x == b.x
    &&& a.y == b.y
    &&& a.is_bomb == b.is_bomb
    &&& a.color == b.color
    &&& a.revealed == b.revealed
    &&& a.flagged == b.flagged
}

/// `b` is `a` with at most its revealed mark changed.
pub open spec fn same_but_revealed(a: Cell, b: Cell) -> bool {
    &&& a.x == b.x
    &&& a.y == b.y
    &&& a.is_bomb == b.is_bomb
    &&& a.nearby_bombs == b.nearby_bombs
    &&& a.color == b.color
    &&& a.flagged == b.flagged
}

impl Game {
    /// Same dimensions, bomb budget and counters.
    pub open spec fn same_shape(&self, other: &Game) -> bool {
        &&& self.height == other.height
        &&& self.width == other.width
        &&& self.num_bombs == other.num_bombs
        &&& self.bombs_generated == other.bombs_generated
        &&& self.step_count == other.step_count
    }

    /// Two boards of one shape with bombs in the same places count the same bombs around every cell.
    pub proof fn lemma_same_bombs_same_neighbours(a: &Game, b: &Game, x: int, y: int, k: int)
        requires
            a.width == b.width,
            a.height == b.height,
            forall|xx: int, yy: int| a.in_bounds(xx, yy) ==> (#[trigger] a.cell(xx, yy)).is_bomb == b.cell(xx, yy).is_bomb,
        ensures
            a.bombs_near(x, y, k) == b.bombs_near(x, y, k),
        decreases k,
    {
        if k > 0 {
            Game::lemma_same_bombs_same_neighbours(a, b, x, y, k - 1);
            let xx = x + offset_dx(k - 1);
            let yy = y + offset_dy(k - 1);
            if a.in_bounds(xx, yy) {
                assert(a.cell(xx, yy).is_bomb == b.cell(xx, yy).is_bomb);
            }
        }
    }

    /// Replaces the cell at `(x, y)`; every other cell stays.
    pub(crate) fn set_cell(&mut self, x: usize, y: usize, c: Cell)
        requires
            old(self).map@.len() == old(self).height,
            forall|yy: int| 0 <= yy < old(self).height ==> (#[trigger] old(self).map@[yy])@.len() == old(self).width,
            old(self).in_bounds(x as int, y as int),
        ensures
            final(self).same_shape(old(self)),
            final(self).map@.len() == old(self).height,
            forall|yy: int| 0 <= yy < final(self).height ==> (#[trigger] final(self).map@[yy])@.len() == final(self).width,
            final(self).cell(x as int, y as int) == c,
            forall|xx: int, yy: int|
                final(self).in_bounds(xx, yy) && (xx != x || yy != y) ==> #[trigger] final(self).cell(xx, yy) == old(self).cell(xx, yy),
            final(self).grid() == old(self).grid().update(y as int, old(self).grid()[y as int].update(x as int, c)),
    {
        let ghost g0 = *self;
        self.map[y][x] = c;
        assert(self.map@[y as int]@ == g0.map@[y as int]@.update(x as int, c));
        assert forall|yy: int| 0 <= yy < self.height && yy != y implies self.map@[yy] == g0.map@[yy] by {}
        assert(self.grid() =~= g0.grid().update(y as int, g0.grid()[y as int].update(x as int, c)));
    }

    /// The cell at column `x`, row `y`.
    pub fn get_cell(&self, x: usize, y: usize) -> (c: &Cell)
        requires
            self.wf(),
            self.in_bounds(x as int, y as int),
        ensures
            *c == self.cell(x as int, y as int),
    {
        &self.map[y][x]
    }

    /// Mutable access to the cell at column `x`, row `y`; nothing else on the board changes.
    pub fn get_cell_mut(&mut self, x: usize, y: usize) -> (c: &mut Cell)
        requires
            old(self).wf(),
            old(self).in_bounds(x as int, y as int),
        ensures
            *c == old(self).cell(x as int, y as int),
            final(self).same_shape(old(self)),
            final(self).map@.len() == old(self).map@.len(),
            final(self).grid() == old(self).grid().update(
                y as int,
                old(self).grid()[y as int].update(x as int, *final(c)),
            ),
    {
        &mut self.map[y][x]
    }

    /// The cell at offset `(offset_x, offset_y)` from `(x, y)`, if it is on the board.
    pub(crate) fn calculate_offset(&self, x: usize, y: usize, offset_x: i16, offset_y: i16) -> (pos: Option<(usize, usize)>)
        requires
            self.fits_offsets(),
            self.in_bounds(x as int, y as int),
            -1 <= offset_x <= 1,
            -1 <= offset_y <= 1,
        ensures
            pos == (if self.in_bounds(x + offset_x, y + offset_y) {
                Some(((x + offset_x) as usize, (y + offset_y) as usize))
            } else {
                None
            }),
    {
        if (x == 0 && offset_x == -1) || (x == self.width - 1 && offset_x == 1) {
            return None;
        }
        if (y == 0 && offset_y == -1) || (y == self.height - 1 && offset_y == 1) {
            return None;
        }
        let world_x = (x as i16 + offset_x) as usize;
        let world_y = (y as i16 + offset_y) as usize;
        Some((world_x, world_y))
    }

    /// Number of bombs among the eight cells around `(x, y)`.
    fn get_nearby_bombs(&self, x: usize, y: usize) -> (n: usize)
        requires
            self.wf(),
            self.fits_offsets(),
            self.in_bounds(x as int, y as int),
        ensures
            n == self.bomb_neighbours(x as int, y as int),
            n <= 8,
    {
        let mut nearby_bombs: usize = 0;
        for k in 0..8
            invariant
                self.wf(),
                self.fits_offsets(),
                self.in_bounds(x as int, y as int),
                nearby_bombs == self.bombs_near(x as int, y as int, k as int),
                nearby_bombs <= k,
        {
            let (offset_y, offset_x) = neighbour_offset(k);
            let pos = self.calculate_offset(x, y, offset_x, offset_y);
            match pos {
                Some((world_x, world_y)) => {
                    if self.get_cell(world_x, world_y).is_bomb {
                        nearby_bombs += 1;
                    }
                },
                None => {},
            }
        }
        nearby_bombs
    }

    /// Sets the hint of every safe cell to the number of bombs around it; nothing else changes.
    pub fn recalculate_hints(&mut self)
        requires
            old(self).wf(),
            old(self).fits_offsets(),
        ensures
            final(self).wf(),
            final(self).hints_correct(),
            final(self).same_shape(old(self)),
            forall|x: int, y: int|
                old(self).in_bounds(x, y) ==> same_but_hint(old(self).cell(x, y), #[trigger] final(self).cell(x, y)),
            forall|x: int, y: int|
                old(self).in_bounds(x, y) && old(self).cell(x, y).is_bomb ==> #[trigger] final(self).cell(x, y)
                    == old(self).cell(x, y),
    {
        let ghost g0 = *self;
        let height = self.height;
        let width = self.width;
        for y in 0..height
            invariant
                height == self.height,
                width == self.width,
                self.wf(),
                self.fits_offsets(),
                self.same_shape(&g0),
                forall|xx: int, yy: int| g0.in_bounds(xx, yy) ==> same_but_hint(g0.cell(xx, yy), #[trigger] self.cell(xx, yy)),
                forall|xx: int, yy: int|
                    g0.in_bounds(xx, yy) && g0.cell(xx, yy).is_bomb ==> #[trigger] self.cell(xx, yy) == g0.cell(xx, yy),
                forall|xx: int, yy: int|
                    0 <= yy < y && 0 <= xx < width && !(#[trigger] self.cell(xx, yy)).is_bomb ==> self.cell(xx, yy).nearby_bombs
                        == g0.bomb_neighbours(xx, yy),
        {
            for x in 0..width
                invariant
                    height == self.height,
                    width == self.width,
                    y < height,
                    self.wf(),
                    self.fits_offsets(),
                    self.same_shape(&g0),
                    forall|xx: int, yy: int| g0.in_bounds(xx, yy) ==> same_but_hint(g0.cell(xx, yy), #[trigger] self.cell(xx, yy)),
                    forall|xx: int, yy: int|
                        g0.in_bounds(xx, yy) && g0.cell(xx, yy).is_bomb ==> #[trigger] self.cell(xx, yy) == g0.cell(xx, yy),
                    forall|xx: int, yy: int|
                        ((0 <= yy < y && 0 <= xx < width) || (yy == y && 0 <= xx < x)) && !(#[trigger] self.cell(xx, yy)).is_bomb
                            ==> self.cell(xx, yy).nearby_bombs == g0.bomb_neighbours(xx, yy),
            {
                if !self.map[y][x].is_bomb {
                    let n = self.get_nearby_bombs(x, y);
                    proof {
                        Game::lemma_same_bombs_same_neighbours(self, &g0, x as int, y as int, 8);
                    }
                    let mut c = self.map[y][x];
                    let ghost before = *self;
                    assert(c == before.cell(x as int, y as int));
                    c.nearby_bombs = n;
                    self.set_cell(x, y, c);
                    assert(same_but_hint(before.cell(x as int, y as int), self.cell(x as int, y as int)));
                    assert(self.wf());
                }
            }
        }
        proof {
            assert forall|x: int, y: int| self.in_bounds(x, y) && !(#[trigger] self.cell(x, y)).is_bomb implies self.cell(x, y).nearby_bombs
                == self.bomb_neighbours(x, y) by {
                Game::lemma_same_bombs_same_neighbours(self, &g0, x, y, 8);
            }
        }
    }
}


/// `b` is `a` with at most its bomb and colour changed.
pub open spec fn same_but_bomb(a: Cell, b: Cell) -> bool {
    &&& a.x == b.x
    &&& a.y == b.y
    &&& a.nearby_bombs == b.nearby_bombs
    &&& a.revealed == b.revealed
    &&& a.flagged == b.flagged
}

/// Whether `(x, y)` is within one step of `(sx, sy)` in both directions.
fn too_close(x: usize, y: usize, sx: usize, sy: usize) -> (b: bool)
    ensures
        b == in_zone(x as int, y as int, sx as int, sy as int),
{
    let near_x = if x >= sx {
        x - sx <= 1
    } else {
        sx - x <= 1
    };
    let near_y = if y >= sy {
        y - sy <= 1
    } else {
        sy - y <= 1
    };
    near_x && near_y
}

impl Game {
    /// Boards of one shape with bombs in the same places hold the same number of bombs.
    pub proof fn lemma_same_bombs_same_count(a: &Game, b: &Game)
        requires
            a.wf(),
            b.wf(),
            a.width == b.width,
            a.height == b.height,
            forall|xx: int, yy: int| a.in_bounds(xx, yy) ==> (#[trigger] a.cell(xx, yy)).is_bomb == b.cell(xx, yy).is_bomb,
        ensures
            a.bomb_count() == b.bomb_count(),
    {
        assert forall|y: int, x: int|
            0 <= y < a.grid().len() && 0 <= x < a.grid()[y].len() implies is_bomb_pred()(#[trigger] a.grid()[y][x])
            == is_bomb_pred()(b.grid()[y][x]) by {
            assert(a.grid()[y][x] == a.cell(x, y));
            assert(b.grid()[y][x] == b.cell(x, y));
        }
        lemma_grid_count_ext(a.grid(), b.grid(), is_bomb_pred(), is_bomb_pred());
    }

    /// Number of cells that could still take a bomb when the first move is `action`.
    pub open spec fn eligible_cells(&self, action: int) -> nat {
        grid_count(self.grid(), eligible_pred(action % self.width as int, action / self.width as int))
    }

    /// Number of bombs on the board.
    pub open spec fn bomb_count(&self) -> nat {
        grid_count(self.grid(), is_bomb_pred())
    }

    /// `after` is `before` with `num_bombs` more bombs, none within one step of the cell
    /// `action` (column `action % width`, row `action / width`), each new bomb shown in the
    /// bomb colour, and every hint recomputed (the contract of `generate_bombs`).
    pub open spec fn bombs_placed(before: &Game, after: &Game, action: int) -> bool {
        &&& after.wf()
        &&& after.hints_correct()
        &&& after.height == before.height
        &&& after.width == before.width
        &&& after.num_bombs == before.num_bombs
        &&& forall|x: int, y: int|
            before.in_bounds(x, y) ==> {
                &&& (#[trigger] after.cell(x, y)).revealed == before.cell(x, y).revealed
                &&& after.cell(x, y).flagged == before.cell(x, y).flagged
                &&& before.cell(x, y).is_bomb ==> after.cell(x, y).is_bomb
                &&& after.cell(x, y).is_bomb && !before.cell(x, y).is_bomb ==> !in_zone(
                    x,
                    y,
                    action % before.width as int,
                    action / before.width as int,
                )
                &&& after.cell(x, y).color == (if after.cell(x, y).is_bomb && !before.cell(x, y).is_bomb {
                    bomb_color()
                } else {
                    before.cell(x, y).color
                })
            }
        &&& after.bomb_count() == before.bomb_count() + before.num_bombs
    }

    /// The cells that may take a bomb when the first move is `action`, in row order.
    pub open spec fn candidates(&self, action: int) -> Seq<(usize, usize)> {
        grid_list(self.grid(), eligible_pred(action % self.width as int, action / self.width as int))
    }

    /// The cells that hold no bomb and are not within one step of the cell `action`
    /// (column `action % width`, row `action / width`), in row order.
    pub fn bomb_candidates(&self, action: usize) -> (cands: Vec<(usize, usize)>)
        requires
            self.wf(),
            self.width > 0,
        ensures
            cands@ == self.candidates(action as int),
            cands@.len() == self.eligible_cells(action as int),
            forall|i: int|
                0 <= i < cands@.len() ==> {
                    &&& self.in_bounds((#[trigger] cands@[i]).0 as int, cands@[i].1 as int)
                    &&& !self.cell(cands@[i].0 as int, cands@[i].1 as int).is_bomb
                    &&& !in_zone(
                        cands@[i].0 as int,
                        cands@[i].1 as int,
                        (action % self.width) as int,
                        (action / self.width) as int,
                    )
                },
            forall|i: int, j: int| 0 <= i < j < cands@.len() ==> cands@[i] != cands@[j],
    {
        let safe_x = action % self.width;
        let safe_y = action / self.width;
        let ghost p = eligible_pred(safe_x as int, safe_y as int);
        let height = self.height;
        let width = self.width;
        let mut cands: Vec<(usize, usize)> = Vec::new();
        for y in 0..height
            invariant
                height == self.height,
                width == self.width,
                self.wf(),
                p == eligible_pred(safe_x as int, safe_y as int),
                cands@.len() == grid_count(self.grid().take(y as int), p),
                cands@ == grid_list(self.grid().take(y as int), p),
                forall|i: int|
                    0 <= i < cands@.len() ==> {
                        &&& self.in_bounds((#[trigger] cands@[i]).0 as int, cands@[i].1 as int)
                        &&& !self.cell(cands@[i].0 as int, cands@[i].1 as int).is_bomb
                        &&& !in_zone(cands@[i].0 as int, cands@[i].1 as int, safe_x as int, safe_y as int)
                        &&& cands@[i].1 < y
                    },
                forall|i: int, j: int| 0 <= i < j < cands@.len() ==> cands@[i] != cands@[j],
        {
            for x in 0..width
                invariant
                    height == self.height,
                    width == self.width,
                    y < height,
                    self.wf(),
                    p == eligible_pred(safe_x as int, safe_y as int),
                    cands@.len() == grid_count(self.grid().take(y as int), p) + row_count(
                        self.grid()[y as int].take(x as int),
                        p,
                    ),
                    cands@ == grid_list(self.grid().take(y as int), p) + row_list(
                        self.grid()[y as int].take(x as int),
                        p,
                    ),
                    forall|i: int|
                        0 <= i < cands@.len() ==> {
                            &&& self.in_bounds((#[trigger] cands@[i]).0 as int, cands@[i].1 as int)
                            &&& !self.cell(cands@[i].0 as int, cands@[i].1 as int).is_bomb
                            &&& !in_zone(cands@[i].0 as int, cands@[i].1 as int, safe_x as int, safe_y as int)
                            &&& (cands@[i].1 < y || (cands@[i].1 == y && cands@[i].0 < x))
                        },
                    forall|i: int, j: int| 0 <= i < j < cands@.len() ==> cands@[i] != cands@[j],
            {
                let ghost row = self.grid()[y as int];
                let ghost before = cands@;
                assert(row.take(x + 1).drop_last() =~= row.take(x as int));
                assert(row[x as int] == self.cell(x as int, y as int));
                assert(row.take(x + 1).last() == row[x as int]);
                let c = self.get_cell(x, y);
                if !c.is_bomb && !too_close(x, y, safe_x, safe_y) {
                    cands.push((x, y));
                    assert(cands@ =~= before + seq![(x, y)]);
                } else {
                    assert(before + Seq::<(usize, usize)>::empty() =~= before);
                }
            }
            proof {
                let row = self.grid()[y as int];
                assert(row.take(width as int) =~= row);
                assert(self.grid().take(y + 1).drop_last() =~= self.grid().take(y as int));
            }
        }
        assert(self.grid().take(height as int) =~= self.grid());
        cands
    }

    /// `after` is `before` with a bomb added on each cell of `picked` (nothing else about the
    /// bombs changes), each new bomb shown in the bomb colour, the revealed and flagged marks
    /// kept, and every hint recomputed.
    pub open spec fn bombs_added(before: &Game, after: &Game, picked: Seq<(usize, usize)>) -> bool {
        &&& after.wf()
        &&& after.hints_correct()
        &&& after.height == before.height
        &&& after.width == before.width
        &&& after.num_bombs == before.num_bombs
        &&& forall|x: int, y: int|
            before.in_bounds(x, y) ==> {
                &&& (#[trigger] after.cell(x, y)).revealed == before.cell(x, y).revealed
                &&& after.cell(x, y).flagged == before.cell(x, y).flagged
                &&& after.cell(x, y).is_bomb == (before.cell(x, y).is_bomb || picked.contains(
                    (x as usize, y as usize),
                ))
                &&& after.cell(x, y).color == (if after.cell(x, y).is_bomb && !before.cell(x, y).is_bomb {
                    bomb_color()
                } else {
                    before.cell(x, y).color
                })
            }
    }

    /// Puts a bomb on the cells drawn from `cands` by `picks`: draw `j` takes the cell at index
    /// `picks[j]` of what is left, the last cell left moving into its place
    /// (see `picked_cells`); then recomputes every hint.
    pub fn place_bombs(&mut self, cands: Vec<(usize, usize)>, picks: &Vec<usize>)
        requires
            old(self).wf(),
            old(self).fits_offsets(),
            forall|i: int|
                0 <= i < cands@.len() ==> {
                    &&& old(self).in_bounds((#[trigger] cands@[i]).0 as int, cands@[i].1 as int)
                    &&& !old(self).cell(cands@[i].0 as int, cands@[i].1 as int).is_bomb
                },
            forall|i: int, j: int| 0 <= i < j < cands@.len() ==> cands@[i] != cands@[j],
            valid_picks(cands@.len(), picks@),
        ensures
            Game::bombs_added(old(self), final(self), picked_cells(cands@, picks@, picks@.len())),
            final(self).same_shape(old(self)),
            final(self).bomb_count() == old(self).bomb_count() + picks@.len(),
            forall|x: int, y: int|
                old(self).in_bounds(x, y) && (#[trigger] final(self).cell(x, y)).is_bomb && !old(self).cell(
                    x,
                    y,
                ).is_bomb ==> cands@.contains((x as usize, y as usize)),
    {
        let ghost g0 = *self;
        let ghost c0 = cands@;
        let mut cands = cands;
        let n = picks.len();
        for j in 0..n
            invariant
                n == picks@.len(),
                valid_picks(c0.len(), picks@),
                g0.wf(),
                self.wf(),
                self.fits_offsets(),
                self.same_shape(&g0),
                cands@ == remaining_after(c0, picks@, j as nat),
                cands@.len() == c0.len() - j,
                forall|i: int|
                    0 <= i < cands@.len() ==> {
                        &&& self.in_bounds((#[trigger] cands@[i]).0 as int, cands@[i].1 as int)
                        &&& !self.cell(cands@[i].0 as int, cands@[i].1 as int).is_bomb
                        &&& c0.contains(cands@[i])
                    },
                forall|i: int, k: int| 0 <= i < k < cands@.len() ==> cands@[i] != cands@[k],
                forall|x: int, y: int|
                    g0.in_bounds(x, y) ==> {
                        &&& same_but_bomb(g0.cell(x, y), #[trigger] self.cell(x, y))
                        &&& self.cell(x, y).is_bomb == (g0.cell(x, y).is_bomb || picked_cells(c0, picks@, j as nat).contains(
                            (x as usize, y as usize),
                        ))
                        &&& self.cell(x, y).is_bomb && !g0.cell(x, y).is_bomb ==> c0.contains((x as usize, y as usize))
                        &&& self.cell(x, y).color == (if self.cell(x, y).is_bomb && !g0.cell(x, y).is_bomb {
                            bomb_color()
                        } else {
                            g0.cell(x, y).color
                        })
                    },
                self.bomb_count() == g0.bomb_count() + j,
        {
            let k = picks[j];
            let ghost before = cands@;
            let ghost picked_before = picked_cells(c0, picks@, j as nat);
            let (x, y) = cands.swap_remove(k);
            proof {
                assert(cands@ == remaining_after(c0, picks@, (j + 1) as nat));
                assert(picked_cells(c0, picks@, (j + 1) as nat) == picked_before.push((x, y)));
                assert forall|i: int| 0 <= i < cands@.len() implies (#[trigger] cands@[i]) != (x, y) && (exists|m: int|
                    0 <= m < before.len() && m != k && before[m] == cands@[i]) by {
                    if i == k {
                        assert(before[before.len() - 1] == cands@[i]);
                    } else {
                        assert(before[i] == cands@[i]);
                    }
                }
                assert forall|i: int, m: int| 0 <= i < m < cands@.len() implies cands@[i] != cands@[m] by {
                    if m == k {
                        assert(cands@[m] == before[before.len() - 1]);
                        assert(cands@[i] == before[i]);
                    } else if i == k {
                        assert(cands@[i] == before[before.len() - 1]);
                        assert(cands@[m] == before[m]);
                    } else {
                        assert(cands@[i] == before[i]);
                        assert(cands@[m] == before[m]);
                    }
                }
            }
            let ghost g1 = *self;
            let mut c = self.map[y][x];
            assert(c == g1.cell(x as int, y as int));
            c.is_bomb = true;
            c.color = bomb_rgb();
            self.set_cell(x, y, c);
            proof {
                lemma_grid_count_update(g1.grid(), y as int, x as int, c, is_bomb_pred());
                assert(g1.grid()[y as int][x as int] == g1.cell(x as int, y as int));
                assert(self.wf());
                assert(c0.contains((x, y)));
                let picked_now = picked_cells(c0, picks@, (j + 1) as nat);
                assert forall|xx: int, yy: int| g0.in_bounds(xx, yy) implies (#[trigger] self.cell(xx, yy)).is_bomb == (
                g0.cell(xx, yy).is_bomb || picked_now.contains((xx as usize, yy as usize))) by {
                    if xx == x && yy == y {
                        assert(picked_now[picked_now.len() - 1] == (x, y));
                    } else {
                        assert(self.cell(xx, yy) == g1.cell(xx, yy));
                        if picked_now.contains((xx as usize, yy as usize)) {
                            let m = choose|m: int| 0 <= m < picked_now.len() && picked_now[m] == (xx as usize, yy as usize);
                            assert(m < picked_before.len());
                            assert(picked_before[m] == picked_now[m]);
                        }
                        if picked_before.contains((xx as usize, yy as usize)) {
                            let m = choose|m: int| 0 <= m < picked_before.len() && picked_before[m] == (xx as usize, yy as usize);
                            assert(picked_now[m] == picked_before[m]);
                        }
                    }
                }
                assert forall|i: int| 0 <= i < cands@.len() implies c0.contains(#[trigger] cands@[i]) by {
                    let m = choose|m: int| 0 <= m < before.len() && m != k && before[m] == cands@[i];
                    assert(c0.contains(before[m]));
                }
            }
        }
        let ghost g2 = *self;
        self.recalculate_hints();
        proof {
            Game::lemma_same_bombs_same_count(self, &g2);
        }
    }

    /// Places `num_bombs` new bombs, chosen at random among the cells that hold none and
    /// are not within one step of the cell `action` (column `action % width`, row
    /// `action / width`), then recomputes every hint.
    pub fn generate_bombs(&mut self, action: usize)
        requires
            old(self).wf(),
            old(self).fits_offsets(),
            old(self).eligible_cells(action as int) >= old(self).num_bombs,
        ensures
            Game::bombs_placed(old(self), final(self), action as int),
            final(self).same_shape(old(self)),
            exists|picks: Seq<usize>|
                picks.len() == old(self).num_bombs && valid_picks(old(self).candidates(action as int).len(), picks)
                    && #[trigger] Game::bombs_added(
                    old(self),
                    final(self),
                    picked_cells(old(self).candidates(action as int), picks, picks.len()),
                ),
    {
        let ghost g0 = *self;
        let cands = self.bomb_candidates(action);
        let ghost c0 = cands@;
        let draws = draw_picks(cands.len(), self.num_bombs);
        let picks = drawn_values(&draws);
        self.place_bombs(cands, &picks);
        proof {
            assert forall|x: int, y: int| g0.in_bounds(x, y) && (#[trigger] self.cell(x, y)).is_bomb && !g0.cell(x, y).is_bomb implies !in_zone(
                x,
                y,
                (action % g0.width) as int,
                (action / g0.width) as int,
            ) by {
                assert(c0.contains((x as usize, y as usize)));
                let i = choose|i: int| 0 <= i < c0.len() && c0[i] == (x as usize, y as usize);
                assert(c0[i] == (x as usize, y as usize));
            }
            assert(Game::bombs_added(&g0, self, picked_cells(c0, picks@, picks@.len())));
        }
    }
}


pub open spec fn safe_revealed_pred() -> spec_fn(Cell) -> bool {
    |c: Cell| !c.is_bomb && c.revealed
}

pub open spec fn bomb_flagged_pred() -> spec_fn(Cell) -> bool {
    |c: Cell| c.is_bomb && c.flagged
}

pub open spec fn hidden_safe_pred() -> spec_fn(Cell) -> bool {
    |c: Cell| !c.is_bomb && !c.revealed
}

pub open spec fn not_safe_revealed_pred() -> spec_fn(Cell) -> bool {
    |c: Cell| !(!c.is_bomb && c.revealed)
}

impl Game {
    /// Number of hidden safe cells.
    pub open spec fn safe_hidden(&self) -> nat {
        grid_count(self.grid(), hidden_safe_pred())
    }

    /// Every cell is a revealed safe cell, a hidden safe cell or a bomb.
    pub proof fn lemma_cells_partition(&self)
        requires
            self.wf(),
        ensures
            self.safe_opened() + self.safe_hidden() + self.bomb_count() == self.height * self.width,
    {
        let g = self.grid();
        lemma_grid_count_complement(g, safe_revealed_pred(), not_safe_revealed_pred());
        lemma_grid_count_split(g, is_bomb_pred(), hidden_safe_pred(), not_safe_revealed_pred());
        assert forall|y: int| 0 <= y < g.len() implies (#[trigger] g[y]).len() == self.width by {}
        lemma_cell_total_uniform(g, self.width as nat);
        assert(self.height * self.width == self.width * self.height) by (nonlinear_arith);
    }

    /// A hidden safe cell at `(x, y)` is counted among the hidden safe cells.
    pub proof fn lemma_hidden_safe_counted(&self, x: int, y: int)
        requires
            self.wf(),
            self.in_bounds(x, y),
            !self.cell(x, y).is_bomb,
            !self.cell(x, y).revealed,
        ensures
            self.safe_hidden() >= 1,
    {
        let g = self.grid();
        assert(g[y][x] == self.cell(x, y));
        lemma_grid_count_positive(g, hidden_safe_pred(), y, x);
    }

    /// With every safe cell revealed there is no hidden safe cell.
    pub proof fn lemma_no_hidden_safe(&self)
        requires
            self.wf(),
            forall|x: int, y: int| self.in_bounds(x, y) && !(#[trigger] self.cell(x, y)).is_bomb ==> self.cell(x, y).revealed,
        ensures
            self.safe_hidden() == 0,
    {
        let g = self.grid();
        assert forall|y: int, x: int| 0 <= y < g.len() && 0 <= x < g[y].len() implies !hidden_safe_pred()(#[trigger] g[y][x]) by {
            assert(g[y][x] == self.cell(x, y));
        }
        lemma_grid_count_none(g, hidden_safe_pred());
    }
}

/// Cells before `(x, y)` in row order on a board `w` wide come before it in a flat index.
pub proof fn lemma_row_major_index(w: int, y: int, x: int, yy: int, xx: int)
    requires
        0 <= x <= w,
        0 <= xx < w,
        0 <= yy,
        yy < y || (yy == y && xx < x),
    ensures
        0 <= yy * w + xx < y * w + x,
{
    if yy < y {
        assert((yy + 1) * w <= y * w) by (nonlinear_arith)
            requires
                yy + 1 <= y,
                0 <= w,
        ;
        assert(yy * w + w == (yy + 1) * w) by (nonlinear_arith);
    }
    assert(0 <= yy * w) by (nonlinear_arith)
        requires
            0 <= yy,
            0 <= w,
    ;
}

pub proof fn lemma_next_row(w: int, y: int)
    ensures
        y * w + w == (y + 1) * w,
{
    assert(y * w + w == (y + 1) * w) by (nonlinear_arith);
}

pub proof fn lemma_below_area(w: int, h: int, y: int, x: int)
    requires
        0 <= y < h,
        0 <= x < w,
    ensures
        y * w + x < h * w,
{
    assert((y + 1) * w <= h * w) by (nonlinear_arith)
        requires
            y + 1 <= h,
            0 <= w,
    ;
    lemma_next_row(w, y);
}

impl Game {
    /// Some bomb has been revealed.
    pub open spec fn bomb_revealed(&self) -> bool {
        exists|x: int, y: int| self.in_bounds(x, y) && #[trigger] self.cell(x, y).is_bomb && self.cell(x, y).revealed
    }

    /// Number of revealed safe cells.
    pub open spec fn safe_opened(&self) -> nat {
        grid_count(self.grid(), safe_revealed_pred())
    }

    /// Number of flagged bombs.
    pub open spec fn bombs_flagged(&self) -> nat {
        grid_count(self.grid(), bomb_flagged_pred())
    }

    /// The game is lost once a bomb is revealed, and won once every safe cell is
    /// revealed or every bomb is flagged; until then it goes on.
    pub open spec fn outcome_state(&self) -> Option<bool> {
        if self.bomb_revealed() {
            Some(false)
        } else if self.safe_opened() == self.height * self.width - self.num_bombs || self.bombs_flagged()
            == self.num_bombs {
            Some(true)
        } else {
            None
        }
    }

    /// The board's cell count fits in a `usize`.
    pub open spec fn area_fits(&self) -> bool {
        self.height * self.width <= usize::MAX
    }

    /// `Some(false)` when a bomb is revealed, `Some(true)` when the game is won, `None` otherwise.
    pub fn check_win(&self) -> (res: Option<bool>)
        requires
            self.wf(),
            self.height > 0,
            self.area_fits(),
            self.num_bombs <= self.height * self.width,
        ensures
            res == self.outcome_state(),
            res == Some(true) && self.num_bombs <= self.bomb_count() ==> self.bombs_flagged() == self.num_bombs
                || forall|x: int, y: int|
                self.in_bounds(x, y) && !(#[trigger] self.cell(x, y)).is_bomb ==> self.cell(x, y).revealed,
    {
        proof {
            if self.num_bombs <= self.bomb_count() && self.bombs_flagged() != self.num_bombs && exists|x: int, y: int|
                self.in_bounds(x, y) && !(#[trigger] self.cell(x, y)).is_bomb && !self.cell(x, y).revealed {
                let (x, y) = choose|x: int, y: int|
                    self.in_bounds(x, y) && !(#[trigger] self.cell(x, y)).is_bomb && !self.cell(x, y).revealed;
                crate::properties::hidden_safe_cell_blocks_win(self, x, y);
            }
        }
        let mut safe_opened: usize = 0;
        let num_safe_cells = (self.map.len() * self.map[0].len()) - self.num_bombs;
        let mut not_safe_flagged: usize = 0;
        let height = self.map.len();
        let width = self.width;
        let ghost ps = safe_revealed_pred();
        let ghost pf = bomb_flagged_pred();
        for y in 0..height
            invariant
                self.wf(),
                height == self.height,
                width == self.width,
                self.area_fits(),
                num_safe_cells == self.height * self.width - self.num_bombs,
                ps == safe_revealed_pred(),
                pf == bomb_flagged_pred(),
                safe_opened == grid_count(self.grid().take(y as int), ps),
                not_safe_flagged == grid_count(self.grid().take(y as int), pf),
                safe_opened <= y * width,
                not_safe_flagged <= y * width,
                forall|xx: int, yy: int|
                    0 <= yy < y && 0 <= xx < width ==> !(#[trigger] self.cell(xx, yy).is_bomb && self.cell(
                        xx,
                        yy,
                    ).revealed),
        {
            let row = &self.map[y];
            for x in 0..width
                invariant
                    self.wf(),
                    height == self.height,
                    width == self.width,
                    y < height,
                    *row == self.map@[y as int],
                    self.area_fits(),
                    ps == safe_revealed_pred(),
                    pf == bomb_flagged_pred(),
                    safe_opened == grid_count(self.grid().take(y as int), ps) + row_count(
                        self.grid()[y as int].take(x as int),
                        ps,
                    ),
                    not_safe_flagged == grid_count(self.grid().take(y as int), pf) + row_count(
                        self.grid()[y as int].take(x as int),
                        pf,
                    ),
                    safe_opened <= y * width + x,
                    not_safe_flagged <= y * width + x,
                    forall|xx: int, yy: int|
                        ((0 <= yy < y && 0 <= xx < width) || (yy == y && 0 <= xx < x)) ==> !(
                        #[trigger] self.cell(xx, yy).is_bomb && self.cell(xx, yy).revealed),
            {
                let ghost grow = self.grid()[y as int];
                proof {
                    assert(grow.take(x + 1).drop_last() =~= grow.take(x as int));
                    assert(grow[x as int] == self.cell(x as int, y as int));
                    lemma_below_area(width as int, height as int, y as int, x as int);
                }
                let cell = &row[x];
                if cell.is_bomb && cell.revealed {
                    proof {
                        assert(self.cell(x as int, y as int).is_bomb && self.cell(x as int, y as int).revealed);
                    }
                    return Some(false);
                }
                if !cell.is_bomb && cell.revealed {
                    safe_opened += 1;
                }
                if cell.is_bomb && cell.flagged {
                    not_safe_flagged += 1;
                }
            }
            proof {
                let grow = self.grid()[y as int];
                assert(grow.take(width as int) =~= grow);
                assert(self.grid().take(y + 1).drop_last() =~= self.grid().take(y as int));
                lemma_next_row(width as int, y as int);
            }
        }
        proof {
            assert(self.grid().take(height as int) =~= self.grid());
            assert(!self.bomb_revealed());
        }
        if (safe_opened == num_safe_cells) || (not_safe_flagged == self.num_bombs) {
            return Some(true);
        }
        None
    }
}


impl Game {
    /// Hints stay right when bombs and hints stay where they are.
    pub proof fn lemma_hints_kept(a: &Game, b: &Game)
        requires
            a.hints_correct(),
            a.width == b.width,
            a.height == b.height,
            forall|x: int, y: int|
                a.in_bounds(x, y) ==> (#[trigger] b.cell(x, y)).is_bomb == a.cell(x, y).is_bomb && b.cell(x, y).nearby_bombs
                    == a.cell(x, y).nearby_bombs,
        ensures
            b.hints_correct(),
    {
        assert forall|x: int, y: int| b.in_bounds(x, y) && !(#[trigger] b.cell(x, y)).is_bomb implies b.cell(x, y).nearby_bombs
            == b.bomb_neighbours(x, y) by {
            assert forall|xx: int, yy: int| a.in_bounds(xx, yy) implies (#[trigger] a.cell(xx, yy)).is_bomb == b.cell(xx, yy).is_bomb by {
                assert(b.cell(xx, yy).is_bomb == a.cell(xx, yy).is_bomb);
            }
            Game::lemma_same_bombs_same_neighbours(a, b, x, y, 8);
            assert(!a.cell(x, y).is_bomb);
        }
    }

    /// Revealing `(x, y)` stays within the machine's limits: a move on a hidden, unflagged,
    /// safe cell counts the board's safe cells, so the board's cell count must fit and hold
    /// the bombs; one that floods works on 16-bit coordinates.
    pub open spec fn can_reveal(&self, x: int, y: int) -> bool {
        let c = self.cell(x, y);
        &&& !(c.flagged || c.revealed) && !c.is_bomb ==> self.area_fits() && self.num_bombs <= self.height
            * self.width
        &&& !(c.flagged || c.revealed) && self.expands(x, y) ==> self.fits_offsets()
    }

    /// What playing `action` on `before` does, leaving `after` and reporting `outcome`
    /// (the contract of `apply_action`).
    pub open spec fn move_effect(before: &Game, after: &Game, action: Action, outcome: ActionOutcome) -> bool {
        match action {
            Action::Reveal(x, y) => {
                let c = before.cell(x as int, y as int);
                let invalid = c.flagged || c.revealed;
                &&& (outcome == ActionOutcome::Invalid) == invalid
                &&& invalid ==> *after == *before
                &&& !invalid ==> {
                    &&& after.wf()
                    &&& after.same_shape(before)
                    &&& forall|xx: int, yy: int|
                        before.in_bounds(xx, yy) ==> {
                            &&& same_but_revealed(before.cell(xx, yy), #[trigger] after.cell(xx, yy))
                            &&& after.cell(xx, yy).revealed == (before.cell(xx, yy).revealed || (xx == x
                                && yy == y) || (!c.is_bomb && c.nearby_bombs == 0 && before.in_flood(
                                x as int,
                                y as int,
                                xx,
                                yy,
                            )))
                        }
                }
                &&& (outcome == ActionOutcome::HitBomb) == (!invalid && c.is_bomb)
                &&& (outcome == ActionOutcome::Win) == (!invalid && !c.is_bomb && after.outcome_state()
                    == Some(true))
                &&& outcome matches ActionOutcome::RevealCell(n) ==> {
                    &&& c.nearby_bombs != 0 ==> n == 0
                    &&& c.nearby_bombs == 0 ==> {
                        &&& exists|len: nat|
                            #![trigger before.flood_length(before.flood_start(x as int, y as int), len)]
                            before.flood_length(before.flood_start(x as int, y as int), len) && n == (if 1 + len
                                < COUNT_LIMIT {
                                1 + len as int
                            } else {
                                COUNT_LIMIT as int
                            })
                        &&& 2 <= n <= COUNT_LIMIT
                        &&& n as int >= {
                            let opened = before.hidden_count() - after.hidden_count();
                            if opened < COUNT_LIMIT {
                                opened
                            } else {
                                COUNT_LIMIT as int
                            }
                        }
                    }
                }
                &&& before.hints_correct() ==> after.hints_correct()
            },
        }
    }

    /// Plays `action`. Revealing a flagged or already revealed cell is invalid and changes
    /// nothing. Otherwise the cell is revealed; a bomb ends the game; a cell with no bomb
    /// around it also opens its flood (`reveal_non_zero`). A move that leaves the board won
    /// (`outcome_state`) is a win.
    pub fn apply_action(&mut self, action: Action) -> (outcome: ActionOutcome)
        requires
            old(self).wf(),
            match action {
                Action::Reveal(x, y) => old(self).in_bounds(x as int, y as int) && old(self).can_reveal(
                    x as int,
                    y as int,
                ),
            },
        ensures
            Game::move_effect(old(self), final(self), action, outcome),
    {
        match action {
            Action::Reveal(x, y) => {
                let ghost g0 = *self;
                let mut cell = *self.get_cell(x, y);
                let mut cells_revealed: u32 = 0;
                if cell.flagged || cell.revealed {
                    return ActionOutcome::Invalid;
                }
                cell.revealed = true;
                self.set_cell(x, y, cell);
                let ghost g1 = *self;
                proof {
                    lemma_grid_count_update(g0.grid(), y as int, x as int, cell, unrevealed_pred());
                    assert(g0.grid()[y as int][x as int] == g0.cell(x as int, y as int));
                    assert forall|xx: int, yy: int| g0.in_bounds(xx, yy) implies same_but_revealed(
                        g0.cell(xx, yy),
                        #[trigger] g1.cell(xx, yy),
                    ) && g1.cell(xx, yy).revealed == (g0.cell(xx, yy).revealed || (xx == x && yy == y)) by {
                        if xx != x || yy != y {
                            assert(g1.cell(xx, yy) == g0.cell(xx, yy));
                        }
                    }
                    if g0.hints_correct() {
                        Game::lemma_hints_kept(&g0, &g1);
                    }
                }
                if cell.is_bomb {
                    return ActionOutcome::HitBomb;
                }
                if cell.nearby_bombs == 0 {
                    cells_revealed = self.reveal_non_zero(x, y);
                    proof {
                        let len = choose|len: nat|
                            #![trigger g1.flood_length(g1.flood_start(x as int, y as int), len)]
                            g1.flood_length(g1.flood_start(x as int, y as int), len) && cells_revealed == (if 1 + len
                                < COUNT_LIMIT {
                                1 + len as int
                            } else {
                                COUNT_LIMIT as int
                            });
                        let s0 = g0.flood_start(x as int, y as int);
                        assert(g1.flood_start(x as int, y as int).0 =~= s0.0);
                        assert(g1.flood_start(x as int, y as int) == s0);
                        Game::lemma_flood_same_board(&g0, &g1, s0, len);
                        assert forall|j: nat| j < len implies #[trigger] g0.flood_iter(s0, j).1.len() > 0 by {
                            Game::lemma_flood_same_board(&g0, &g1, s0, j);
                            assert(g1.flood_iter(s0, j).1.len() > 0);
                        }
                        assert(g0.flood_length(s0, len));
                        assert(g1.expands(x as int, y as int));
                        assert forall|xx: int, yy: int| g0.in_bounds(xx, yy) implies g0.in_flood(
                            x as int,
                            y as int,
                            xx,
                            yy,
                        ) == g1.in_flood(x as int, y as int, xx, yy) by {
                            if g0.in_flood(x as int, y as int, xx, yy) {
                                let path = choose|path: Seq<(int, int)>| #[trigger]
                                    g0.flood_path(x as int, y as int, path) && path.last() == (xx, yy);
                                Game::lemma_flood_reroot(&g0, &g1, x as int, y as int, path);
                            }
                            if g1.in_flood(x as int, y as int, xx, yy) {
                                let path = choose|path: Seq<(int, int)>| #[trigger]
                                    g1.flood_path(x as int, y as int, path) && path.last() == (xx, yy);
                                Game::lemma_flood_path_back(&g0, &g1, x as int, y as int, path);
                            }
                        }
                        if g0.hints_correct() {
                            Game::lemma_hints_kept(&g1, self);
                        }
                    }
                }
                match self.check_win() {
                    Some(win) => {
                        if win {
                            return ActionOutcome::Win;
                        }
                    },
                    None => {},
                }
                ActionOutcome::RevealCell(cells_revealed)
            },
        }
    }
}


impl Game {
    /// The board as seen by the agent (see `Observation::observes`).
    pub fn to_observation(&self) -> (obs: Observation)
        requires
            self.wf(),
            self.height > 0,
            self.area_fits(),
        ensures
            obs.observes(self),
    {
        let width = self.map[0].len();
        let height = self.map.len();
        assert(width * height == height * width) by (nonlinear_arith);
        assert(0 * width == 0);
        let mut hidden: Vec<i8> = Vec::with_capacity(width * height);
        let mut revealed: Vec<i8> = Vec::with_capacity(width * height);
        let mut hints: Vec<i8> = Vec::with_capacity(width * height);
        for y in 0..height
            invariant
                self.wf(),
                self.area_fits(),
                width == self.width,
                height == self.height,
                hidden@.len() == y * width,
                revealed@.len() == y * width,
                hints@.len() == y * width,
                forall|xx: int, yy: int|
                    0 <= yy < y && 0 <= xx < width ==> {
                        &&& hidden@[yy * width + xx] == hidden_value(#[trigger] self.cell(xx, yy))
                        &&& revealed@[yy * width + xx] == revealed_value(self.cell(xx, yy))
                        &&& hints@[yy * width + xx] == hint_value(self.cell(xx, yy))
                    },
        {
            let row = &self.map[y];
            for x in 0..width
                invariant
                    self.wf(),
                    self.area_fits(),
                    width == self.width,
                    height == self.height,
                    y < height,
                    *row == self.map@[y as int],
                    hidden@.len() == y * width + x,
                    revealed@.len() == y * width + x,
                    hints@.len() == y * width + x,
                    forall|xx: int, yy: int|
                        ((0 <= yy < y && 0 <= xx < width) || (yy == y && 0 <= xx < x)) ==> {
                            &&& hidden@[yy * width + xx] == hidden_value(#[trigger] self.cell(xx, yy))
                            &&& revealed@[yy * width + xx] == revealed_value(self.cell(xx, yy))
                            &&& hints@[yy * width + xx] == hint_value(self.cell(xx, yy))
                        },
            {
                let cell = &row[x];
                assert(*cell == self.cell(x as int, y as int));
                proof {
                    lemma_below_area(width as int, height as int, y as int, x as int);
                }
                hidden.push(if cell.revealed { 0 } else { 1 });
                revealed.push(if cell.revealed { 1 } else { 0 });
                hints.push(if cell.revealed { cell.nearby_bombs as i8 } else { -1 });
                proof {
                    assert forall|xx: int, yy: int|
                        ((0 <= yy < y && 0 <= xx < width) || (yy == y && 0 <= xx < x + 1)) implies {
                            &&& hidden@[yy * width + xx] == hidden_value(#[trigger] self.cell(xx, yy))
                            &&& revealed@[yy * width + xx] == revealed_value(self.cell(xx, yy))
                            &&& hints@[yy * width + xx] == hint_value(self.cell(xx, yy))
                        } by {
                        if yy == y && xx == x {
                        } else {
                            lemma_row_major_index(width as int, y as int, x as int, yy, xx);
                        }
                    }
                }
            }
            proof {
                lemma_next_row(width as int, y as int);
            }
        }
        Observation { hidden, revealed, hints, height, width }
    }
}


pub open spec fn zone_pred(sx: int, sy: int) -> spec_fn(Cell) -> bool {
    |c: Cell| in_zone(c.x as int, c.y as int, sx, sy)
}

pub open spec fn outside_zone_pred(sx: int, sy: int) -> spec_fn(Cell) -> bool {
    |c: Cell| !in_zone(c.x as int, c.y as int, sx, sy)
}

impl Game {
    /// No cell holds a bomb.
    pub open spec fn bomb_free(&self) -> bool {
        forall|x: int, y: int| self.in_bounds(x, y) ==> !(#[trigger] self.cell(x, y)).is_bomb
    }

    /// Whatever the first move, `generate_bombs` finds room for all the bombs.
    pub open spec fn can_place_bombs(&self) -> bool {
        forall|a: int| 0 <= a < self.width * self.height ==> #[trigger] self.eligible_cells(a) >= self.num_bombs
    }

    /// Number of cells of the board within one step of the first move `a`
    /// (column `a % width`, row `a / width`).
    pub open spec fn zone_size(&self, a: int) -> int {
        band(self.width as int, a % self.width as int) * band(self.height as int, a / self.width as int)
    }

    /// Whatever the first move, the board has room for its bombs outside the cells within
    /// one step of it.
    pub open spec fn room_for_bombs(&self) -> bool {
        forall|a: int|
            0 <= a < self.width * self.height ==> self.num_bombs + #[trigger] self.zone_size(a) <= self.width
                * self.height
    }

    /// Room for the bombs depends only on the board's size and bomb budget.
    pub proof fn lemma_room_same_size(a: &Game, b: &Game)
        requires
            a.room_for_bombs(),
            a.width == b.width,
            a.height == b.height,
            a.num_bombs == b.num_bombs,
        ensures
            b.room_for_bombs(),
    {
        assert forall|k: int| 0 <= k < b.width * b.height implies b.num_bombs + #[trigger] b.zone_size(k) <= b.width
            * b.height by {
            assert(a.zone_size(k) == b.zone_size(k));
        }
    }

    /// At most nine cells lie within one step of any first move.
    pub proof fn lemma_zone_at_most_nine(&self, a: int)
        ensures
            0 <= self.zone_size(a) <= 9,
    {
        let bx = band(self.width as int, a % self.width as int);
        let by = band(self.height as int, a / self.width as int);
        lemma_band_at_most_three(self.width as int, a % self.width as int);
        lemma_band_at_most_three(self.height as int, a / self.width as int);
        assert(0 <= bx * by <= 9) by (nonlinear_arith)
            requires
                0 <= bx <= 3,
                0 <= by <= 3,
        ;
    }

    /// A board without bombs that has room for its bombs away from any first move can
    /// take its bombs after any first move.
    pub proof fn lemma_bomb_free_can_place(&self)
        requires
            self.wf(),
            self.width > 0,
            self.bomb_free(),
            self.room_for_bombs(),
        ensures
            self.can_place_bombs(),
    {
        assert forall|a: int| 0 <= a < self.width * self.height implies #[trigger] self.eligible_cells(a) >= self.num_bombs by {
            let sx = a % self.width as int;
            let sy = a / self.width as int;
            let g = self.grid();
            assert forall|y: int, x: int|
                0 <= y < g.len() && 0 <= x < g[y].len() implies eligible_pred(sx, sy)(#[trigger] g[y][x])
                == outside_zone_pred(sx, sy)(g[y][x]) by {
                assert(g[y][x] == self.cell(x, y));
            }
            lemma_grid_count_ext(g, g, eligible_pred(sx, sy), outside_zone_pred(sx, sy));
            lemma_grid_count_complement(g, zone_pred(sx, sy), outside_zone_pred(sx, sy));
            assert forall|y: int| 0 <= y < g.len() implies (#[trigger] g[y]).len() == self.width by {}
            lemma_cell_total_uniform(g, self.width as nat);
            assert forall|y: int, x: int|
                0 <= y < g.len() && 0 <= x < g[y].len() implies (#[trigger] g[y][x]).x == x && g[y][x].y == y by {
                assert(g[y][x] == self.cell(x, y));
            }
            lemma_grid_zone(g, self.width as nat, sx, sy, zone_pred(sx, sy));
            assert(self.num_bombs + self.zone_size(a) <= self.width * self.height);
        }
    }
}

} // verus!
