//! Counting the cells of a board that satisfy a predicate, row by row.
use vstd::prelude::*;

use crate::game::Cell;

verus! {

/// Number of cells in `row` that satisfy `p`.
pub open spec fn row_count(row: Seq<Cell>, p: spec_fn(Cell) -> bool) -> nat
    decreases row.len(),
{
    if row.len() == 0 {
        0
    } else {
        row_count(row.drop_last(), p) + if p(row.last()) { 1nat } else { 0nat }
    }
}

/// Number of cells in all of `rows` that satisfy `p`.
pub open spec fn grid_count(rows: Seq<Seq<Cell>>, p: spec_fn(Cell) -> bool) -> nat
    decreases rows.len(),
{
    if rows.len() == 0 {
        0
    } else {
        grid_count(rows.drop_last(), p) + row_count(rows.last(), p)
    }
}

pub open spec fn indicator(b: bool) -> int {
    if b { 1 } else { 0 }
}

/// Replacing one cell changes the count by what the predicate says of the old and new cell.
pub proof fn lemma_row_count_update(row: Seq<Cell>, i: int, c: Cell, p: spec_fn(Cell) -> bool)
    requires
        0 <= i < row.len(),
    ensures
        row_count(row.update(i, c), p) == row_count(row, p) - indicator(p(row[i])) + indicator(p(c)),
    decreases row.len(),
{
    let r2 = row.update(i, c);
    if i == row.len() - 1 {
        assert(r2.drop_last() =~= row.drop_last());
    } else {
        lemma_row_count_update(row.drop_last(), i, c, p);
        assert(r2.drop_last() =~= row.drop_last().update(i, c));
    }
}

pub proof fn lemma_grid_count_update(
    rows: Seq<Seq<Cell>>,
    y: int,
    x: int,
    c: Cell,
    p: spec_fn(Cell) -> bool,
)
    requires
        0 <= y < rows.len(),
        0 <= x < rows[y].len(),
    ensures
        grid_count(rows.update(y, rows[y].update(x, c)), p) == grid_count(rows, p) - indicator(
            p(rows[y][x]),
        ) + indicator(p(c)),
    decreases rows.len(),
{
    let r2 = rows.update(y, rows[y].update(x, c));
    lemma_row_count_update(rows[y], x, c, p);
    if y == rows.len() - 1 {
        assert(r2.drop_last() =~= rows.drop_last());
    } else {
        lemma_grid_count_update(rows.drop_last(), y, x, c, p);
        assert(r2.drop_last() =~= rows.drop_last().update(y, rows[y].update(x, c)));
    }
}

/// Two rows of one length whose cells agree position by position under `p` and `q` have equal counts.
pub proof fn lemma_row_count_ext(r1: Seq<Cell>, r2: Seq<Cell>, p: spec_fn(Cell) -> bool, q: spec_fn(Cell) -> bool)
    requires
        r1.len() == r2.len(),
        forall|i: int| 0 <= i < r1.len() ==> p(#[trigger] r1[i]) == q(r2[i]),
    ensures
        row_count(r1, p) == row_count(r2, q),
    decreases r1.len(),
{
    if r1.len() > 0 {
        lemma_row_count_ext(r1.drop_last(), r2.drop_last(), p, q);
        assert(p(r1[r1.len() - 1]) == q(r2[r1.len() - 1]));
    }
}

pub proof fn lemma_grid_count_ext(
    g1: Seq<Seq<Cell>>,
    g2: Seq<Seq<Cell>>,
    p: spec_fn(Cell) -> bool,
    q: spec_fn(Cell) -> bool,
)
    requires
        g1.len() == g2.len(),
        forall|y: int| 0 <= y < g1.len() ==> (#[trigger] g1[y]).len() == g2[y].len(),
        forall|y: int, x: int|
            0 <= y < g1.len() && 0 <= x < g1[y].len() ==> p(#[trigger] g1[y][x]) == q(g2[y][x]),
    ensures
        grid_count(g1, p) == grid_count(g2, q),
    decreases g1.len(),
{
    if g1.len() > 0 {
        let n = g1.len() - 1;
        assert forall|i: int| 0 <= i < g1[n].len() implies p(#[trigger] g1[n][i]) == q(g2[n][i]) by {
            assert(p(g1[n][i]) == q(g2[n][i]));
        }
        lemma_row_count_ext(g1[n], g2[n], p, q);
        lemma_grid_count_ext(g1.drop_last(), g2.drop_last(), p, q);
    }
}


/// When `r` holds exactly where one of the disjoint `p` and `q` holds, its count in a row
/// is theirs added.
pub proof fn lemma_row_count_split(
    row: Seq<Cell>,
    p: spec_fn(Cell) -> bool,
    q: spec_fn(Cell) -> bool,
    r: spec_fn(Cell) -> bool,
)
    requires
        forall|c: Cell| #[trigger] r(c) == (p(c) || q(c)),
        forall|c: Cell| !(#[trigger] p(c) && q(c)),
    ensures
        row_count(row, r) == row_count(row, p) + row_count(row, q),
    decreases row.len(),
{
    if row.len() > 0 {
        lemma_row_count_split(row.drop_last(), p, q, r);
        assert(r(row.last()) == (p(row.last()) || q(row.last())));
        assert(!(p(row.last()) && q(row.last())));
    }
}

/// The grid form of `lemma_row_count_split`.
pub proof fn lemma_grid_count_split(
    rows: Seq<Seq<Cell>>,
    p: spec_fn(Cell) -> bool,
    q: spec_fn(Cell) -> bool,
    r: spec_fn(Cell) -> bool,
)
    requires
        forall|c: Cell| #[trigger] r(c) == (p(c) || q(c)),
        forall|c: Cell| !(#[trigger] p(c) && q(c)),
    ensures
        grid_count(rows, r) == grid_count(rows, p) + grid_count(rows, q),
    decreases rows.len(),
{
    if rows.len() > 0 {
        lemma_grid_count_split(rows.drop_last(), p, q, r);
        lemma_row_count_split(rows.last(), p, q, r);
    }
}

/// A row with a cell satisfying `p` counts at least one.
pub proof fn lemma_row_count_positive(row: Seq<Cell>, p: spec_fn(Cell) -> bool, i: int)
    requires
        0 <= i < row.len(),
        p(row[i]),
    ensures
        row_count(row, p) >= 1,
    decreases row.len(),
{
    if i < row.len() - 1 {
        assert(row.drop_last()[i] == row[i]);
        lemma_row_count_positive(row.drop_last(), p, i);
    }
}

/// Rows with a cell satisfying `p` count at least one.
pub proof fn lemma_grid_count_positive(rows: Seq<Seq<Cell>>, p: spec_fn(Cell) -> bool, y: int, x: int)
    requires
        0 <= y < rows.len(),
        0 <= x < rows[y].len(),
        p(rows[y][x]),
    ensures
        grid_count(rows, p) >= 1,
    decreases rows.len(),
{
    if y == rows.len() - 1 {
        lemma_row_count_positive(rows.last(), p, x);
    } else {
        assert(rows.drop_last()[y] == rows[y]);
        lemma_grid_count_positive(rows.drop_last(), p, y, x);
    }
}

/// A row of `row.len()` cells: count of `p` plus count of its negation.
pub proof fn lemma_row_count_complement(row: Seq<Cell>, p: spec_fn(Cell) -> bool, q: spec_fn(Cell) -> bool)
    requires
        forall|c: Cell| #[trigger] q(c) == !p(c),
    ensures
        row_count(row, p) + row_count(row, q) == row.len(),
    decreases row.len(),
{
    if row.len() > 0 {
        lemma_row_count_complement(row.drop_last(), p, q);
        assert(q(row.last()) == !p(row.last()));
    }
}

/// Total cells of `rows`.
pub open spec fn cell_total(rows: Seq<Seq<Cell>>) -> nat
    decreases rows.len(),
{
    if rows.len() == 0 {
        0
    } else {
        cell_total(rows.drop_last()) + rows.last().len()
    }
}

pub proof fn lemma_grid_count_complement(rows: Seq<Seq<Cell>>, p: spec_fn(Cell) -> bool, q: spec_fn(Cell) -> bool)
    requires
        forall|c: Cell| #[trigger] q(c) == !p(c),
    ensures
        grid_count(rows, p) + grid_count(rows, q) == cell_total(rows),
    decreases rows.len(),
{
    if rows.len() > 0 {
        lemma_grid_count_complement(rows.drop_last(), p, q);
        lemma_row_count_complement(rows.last(), p, q);
    }
}

/// Rows of `w` cells each hold `rows.len() * w` cells in all.
pub proof fn lemma_cell_total_uniform(rows: Seq<Seq<Cell>>, w: nat)
    requires
        forall|y: int| 0 <= y < rows.len() ==> (#[trigger] rows[y]).len() == w,
    ensures
        cell_total(rows) == rows.len() * w,
    decreases rows.len(),
{
    if rows.len() > 0 {
        let prev = rows.drop_last();
        assert forall|y: int| 0 <= y < prev.len() implies (#[trigger] prev[y]).len() == w by {
            assert(prev[y] == rows[y]);
        }
        lemma_cell_total_uniform(prev, w);
        assert(rows.last().len() == w);
        assert((rows.len() - 1) * w + w == rows.len() * w) by (nonlinear_arith);
    }
}

/// How many of the integers `0 .. n` lie within one of `s`.
pub open spec fn band(n: int, s: int) -> int
    decreases n,
{
    if n <= 0 {
        0
    } else {
        band(n - 1, s) + indicator(-1 <= n - 1 - s <= 1)
    }
}

pub proof fn lemma_band_at_most_three(n: int, s: int)
    ensures
        0 <= band(n, s) <= 3,
        n <= s - 1 ==> band(n, s) == 0,
        s - 1 <= n <= s + 2 ==> band(n, s) <= n - s + 1,
    decreases n,
{
    if n > 0 {
        lemma_band_at_most_three(n - 1, s);
    }
}

/// A row whose cells stand at columns `0, 1, ...` has at most as many cells within one
/// column of `sx` as `band` says.
pub proof fn lemma_row_zone(row: Seq<Cell>, sx: int, p: spec_fn(Cell) -> bool)
    requires
        forall|i: int| 0 <= i < row.len() ==> (#[trigger] row[i]).x == i,
        forall|c: Cell| #[trigger] p(c) ==> -1 <= c.x - sx <= 1,
    ensures
        row_count(row, p) <= band(row.len() as int, sx),
    decreases row.len(),
{
    if row.len() > 0 {
        let prev = row.drop_last();
        assert forall|i: int| 0 <= i < prev.len() implies (#[trigger] prev[i]).x == i by {
            assert(prev[i] == row[i]);
        }
        lemma_row_zone(prev, sx, p);
        assert(row.last().x == row.len() - 1);
    }
}

/// Rows standing at rows `0, 1, ...`, each of `w` cells at columns `0, 1, ...`, hold at
/// most `band(w, sx) * band(rows.len(), sy)` cells within one step of `(sx, sy)`.
pub proof fn lemma_grid_zone(rows: Seq<Seq<Cell>>, w: nat, sx: int, sy: int, p: spec_fn(Cell) -> bool)
    requires
        forall|y: int| 0 <= y < rows.len() ==> (#[trigger] rows[y]).len() == w,
        forall|y: int, x: int|
            0 <= y < rows.len() && 0 <= x < rows[y].len() ==> (#[trigger] rows[y][x]).x == x && rows[y][x].y == y,
        forall|c: Cell| #[trigger] p(c) ==> -1 <= c.x - sx <= 1 && -1 <= c.y - sy <= 1,
    ensures
        grid_count(rows, p) <= band(w as int, sx) * band(rows.len() as int, sy),
    decreases rows.len(),
{
    lemma_band_at_most_three(w as int, sx);
    lemma_band_at_most_three(rows.len() as int, sy);
    if rows.len() > 0 {
        let prev = rows.drop_last();
        assert forall|y: int| 0 <= y < prev.len() implies (#[trigger] prev[y]).len() == w by {
            assert(prev[y] == rows[y]);
        }
        assert forall|y: int, x: int| 0 <= y < prev.len() && 0 <= x < prev[y].len() implies (#[trigger] prev[y][x]).x
            == x && prev[y][x].y == y by {
            assert(prev[y] == rows[y]);
            assert(rows[y][x].x == x);
        }
        lemma_grid_zone(prev, w, sx, sy, p);
        let n = rows.len() - 1;
        let last = rows.last();
        assert(last.len() == w);
        assert forall|i: int| 0 <= i < last.len() implies (#[trigger] last[i]).x == i by {
            assert(rows[n][i].x == i);
        }
        lemma_row_zone(last, sx, p);
        let bx = band(w as int, sx);
        let ind = indicator(-1 <= n - sy <= 1);
        if !(-1 <= n - sy <= 1) {
            assert forall|i: int| 0 <= i < last.len() implies !p(#[trigger] last[i]) by {
                assert(rows[n][i].y == n);
            }
            lemma_row_count_none(last, p);
        }
        assert(row_count(last, p) <= bx * ind);
        assert(band(rows.len() as int, sy) == band(n, sy) + ind);
        assert(bx * band(n, sy) + bx * ind == bx * (band(n, sy) + ind)) by (nonlinear_arith);
    }
}

pub proof fn lemma_row_count_none(row: Seq<Cell>, p: spec_fn(Cell) -> bool)
    requires
        forall|i: int| 0 <= i < row.len() ==> !p(#[trigger] row[i]),
    ensures
        row_count(row, p) == 0,
    decreases row.len(),
{
    if row.len() > 0 {
        let prev = row.drop_last();
        assert forall|i: int| 0 <= i < prev.len() implies !p(#[trigger] prev[i]) by {
            assert(prev[i] == row[i]);
        }
        lemma_row_count_none(prev, p);
        assert(!p(row[row.len() - 1]));
    }
}


pub proof fn lemma_grid_count_none(rows: Seq<Seq<Cell>>, p: spec_fn(Cell) -> bool)
    requires
        forall|y: int, x: int| 0 <= y < rows.len() && 0 <= x < rows[y].len() ==> !p(#[trigger] rows[y][x]),
    ensures
        grid_count(rows, p) == 0,
    decreases rows.len(),
{
    if rows.len() > 0 {
        let prev = rows.drop_last();
        assert forall|y: int, x: int| 0 <= y < prev.len() && 0 <= x < prev[y].len() implies !p(#[trigger] prev[y][x]) by {
            assert(prev[y] == rows[y]);
        }
        lemma_grid_count_none(prev, p);
        let last = rows.last();
        assert forall|i: int| 0 <= i < last.len() implies !p(#[trigger] last[i]) by {
            assert(rows[rows.len() - 1][i] == last[i]);
        }
        lemma_row_count_none(last, p);
    }
}


/// Positions `(x, y)` of the cells in `row` that satisfy `p`, in order.
pub open spec fn row_list(row: Seq<Cell>, p: spec_fn(Cell) -> bool) -> Seq<(usize, usize)>
    decreases row.len(),
{
    if row.len() == 0 {
        Seq::empty()
    } else {
        row_list(row.drop_last(), p) + if p(row.last()) {
            seq![(row.last().x, row.last().y)]
        } else {
            Seq::empty()
        }
    }
}

/// Positions of the cells in all of `rows` that satisfy `p`, row after row.
pub open spec fn grid_list(rows: Seq<Seq<Cell>>, p: spec_fn(Cell) -> bool) -> Seq<(usize, usize)>
    decreases rows.len(),
{
    if rows.len() == 0 {
        Seq::empty()
    } else {
        grid_list(rows.drop_last(), p) + row_list(rows.last(), p)
    }
}

} // verus!
