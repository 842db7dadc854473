//! The mathematical model of a toroidal boolean grid and of Conway's rules.

use vstd::prelude::*;
use vstd::arithmetic::div_mod::{
    lemma_add_mod_noop, lemma_fundamental_div_mod_converse_mod, lemma_mod_bound, lemma_mod_twice,
};

verus! {

/// A matrix is a valid grid when it has at least one row, at least one
/// column, and every row is as long as the first.
pub open spec fn is_rect(g: Seq<Seq<bool>>) -> bool {
    &&& g.len() >= 1
    &&& g[0].len() >= 1
    &&& forall|i: int| 0 <= i < g.len() ==> #[trigger] g[i].len() == g[0].len()
}

/// Number of rows.
pub open spec fn height(g: Seq<Seq<bool>>) -> int {
    g.len() as int
}

/// Number of columns (the length of the first row).
pub open spec fn width(g: Seq<Seq<bool>>) -> int {
    g[0].len() as int
}

/// The coordinate `i + d`, wrapped around a ring of `n` positions.
#[verifier::opaque]
pub open spec fn wrap(i: int, d: int, n: int) -> int {
    (i + d) % n
}

/// 1 when the cell reached from `(r, c)` by the offset `(dr, dc)` on the
/// torus is alive, else 0.
pub open spec fn alive_at(g: Seq<Seq<bool>>, r: int, c: int, dr: int, dc: int) -> nat {
    if g[wrap(r, dr, height(g))][wrap(c, dc, width(g))] {
        1
    } else {
        0
    }
}

/// The number of live cells among the eight toroidal neighbours of `(r, c)`.
pub open spec fn neighbor_count(g: Seq<Seq<bool>>, r: int, c: int) -> nat {
    alive_at(g, r, c, -1, -1) + alive_at(g, r, c, -1, 0) + alive_at(g, r, c, -1, 1)
        + alive_at(g, r, c, 0, -1) + alive_at(g, r, c, 0, 1)
        + alive_at(g, r, c, 1, -1) + alive_at(g, r, c, 1, 0) + alive_at(g, r, c, 1, 1)
}

/// Conway's rule: a live cell survives with two or three live neighbours, a
/// dead cell comes alive with exactly three, every other cell is dead next.
pub open spec fn next_cell(alive: bool, n: nat) -> bool {
    if alive {
        n == 2 || n == 3
    } else {
        n == 3
    }
}

/// One synchronous generation: every next cell is computed from the current
/// grid alone.
pub open spec fn step_grid(g: Seq<Seq<bool>>) -> Seq<Seq<bool>> {
    Seq::new(
        g.len(),
        |r: int| Seq::new(g[0].len(), |c: int| next_cell(g[r][c], neighbor_count(g, r, c))),
    )
}

/// The grid after `n` generations.
pub open spec fn generations(g: Seq<Seq<bool>>, n: nat) -> Seq<Seq<bool>>
    decreases n,
{
    if n == 0 {
        g
    } else {
        step_grid(generations(g, (n - 1) as nat))
    }
}

/// The number of live cells in the first `rows` rows.
pub open spec fn live_in_rows(g: Seq<Seq<bool>>, rows: int) -> nat
    decreases rows,
{
    if rows <= 0 {
        0
    } else {
        live_in_rows(g, rows - 1) + live_in_row(g[rows - 1], g[rows - 1].len() as int)
    }
}

/// The number of live cells among the first `cols` cells of a row.
pub open spec fn live_in_row(row: Seq<bool>, cols: int) -> nat
    decreases cols,
{
    if cols <= 0 {
        0
    } else {
        live_in_row(row, cols - 1) + if row[cols - 1] {
            1nat
        } else {
            0nat
        }
    }
}

/// The number of live cells of the whole grid.
pub open spec fn live_count(g: Seq<Seq<bool>>) -> nat {
    live_in_rows(g, g.len() as int)
}

/// Wrapping by one step in either direction, stated without `%`.
pub proof fn lemma_wrap_step(i: int, n: int)
    requires
        0 <= i < n,
    ensures
        wrap(i, 0, n) == i,
        wrap(i, -1, n) == if i == 0 { n - 1 } else { i - 1 },
        wrap(i, 1, n) == if i + 1 == n { 0 } else { i + 1 },
{
    reveal(wrap);
    lemma_fundamental_div_mod_converse_mod(i, n, 0, i);
    if i == 0 {
        lemma_fundamental_div_mod_converse_mod(-1, n, -1, n - 1);
    } else {
        lemma_fundamental_div_mod_converse_mod(i - 1, n, 0, i - 1);
    }
    if i + 1 == n {
        lemma_fundamental_div_mod_converse_mod(n, n, 1, 0);
    } else {
        lemma_fundamental_div_mod_converse_mod(i + 1, n, 0, i + 1);
    }
}

/// A wrapped coordinate lies on the ring, and wrapping twice adds the
/// offsets.
pub proof fn lemma_wrap_compose(i: int, a: int, b: int, n: int)
    requires
        n > 0,
    ensures
        0 <= wrap(i, a, n) < n,
        wrap(wrap(i, a, n), b, n) == wrap(i, a + b, n),
{
    reveal(wrap);
    lemma_mod_bound(i + a, n);
    lemma_mod_twice(i + a, n);
    lemma_add_mod_noop((i + a) % n, b, n);
    lemma_add_mod_noop(i + a, b, n);
    assert(i + a + b == i + (a + b));
}

/// A coordinate on the ring is its own wrap.
pub proof fn lemma_wrap_zero(i: int, n: int)
    requires
        0 <= i < n,
    ensures
        wrap(i, 0, n) == i,
{
    lemma_wrap_step(i, n);
}

/// Moving by `a` from `x` lands where moving by `b` from `r` does exactly
/// when `x` is `r` moved by `b - a`.
pub proof fn lemma_wrap_meet(x: int, a: int, r: int, b: int, n: int)
    requires
        0 <= x < n,
        0 <= r < n,
    ensures
        (wrap(x, a, n) == wrap(r, b, n)) <==> (x == wrap(r, b - a, n)),
{
    lemma_wrap_compose(r, b - a, a, n);
    lemma_wrap_compose(x, a, -a, n);
    lemma_wrap_compose(r, b, -a, n);
    lemma_wrap_zero(x, n);
    assert(b - a + a == b);
    assert(a + -a == 0);
    assert(b + -a == b - a);
}

/// On a ring of more than `|a - b|` positions, distinct offsets from one
/// coordinate land on distinct coordinates.
pub proof fn lemma_wrap_distinct(r: int, a: int, b: int, n: int)
    requires
        0 <= r < n,
        a != b,
        a - b < n,
        b - a < n,
    ensures
        wrap(r, a, n) != wrap(r, b, n),
{
    reveal(wrap);
    if (r + a) % n == (r + b) % n {
        lemma_mod_bound(r + a, n);
        let qa = (r + a) / n;
        let qb = (r + b) / n;
        vstd::arithmetic::div_mod::lemma_fundamental_div_mod(r + a, n);
        vstd::arithmetic::div_mod::lemma_fundamental_div_mod(r + b, n);
        assert(a - b == n * (qa - qb)) by (nonlinear_arith)
            requires
                r + a == n * qa + (r + a) % n,
                r + b == n * qb + (r + b) % n,
                (r + a) % n == (r + b) % n,
        ;
        if qa - qb >= 1 {
            assert(n * (qa - qb) >= n) by (nonlinear_arith)
                requires
                    qa - qb >= 1,
                    n > 0,
            ;
        } else if qa - qb <= -1 {
            assert(n * (qa - qb) <= -n) by (nonlinear_arith)
                requires
                    qa - qb <= -1,
                    n > 0,
            ;
        }
    }
}

/// One generation keeps the grid's shape.
pub proof fn lemma_step_keeps_shape(g: Seq<Seq<bool>>)
    requires
        is_rect(g),
    ensures
        is_rect(step_grid(g)),
        height(step_grid(g)) == height(g),
        width(step_grid(g)) == width(g),
{
}

/// A row prefix holds at most as many live cells as it has cells.
pub proof fn lemma_live_in_row_bound(row: Seq<bool>, cols: int)
    ensures
        live_in_row(row, cols) <= if cols <= 0 { 0 } else { cols },
    decreases cols,
{
    if cols > 0 {
        lemma_live_in_row_bound(row, cols - 1);
    }
}

/// The first `rows` rows of a valid grid hold at most `rows * width` live
/// cells.
pub proof fn lemma_live_in_rows_bound(g: Seq<Seq<bool>>, rows: int)
    requires
        is_rect(g),
        0 <= rows <= g.len(),
    ensures
        live_in_rows(g, rows) <= rows * width(g),
    decreases rows,
{
    if rows > 0 {
        lemma_live_in_rows_bound(g, rows - 1);
        assert(g[rows - 1].len() == width(g));
        lemma_live_in_row_bound(g[rows - 1], width(g));
        assert((rows - 1) * width(g) + width(g) == rows * width(g)) by (nonlinear_arith);
    }
}

} // verus!
