//! Properties of the model that relate several operations.

use vstd::prelude::*;
use crate::engine::{GolState, with_manual_kill, with_manual_stop};
use crate::grid::{
    alive_at, generations, height, is_rect, lemma_wrap_compose, lemma_wrap_distinct, lemma_wrap_meet,
    lemma_wrap_step, lemma_wrap_zero, neighbor_count, next_cell, step_grid, width, wrap,
};

verus! {

/// The state after a run of `set_manual_stop` calls, in order.
pub open spec fn after_stops(s: GolState, stops: Seq<bool>) -> GolState
    decreases stops.len(),
{
    if stops.len() == 0 {
        s
    } else {
        after_stops(with_manual_stop(s, stops[0]), stops.drop_first())
    }
}

/// Once the kill flag is set, it stays set whatever pause or resume calls
/// follow.
pub proof fn lemma_kill_is_sticky(s: GolState, stops: Seq<bool>)
    ensures
        after_stops(with_manual_kill(s, true), stops).manual_kill,
    decreases stops.len(),
{
    if stops.len() > 0 {
        let k = with_manual_kill(s, true);
        assert(with_manual_stop(k, stops[0]) == with_manual_kill(with_manual_stop(s, stops[0]), true));
        lemma_kill_is_sticky(with_manual_stop(s, stops[0]), stops.drop_first());
    }
}

/// The grid with the cell at `(x, y)` set dead.
pub open spec fn kill_cell(g: Seq<Seq<bool>>, x: int, y: int) -> Seq<Seq<bool>> {
    g.update(x, g[x].update(y, false))
}

/// Every one of the eight toroidal neighbours counts: killing a live
/// neighbour of `(r, c)`, reached by the offset `(dr, dc)`, lowers the
/// neighbour count of `(r, c)`.
pub proof fn lemma_every_neighbor_counts(g: Seq<Seq<bool>>, r: int, c: int, dr: int, dc: int)
    requires
        is_rect(g),
        0 <= r < height(g),
        0 <= c < width(g),
        -1 <= dr <= 1,
        -1 <= dc <= 1,
        dr != 0 || dc != 0,
        g[wrap(r, dr, height(g))][wrap(c, dc, width(g))],
    ensures
        neighbor_count(kill_cell(g, wrap(r, dr, height(g)), wrap(c, dc, width(g))), r, c)
            < neighbor_count(g, r, c),
{
    let h = height(g);
    let w = width(g);
    let x = wrap(r, dr, h);
    let y = wrap(c, dc, w);
    let k = kill_cell(g, x, y);
    lemma_wrap_step(r, h);
    lemma_wrap_step(c, w);
    assert(height(k) == h);
    assert(width(k) == w);
    assert forall|i: int, j: int| -1 <= i <= 1 && -1 <= j <= 1 implies
        #[trigger] alive_at(k, r, c, i, j) <= alive_at(g, r, c, i, j) by {}
    assert(alive_at(k, r, c, dr, dc) < alive_at(g, r, c, dr, dc));
}

/// A cell in the first row counts the last row: killing the live cell
/// right above it on the torus lowers its neighbour count.
pub proof fn lemma_first_row_sees_last_row(g: Seq<Seq<bool>>, c: int)
    requires
        is_rect(g),
        0 <= c < width(g),
        g[height(g) - 1][c],
    ensures
        neighbor_count(kill_cell(g, height(g) - 1, c), 0, c) < neighbor_count(g, 0, c),
{
    lemma_wrap_step(0, height(g));
    lemma_wrap_step(c, width(g));
    lemma_every_neighbor_counts(g, 0, c, -1, 0);
}

/// A cell in the first column counts the last column: killing the live cell
/// right left of it on the torus lowers its neighbour count.
pub proof fn lemma_first_col_sees_last_col(g: Seq<Seq<bool>>, r: int)
    requires
        is_rect(g),
        0 <= r < height(g),
        g[r][width(g) - 1],
    ensures
        neighbor_count(kill_cell(g, r, width(g) - 1), r, 0) < neighbor_count(g, r, 0),
{
    lemma_wrap_step(r, height(g));
    lemma_wrap_step(0, width(g));
    lemma_every_neighbor_counts(g, r, 0, 0, -1);
}

/// The cell reached from `(r, c)` by the offset `(i, j)` on the torus.
pub open spec fn at(g: Seq<Seq<bool>>, r: int, c: int, i: int, j: int) -> bool {
    g[wrap(r, i, height(g))][wrap(c, j, width(g))]
}

/// The neighbours of the cell at offset `(i, j)` from `(r, c)` are the cells
/// at the offsets around `(i, j)`.
pub proof fn lemma_neighbors_relative(g: Seq<Seq<bool>>, r: int, c: int, i: int, j: int)
    requires
        is_rect(g),
        0 <= r < height(g),
        0 <= c < width(g),
    ensures
        forall|dr: int, dc: int|
            #[trigger] alive_at(g, wrap(r, i, height(g)), wrap(c, j, width(g)), dr, dc)
                == (if at(g, r, c, i + dr, j + dc) { 1nat } else { 0nat }),
{
    assert forall|dr: int, dc: int|
        #[trigger] alive_at(g, wrap(r, i, height(g)), wrap(c, j, width(g)), dr, dc)
            == (if at(g, r, c, i + dr, j + dc) { 1nat } else { 0nat }) by {
        lemma_wrap_compose(r, i, dr, height(g));
        lemma_wrap_compose(c, j, dc, width(g));
    }
}

/// The 2x2 block at `(r, c)` is alive and the twelve cells around it are
/// dead.
pub open spec fn isolated_block(g: Seq<Seq<bool>>, r: int, c: int) -> bool {
    forall|i: int, j: int|
        -1 <= i <= 2 && -1 <= j <= 2 ==> #[trigger] at(g, r, c, i, j) == (0 <= i <= 1 && 0 <= j <= 1)
}

/// A 2x2 block of live cells with no live cell around it stays alive after
/// a step: each of its cells has exactly three live neighbours.
pub proof fn lemma_block_still_life(g: Seq<Seq<bool>>, r: int, c: int)
    requires
        is_rect(g),
        0 <= r < height(g),
        0 <= c < width(g),
        isolated_block(g, r, c),
    ensures
        forall|i: int, j: int|
            0 <= i <= 1 && 0 <= j <= 1 ==> #[trigger] at(step_grid(g), r, c, i, j),
{
    assert forall|i: int, j: int| 0 <= i <= 1 && 0 <= j <= 1 implies
        #[trigger] at(step_grid(g), r, c, i, j) by {
        let x = wrap(r, i, height(g));
        let y = wrap(c, j, width(g));
        lemma_wrap_compose(r, i, 0, height(g));
        lemma_wrap_compose(c, j, 0, width(g));
        lemma_neighbors_relative(g, r, c, i, j);
        assert(neighbor_count(g, x, y) == 3);
        assert(g[x][y] == at(g, r, c, i, j));
        assert(next_cell(g[x][y], neighbor_count(g, x, y)));
    }
}

/// An `h` by `w` grid whose only live cells are three in a row, centred on
/// `(r, c)`.
pub open spec fn horizontal_blinker(h: nat, w: nat, r: int, c: int) -> Seq<Seq<bool>> {
    Seq::new(
        h,
        |x: int|
            Seq::new(
                w,
                |y: int| x == r && (y == wrap(c, -1, w as int) || y == c || y == wrap(c, 1, w as int)),
            ),
    )
}

/// An `h` by `w` grid whose only live cells are three in a column, centred
/// on `(r, c)`.
pub open spec fn vertical_blinker(h: nat, w: nat, r: int, c: int) -> Seq<Seq<bool>> {
    Seq::new(
        h,
        |x: int|
            Seq::new(
                w,
                |y: int| y == c && (x == wrap(r, -1, h as int) || x == r || x == wrap(r, 1, h as int)),
            ),
    )
}

/// A horizontal blinker turns vertical in one step.
proof fn lemma_blinker_turns_vertical(h: nat, w: nat, r: int, c: int)
    requires
        h >= 3,
        w >= 5,
        0 <= r < h,
        0 <= c < w,
    ensures
        step_grid(horizontal_blinker(h, w, r, c)) == vertical_blinker(h, w, r, c),
{
    let g = horizontal_blinker(h, w, r, c);
    let v = vertical_blinker(h, w, r, c);
    let (hi, wi) = (h as int, w as int);
    lemma_wrap_zero(r, hi);
    lemma_wrap_zero(c, wi);
    lemma_wrap_distinct(r, -1, 0, hi);
    lemma_wrap_distinct(r, -1, 1, hi);
    lemma_wrap_distinct(r, 0, 1, hi);
    assert forall|a: int, b: int| -2 <= a < b <= 2 implies wrap(c, a, wi) != wrap(c, b, wi) by {
        lemma_wrap_distinct(c, a, b, wi);
    }
    assert forall|x: int, y: int| 0 <= x < hi && 0 <= y < wi implies
        #[trigger] step_grid(g)[x][y] == v[x][y] by {
        assert forall|dr: int, dc: int| -1 <= dr <= 1 && -1 <= dc <= 1 implies
            #[trigger] alive_at(g, x, y, dr, dc) == (if x == wrap(r, -dr, hi) && (y == wrap(c, -1 - dc, wi)
                || y == wrap(c, -dc, wi) || y == wrap(c, 1 - dc, wi)) { 1nat } else { 0nat }) by {
            lemma_wrap_compose(x, dr, 0, hi);
            lemma_wrap_compose(y, dc, 0, wi);
            lemma_wrap_meet(x, dr, r, 0, hi);
            lemma_wrap_meet(y, dc, c, -1, wi);
            lemma_wrap_meet(y, dc, c, 0, wi);
            lemma_wrap_meet(y, dc, c, 1, wi);
        }
        lemma_wrap_compose(r, 0, 0, hi);
        assert(g[x][y] == (x == r && (y == wrap(c, -1, wi) || y == c || y == wrap(c, 1, wi))));
    }
    assert(step_grid(g) =~~= v);
}

/// A vertical blinker turns horizontal in one step.
proof fn lemma_blinker_turns_horizontal(h: nat, w: nat, r: int, c: int)
    requires
        h >= 5,
        w >= 3,
        0 <= r < h,
        0 <= c < w,
    ensures
        step_grid(vertical_blinker(h, w, r, c)) == horizontal_blinker(h, w, r, c),
{
    let g = vertical_blinker(h, w, r, c);
    let z = horizontal_blinker(h, w, r, c);
    let (hi, wi) = (h as int, w as int);
    lemma_wrap_zero(r, hi);
    lemma_wrap_zero(c, wi);
    lemma_wrap_distinct(c, -1, 0, wi);
    lemma_wrap_distinct(c, -1, 1, wi);
    lemma_wrap_distinct(c, 0, 1, wi);
    assert forall|a: int, b: int| -2 <= a < b <= 2 implies wrap(r, a, hi) != wrap(r, b, hi) by {
        lemma_wrap_distinct(r, a, b, hi);
    }
    assert forall|x: int, y: int| 0 <= x < hi && 0 <= y < wi implies
        #[trigger] step_grid(g)[x][y] == z[x][y] by {
        assert forall|dr: int, dc: int| -1 <= dr <= 1 && -1 <= dc <= 1 implies
            #[trigger] alive_at(g, x, y, dr, dc) == (if y == wrap(c, -dc, wi) && (x == wrap(r, -1 - dr, hi)
                || x == wrap(r, -dr, hi) || x == wrap(r, 1 - dr, hi)) { 1nat } else { 0nat }) by {
            lemma_wrap_compose(x, dr, 0, hi);
            lemma_wrap_compose(y, dc, 0, wi);
            lemma_wrap_meet(y, dc, c, 0, wi);
            lemma_wrap_meet(x, dr, r, -1, hi);
            lemma_wrap_meet(x, dr, r, 0, hi);
            lemma_wrap_meet(x, dr, r, 1, hi);
        }
        assert(g[x][y] == (y == c && (x == wrap(r, -1, hi) || x == r || x == wrap(r, 1, hi))));
    }
    assert(step_grid(g) =~~= z);
}

/// On an empty torus of at least 5x5 cells, three live cells in a row turn
/// into three in a column after one step and are back where they started
/// after two.
pub proof fn lemma_blinker_period_two(h: nat, w: nat, r: int, c: int)
    requires
        h >= 5,
        w >= 5,
        0 <= r < h,
        0 <= c < w,
    ensures
        step_grid(horizontal_blinker(h, w, r, c)) != horizontal_blinker(h, w, r, c),
        step_grid(step_grid(horizontal_blinker(h, w, r, c))) == horizontal_blinker(h, w, r, c),
{
    lemma_blinker_turns_vertical(h, w, r, c);
    lemma_blinker_turns_horizontal(h, w, r, c);
    let (hi, wi) = (h as int, w as int);
    lemma_wrap_step(r, hi);
    lemma_wrap_distinct(r, 0, 1, hi);
    assert(horizontal_blinker(h, w, r, c)[r][wrap(c, 1, wi)] != vertical_blinker(h, w, r, c)[r][wrap(
        c,
        1,
        wi,
    )]) by {
        lemma_wrap_step(c, wi);
        lemma_wrap_distinct(c, 0, 1, wi);
    }
}

/// Generations compose: `a` generations followed by `b` more are `a + b`
/// generations from the start, each one computed from the whole previous
/// one.
pub proof fn lemma_generations_add(g: Seq<Seq<bool>>, a: nat, b: nat)
    ensures
        generations(generations(g, a), b) == generations(g, a + b),
    decreases b,
{
    if b > 0 {
        lemma_generations_add(g, a, (b - 1) as nat);
        assert((a + b - 1) as nat == a + (b - 1) as nat);
    }
}

} // verus!
