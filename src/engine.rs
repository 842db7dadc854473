//! The life engine: the grid, the generation step and the run/pause/kill
//! flags that tell a scheduler whether to step.

use vstd::prelude::*;
use crate::grid::{
    alive_at, generations, is_rect, lemma_live_in_row_bound, lemma_live_in_rows_bound,
    lemma_step_keeps_shape, lemma_wrap_step, live_count, live_in_row, live_in_rows, neighbor_count,
    next_cell, step_grid, wrap,
};

verus! {

/// Why a grid could not be built.
#[derive(Debug, Clone, Copy, PartialEq, Eq, Structural)]
pub enum GolError {
    /// The matrix is empty, has an empty row, or its rows differ in length.
    InvalidDimensions,
}

/// The abstract state of an engine.
pub struct GolState {
    pub grid: Seq<Seq<bool>>,
    pub stop_at: u128,
    pub manual_stop: bool,
    pub manual_kill: bool,
}

/// The state after `set_manual_stop(v)`.
pub open spec fn with_manual_stop(s: GolState, v: bool) -> GolState {
    GolState { grid: s.grid, stop_at: s.stop_at, manual_stop: v, manual_kill: s.manual_kill }
}

/// The state after `set_manual_kill(v)`.
pub open spec fn with_manual_kill(s: GolState, v: bool) -> GolState {
    GolState { grid: s.grid, stop_at: s.stop_at, manual_stop: s.manual_stop, manual_kill: v }
}

/// The state after `set_stop_at(v)`.
pub open spec fn with_stop_at(s: GolState, v: u128) -> GolState {
    GolState { grid: s.grid, stop_at: v, manual_stop: s.manual_stop, manual_kill: s.manual_kill }
}

/// A Game of Life engine over a fixed-size toroidal grid.
pub struct Gol {
    grid: Vec<Vec<bool>>,
    height: usize,
    width: usize,
    stop_at: u128,
    manual_stop: bool,
    manual_kill: bool,
}

impl View for Gol {
    type V = GolState;

    closed spec fn view(&self) -> GolState {
        GolState {
            grid: self.grid.deep_view(),
            stop_at: self.stop_at,
            manual_stop: self.manual_stop,
            manual_kill: self.manual_kill,
        }
    }
}

impl Gol {
    /// The grid is rectangular and non-empty, and the cached dimensions
    /// match it.
    pub closed spec fn wf(&self) -> bool {
        &&& is_rect(self.grid.deep_view())
        &&& self.height as int == self.grid@.len()
        &&& self.width as int == self.grid@[0]@.len()
    }

    /// Every well-formed engine holds a valid grid.
    pub proof fn lemma_wf_rect(&self)
        requires
            self.wf(),
        ensures
            is_rect(self@.grid),
    {
    }

    /// Builds an engine, running and not killed, from a matrix of cells.
    pub fn new(init_grid: Vec<Vec<bool>>) -> (r: Result<Gol, GolError>)
        ensures
            r is Ok <==> is_rect(init_grid.deep_view()),
            r is Err ==> r == Err::<Gol, GolError>(GolError::InvalidDimensions),
            r matches Ok(g) ==> {
                &&& g.wf()
                &&& g@.grid == init_grid.deep_view()
                &&& g@.stop_at == 0
                &&& !g@.manual_stop
                &&& !g@.manual_kill
            },
    {
        let height = init_grid.len();
        if height == 0 {
            return Err(GolError::InvalidDimensions);
        }
        let width = init_grid[0].len();
        if width == 0 {
            return Err(GolError::InvalidDimensions);
        }
        let mut i: usize = 0;
        while i < height
            invariant
                height == init_grid@.len(),
                height >= 1,
                width == init_grid@[0]@.len(),
                0 <= i <= height,
                forall|k: int| 0 <= k < i ==> #[trigger] init_grid@[k]@.len() == width,
            decreases height - i,
        {
            if init_grid[i].len() != width {
                proof {
                    assert(init_grid.deep_view()[i as int].len() != init_grid.deep_view()[0].len());
                }
                return Err(GolError::InvalidDimensions);
            }
            i = i + 1;
        }
        let g = Gol { grid: init_grid, height, width, stop_at: 0, manual_stop: false, manual_kill: false };
        proof {
            assert forall|k: int| 0 <= k < g.grid.deep_view().len() implies
                #[trigger] g.grid.deep_view()[k].len() == g.grid.deep_view()[0].len() by {
                assert(g.grid@[k]@.len() == width);
            }
        }
        Ok(g)
    }
    /// 1 when the cell at `(r, c)` is alive, else 0.
    fn cell_value(&self, r: usize, c: usize) -> (v: u8)
        requires
            self.wf(),
            r < self@.grid.len(),
            c < self@.grid[0].len(),
        ensures
            v == (if self@.grid[r as int][c as int] { 1u8 } else { 0u8 }),
    {
        proof {
            assert(self.grid.deep_view()[r as int] == self.grid@[r as int]@);
        }
        if self.grid[r][c] {
            1
        } else {
            0
        }
    }

    /// The number of live cells among the eight toroidal neighbours of
    /// `(row, col)`.
    pub fn get_alive_neighbours(&self, row: u64, col: u64) -> (r: u8)
        requires
            self.wf(),
            row < self@.grid.len(),
            col < self@.grid[0].len(),
        ensures
            r as nat == neighbor_count(self@.grid, row as int, col as int),
            r <= 8,
    {
        let h = self.height;
        let w = self.width;
        let row = row as usize;
        let col = col as usize;
        let up = if row == 0 { h - 1 } else { row - 1 };
        let down = if row + 1 == h { 0 } else { row + 1 };
        let left = if col == 0 { w - 1 } else { col - 1 };
        let right = if col + 1 == w { 0 } else { col + 1 };
        proof {
            lemma_wrap_step(row as int, h as int);
            lemma_wrap_step(col as int, w as int);
        }
        let a = self.cell_value(up, left);
        let b = self.cell_value(up, col);
        let c = self.cell_value(up, right);
        let d = self.cell_value(row, left);
        let e = self.cell_value(row, right);
        let f = self.cell_value(down, left);
        let g = self.cell_value(down, col);
        let k = self.cell_value(down, right);
        proof {
            let gr = self@.grid;
            let (ri, ci) = (row as int, col as int);
            assert(up as int == wrap(ri, -1, h as int));
            assert(down as int == wrap(ri, 1, h as int));
            assert(row as int == wrap(ri, 0, h as int));
            assert(left as int == wrap(ci, -1, w as int));
            assert(right as int == wrap(ci, 1, w as int));
            assert(col as int == wrap(ci, 0, w as int));
            assert(a as nat == alive_at(gr, ri, ci, -1, -1));
            assert(b as nat == alive_at(gr, ri, ci, -1, 0));
            assert(c as nat == alive_at(gr, ri, ci, -1, 1));
            assert(d as nat == alive_at(gr, ri, ci, 0, -1));
            assert(e as nat == alive_at(gr, ri, ci, 0, 1));
            assert(f as nat == alive_at(gr, ri, ci, 1, -1));
            assert(g as nat == alive_at(gr, ri, ci, 1, 0));
            assert(k as nat == alive_at(gr, ri, ci, 1, 1));
        }
        let count: u8 = a + b + c + d + e + f + g + k;
        count
    }
    /// Advances the grid by one generation. Every next cell is computed from
    /// the current generation only; the flags and `stop_at` are untouched.
    pub fn tick(&mut self)
        requires
            old(self).wf(),
        ensures
            final(self).wf(),
            final(self)@.grid == step_grid(old(self)@.grid),
            final(self)@.stop_at == old(self)@.stop_at,
            final(self)@.manual_stop == old(self)@.manual_stop,
            final(self)@.manual_kill == old(self)@.manual_kill,
    {
        let ghost cur = self@.grid;
        let ghost next_model = step_grid(cur);
        let h = self.height;
        let w = self.width;
        let mut next: Vec<Vec<bool>> = Vec::new();
        let mut row: usize = 0;
        while row < h
            invariant
                self.wf(),
                self@.grid == cur,
                h as int == cur.len(),
                w as int == cur[0].len(),
                next_model == step_grid(cur),
                0 <= row <= h,
                next@.len() == row,
                forall|k: int| 0 <= k < row ==> #[trigger] next@[k]@ == next_model[k],
            decreases h - row,
        {
            let mut line: Vec<bool> = Vec::new();
            let mut col: usize = 0;
            while col < w
                invariant
                    self.wf(),
                    self@.grid == cur,
                    h as int == cur.len(),
                    w as int == cur[0].len(),
                    next_model == step_grid(cur),
                    0 <= row < h,
                    0 <= col <= w,
                    line@ == next_model[row as int].take(col as int),
                decreases w - col,
            {
                let n = self.get_alive_neighbours(row as u64, col as u64);
                let alive = self.cell_value(row, col) == 1;
                let v = next_state(alive, n);
                line.push(v);
                col = col + 1;
                proof {
                    assert(line@ =~= next_model[row as int].take(col as int));
                }
            }
            proof {
                assert(line@ =~= next_model[row as int]);
            }
            next.push(line);
            row = row + 1;
        }
        proof {
            assert(next.deep_view().len() == next_model.len());
            assert forall|k: int| 0 <= k < next_model.len() implies
                #[trigger] next.deep_view()[k] == next_model[k] by {
                assert(next@[k]@ == next_model[k]);
            }
            assert(next.deep_view() =~= next_model);
            lemma_step_keeps_shape(cur);
        }
        self.grid = next;
    }
    /// Advances the grid by `n` generations, one `tick` at a time.
    pub fn run(&mut self, n: u64)
        requires
            old(self).wf(),
        ensures
            final(self).wf(),
            final(self)@.grid == generations(old(self)@.grid, n as nat),
            final(self)@.stop_at == old(self)@.stop_at,
            final(self)@.manual_stop == old(self)@.manual_stop,
            final(self)@.manual_kill == old(self)@.manual_kill,
    {
        let ghost start = self@;
        let mut i: u64 = 0;
        while i < n
            invariant
                self.wf(),
                0 <= i <= n,
                self@.grid == generations(start.grid, i as nat),
                self@.stop_at == start.stop_at,
                self@.manual_stop == start.manual_stop,
                self@.manual_kill == start.manual_kill,
            decreases n - i,
        {
            self.tick();
            i = i + 1;
        }
    }

    /// A copy of the current grid.
    pub fn get(&self) -> (r: Vec<Vec<bool>>)
        requires
            self.wf(),
        ensures
            r.deep_view() == self@.grid,
    {
        let mut out: Vec<Vec<bool>> = Vec::new();
        let mut i: usize = 0;
        while i < self.height
            invariant
                self.wf(),
                0 <= i <= self.height,
                out@.len() == i,
                forall|k: int| 0 <= k < i ==> #[trigger] out@[k]@ == self.grid@[k]@,
            decreases self.height - i,
        {
            let mut line: Vec<bool> = Vec::new();
            let mut j: usize = 0;
            let len = self.grid[i].len();
            while j < len
                invariant
                    self.wf(),
                    0 <= i < self.height,
                    len == self.grid@[i as int]@.len(),
                    0 <= j <= len,
                    line@ == self.grid@[i as int]@.take(j as int),
                decreases len - j,
            {
                line.push(self.grid[i][j]);
                j = j + 1;
                proof {
                    assert(line@ =~= self.grid@[i as int]@.take(j as int));
                }
            }
            proof {
                assert(line@ =~= self.grid@[i as int]@);
            }
            out.push(line);
            i = i + 1;
        }
        proof {
            assert(out.deep_view().len() == self@.grid.len());
            assert forall|k: int| 0 <= k < out.deep_view().len() implies
                #[trigger] out.deep_view()[k] == self@.grid[k] by {
                assert(out@[k]@ == self.grid@[k]@);
            }
            assert(out.deep_view() =~= self@.grid);
        }
        out
    }

    /// Sets the target live-cell count. It has no effect on stepping.
    pub fn set_stop_at(&mut self, value: u128)
        requires
            old(self).wf(),
        ensures
            final(self).wf(),
            final(self)@ == with_stop_at(old(self)@, value),
    {
        self.stop_at = value;
    }

    /// The number of live cells in the grid.
    pub fn get_alive_cells_count(&self) -> (r: u128)
        requires
            self.wf(),
        ensures
            r as nat == live_count(self@.grid),
    {
        let ghost g = self@.grid;
        let mut count: u128 = 0;
        let mut i: usize = 0;
        while i < self.height
            invariant
                self.wf(),
                g == self@.grid,
                0 <= i <= self.height,
                count as nat == live_in_rows(g, i as int),
            decreases self.height - i,
        {
            proof {
                assert(g[i as int] == self.grid@[i as int]@);
                lemma_live_in_rows_bound(g, i as int);
            }
            let mut j: usize = 0;
            while j < self.width
                invariant
                    self.wf(),
                    g == self@.grid,
                    0 <= i < self.height,
                    0 <= j <= self.width,
                    g[i as int] == self.grid@[i as int]@,
                    g[i as int].len() == self.width,
                    count as nat == live_in_rows(g, i as int) + live_in_row(g[i as int], j as int),
                    live_in_rows(g, i as int) <= i * self.width,
                decreases self.width - j,
            {
                proof {
                    lemma_live_in_row_bound(g[i as int], j as int);
                    let (ii, jj, ww) = (i as int, j as int, self.width as int);
                    assert(ii * ww + jj + 1 < 0x1_0000_0000_0000_0000_0000_0000_0000_0000) by (nonlinear_arith)
                        requires
                            0 <= ii < 0x1_0000_0000_0000_0000,
                            0 <= jj < ww,
                            ww < 0x1_0000_0000_0000_0000,
                    ;
                    assert(count as nat <= ii * ww + jj);
                }
                if self.grid[i][j] {
                    count = count + 1;
                }
                j = j + 1;
            }
            i = i + 1;
        }
        count
    }

    /// Whether a scheduler may step the engine next: not manually stopped.
    pub fn should_execute(&self) -> (r: bool)
        ensures
            r == !self@.manual_stop,
    {
        !self.manual_stop
    }

    /// Whether a scheduler should stop stepping the engine for good.
    pub fn should_kill(&self) -> (r: bool)
        ensures
            r == self@.manual_kill,
    {
        self.manual_kill
    }

    /// Pauses (`true`) or resumes (`false`) the engine.
    pub fn set_manual_stop(&mut self, value: bool)
        requires
            old(self).wf(),
        ensures
            final(self).wf(),
            final(self)@ == with_manual_stop(old(self)@, value),
    {
        self.manual_stop = value;
    }

    /// Sets the kill flag.
    pub fn set_manual_kill(&mut self, value: bool)
        requires
            old(self).wf(),
        ensures
            final(self).wf(),
            final(self)@ == with_manual_kill(old(self)@, value),
    {
        self.manual_kill = value;
    }

    /// The pause flag.
    pub fn get_manual_stop(&self) -> (r: bool)
        ensures
            r == self@.manual_stop,
    {
        self.manual_stop
    }

    /// The kill flag.
    pub fn get_manual_kill(&self) -> (r: bool)
        ensures
            r == self@.manual_kill,
    {
        self.manual_kill
    }
}

/// Conway's rule on one cell, from its state and its live neighbour count.
fn next_state(alive: bool, n: u8) -> (r: bool)
    ensures
        r == next_cell(alive, n as nat),
{
    match (alive, n) {
        (true, 2) | (true, 3) => true,
        (false, 3) => true,
        _ => false,
    }
}


} // verus!
