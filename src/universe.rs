//! The universe: a toroidal grid of cells and the generation step.

use crate::bits::{
    bits_of, bitset_blocks, bitset_contains, bitset_len, bitset_set, bitset_with_capacity,
    draw_percent, string_of_chars,
};
use fixedbitset::FixedBitSet;
use vstd::arithmetic::div_mod::{lemma_mod_add_multiples_vanish, lemma_mod_self_0, lemma_small_mod};
use vstd::prelude::*;

verus! {

/// The mathematical state of a universe: its dimensions and its cells in
/// row-major order, `true` for a live cell.
pub ghost struct Grid {
    pub width: nat,
    pub height: nat,
    pub cells: Seq<bool>,
}

/// A draw below this percentage makes a live cell.
pub const ALIVE_PERCENT: u32 = 54;

impl Grid {
    /// Positive dimensions whose product fits in `u32`, and one cell per position.
    pub open spec fn well_formed(self) -> bool {
        &&& self.width >= 1
        &&& self.height >= 1
        &&& self.width * self.height <= u32::MAX
        &&& self.cells.len() == self.width * self.height
    }

    /// Whether the cell at an in-range position is alive.
    pub open spec fn alive(self, row: int, column: int) -> bool {
        self.cells[index_of(self.width as int, row, column)]
    }

    /// 1 for a live cell, 0 for a dead one.
    pub open spec fn live(self, row: int, column: int) -> int {
        if self.alive(row, column) { 1 } else { 0 }
    }

    /// The live cells among the eight neighbours, rows and columns wrapping around.
    pub open spec fn live_neighbors(self, row: int, column: int) -> int {
        let (h, w) = (self.height as int, self.width as int);
        let (up, down) = (wrap(row - 1, h), wrap(row + 1, h));
        let (left, right) = (wrap(column - 1, w), wrap(column + 1, w));
        self.live(up, left) + self.live(up, column) + self.live(up, right)
            + self.live(row, left) + self.live(row, right)
            + self.live(down, left) + self.live(down, column) + self.live(down, right)
    }

    /// The state of a cell in the next generation.
    pub open spec fn next_alive(self, row: int, column: int) -> bool {
        next_state(self.alive(row, column), self.live_neighbors(row, column))
    }
}

/// Row-major position of a cell.
pub open spec fn index_of(width: int, row: int, column: int) -> int {
    row * width + column
}

/// A coordinate at most one step outside `[0, dim)`, brought back onto the torus.
pub open spec fn wrap(x: int, dim: int) -> int {
    (x + dim) % dim
}

/// Conway's rule: a live cell survives with two or three live neighbours, a
/// dead cell is born with exactly three; every other cell is dead.
pub open spec fn next_state(alive: bool, live_neighbors: int) -> bool {
    if alive {
        live_neighbors == 2 || live_neighbors == 3
    } else {
        live_neighbors == 3
    }
}

/// The glyph drawn for a cell.
pub open spec fn glyph(alive: bool) -> char {
    if alive { '◼' } else { '◻' }
}

/// One row of glyphs followed by a line break.
pub open spec fn row_text(g: Grid, row: int) -> Seq<char> {
    Seq::new(g.width, |c: int| glyph(g.alive(row, c))).push('\n')
}

/// The first `n` rows of glyphs, top to bottom.
pub open spec fn rows_text(g: Grid, n: nat) -> Seq<char>
    decreases n,
{
    if n == 0 {
        Seq::empty()
    } else {
        rows_text(g, (n - 1) as nat) + row_text(g, n - 1)
    }
}

proof fn lemma_wrap(x: int, dim: int)
    requires
        dim >= 1,
        -1 <= x <= dim,
    ensures
        wrap(x, dim) == if x < 0 { dim - 1 } else if x == dim { 0 } else { x },
{
    if x < 0 {
        lemma_small_mod((x + dim) as nat, dim as nat);
    } else if x == dim {
        lemma_mod_add_multiples_vanish(dim, dim);
        lemma_mod_self_0(dim);
    } else {
        lemma_mod_add_multiples_vanish(x, dim);
        lemma_small_mod(x as nat, dim as nat);
    }
}

proof fn lemma_index_in_range(width: int, height: int, row: int, column: int)
    requires
        0 <= row < height,
        0 <= column < width,
    ensures
        0 <= index_of(width, row, column) < width * height,
{
    assert(row * width + column < width * height) by (nonlinear_arith)
        requires
            0 <= row < height,
            0 <= column < width,
    ;
    assert(0 <= row * width) by (nonlinear_arith)
        requires
            0 <= row,
            0 <= column < width,
    ;
}

/// A grid of cells on a torus.
pub struct Universe {
    width: u32,
    height: u32,
    cells: FixedBitSet,
}

impl View for Universe {
    type V = Grid;

    closed spec fn view(&self) -> Grid {
        Grid { width: self.width as nat, height: self.height as nat, cells: bits_of(self.cells) }
    }
}

impl Universe {
    /// A universe whose cells are the given ones, in row-major order.
    pub fn from_cells(width: u32, height: u32, cells: &Vec<bool>) -> (r: Universe)
        requires
            width >= 1,
            height >= 1,
            width * height <= u32::MAX,
            cells@.len() == width * height,
        ensures
            r@ == (Grid { width: width as nat, height: height as nat, cells: cells@ }),
    {
        let n: usize = cells.len();
        let mut bits = bitset_with_capacity(n);
        let mut i: usize = 0;
        while i < n
            invariant
                n == cells@.len(),
                i <= n,
                bits_of(bits).len() == n,
                forall|j: int| 0 <= j < i ==> #[trigger] bits_of(bits)[j] == cells@[j],
            decreases n - i,
        {
            bitset_set(&mut bits, i, cells[i]);
            i = i + 1;
        }
        assert(bits_of(bits) =~= cells@);
        Universe { width, height, cells: bits }
    }

    /// A universe filled from one draw below 100 per cell: a cell is alive
    /// when its draw is below `ALIVE_PERCENT`.
    pub fn from_draws(width: u32, height: u32, draws: &Vec<u32>) -> (r: Universe)
        requires
            width >= 1,
            height >= 1,
            width * height <= u32::MAX,
            draws@.len() == width * height,
        ensures
            r@.width == width,
            r@.height == height,
            r@.cells.len() == draws@.len(),
            forall|i: int| 0 <= i < draws@.len() ==> #[trigger] r@.cells[i] == (draws@[i] < ALIVE_PERCENT),
    {
        let n: usize = draws.len();
        let mut bits = bitset_with_capacity(n);
        let mut i: usize = 0;
        while i < n
            invariant
                n == draws@.len(),
                i <= n,
                bits_of(bits).len() == n,
                forall|j: int| 0 <= j < i ==> #[trigger] bits_of(bits)[j] == (draws@[j] < ALIVE_PERCENT),
            decreases n - i,
        {
            bitset_set(&mut bits, i, draws[i] < ALIVE_PERCENT);
            i = i + 1;
        }
        Universe { width, height, cells: bits }
    }

    /// A universe whose cells are each alive with a chance of `ALIVE_PERCENT` in 100.
    pub fn new(width: u32, height: u32) -> (r: Universe)
        requires
            width >= 1,
            height >= 1,
            width * height <= u32::MAX,
        ensures
            r@.well_formed(),
            r@.width == width,
            r@.height == height,
    {
        let n: u32 = width * height;
        let mut draws: Vec<u32> = Vec::new();
        let mut i: u32 = 0;
        while i < n
            invariant
                i <= n,
                draws@.len() == i,
            decreases n - i,
        {
            draws.push(draw_percent());
            i = i + 1;
        }
        Universe::from_draws(width, height, &draws)
    }

    pub open spec fn wf(&self) -> bool {
        self@.well_formed()
    }

    pub fn width(&self) -> (r: u32)
        ensures
            r == self@.width,
    {
        self.width
    }

    pub fn height(&self) -> (r: u32)
        ensures
            r == self@.height,
    {
        self.height
    }

    /// The cells as 32-bit blocks, for a host that draws them; bit `k % 32`
    /// of block `k / 32` is cell `k`.
    pub fn cells(&self) -> (r: &[u32])
        ensures
            r@.len() == (self@.cells.len() + 31) / 32,
            forall|k: int|
                0 <= k < self@.cells.len() ==> #[trigger] self@.cells[k] == ((r@[k / 32] >> ((k
                    % 32) as u32)) & 1u32 == 1u32),
    {
        bitset_blocks(&self.cells)
    }

    /// Sets the cell at a row-major index.
    pub fn set_cell(&mut self, index: usize, alive: bool)
        requires
            old(self).wf(),
            index < old(self)@.cells.len(),
        ensures
            final(self)@ == (Grid { cells: old(self)@.cells.update(index as int, alive), ..old(self)@ }),
    {
        bitset_set(&mut self.cells, index, alive);
    }

    /// Row-major index of a cell.
    pub fn get_index(&self, row: u32, column: u32) -> (r: usize)
        requires
            self.wf(),
            row < self@.height,
            column < self@.width,
        ensures
            r == index_of(self@.width as int, row as int, column as int),
            r < self@.cells.len(),
    {
        proof {
            lemma_index_in_range(self.width as int, self.height as int, row as int, column as int);
        }
        (row * self.width + column) as usize
    }

    /// The number of live cells among the eight neighbours of a cell, on the torus.
    pub fn get_cell_live_neighbors(&self, row: u32, column: u32) -> (r: u8)
        requires
            self.wf(),
            row < self@.height,
            column < self@.width,
        ensures
            r == self@.live_neighbors(row as int, column as int),
    {
        let h = self.height;
        let w = self.width;
        let up: u32 = if row == 0 { h - 1 } else { row - 1 };
        let down: u32 = if row + 1 == h { 0 } else { row + 1 };
        let left: u32 = if column == 0 { w - 1 } else { column - 1 };
        let right: u32 = if column + 1 == w { 0 } else { column + 1 };
        proof {
            lemma_wrap(row - 1, h as int);
            lemma_wrap(row + 1, h as int);
            lemma_wrap(column - 1, w as int);
            lemma_wrap(column + 1, w as int);
        }
        let mut count: u8 = 0;
        if self.alive_at(up, left) { count = count + 1; }
        if self.alive_at(up, column) { count = count + 1; }
        if self.alive_at(up, right) { count = count + 1; }
        if self.alive_at(row, left) { count = count + 1; }
        if self.alive_at(row, right) { count = count + 1; }
        if self.alive_at(down, left) { count = count + 1; }
        if self.alive_at(down, column) { count = count + 1; }
        if self.alive_at(down, right) { count = count + 1; }
        count
    }

    fn alive_at(&self, row: u32, column: u32) -> (r: bool)
        requires
            self.wf(),
            row < self@.height,
            column < self@.width,
        ensures
            r == self@.alive(row as int, column as int),
    {
        let i = self.get_index(row, column);
        bitset_contains(&self.cells, i)
    }

    /// Advances one generation: every cell's next state is computed from the
    /// current grid into fresh storage, which then replaces the cells.
    pub fn tick(&mut self)
        requires
            old(self).wf(),
        ensures
            final(self).wf(),
            final(self)@.width == old(self)@.width,
            final(self)@.height == old(self)@.height,
            forall|row: int, column: int|
                0 <= row < old(self)@.height && 0 <= column < old(self)@.width
                    ==> #[trigger] final(self)@.alive(row, column) == old(self)@.next_alive(row, column),
    {
        let h = self.height;
        let w = self.width;
        let mut next = bitset_with_capacity(bitset_len(&self.cells));
        let mut row: u32 = 0;
        while row < h
            invariant
                self.wf(),
                h == self@.height,
                w == self@.width,
                row <= h,
                bits_of(next).len() == self@.cells.len(),
                forall|r: int, c: int|
                    0 <= r < row && 0 <= c < w ==> #[trigger] bits_of(next)[index_of(w as int, r, c)]
                        == self@.next_alive(r, c),
            decreases h - row,
        {
            let mut column: u32 = 0;
            while column < w
                invariant
                    self.wf(),
                    h == self@.height,
                    w == self@.width,
                    row < h,
                    column <= w,
                    bits_of(next).len() == self@.cells.len(),
                    forall|r: int, c: int|
                        (0 <= r < row && 0 <= c < w) || (r == row && 0 <= c < column)
                            ==> #[trigger] bits_of(next)[index_of(w as int, r, c)] == self@.next_alive(r, c),
                decreases w - column,
            {
                let index = self.get_index(row, column);
                let cell = bitset_contains(&self.cells, index);
                let count = self.get_cell_live_neighbors(row, column);
                let next_cell = if cell { count == 2 || count == 3 } else { count == 3 };
                let ghost prev = bits_of(next);
                bitset_set(&mut next, index, next_cell);
                proof {
                    assert(next_cell == self@.next_alive(row as int, column as int));
                    assert forall|r: int, c: int|
                        (0 <= r < row && 0 <= c < w) || (r == row && 0 <= c <= column)
                        implies #[trigger] bits_of(next)[index_of(w as int, r, c)] == self@.next_alive(r, c) by {
                        if r == row && c == column {
                        } else {
                            lemma_index_order(w as int, r, c, row as int, column as int);
                            assert(bits_of(next)[index_of(w as int, r, c)] == prev[index_of(w as int, r, c)]);
                        }
                    }
                }
                column = column + 1;
            }
            row = row + 1;
        }
        self.cells = next;
    }

    /// The grid as text: one glyph per cell, each row ended by a line break.
    pub fn render(&self) -> (r: String)
        requires
            self.wf(),
        ensures
            r@ == rows_text(self@, self@.height),
    {
        let mut text: Vec<char> = Vec::new();
        let mut row: u32 = 0;
        while row < self.height
            invariant
                self.wf(),
                row <= self@.height,
                text@ == rows_text(self@, row as nat),
            decreases self@.height - row,
        {
            let ghost before = text@;
            let mut column: u32 = 0;
            while column < self.width
                invariant
                    self.wf(),
                    row < self@.height,
                    column <= self@.width,
                    text@ == before + Seq::new(column as nat, |c: int| glyph(self@.alive(row as int, c))),
                decreases self@.width - column,
            {
                let alive = self.alive_at(row, column);
                text.push(if alive { '◼' } else { '◻' });
                assert(text@ =~= before + Seq::new((column + 1) as nat, |c: int| glyph(self@.alive(row as int, c))));
                column = column + 1;
            }
            text.push('\n');
            assert(text@ =~= rows_text(self@, (row + 1) as nat));
            row = row + 1;
        }
        string_of_chars(text)
    }
}

/// On a grid where every cell is dead, every cell has no live neighbour and
/// stays dead in the next generation.
pub proof fn lemma_all_dead_is_fixed(g: Grid)
    requires
        g.well_formed(),
        forall|i: int| 0 <= i < g.cells.len() ==> !#[trigger] g.cells[i],
    ensures
        forall|row: int, column: int|
            0 <= row < g.height && 0 <= column < g.width ==> #[trigger] g.live_neighbors(row, column) == 0,
        forall|row: int, column: int|
            0 <= row < g.height && 0 <= column < g.width ==> !#[trigger] g.next_alive(row, column),
{
    assert forall|row: int, column: int|
        0 <= row < g.height && 0 <= column < g.width implies #[trigger] g.live_neighbors(row, column) == 0 by {
        let (h, w) = (g.height as int, g.width as int);
        lemma_wrap(row - 1, h);
        lemma_wrap(row + 1, h);
        lemma_wrap(column - 1, w);
        lemma_wrap(column + 1, w);
        let rows = seq![wrap(row - 1, h), row, wrap(row + 1, h)];
        let cols = seq![wrap(column - 1, w), column, wrap(column + 1, w)];
        assert forall|a: int, b: int| 0 <= a < 3 && 0 <= b < 3 implies #[trigger] g.live(rows[a], cols[b]) == 0 by {
            lemma_index_in_range(w, h, rows[a], cols[b]);
        }
        assert(g.live(rows[0], cols[0]) == 0 && g.live(rows[0], cols[1]) == 0 && g.live(rows[0], cols[2]) == 0);
        assert(g.live(rows[1], cols[0]) == 0 && g.live(rows[1], cols[2]) == 0);
        assert(g.live(rows[2], cols[0]) == 0 && g.live(rows[2], cols[1]) == 0 && g.live(rows[2], cols[2]) == 0);
    }
}

/// The rule of one generation: a live cell stays alive exactly with two or
/// three live neighbours, a dead cell becomes alive exactly with three, and
/// every other cell is dead afterwards.
pub proof fn lemma_rule_table(g: Grid, row: int, column: int)
    requires
        g.well_formed(),
        0 <= row < g.height,
        0 <= column < g.width,
    ensures
        g.alive(row, column) && (g.live_neighbors(row, column) == 2 || g.live_neighbors(row, column) == 3)
            ==> g.next_alive(row, column),
        !g.alive(row, column) && g.live_neighbors(row, column) == 3 ==> g.next_alive(row, column),
        g.next_alive(row, column) ==> (g.alive(row, column) && g.live_neighbors(row, column) == 2)
            || g.live_neighbors(row, column) == 3,
{
}

/// Whether a cell lies in the two-by-two block whose top-left cell is at
/// `(top, left_col)`.
pub open spec fn in_block(top: int, left_col: int, row: int, column: int) -> bool {
    top <= row <= top + 1 && left_col <= column <= left_col + 1
}

/// A two-by-two block of live cells with every other cell dead, on a grid of
/// at least four rows and four columns, is left unchanged by a generation.
pub proof fn lemma_block_is_still_life(g: Grid, top: int, left_col: int)
    requires
        g.well_formed(),
        g.height >= 4,
        g.width >= 4,
        0 <= top && top + 1 < g.height,
        0 <= left_col && left_col + 1 < g.width,
        forall|row: int, column: int|
            0 <= row < g.height && 0 <= column < g.width ==> #[trigger] g.alive(row, column) == in_block(
                top,
                left_col,
                row,
                column,
            ),
    ensures
        forall|row: int, column: int|
            0 <= row < g.height && 0 <= column < g.width ==> #[trigger] g.next_alive(row, column) == g.alive(
                row,
                column,
            ),
{
    assert forall|row: int, column: int|
        0 <= row < g.height && 0 <= column < g.width implies #[trigger] g.next_alive(row, column) == g.alive(
            row,
            column,
        ) by {
        let (h, w) = (g.height as int, g.width as int);
        lemma_wrap(row - 1, h);
        lemma_wrap(row + 1, h);
        lemma_wrap(column - 1, w);
        lemma_wrap(column + 1, w);
        let rows = seq![wrap(row - 1, h), row, wrap(row + 1, h)];
        let cols = seq![wrap(column - 1, w), column, wrap(column + 1, w)];
        assert forall|a: int, b: int| 0 <= a < 3 && 0 <= b < 3 implies #[trigger] g.live(rows[a], cols[b]) == if in_block(
            top,
            left_col,
            rows[a],
            cols[b],
        ) {
            1int
        } else {
            0int
        } by {
            assert(g.alive(rows[a], cols[b]) == in_block(top, left_col, rows[a], cols[b]));
        }
        assert(g.live(rows[0], cols[0]) == if in_block(top, left_col, rows[0], cols[0]) { 1int } else { 0int });
        assert(g.live(rows[0], cols[1]) == if in_block(top, left_col, rows[0], cols[1]) { 1int } else { 0int });
        assert(g.live(rows[0], cols[2]) == if in_block(top, left_col, rows[0], cols[2]) { 1int } else { 0int });
        assert(g.live(rows[1], cols[0]) == if in_block(top, left_col, rows[1], cols[0]) { 1int } else { 0int });
        assert(g.live(rows[1], cols[2]) == if in_block(top, left_col, rows[1], cols[2]) { 1int } else { 0int });
        assert(g.live(rows[2], cols[0]) == if in_block(top, left_col, rows[2], cols[0]) { 1int } else { 0int });
        assert(g.live(rows[2], cols[1]) == if in_block(top, left_col, rows[2], cols[1]) { 1int } else { 0int });
        assert(g.live(rows[2], cols[2]) == if in_block(top, left_col, rows[2], cols[2]) { 1int } else { 0int });
        assert(g.alive(row, column) == in_block(top, left_col, row, column));
    }
}

proof fn lemma_index_order(width: int, r: int, c: int, row: int, column: int)
    requires
        0 <= c < width,
        0 <= column < width,
        0 <= r <= row,
        r < row || c < column,
    ensures
        index_of(width, r, c) < index_of(width, row, column),
{
    if r < row {
        assert(r * width + c < row * width + column) by (nonlinear_arith)
            requires
                0 <= c < width,
                0 <= column,
                r < row,
        ;
    }
}

} // verus!
