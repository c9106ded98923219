//! The inner automaton: one bounded board under the rule of life.

use crate::grid::{byte_rows, ByteGrid};
use crate::model::{
    alive_at, bit_table, board_of, has_life, hits, lives_on, neighbours, next_board, population,
    row_population, seeded_board, square, tally, Board,
};
use crate::random::{continues, drawn_since, RandomSource, ThreadSource};
use vstd::prelude::*;

verus! {

/// Decides whether a draw counts as a success at chance `vie`.
pub fn draw_hits(draw: u64, vie: u64) -> (hit: bool)
    ensures
        hit == hits(draw, vie),
{
    draw / 2048 < vie
}

/// The bit one step from `(x, y)`: `dx` and `dy` are 0 for the row or column
/// before, 1 for the same and 2 for the one after. A place off the table
/// gives 0.
fn bit_beside(grid: &ByteGrid, side: usize, x: usize, y: usize, dx: u8, dy: u8) -> (bit: u8)
    requires
        bit_table(byte_rows(*grid), side as nat),
        x < side,
        y < side,
        dx <= 2,
        dy <= 2,
    ensures
        bit == tally(alive_at(board_of(byte_rows(*grid)), x + dx - 1, y + dy - 1)),
{
    if (dx == 0 && x == 0) || (dy == 0 && y == 0) {
        return 0;
    }
    if (dx == 2 && x + 1 >= side) || (dy == 2 && y + 1 >= side) {
        return 0;
    }
    let row: usize = if dx == 0 {
        x - 1
    } else if dx == 1 {
        x
    } else {
        x + 1
    };
    let column: usize = if dy == 0 {
        y - 1
    } else if dy == 1 {
        y
    } else {
        y + 1
    };
    grid.get(row, column)
}

/// Counts the living cells around `(x, y)` in a table of bits.
pub(crate) fn live_neighbors(grid: &ByteGrid, side: usize, x: usize, y: usize) -> (count: u8)
    requires
        bit_table(byte_rows(*grid), side as nat),
        x < side,
        y < side,
    ensures
        count == neighbours(board_of(byte_rows(*grid)), x as int, y as int),
        count <= 8,
{
    let above: u8 = bit_beside(grid, side, x, y, 0, 0) + bit_beside(grid, side, x, y, 0, 1)
        + bit_beside(grid, side, x, y, 0, 2);
    let beside: u8 = bit_beside(grid, side, x, y, 1, 0) + bit_beside(grid, side, x, y, 1, 2);
    let below: u8 = bit_beside(grid, side, x, y, 2, 0) + bit_beside(grid, side, x, y, 2, 1)
        + bit_beside(grid, side, x, y, 2, 2);
    above + beside + below
}

/// Whether a board of `side` rows can be held in memory: its number of
/// cells must not exceed `isize::MAX`.
pub open spec fn board_fits(side: usize) -> bool {
    side * side <= isize::MAX
}

/// In row-major order, an earlier place has the smaller index.
pub proof fn lemma_row_major_order(r: int, c: int, i: int, j: int, side: int)
    requires
        0 <= r,
        0 <= c < side,
        0 <= j <= side,
        r < i || (r == i && c < j),
    ensures
        0 <= r * side + c < i * side + j,
{
    assert(0 <= r * side) by (nonlinear_arith)
        requires
            0 <= r,
            0 <= side,
    ;
    if r < i {
        assert(r * side + side <= i * side) by (nonlinear_arith)
            requires
                r + 1 <= i,
                0 <= side,
        ;
    }
}

/// The inner automaton: a square board of cells that are alive or dead, and
/// the chance at which a cell is seeded alive.
#[derive(Debug)]
pub struct GameOfLife {
    n: usize,
    vie: u64,
    grid: ByteGrid,
}

impl View for GameOfLife {
    type V = Board;

    /// The board, row by row.
    closed spec fn view(&self) -> Board {
        board_of(byte_rows(self.grid))
    }
}

impl Clone for GameOfLife {
    /// A second automaton with the same board and the same chance.
    fn clone(&self) -> (copy: Self)
        ensures
            copy@ == self@,
            copy.side() == self.side(),
            copy.chance() == self.chance(),
            self.wf() ==> copy.wf(),
    {
        GameOfLife { n: self.n, vie: self.vie, grid: self.grid.copy() }
    }
}

impl GameOfLife {
    /// The invariant of the type: the table is `side` by `side`, holds only
    /// 0 and 1, and fits in memory.
    pub closed spec fn wf(&self) -> bool {
        &&& bit_table(byte_rows(self.grid), self.n as nat)
        &&& board_fits(self.n)
    }

    /// The number of rows, which is also the number of columns.
    pub closed spec fn side(&self) -> nat {
        self.n as nat
    }

    /// The chance at which the board was seeded.
    pub closed spec fn chance(&self) -> u64 {
        self.vie
    }

    /// A well-formed automaton shows a square board of its own side.
    pub proof fn lemma_view_is_square(&self)
        requires
            self.wf(),
        ensures
            square(self@, self.side()),
            board_fits(self.side() as usize),
            self.side() <= usize::MAX,
    {
    }

    /// Decides whether a board of `n` rows fits in memory.
    pub fn fits(n: usize) -> (ok: bool)
        ensures
            ok == board_fits(n),
    {
        match n.checked_mul(n) {
            Some(cells) => cells <= isize::MAX as usize,
            None => false,
        }
    }

    /// Seeds a board of `n` rows from the thread-local generator: each cell
    /// is alive with chance `vie`, independently of the others.
    pub fn new(n: usize, vie: u64) -> (life: Self)
        requires
            board_fits(n),
        ensures
            life.wf(),
            life.side() == n,
            life.chance() == vie,
            square(life@, n as nat),
            exists|draws: Seq<u64>|
                draws.len() == n * n && life@ == #[trigger] seeded_board(n as nat, vie, draws),
    {
        let mut rng = ThreadSource::new();
        let life = Self::new_with(n, vie, &mut rng);
        assert(rng.drawn().skip(0) =~= rng.drawn());
        life
    }

    /// Seeds a board of `n` rows from `rng`. The cells take one draw each, in
    /// row-major order, and a cell is alive when its draw hits at chance
    /// `vie`.
    pub fn new_with<R: RandomSource>(n: usize, vie: u64, rng: &mut R) -> (life: Self)
        requires
            board_fits(n),
        ensures
            life.wf(),
            life.side() == n,
            life.chance() == vie,
            square(life@, n as nat),
            continues(*old(rng), *final(rng)),
            drawn_since(*old(rng), *final(rng)).len() == n * n,
            life@ == seeded_board(n as nat, vie, drawn_since(*old(rng), *final(rng))),
    {
        let ghost before = rng.drawn();
        let mut grid = ByteGrid::filled(n, 0);
        let mut i: usize = 0;
        while i < n
            invariant
                i <= n,
                bit_table(byte_rows(grid), n as nat),
                before.is_prefix_of(rng.drawn()),
                rng.drawn().len() == before.len() + i * n,
                forall|r: int, c: int|
                    0 <= r < i && 0 <= c < n ==> (#[trigger] byte_rows(grid)[r][c] == 1) == hits(
                        rng.drawn()[before.len() + r * n + c],
                        vie,
                    ),
                forall|r: int, c: int|
                    i <= r < n && 0 <= c < n ==> #[trigger] byte_rows(grid)[r][c] == 0,
            decreases n - i,
        {
            let mut j: usize = 0;
            while j < n
                invariant
                    i < n,
                    j <= n,
                    bit_table(byte_rows(grid), n as nat),
                    before.is_prefix_of(rng.drawn()),
                    rng.drawn().len() == before.len() + i * n + j,
                    forall|r: int, c: int|
                        0 <= r <= i && 0 <= c < n && (r < i || c < j) ==> (
                        #[trigger] byte_rows(grid)[r][c] == 1) == hits(
                            rng.drawn()[before.len() + r * n + c],
                            vie,
                        ),
                    forall|r: int, c: int|
                        i <= r < n && 0 <= c < n && (r > i || c >= j)
                            ==> #[trigger] byte_rows(grid)[r][c] == 0,
                decreases n - j,
            {
                let ghost earlier = rng.drawn();
                let ghost rows = byte_rows(grid);
                let draw = rng.next_draw();
                if draw_hits(draw, vie) {
                    grid.set(i, j, 1);
                }
                proof {
                    assert forall|r: int, c: int|
                        0 <= r <= i && 0 <= c < n && (r < i || c < j + 1) implies (
                    #[trigger] byte_rows(grid)[r][c] == 1) == hits(
                        rng.drawn()[before.len() + r * n + c],
                        vie,
                    ) by {
                        if r < i || c < j {
                            lemma_row_major_order(r, c, i as int, j as int, n as int);
                            assert(rows[r][c] == byte_rows(grid)[r][c]);
                            assert(earlier[before.len() + r * n + c] == rng.drawn()[before.len()
                                + r * n + c]);
                        }
                    }
                }
                j += 1;
            }
            proof {
                assert(i * n + n == (i + 1) * n) by (nonlinear_arith);
            }
            i += 1;
        }
        let life = GameOfLife { n, vie, grid };
        proof {
            let fresh = rng.drawn().skip(before.len() as int);
            assert(n * n == i * n);
            assert forall|r: int, c: int| 0 <= r < n && 0 <= c < n implies life@[r][c]
                == seeded_board(n as nat, vie, fresh)[r][c] by {
                lemma_row_major_order(r, c, n as int, 0, n as int);
                assert(byte_rows(grid)[r][c] == 1 <==> hits(
                    rng.drawn()[before.len() + r * n + c],
                    vie,
                ));
            }
            assert(life@ =~~= seeded_board(n as nat, vie, fresh));
        }
        life
    }

    /// Advances the board by one generation. Every cell is judged against the
    /// board as it stood before the call.
    pub fn step(&mut self)
        requires
            old(self).wf(),
        ensures
            final(self).wf(),
            final(self).side() == old(self).side(),
            final(self).chance() == old(self).chance(),
            square(final(self)@, old(self).side()),
            final(self)@ == next_board(old(self)@),
    {
        let n = self.n;
        let ghost board = self@;
        let mut new_grid = ByteGrid::filled(n, 0);
        let mut i: usize = 0;
        while i < n
            invariant
                i <= n,
                n == self.n,
                self.wf(),
                board == self@,
                bit_table(byte_rows(new_grid), n as nat),
                forall|r: int, c: int|
                    0 <= r < i && 0 <= c < n ==> (#[trigger] byte_rows(new_grid)[r][c] == 1)
                        == lives_on(board[r][c], neighbours(board, r, c)),
            decreases n - i,
        {
            let mut j: usize = 0;
            while j < n
                invariant
                    i < n,
                    j <= n,
                    n == self.n,
                    self.wf(),
                    board == self@,
                    bit_table(byte_rows(new_grid), n as nat),
                    forall|r: int, c: int|
                        0 <= r <= i && 0 <= c < n && (r < i || c < j) ==> (
                        #[trigger] byte_rows(new_grid)[r][c] == 1) == lives_on(
                            board[r][c],
                            neighbours(board, r, c),
                        ),
                decreases n - j,
            {
                let ghost rows = byte_rows(new_grid);
                let neighbor = self.neighbor_active_count(i, j);
                let value: u8 = if self.grid.get(i, j) == 1 {
                    if neighbor == 2 || neighbor == 3 {
                        1
                    } else {
                        0
                    }
                } else {
                    if neighbor == 3 {
                        1
                    } else {
                        0
                    }
                };
                new_grid.set(i, j, value);
                proof {
                    assert forall|r: int, c: int|
                        0 <= r <= i && 0 <= c < n && (r < i || c < j + 1) implies (
                    #[trigger] byte_rows(new_grid)[r][c] == 1) == lives_on(
                        board[r][c],
                        neighbours(board, r, c),
                    ) by {
                        if r < i || c < j {
                            assert(rows[r][c] == byte_rows(new_grid)[r][c]);
                        }
                    }
                }
                j += 1;
            }
            i += 1;
        }
        self.grid = new_grid;
        proof {
            assert(self@ =~~= next_board(board));
        }
    }

    /// Counts the living cells around `(x, y)`. Places beyond an edge count
    /// as dead.
    pub fn neighbor_active_count(&self, x: usize, y: usize) -> (count: u8)
        requires
            self.wf(),
            x < self.side(),
            y < self.side(),
        ensures
            count == neighbours(self@, x as int, y as int),
            count <= 8,
    {
        live_neighbors(&self.grid, self.n, x, y)
    }

    /// The table of cells: 1 for alive, 0 for dead.
    pub fn get_grid(&self) -> (grid: &ByteGrid)
        ensures
            board_of(byte_rows(*grid)) == self@,
            self.wf() ==> bit_table(byte_rows(*grid), self.side()),
    {
        &self.grid
    }

    /// The number of rows, which is also the number of columns.
    pub fn get_grid_size(&self) -> (side: usize)
        ensures
            side == self.side(),
    {
        self.n
    }

    /// Whether the cell in row `i`, column `j` is alive.
    pub fn is_alive(&self, i: usize, j: usize) -> (alive: bool)
        requires
            self.wf(),
            i < self.side(),
            j < self.side(),
        ensures
            alive == self@[i as int][j as int],
    {
        self.grid.get(i, j) == 1
    }

    /// Whether any cell is alive.
    pub fn has_alive(&self) -> (alive: bool)
        requires
            self.wf(),
        ensures
            alive == has_life(self@),
    {
        let n = self.n;
        let mut i: usize = 0;
        while i < n
            invariant
                i <= n,
                n == self.n,
                self.wf(),
                forall|r: int, c: int| 0 <= r < i && 0 <= c < n ==> !self@[r][c],
            decreases n - i,
        {
            let mut j: usize = 0;
            while j < n
                invariant
                    i < n,
                    j <= n,
                    n == self.n,
                    self.wf(),
                    forall|r: int, c: int|
                        0 <= r <= i && 0 <= c < n && (r < i || c < j) ==> !self@[r][c],
                decreases n - j,
            {
                if self.grid.get(i, j) == 1 {
                    assert(alive_at(self@, i as int, j as int));
                    return true;
                }
                j += 1;
            }
            i += 1;
        }
        assert forall|r: int, c: int| !alive_at(self@, r, c) by {
            if 0 <= r < n && 0 <= c < n {
                assert(!self@[r][c]);
            }
        }
        false
    }

    /// The number of living cells.
    pub fn alive_count(&self) -> (count: usize)
        requires
            self.wf(),
        ensures
            count == population(self@),
            count <= self.side() * self.side(),
    {
        let n = self.n;
        let mut count: usize = 0;
        let mut i: usize = 0;
        while i < n
            invariant
                i <= n,
                n == self.n,
                self.wf(),
                count == population(self@.take(i as int)),
                count <= i * n,
            decreases n - i,
        {
            let ghost above = count;
            let mut j: usize = 0;
            while j < n
                invariant
                    i < n,
                    j <= n,
                    n == self.n,
                    self.wf(),
                    above == population(self@.take(i as int)),
                    above <= i * n,
                    count == above + row_population(self@[i as int].take(j as int)),
                    count <= i * n + j,
                decreases n - j,
            {
                proof {
                    assert(i * n + n <= n * n) by (nonlinear_arith)
                        requires
                            i + 1 <= n,
                    ;
                    let row = self@[i as int];
                    assert(row.take(j + 1).drop_last() =~= row.take(j as int));
                }
                if self.grid.get(i, j) == 1 {
                    count += 1;
                }
                j += 1;
            }
            proof {
                assert(i * n + n == (i + 1) * n) by (nonlinear_arith);
                assert(self@[i as int].take(n as int) =~= self@[i as int]);
                assert(self@.take(i + 1).drop_last() =~= self@.take(i as int));
            }
            i += 1;
        }
        proof {
            assert(self@.take(n as int) =~= self@);
        }
        count
    }
}

} // verus!
