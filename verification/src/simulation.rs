//! The outer automaton: a board whose cells are empty or hold an inner
//! automaton, and which lives by the signals of those automata.

use crate::density::{density_base, Density, DENSITY_WEIGHT};
use crate::grid::{byte_rows, cell_rows, world_fits, ByteGrid, CellGrid};
use crate::jeu_de_la_vie::{
    board_fits, draw_hits, lemma_row_major_order, live_neighbors, GameOfLife,
};
use crate::model::{
    births_above, births_before, bit_table, board_of, cell_lives, draws_to_seed, draws_to_step,
    fate, fate_at, hits, lemma_born_board_extends, lemma_seed_position_extends,
    lemma_seeded_cell_extends, liveness, neighbours, next_board, next_cell, next_world,
    seed_position, seeded_board, seeded_cell, seeded_world, square, Board, Fate, World,
};
use crate::random::{
    continues, drawn_since, lemma_prefix_chain, lemma_skip_keeps_prefix, RandomSource,
    ThreadSource,
};
use vstd::arithmetic::div_mod::{
    lemma_div_pos_is_pos, lemma_fundamental_div_mod, lemma_mod_bound, lemma_multiply_divide_lt,
};
use vstd::prelude::*;

verus! {

/// One cell of the outer automaton.
#[derive(Debug)]
pub enum Cell {
    /// The cell holds nothing.
    Empty,
    /// The cell holds an inner automaton of its own.
    Sim(Box<GameOfLife>),
}

impl View for Cell {
    type V = Option<Board>;

    /// Nothing for an empty cell, else the board of the inner automaton.
    open spec fn view(&self) -> Option<Board> {
        match self {
            Cell::Empty => None,
            Cell::Sim(life) => Some(life@),
        }
    }
}

impl Cell {
    /// Whether the cell, if it holds an automaton, holds a well-formed one of
    /// `side` rows.
    pub open spec fn wf(&self, side: nat) -> bool {
        self matches Cell::Sim(life) ==> life.wf() && life.side() == side
    }

    /// An empty cell.
    pub fn vacant() -> (cell: Cell)
        ensures
            cell == Cell::Empty,
    {
        Cell::Empty
    }

    /// Whether the cell holds an automaton with a living cell: the signal
    /// that its neighbours count.
    pub fn lives(&self) -> (alive: bool)
        requires
            self matches Cell::Sim(life) ==> life.wf(),
        ensures
            alive == cell_lives(self@),
    {
        match self {
            Cell::Sim(sim) => sim.has_alive(),
            _ => false,
        }
    }

    /// Takes the cell through one generation, given the number of its living
    /// neighbours. An inner automaton advances first. It is carried on when
    /// it still has life and `neighbors` is 2 or 3. Failing that, with
    /// `neighbors` at 3 the cell gets a fresh automaton of `small_n` rows,
    /// seeded from `rng` at chance `vie`. Otherwise the cell ends up empty.
    pub fn advance<R: RandomSource>(self, neighbors: u8, small_n: usize, vie: u64, rng: &mut R) -> (next: Cell)
        requires
            board_fits(small_n),
            self.wf(small_n as nat),
        ensures
            next.wf(small_n as nat),
            continues(*old(rng), *final(rng)),
            match fate(self@, neighbors as nat) {
                Fate::Vacant => next@ == None::<Board> && final(rng).drawn() == old(rng).drawn(),
                Fate::Carried => next@ == Some(next_board(self@.unwrap())) && final(rng).drawn()
                    == old(rng).drawn(),
                Fate::Born => next@ == Some(
                    seeded_board(small_n as nat, vie, drawn_since(*old(rng), *final(rng))),
                ) && drawn_since(*old(rng), *final(rng)).len() == small_n * small_n,
            },
    {
        match self {
            Cell::Empty => {
                if neighbors == 3 {
                    Cell::Sim(Box::new(GameOfLife::new_with(small_n, vie, rng)))
                } else {
                    Cell::Empty
                }
            },
            Cell::Sim(mut sim_box) => {
                sim_box.step();
                let alive = sim_box.has_alive();
                if alive && (neighbors == 2 || neighbors == 3) {
                    Cell::Sim(sim_box)
                } else {
                    if neighbors == 3 {
                        Cell::Sim(Box::new(GameOfLife::new_with(small_n, vie, rng)))
                    } else {
                        Cell::Empty
                    }
                }
            },
        }
    }
}

/// The world that a table of cells shows.
pub open spec fn world_of(rows: Seq<Seq<Cell>>) -> World {
    Seq::new(rows.len(), |i: int| Seq::new(rows[i].len(), |j: int| rows[i][j]@))
}

/// Whether every cell of a table of `big` rows is well-formed for inner
/// automata of `small` rows.
pub open spec fn cells_wf(rows: Seq<Seq<Cell>>, big: nat, small: nat) -> bool {
    forall|i: int, j: int| 0 <= i < big && 0 <= j < big ==> (#[trigger] rows[i][j]).wf(small)
}

/// Whether the cell now at `(r, c)` of the new table is what the generation
/// makes of the world there, with its draws already taken.
spec fn settled(
    cell: Cell,
    world: World,
    small: nat,
    vie: u64,
    fresh: Seq<u64>,
    r: int,
    c: int,
) -> bool {
    &&& cell.wf(small)
    &&& cell@ == next_cell(world, small, vie, fresh, r, c)
    &&& fate_at(world, r, c) is Born ==> (births_before(world, r, c) + 1) * (small * small)
        <= fresh.len()
}

/// A settled cell stays settled when more draws follow.
proof fn lemma_settled_extends(
    cell: Cell,
    world: World,
    small: nat,
    vie: u64,
    short: Seq<u64>,
    long: Seq<u64>,
    r: int,
    c: int,
)
    requires
        settled(cell, world, small, vie, short, r, c),
        short.is_prefix_of(long),
    ensures
        settled(cell, world, small, vie, long, r, c),
{
    if fate_at(world, r, c) is Born {
        let area = small * small;
        let start = births_before(world, r, c) * area;
        assert((births_before(world, r, c) + 1) * area == start + area) by (nonlinear_arith)
            requires
                start == births_before(world, r, c) * area,
        ;
        lemma_born_board_extends(small, vie, short, long, start);
    }
}

/// Whether the cell now at `(r, c)` of a table being seeded is what the draws
/// make of it, with its draws already taken.
spec fn sown(
    cell: Cell,
    big: nat,
    small: nat,
    vie: u64,
    fresh: Seq<u64>,
    r: int,
    c: int,
) -> bool {
    &&& cell.wf(small)
    &&& cell@ == seeded_cell(big, small, vie, fresh, r, c)
    &&& seed_position(big, small, vie, fresh, r, c + 1) <= fresh.len()
}

/// The outer automaton: a square board whose cells are empty or hold an
/// inner automaton each, all inner automata of one size and one chance.
#[derive(Debug)]
pub struct GameOfLifeInGameOfLife {
    big_n: usize,
    small_n: usize,
    vie: u64,
    big_grid: CellGrid,
}

impl View for GameOfLifeInGameOfLife {
    type V = World;

    /// The world, row by row.
    closed spec fn view(&self) -> World {
        world_of(cell_rows(self.big_grid))
    }
}

impl GameOfLifeInGameOfLife {
    /// The invariant of the type: the table is `side` by `side`, every inner
    /// automaton is well-formed with `inner_side` rows, and both levels fit in
    /// memory.
    pub closed spec fn wf(&self) -> bool {
        &&& square(cell_rows(self.big_grid), self.big_n as nat)
        &&& cells_wf(cell_rows(self.big_grid), self.big_n as nat, self.small_n as nat)
        &&& world_fits(self.big_n)
        &&& board_fits(self.small_n)
    }

    /// The number of rows of the outer board, which is also its number of
    /// columns.
    pub closed spec fn side(&self) -> nat {
        self.big_n as nat
    }

    /// The number of rows of every inner board.
    pub closed spec fn inner_side(&self) -> nat {
        self.small_n as nat
    }

    /// The chance at which cells are seeded, at construction and at every
    /// later birth.
    pub closed spec fn chance(&self) -> u64 {
        self.vie
    }

    /// A well-formed automaton shows a square world of its own side, and every
    /// inner board in it is square with the inner side.
    pub proof fn lemma_view_is_square(&self)
        requires
            self.wf(),
        ensures
            square(self@, self.side()),
            forall|i: int, j: int|
                0 <= i < self.side() && 0 <= j < self.side() ==> (#[trigger] self@[i][j] matches Some(
                    board,
                ) ==> square(board, self.inner_side())),
    {
        assert forall|i: int, j: int|
            0 <= i < self.side() && 0 <= j < self.side() implies (#[trigger] self@[i][j] matches Some(
            board,
        ) ==> square(board, self.inner_side())) by {
            let cell = cell_rows(self.big_grid)[i][j];
            assert(cell.wf(self.small_n as nat));
            if let Cell::Sim(life) = cell {
                life.lemma_view_is_square();
            }
        }
    }

    /// Decides whether a world of `big_n` rows, with inner boards of
    /// `small_n` rows, fits in memory.
    pub fn fits(big_n: usize, small_n: usize) -> (ok: bool)
        ensures
            ok == (world_fits(big_n) && board_fits(small_n)),
    {
        let world_ok = match big_n.checked_mul(big_n) {
            Some(cells) => cells <= isize::MAX as usize / 32,
            None => false,
        };
        world_ok && GameOfLife::fits(small_n)
    }

    /// Seeds a world of `big_n` rows from the thread-local generator: each
    /// cell is occupied with chance `vie`, and every inner automaton has
    /// `small_n` rows seeded at the same chance.
    pub fn new(big_n: usize, small_n: usize, vie: u64) -> (sim: Self)
        requires
            world_fits(big_n),
            board_fits(small_n),
        ensures
            sim.wf(),
            sim.side() == big_n,
            sim.inner_side() == small_n,
            sim.chance() == vie,
            square(sim@, big_n as nat),
            exists|draws: Seq<u64>|
                draws.len() == draws_to_seed(big_n as nat, small_n as nat, vie, draws) && sim@
                    == #[trigger] seeded_world(big_n as nat, small_n as nat, vie, draws),
    {
        let mut rng = ThreadSource::new();
        let sim = Self::new_with(big_n, small_n, vie, &mut rng);
        assert(rng.drawn().skip(0) =~= rng.drawn());
        sim
    }

    /// Seeds a world of `big_n` rows from `rng`.
    ///
    /// The cells are decided in row-major order. Each takes one draw and is
    /// occupied when that draw hits at chance `vie`; an occupied cell then
    /// seeds its inner automaton of `small_n` rows from the draws that
    /// follow, at the same chance.
    pub fn new_with<R: RandomSource>(big_n: usize, small_n: usize, vie: u64, rng: &mut R) -> (sim:
        Self)
        requires
            world_fits(big_n),
            board_fits(small_n),
        ensures
            sim.wf(),
            sim.side() == big_n,
            sim.inner_side() == small_n,
            sim.chance() == vie,
            square(sim@, big_n as nat),
            continues(*old(rng), *final(rng)),
            drawn_since(*old(rng), *final(rng)).len() == draws_to_seed(
                big_n as nat,
                small_n as nat,
                vie,
                drawn_since(*old(rng), *final(rng)),
            ),
            sim@ == seeded_world(
                big_n as nat,
                small_n as nat,
                vie,
                drawn_since(*old(rng), *final(rng)),
            ),
    {
        let ghost before = rng.drawn();
        let ghost big = big_n as nat;
        let ghost small = small_n as nat;
        let mut big_grid = CellGrid::vacant(big_n);
        assert(rng.drawn().skip(before.len() as int).len() == 0);
        let mut i: usize = 0;
        while i < big_n
            invariant
                i <= big_n,
                big == big_n as nat,
                small == small_n as nat,
                board_fits(small_n),
                square(cell_rows(big_grid), big),
                cells_wf(cell_rows(big_grid), big, small),
                forall|r: int, c: int|
                    i <= r < big && 0 <= c < big ==> #[trigger] cell_rows(big_grid)[r][c]
                        == Cell::Empty,
                forall|r: int, c: int|
                    0 <= r < i && 0 <= c < big ==> sown(
                        #[trigger] cell_rows(big_grid)[r][c],
                        big,
                        small,
                        vie,
                        rng.drawn().skip(before.len() as int),
                        r,
                        c,
                    ),
                before.is_prefix_of(rng.drawn()),
                rng.drawn().len() == before.len() + seed_position(
                    big,
                    small,
                    vie,
                    rng.drawn().skip(before.len() as int),
                    i as int,
                    0,
                ),
            decreases big_n - i,
        {
            let mut j: usize = 0;
            while j < big_n
                invariant
                    i < big_n,
                    j <= big_n,
                    big == big_n as nat,
                    small == small_n as nat,
                    board_fits(small_n),
                    square(cell_rows(big_grid), big),
                    cells_wf(cell_rows(big_grid), big, small),
                    forall|r: int, c: int|
                        i <= r < big && 0 <= c < big && (r > i || c >= j) ==> #[trigger] cell_rows(
                            big_grid,
                        )[r][c] == Cell::Empty,
                    forall|r: int, c: int|
                        0 <= r <= i && 0 <= c < big && (r < i || c < j) ==> sown(
                            #[trigger] cell_rows(big_grid)[r][c],
                            big,
                            small,
                            vie,
                            rng.drawn().skip(before.len() as int),
                            r,
                            c,
                        ),
                    before.is_prefix_of(rng.drawn()),
                    rng.drawn().len() == before.len() + seed_position(
                        big,
                        small,
                        vie,
                        rng.drawn().skip(before.len() as int),
                        i as int,
                        j as int,
                    ),
                decreases big_n - j,
            {
                let ghost earlier = rng.drawn();
                let ghost rows = cell_rows(big_grid);
                let draw = rng.next_draw();
                let ghost drawn_one = rng.drawn();
                if draw_hits(draw, vie) {
                    let life = GameOfLife::new_with(small_n, vie, rng);
                    big_grid.replace(i, j, Cell::Sim(Box::new(life)));
                }
                proof {
                    let fresh_before = earlier.skip(before.len() as int);
                    let fresh = rng.drawn().skip(before.len() as int);
                    let at = seed_position(big, small, vie, fresh_before, i as int, j as int) as int;
                    assert(earlier.is_prefix_of(drawn_one));
                    lemma_prefix_chain(earlier, drawn_one, rng.drawn());
                    lemma_prefix_chain(before, earlier, rng.drawn());
                    lemma_skip_keeps_prefix(earlier, rng.drawn(), before.len() as int);
                    assert(rng.drawn()[earlier.len() as int] == drawn_one[earlier.len() as int]);
                    lemma_seed_position_extends(
                        big,
                        small,
                        vie,
                        fresh_before,
                        fresh,
                        i as int,
                        j as int,
                    );
                    assert(fresh[at as int] == draw);
                    if hits(draw, vie) {
                        assert(fresh.subrange(at + 1, at + 1 + small * small) =~= rng.drawn().skip(
                            drawn_one.len() as int,
                        ));
                    }
                    assert(sown(
                        cell_rows(big_grid)[i as int][j as int],
                        big,
                        small,
                        vie,
                        fresh,
                        i as int,
                        j as int,
                    ));
                    assert forall|r: int, c: int|
                        0 <= r <= i && 0 <= c < big && (r < i || c < j + 1) implies sown(
                        #[trigger] cell_rows(big_grid)[r][c],
                        big,
                        small,
                        vie,
                        fresh,
                        r,
                        c,
                    ) by {
                        if r < i || c < j {
                            assert(rows[r][c] == cell_rows(big_grid)[r][c]);
                            lemma_seeded_cell_extends(big, small, vie, fresh_before, fresh, r, c);
                        }
                    }
                    assert forall|r: int, c: int|
                        i <= r < big && 0 <= c < big && (r > i || c >= j + 1) implies #[trigger] cell_rows(
                        big_grid,
                    )[r][c] == Cell::Empty by {
                        assert(rows[r][c] == cell_rows(big_grid)[r][c]);
                    }
                    assert forall|r: int, c: int|
                        0 <= r < big && 0 <= c < big implies (#[trigger] cell_rows(
                        big_grid,
                    )[r][c]).wf(small) by {
                        if r != i || c != j {
                            assert(rows[r][c] == cell_rows(big_grid)[r][c]);
                            assert(rows[r][c].wf(small));
                        }
                    }
                }
                j += 1;
            }
            i += 1;
        }
        let sim = GameOfLifeInGameOfLife { big_n, small_n, vie, big_grid };
        proof {
            let fresh = rng.drawn().skip(before.len() as int);
            assert forall|r: int, c: int| 0 <= r < big && 0 <= c < big implies #[trigger] sim@[r][c]
                == seeded_world(big, small, vie, fresh)[r][c] by {
                assert(sown(cell_rows(sim.big_grid)[r][c], big, small, vie, fresh, r, c));
            }
            assert(sim@ =~~= seeded_world(big, small, vie, fresh));
        }
        sim
    }

    /// Takes the signal of every cell at once: a table with 1 where the cell
    /// holds an automaton that has life, and 0 elsewhere.
    fn snapshot_alive(&self) -> (alive: ByteGrid)
        requires
            self.wf(),
        ensures
            bit_table(byte_rows(alive), self.side()),
            board_of(byte_rows(alive)) == liveness(self@),
    {
        let n = self.big_n;
        assert(n * n <= isize::MAX);
        let mut alive = ByteGrid::filled(n, 0);
        let mut i: usize = 0;
        while i < n
            invariant
                i <= n,
                n == self.big_n,
                self.wf(),
                bit_table(byte_rows(alive), n as nat),
                forall|r: int, c: int|
                    0 <= r < i && 0 <= c < n ==> (#[trigger] byte_rows(alive)[r][c] == 1)
                        == cell_lives(self@[r][c]),
            decreases n - i,
        {
            let mut j: usize = 0;
            while j < n
                invariant
                    i < n,
                    j <= n,
                    n == self.big_n,
                    self.wf(),
                    bit_table(byte_rows(alive), n as nat),
                    forall|r: int, c: int|
                        0 <= r <= i && 0 <= c < n && (r < i || c < j) ==> (
                        #[trigger] byte_rows(alive)[r][c] == 1) == cell_lives(self@[r][c]),
                decreases n - j,
            {
                let ghost rows = byte_rows(alive);
                let cell = self.big_grid.get(i, j);
                assert(cell.wf(self.small_n as nat));
                if cell.lives() {
                    alive.set(i, j, 1);
                } else {
                    alive.set(i, j, 0);
                }
                proof {
                    assert forall|r: int, c: int|
                        0 <= r <= i && 0 <= c < n && (r < i || c < j + 1) implies (
                    #[trigger] byte_rows(alive)[r][c] == 1) == cell_lives(self@[r][c]) by {
                        if r < i || c < j {
                            assert(rows[r][c] == byte_rows(alive)[r][c]);
                        }
                    }
                }
                j += 1;
            }
            i += 1;
        }
        proof {
            assert(board_of(byte_rows(alive)) =~~= liveness(self@));
        }
        alive
    }

    /// Advances the world by one generation, seeding fresh inner automata
    /// from the thread-local generator.
    pub fn step(&mut self)
        requires
            old(self).wf(),
        ensures
            final(self).wf(),
            final(self).side() == old(self).side(),
            final(self).inner_side() == old(self).inner_side(),
            final(self).chance() == old(self).chance(),
            square(final(self)@, old(self).side()),
            exists|draws: Seq<u64>|
                draws.len() == draws_to_step(old(self)@, old(self).inner_side()) && final(self)@
                    == #[trigger] next_world(
                    old(self)@,
                    old(self).inner_side(),
                    old(self).chance(),
                    draws,
                ),
    {
        let mut rng = ThreadSource::new();
        self.step_with(&mut rng);
        assert(rng.drawn().skip(0) =~= rng.drawn());
    }

    /// Advances the world by one generation, seeding fresh inner automata
    /// from `rng`.
    ///
    /// The signals of all cells are taken first, and every cell is judged by
    /// the signals of its eight neighbours as they stood then. A cell's inner
    /// automaton advances before the cell is judged. The cells are visited in
    /// row-major order, and each fresh automaton takes its draws when its
    /// cell is reached.
    pub fn step_with<R: RandomSource>(&mut self, rng: &mut R)
        requires
            old(self).wf(),
        ensures
            final(self).wf(),
            final(self).side() == old(self).side(),
            final(self).inner_side() == old(self).inner_side(),
            final(self).chance() == old(self).chance(),
            square(final(self)@, old(self).side()),
            continues(*old(rng), *final(rng)),
            drawn_since(*old(rng), *final(rng)).len() == draws_to_step(
                old(self)@,
                old(self).inner_side(),
            ),
            final(self)@ == next_world(
                old(self)@,
                old(self).inner_side(),
                old(self).chance(),
                drawn_since(*old(rng), *final(rng)),
            ),
    {
        let n = self.big_n;
        let small_n = self.small_n;
        let vie = self.vie;
        let ghost world = self@;
        let ghost orig = cell_rows(self.big_grid);
        let ghost before = rng.drawn();
        let ghost small = small_n as nat;
        let ghost area = small * small;
        let snapshot_alive = self.snapshot_alive();
        let mut new_big_grid = CellGrid::vacant(n);
        assert(births_above(world, 0) * area == 0) by (nonlinear_arith)
            requires
                births_above(world, 0) == 0,
        ;
        let mut i: usize = 0;
        while i < n
            invariant
                i <= n,
                n == self.big_n,
                small_n == self.small_n,
                vie == self.vie,
                small == small_n as nat,
                area == small * small,
                world_fits(n),
                board_fits(small_n),
                world == world_of(orig),
                square(orig, n as nat),
                cells_wf(orig, n as nat, small),
                bit_table(byte_rows(snapshot_alive), n as nat),
                board_of(byte_rows(snapshot_alive)) == liveness(world),
                square(cell_rows(self.big_grid), n as nat),
                forall|r: int, c: int|
                    i <= r < n && 0 <= c < n ==> #[trigger] cell_rows(self.big_grid)[r][c]
                        == orig[r][c],
                square(cell_rows(new_big_grid), n as nat),
                forall|r: int, c: int|
                    0 <= r < i && 0 <= c < n ==> settled(
                        #[trigger] cell_rows(new_big_grid)[r][c],
                        world,
                        small,
                        vie,
                        rng.drawn().skip(before.len() as int),
                        r,
                        c,
                    ),
                before.is_prefix_of(rng.drawn()),
                rng.drawn().len() == before.len() + births_above(world, i as int) * area,
            decreases n - i,
        {
            let mut j: usize = 0;
            while j < n
                invariant
                    i < n,
                    j <= n,
                    n == self.big_n,
                    small_n == self.small_n,
                    vie == self.vie,
                    small == small_n as nat,
                    area == small * small,
                    world_fits(n),
                    board_fits(small_n),
                    world == world_of(orig),
                    square(orig, n as nat),
                    cells_wf(orig, n as nat, small),
                    bit_table(byte_rows(snapshot_alive), n as nat),
                    board_of(byte_rows(snapshot_alive)) == liveness(world),
                    square(cell_rows(self.big_grid), n as nat),
                    forall|r: int, c: int|
                        i <= r < n && 0 <= c < n && (r > i || c >= j) ==> #[trigger] cell_rows(
                            self.big_grid,
                        )[r][c] == orig[r][c],
                    square(cell_rows(new_big_grid), n as nat),
                    forall|r: int, c: int|
                        0 <= r <= i && 0 <= c < n && (r < i || c < j) ==> settled(
                            #[trigger] cell_rows(new_big_grid)[r][c],
                            world,
                            small,
                            vie,
                            rng.drawn().skip(before.len() as int),
                            r,
                            c,
                        ),
                    before.is_prefix_of(rng.drawn()),
                    rng.drawn().len() == before.len() + births_before(world, i as int, j as int)
                        * area,
                decreases n - j,
            {
                let ghost earlier = rng.drawn();
                let ghost old_rows = cell_rows(self.big_grid);
                let ghost new_rows = cell_rows(new_big_grid);
                let neighbors = live_neighbors(&snapshot_alive, n, i, j);
                let cell = self.big_grid.replace(i, j, Cell::Empty);
                assert(cell == orig[i as int][j as int]);
                assert(cell.wf(small));
                let next = cell.advance(neighbors, small_n, vie, rng);
                let ghost placed = next;
                new_big_grid.replace(i, j, next);
                proof {
                    let fresh_before = earlier.skip(before.len() as int);
                    let fresh = rng.drawn().skip(before.len() as int);
                    let births = births_before(world, i as int, j as int);
                    assert(fresh_before.is_prefix_of(fresh));
                    assert(world[i as int][j as int] == cell@);
                    assert((births + 1) * area == births * area + area) by (nonlinear_arith);
                    if fate_at(world, i as int, j as int) is Born {
                        let start = (births * area) as int;
                        assert(fresh.subrange(start, start + area) =~= rng.drawn().skip(
                            earlier.len() as int,
                        ));
                    }
                    assert(settled(placed, world, small, vie, fresh, i as int, j as int));
                    assert forall|r: int, c: int|
                        0 <= r <= i && 0 <= c < n && (r < i || c < j + 1) implies settled(
                        #[trigger] cell_rows(new_big_grid)[r][c],
                        world,
                        small,
                        vie,
                        fresh,
                        r,
                        c,
                    ) by {
                        if r < i || c < j {
                            assert(new_rows[r][c] == cell_rows(new_big_grid)[r][c]);
                            lemma_settled_extends(
                                new_rows[r][c],
                                world,
                                small,
                                vie,
                                fresh_before,
                                fresh,
                                r,
                                c,
                            );
                        }
                    }
                    assert forall|r: int, c: int|
                        i <= r < n && 0 <= c < n && (r > i || c >= j + 1) implies #[trigger] cell_rows(
                        self.big_grid,
                    )[r][c] == orig[r][c] by {
                        assert(old_rows[r][c] == cell_rows(self.big_grid)[r][c]);
                    }
                }
                j += 1;
            }
            proof {
                assert(world[i as int].len() == n);
            }
            i += 1;
        }
        self.big_grid = new_big_grid;
        proof {
            let fresh = rng.drawn().skip(before.len() as int);
            assert(world.len() == n);
            assert forall|r: int, c: int| 0 <= r < n && 0 <= c < n implies #[trigger] self@[r][c]
                == next_world(world, small, vie, fresh)[r][c] && (#[trigger] cell_rows(
                self.big_grid,
            )[r][c]).wf(small) by {
                assert(settled(cell_rows(self.big_grid)[r][c], world, small, vie, fresh, r, c));
            }
            assert(self@ =~~= next_world(world, small, vie, fresh));
        }
    }

    /// The table of outer cells.
    pub fn get_big_grid(&self) -> (grid: &CellGrid)
        ensures
            world_of(cell_rows(*grid)) == self@,
    {
        &self.big_grid
    }

    /// The number of rows of the outer board, which is also its number of
    /// columns.
    #[allow(non_snake_case)]
    pub fn get_big_N(&self) -> (side: usize)
        ensures
            side == self.side(),
    {
        self.big_n
    }

    /// The number of rows of every inner board.
    #[allow(non_snake_case)]
    pub fn get_small_N(&self) -> (side: usize)
        ensures
            side == self.inner_side(),
    {
        self.small_n
    }

    /// The outer cell in row `i`, column `j`.
    pub fn cell(&self, i: usize, j: usize) -> (cell: &Cell)
        requires
            self.wf(),
            i < self.side(),
            j < self.side(),
        ensures
            cell@ == self@[i as int][j as int],
            cell.wf(self.inner_side()),
    {
        self.big_grid.get(i, j)
    }

    /// The density of every outer cell, in row-major order: the weighted
    /// number of its living inner cells over the number of its inner cells.
    /// An empty cell has density zero. Nothing is clamped: a density exceeds
    /// one as soon as more than a fifth of the inner cells are alive.
    pub fn density_grid(&self) -> (out: Vec<Density>)
        requires
            self.wf(),
        ensures
            out.len() == self.side() * self.side(),
            forall|r: int, c: int|
                0 <= r < self.side() && 0 <= c < self.side() ==> (#[trigger] out[r * self.side()
                    + c]).describes(self@[r][c], self.inner_side()),
            forall|k: int|
                0 <= k < out.len() ==> (#[trigger] out[k]).describes(
                    self@[k / self.side() as int][k % self.side() as int],
                    self.inner_side(),
                ),
    {
        let n = self.big_n;
        let base: usize = if self.small_n == 0 {
            1
        } else {
            self.small_n * self.small_n
        };
        let mut out: Vec<Density> = Vec::with_capacity(n * n);
        let mut i: usize = 0;
        while i < n
            invariant
                i <= n,
                n == self.big_n,
                self.wf(),
                base == density_base(self.small_n as nat),
                out.len() == i * n,
                forall|r: int, c: int|
                    0 <= r < i && 0 <= c < n ==> (#[trigger] out[r * n + c]).describes(
                        self@[r][c],
                        self.small_n as nat,
                    ),
            decreases n - i,
        {
            let mut j: usize = 0;
            while j < n
                invariant
                    i < n,
                    j <= n,
                    n == self.big_n,
                    self.wf(),
                    base == density_base(self.small_n as nat),
                    out.len() == i * n + j,
                    forall|r: int, c: int|
                        0 <= r <= i && 0 <= c < n && (r < i || c < j) ==> (#[trigger] out[r * n
                            + c]).describes(self@[r][c], self.small_n as nat),
                decreases n - j,
            {
                let ghost earlier = out@;
                let numerator: u128 = match self.big_grid.get(i, j) {
                    Cell::Empty => 0,
                    Cell::Sim(sim_box) => {
                        assert(cell_rows(self.big_grid)[i as int][j as int].wf(
                            self.small_n as nat,
                        ));
                        DENSITY_WEIGHT * (sim_box.alive_count() as u128)
                    },
                };
                out.push(Density { numerator, denominator: base });
                proof {
                    assert forall|r: int, c: int|
                        0 <= r <= i && 0 <= c < n && (r < i || c < j + 1) implies (#[trigger] out[r
                        * n + c]).describes(self@[r][c], self.small_n as nat) by {
                        if r < i || c < j {
                            lemma_row_major_order(r, c, i as int, j as int, n as int);
                            assert(out[r * n + c] == earlier[r * n + c]);
                        }
                    }
                }
                j += 1;
            }
            proof {
                assert(i * n + n == (i + 1) * n) by (nonlinear_arith);
            }
            i += 1;
        }
        proof {
            assert forall|k: int| 0 <= k < out.len() implies (#[trigger] out[k]).describes(
                self@[k / n as int][k % n as int],
                self.small_n as nat,
            ) by {
                let r = k / n as int;
                let c = k % n as int;
                lemma_fundamental_div_mod(k, n as int);
                lemma_mod_bound(k, n as int);
                lemma_multiply_divide_lt(k, n as int, n as int);
                lemma_div_pos_is_pos(k, n as int);
                assert(r * n == n * r) by (nonlinear_arith);
                assert(out[r * n + c].describes(self@[r][c], self.small_n as nat));
            }
        }
        out
    }
}

} // verus!
