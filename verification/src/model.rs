//! The mathematical model: boards of cells and the rule that advances them.
//!
//! A board is a sequence of rows of booleans, `true` for a living cell. The
//! grid is bounded: a place outside the board is never alive, and nothing wraps
//! around an edge.

use vstd::prelude::*;

verus! {

/// One level of the automaton: rows of cells, `true` meaning alive.
pub type Board = Seq<Seq<bool>>;

/// Whether `rows` has `side` rows of `side` entries each.
pub open spec fn square<T>(rows: Seq<Seq<T>>, side: nat) -> bool {
    &&& rows.len() == side
    &&& forall|i: int| 0 <= i < side ==> (#[trigger] rows[i]).len() == side
}

/// Whether `(i, j)` lies on the board and the cell there is alive.
pub open spec fn alive_at(board: Board, i: int, j: int) -> bool {
    0 <= i < board.len() && 0 <= j < board[i].len() && board[i][j]
}

/// One for `true`, zero for `false`.
pub open spec fn tally(flag: bool) -> nat {
    if flag {
        1
    } else {
        0
    }
}

/// The number of living cells among the eight places around `(i, j)`.
/// Places beyond an edge count as dead.
pub open spec fn neighbours(board: Board, i: int, j: int) -> nat {
    tally(alive_at(board, i - 1, j - 1)) + tally(alive_at(board, i - 1, j)) + tally(
        alive_at(board, i - 1, j + 1),
    ) + tally(alive_at(board, i, j - 1)) + tally(alive_at(board, i, j + 1)) + tally(
        alive_at(board, i + 1, j - 1),
    ) + tally(alive_at(board, i + 1, j)) + tally(alive_at(board, i + 1, j + 1))
}

/// The rule of life: a living cell stays alive with two or three living
/// neighbours, a dead cell comes alive with exactly three.
pub open spec fn lives_on(alive: bool, around: nat) -> bool {
    if alive {
        around == 2 || around == 3
    } else {
        around == 3
    }
}

/// The next generation: every cell judged against the present board.
pub open spec fn next_board(board: Board) -> Board {
    Seq::new(
        board.len(),
        |i: int| Seq::new(board[i].len(), |j: int| lives_on(board[i][j], neighbours(board, i, j))),
    )
}

/// Whether any cell of the board is alive.
pub open spec fn has_life(board: Board) -> bool {
    exists|i: int, j: int| alive_at(board, i, j)
}

/// The number of living cells in one row.
pub open spec fn row_population(row: Seq<bool>) -> nat
    decreases row.len(),
{
    if row.len() == 0 {
        0
    } else {
        row_population(row.drop_last()) + tally(row.last())
    }
}

/// The number of living cells on the board.
pub open spec fn population(board: Board) -> nat
    decreases board.len(),
{
    if board.len() == 0 {
        0
    } else {
        population(board.drop_last()) + row_population(board.last())
    }
}

/// Whether a draw counts as a success at chance `vie`.
///
/// A chance is a count of steps of 2^-53, so 0 never succeeds and 2^53 (or
/// more) always does. The top 53 bits of the draw are a uniform fraction of
/// 2^53; the draw succeeds when that fraction lies below the chance.
pub open spec fn hits(draw: u64, vie: u64) -> bool {
    draw / 2048 < vie
}

/// The board of `side` rows that a run of draws seeds at chance `vie`: the
/// cells take the draws in row-major order, and a cell lives when its draw
/// hits.
pub open spec fn seeded_board(side: nat, vie: u64, draws: Seq<u64>) -> Board {
    Seq::new(side, |i: int| Seq::new(side, |j: int| hits(draws[i * side + j], vie)))
}

/// Whether every entry of the table is 0 or 1 and the table is square.
pub open spec fn bit_table(rows: Seq<Seq<u8>>, side: nat) -> bool {
    &&& square(rows, side)
    &&& forall|i: int, j: int| 0 <= i < side && 0 <= j < side ==> #[trigger] rows[i][j] <= 1
}

/// The board that a table of bits stands for: 1 is alive.
pub open spec fn board_of(rows: Seq<Seq<u8>>) -> Board {
    Seq::new(rows.len(), |i: int| Seq::new(rows[i].len(), |j: int| rows[i][j] == 1))
}

/// Two levels of the automaton: rows of outer cells, each empty (`None`) or
/// holding the board of its own inner automaton.
pub type World = Seq<Seq<Option<Board>>>;

/// The signal that an outer cell gives its neighbours: it holds an inner
/// automaton, and that automaton has a living cell.
pub open spec fn cell_lives(cell: Option<Board>) -> bool {
    cell matches Some(board) && has_life(board)
}

/// The signals of all outer cells, taken at one moment.
pub open spec fn liveness(world: World) -> Board {
    Seq::new(world.len(), |i: int| Seq::new(world[i].len(), |j: int| cell_lives(world[i][j])))
}

/// What becomes of an outer cell in one generation.
pub enum Fate {
    /// The cell is empty afterwards.
    Vacant,
    /// The cell keeps its inner automaton, advanced by one generation.
    Carried,
    /// The cell holds a freshly seeded inner automaton afterwards.
    Born,
}

/// The fate of an outer cell with `around` living neighbours.
///
/// An inner automaton always advances first. It is carried on when it still
/// has life and the cell has two or three living neighbours. Failing that, a
/// cell with exactly three living neighbours gets a fresh automaton, whether
/// it was empty or not. Every other cell ends up empty.
pub open spec fn fate(cell: Option<Board>, around: nat) -> Fate {
    if cell matches Some(board) && has_life(next_board(board)) && (around == 2 || around == 3) {
        Fate::Carried
    } else if around == 3 {
        Fate::Born
    } else {
        Fate::Vacant
    }
}

/// The fate of the outer cell at `(i, j)`, judged by the signals of the
/// world as it stands.
pub open spec fn fate_at(world: World, i: int, j: int) -> Fate {
    fate(world[i][j], neighbours(liveness(world), i, j))
}

/// The number of cells in row `i`, among its first `upto` columns, that get
/// a fresh automaton.
pub open spec fn births_in_row(world: World, i: int, upto: int) -> nat
    decreases upto,
{
    if upto <= 0 {
        0
    } else {
        births_in_row(world, i, upto - 1) + tally(fate_at(world, i, upto - 1) is Born)
    }
}

/// The number of cells in the first `upto` rows that get a fresh automaton.
pub open spec fn births_above(world: World, upto: int) -> nat
    decreases upto,
{
    if upto <= 0 {
        0
    } else {
        births_above(world, upto - 1) + births_in_row(
            world,
            upto - 1,
            world[upto - 1].len() as int,
        )
    }
}

/// The number of cells before `(i, j)` in row-major order that get a fresh
/// automaton.
pub open spec fn births_before(world: World, i: int, j: int) -> nat {
    births_above(world, i) + births_in_row(world, i, j)
}

/// The number of draws that one generation of the world takes: one per cell
/// of every fresh inner automaton.
pub open spec fn draws_to_step(world: World, side: nat) -> nat {
    births_above(world, world.len() as int) * (side * side)
}

/// The board seeded from the `side * side` draws that begin at `start`.
pub open spec fn born_board(side: nat, vie: u64, draws: Seq<u64>, start: nat) -> Board {
    seeded_board(side, vie, draws.subrange(start as int, (start + side * side) as int))
}

/// The outer cell at `(i, j)` one generation on. Fresh automata are seeded
/// in row-major order of their cells, each from the next `side * side` draws.
pub open spec fn next_cell(world: World, side: nat, vie: u64, draws: Seq<u64>, i: int, j: int)
    -> Option<Board> {
    match fate_at(world, i, j) {
        Fate::Vacant => None,
        Fate::Carried => Some(next_board(world[i][j].unwrap())),
        Fate::Born => Some(
            born_board(side, vie, draws, births_before(world, i, j) * (side * side)),
        ),
    }
}

/// The world one generation on, given the draws that the generation takes.
pub open spec fn next_world(world: World, side: nat, vie: u64, draws: Seq<u64>) -> World {
    Seq::new(
        world.len(),
        |i: int| Seq::new(world[i].len(), |j: int| next_cell(world, side, vie, draws, i, j)),
    )
}

/// A board seeded from draws that lie within a prefix is the same board
/// when seeded from the whole sequence.
pub proof fn lemma_born_board_extends(
    side: nat,
    vie: u64,
    short: Seq<u64>,
    long: Seq<u64>,
    start: nat,
)
    requires
        short.is_prefix_of(long),
        start + side * side <= short.len(),
    ensures
        born_board(side, vie, short, start) == born_board(side, vie, long, start),
{
    let end = (start + side * side) as int;
    assert(short.subrange(start as int, end) =~= long.subrange(start as int, end));
}

/// The number of draws taken before the outer cell at `(i, j)` is decided,
/// when a world of `big` rows is seeded.
///
/// The cells are decided in row-major order. Each takes one draw; when that
/// draw hits, the `side * side` draws that follow seed the inner board. With
/// `j == big` the result is the number of draws taken by the end of row `i`.
pub open spec fn seed_position(big: nat, side: nat, vie: u64, draws: Seq<u64>, i: int, j: int)
    -> nat
    decreases i, j,
{
    if j > 0 {
        let at = seed_position(big, side, vie, draws, i, j - 1);
        if hits(draws[at as int], vie) {
            at + 1 + side * side
        } else {
            at + 1
        }
    } else if i > 0 {
        seed_position(big, side, vie, draws, i - 1, big as int)
    } else {
        0
    }
}

/// The outer cell at `(i, j)` of a freshly seeded world: occupied when its
/// draw hits, and then seeded from the draws that follow.
pub open spec fn seeded_cell(big: nat, side: nat, vie: u64, draws: Seq<u64>, i: int, j: int)
    -> Option<Board> {
    let at = seed_position(big, side, vie, draws, i, j);
    if hits(draws[at as int], vie) {
        Some(born_board(side, vie, draws, at + 1))
    } else {
        None
    }
}

/// The world of `big` rows that a run of draws seeds at chance `vie`, with
/// inner boards of `side` rows.
pub open spec fn seeded_world(big: nat, side: nat, vie: u64, draws: Seq<u64>) -> World {
    Seq::new(big, |i: int| Seq::new(big, |j: int| seeded_cell(big, side, vie, draws, i, j)))
}

/// The number of draws that seeding a world takes. It depends on the draws
/// themselves: every hit among the outer cells costs an inner board.
pub open spec fn draws_to_seed(big: nat, side: nat, vie: u64, draws: Seq<u64>) -> nat {
    seed_position(big, side, vie, draws, big as int, 0)
}

/// The draws taken before a cell is decided are the same whether counted
/// on a prefix that holds them all or on the whole sequence.
pub proof fn lemma_seed_position_extends(
    big: nat,
    side: nat,
    vie: u64,
    short: Seq<u64>,
    long: Seq<u64>,
    i: int,
    j: int,
)
    requires
        short.is_prefix_of(long),
        seed_position(big, side, vie, short, i, j) <= short.len(),
    ensures
        seed_position(big, side, vie, long, i, j) == seed_position(big, side, vie, short, i, j),
    decreases i, j,
{
    if j > 0 {
        lemma_seed_position_extends(big, side, vie, short, long, i, j - 1);
        let at = seed_position(big, side, vie, short, i, j - 1);
        assert(short[at as int] == long[at as int]);
    } else if i > 0 {
        lemma_seed_position_extends(big, side, vie, short, long, i - 1, big as int);
    }
}

/// A seeded cell whose draws all lie within a prefix is the same cell when
/// seeded from the whole sequence.
pub proof fn lemma_seeded_cell_extends(
    big: nat,
    side: nat,
    vie: u64,
    short: Seq<u64>,
    long: Seq<u64>,
    i: int,
    j: int,
)
    requires
        short.is_prefix_of(long),
        0 <= j,
        seed_position(big, side, vie, short, i, j + 1) <= short.len(),
    ensures
        seeded_cell(big, side, vie, long, i, j) == seeded_cell(big, side, vie, short, i, j),
        seed_position(big, side, vie, long, i, j + 1) == seed_position(
            big,
            side,
            vie,
            short,
            i,
            j + 1,
        ),
{
    let at = seed_position(big, side, vie, short, i, j);
    lemma_seed_position_extends(big, side, vie, short, long, i, j);
    lemma_seed_position_extends(big, side, vie, short, long, i, j + 1);
    assert(short[at as int] == long[at as int]);
    if hits(short[at as int], vie) {
        lemma_born_board_extends(side, vie, short, long, at + 1);
    }
}

} // verus!
