//! What holds of the model in general, proved once for every world.

use crate::density::weighted_population;
use crate::model::{
    alive_at, births_above, births_before, births_in_row, cell_lives, draws_to_seed, draws_to_step,
    fate_at, has_life, hits, lemma_seed_position_extends, lemma_seeded_cell_extends, liveness,
    neighbours, next_board, next_cell, next_world, population, row_population, seed_position, seeded_cell,
    seeded_world, square, Board, World,
};
use vstd::prelude::*;

verus! {

/// The ends of the scale of chances: at chance 0 no draw hits, and at chance
/// 2^53 or more every draw does.
pub proof fn lemma_chance_bounds(draw: u64, vie: u64)
    ensures
        vie == 0 ==> !hits(draw, vie),
        vie >= 0x20_0000_0000_0000 ==> hits(draw, vie),
{
}

/// A generation keeps the shape of a board.
pub proof fn lemma_next_board_keeps_shape(board: Board, side: nat)
    requires
        square(board, side),
    ensures
        square(next_board(board), side),
{
}

/// A generation keeps the shape of a world, however often it is repeated:
/// the world stays square with the same side, and so does every inner board.
pub proof fn lemma_next_world_keeps_shape(
    world: World,
    big: nat,
    side: nat,
    vie: u64,
    draws: Seq<u64>,
)
    requires
        square(world, big),
        forall|i: int, j: int|
            0 <= i < big && 0 <= j < big ==> (#[trigger] world[i][j] matches Some(board)
                ==> square(board, side)),
    ensures
        square(next_world(world, side, vie, draws), big),
        forall|i: int, j: int|
            0 <= i < big && 0 <= j < big ==> (#[trigger] next_world(
                world,
                side,
                vie,
                draws,
            )[i][j] matches Some(board) ==> square(board, side)),
{
    let next = next_world(world, side, vie, draws);
    assert forall|i: int, j: int| 0 <= i < big && 0 <= j < big implies (#[trigger] next[i][j] matches Some(
        board,
    ) ==> square(board, side)) by {
        if let Some(board) = world[i][j] {
            lemma_next_board_keeps_shape(board, side);
        }
    }
}

/// Nothing wraps around an edge: the single cell of a one-by-one world has
/// no living neighbour, so whatever it holds, it is empty one generation on.
pub proof fn lemma_single_cell_dies(world: World, side: nat, vie: u64, draws: Seq<u64>)
    requires
        square(world, 1),
    ensures
        neighbours(liveness(world), 0, 0) == 0,
        next_world(world, side, vie, draws) == seq![seq![None::<Board>]],
{
    assert(next_world(world, side, vie, draws) =~~= seq![seq![None::<Board>]]);
}

/// Whether every cell of the world is empty.
pub open spec fn all_vacant(world: World) -> bool {
    forall|i: int, j: int|
        0 <= i < world.len() && 0 <= j < world[i].len() ==> (#[trigger] world[i][j]) is None
}

/// In a world without occupied cells no place has a living neighbour.
pub proof fn lemma_vacant_world_is_quiet(world: World, i: int, j: int)
    requires
        all_vacant(world),
    ensures
        neighbours(liveness(world), i, j) == 0,
{
    let signals = liveness(world);
    assert forall|r: int, c: int| !alive_at(signals, r, c) by {
        if 0 <= r < signals.len() && 0 <= c < signals[r].len() {
            assert(world[r][c] is None);
        }
    }
}

/// A row of a world without occupied cells sees no birth.
proof fn lemma_vacant_row_bears_nothing(world: World, i: int, upto: int)
    requires
        all_vacant(world),
        0 <= i < world.len(),
        upto <= world[i].len(),
    ensures
        births_in_row(world, i, upto) == 0,
    decreases upto,
{
    if upto > 0 {
        lemma_vacant_row_bears_nothing(world, i, upto - 1);
        lemma_vacant_world_is_quiet(world, i, upto - 1);
    }
}

/// The first rows of a world without occupied cells see no birth.
proof fn lemma_vacant_rows_bear_nothing(world: World, upto: int)
    requires
        all_vacant(world),
        upto <= world.len(),
    ensures
        births_above(world, upto) == 0,
    decreases upto,
{
    if upto > 0 {
        lemma_vacant_rows_bear_nothing(world, upto - 1);
        lemma_vacant_row_bears_nothing(world, upto - 1, world[upto - 1].len() as int);
    }
}

/// No spontaneous birth: a world without occupied cells stays without them,
/// and its generation takes no draw.
pub proof fn lemma_vacant_world_stays_vacant(world: World, side: nat, vie: u64, draws: Seq<u64>)
    requires
        all_vacant(world),
    ensures
        next_world(world, side, vie, draws) == world,
        draws_to_step(world, side) == 0,
{
    let next = next_world(world, side, vie, draws);
    assert forall|i: int, j: int| 0 <= i < world.len() && 0 <= j < world[i].len() implies next[i][j]
        == world[i][j] by {
        lemma_vacant_world_is_quiet(world, i, j);
        assert(world[i][j] is None);
    }
    assert(next =~~= world);
    lemma_vacant_rows_bear_nothing(world, world.len() as int);
    assert(births_above(world, world.len() as int) * (side * side) == 0) by (nonlinear_arith)
        requires
            births_above(world, world.len() as int) == 0,
    ;
}

/// The births of a row only grow with the number of columns counted.
proof fn lemma_births_in_row_grow(world: World, i: int, fewer: int, more: int)
    requires
        fewer <= more,
    ensures
        births_in_row(world, i, fewer) <= births_in_row(world, i, more),
    decreases more - fewer,
{
    if fewer < more {
        lemma_births_in_row_grow(world, i, fewer, more - 1);
    }
}

/// The births of the first rows only grow with the number of rows counted.
proof fn lemma_births_above_grow(world: World, fewer: int, more: int)
    requires
        fewer <= more,
    ensures
        births_above(world, fewer) <= births_above(world, more),
    decreases more - fewer,
{
    if fewer < more {
        lemma_births_above_grow(world, fewer, more - 1);
    }
}

/// A cell that gets a fresh automaton finds its draws among those that the
/// generation takes.
pub proof fn lemma_birth_draws_in_range(world: World, side: nat, i: int, j: int)
    requires
        0 <= i < world.len(),
        0 <= j < world[i].len(),
        fate_at(world, i, j) is Born,
    ensures
        (births_before(world, i, j) + 1) * (side * side) <= draws_to_step(world, side),
{
    lemma_births_in_row_grow(world, i, j + 1, world[i].len() as int);
    lemma_births_above_grow(world, i + 1, world.len() as int);
    let here = births_before(world, i, j) + 1;
    let all = births_above(world, world.len() as int);
    assert(here <= all);
    assert(here * (side * side) <= all * (side * side)) by (nonlinear_arith)
        requires
            here <= all,
    ;
}

/// A generation is reproducible: it reads no draw beyond the
/// `draws_to_step` that it takes, so two runs of draws that agree on those
/// lead from one world to the same next world.
pub proof fn lemma_step_reproducible(
    world: World,
    side: nat,
    vie: u64,
    one: Seq<u64>,
    other: Seq<u64>,
)
    requires
        draws_to_step(world, side) <= one.len(),
        draws_to_step(world, side) <= other.len(),
        one.subrange(0, draws_to_step(world, side) as int) == other.subrange(
            0,
            draws_to_step(world, side) as int,
        ),
    ensures
        next_world(world, side, vie, one) == next_world(world, side, vie, other),
{
    let taken = draws_to_step(world, side) as int;
    assert forall|i: int, j: int| 0 <= i < world.len() && 0 <= j < world[i].len() implies next_cell(
        world,
        side,
        vie,
        one,
        i,
        j,
    ) == next_cell(world, side, vie, other, i, j) by {
        if fate_at(world, i, j) is Born {
            lemma_birth_draws_in_range(world, side, i, j);
            let start = births_before(world, i, j) * (side * side);
            assert((births_before(world, i, j) + 1) * (side * side) == start + side * side)
                by (nonlinear_arith)
                requires
                    start == births_before(world, i, j) * (side * side),
            ;
            let end = (start + side * side) as int;
            assert forall|k: int| start <= k < end implies one[k] == other[k] by {
                assert(one.subrange(0, taken)[k] == other.subrange(0, taken)[k]);
            }
            assert(one.subrange(start as int, end) =~= other.subrange(start as int, end));
        }
    }
    assert(next_world(world, side, vie, one) =~~= next_world(world, side, vie, other));
}

/// The draws taken by the end of seeding are at least those taken before
/// any of its cells is decided, and a cell's own draws end before the next
/// cell's begin.
proof fn lemma_seed_position_grows(
    big: nat,
    side: nat,
    vie: u64,
    draws: Seq<u64>,
    i: int,
    j: int,
    later_i: int,
    later_j: int,
)
    requires
        0 <= i,
        0 <= j <= big,
        0 <= later_j <= big,
        i < later_i || (i == later_i && j <= later_j),
    ensures
        seed_position(big, side, vie, draws, i, j) <= seed_position(
            big,
            side,
            vie,
            draws,
            later_i,
            later_j,
        ),
    decreases later_i, later_j,
{
    if i == later_i && j == later_j {
    } else if later_j > 0 {
        lemma_seed_position_grows(big, side, vie, draws, i, j, later_i, later_j - 1);
    } else {
        lemma_seed_position_grows(big, side, vie, draws, i, j, later_i - 1, big as int);
    }
}

/// Seeding is reproducible: it reads no draw beyond the `draws_to_seed`
/// that it takes, so a run of draws that holds them all seeds the same
/// world as any longer run that begins with it.
pub proof fn lemma_seed_reproducible(
    big: nat,
    side: nat,
    vie: u64,
    short: Seq<u64>,
    long: Seq<u64>,
)
    requires
        short.is_prefix_of(long),
        draws_to_seed(big, side, vie, short) <= short.len(),
    ensures
        draws_to_seed(big, side, vie, long) == draws_to_seed(big, side, vie, short),
        seeded_world(big, side, vie, long) == seeded_world(big, side, vie, short),
{
    lemma_seed_position_extends(big, side, vie, short, long, big as int, 0);
    assert forall|i: int, j: int| 0 <= i < big && 0 <= j < big implies seeded_cell(
        big,
        side,
        vie,
        long,
        i,
        j,
    ) == seeded_cell(big, side, vie, short, i, j) by {
        lemma_seed_position_grows(big, side, vie, short, i, j + 1, big as int, 0);
        lemma_seeded_cell_extends(big, side, vie, short, long, i, j);
    }
    assert(seeded_world(big, side, vie, long) =~~= seeded_world(big, side, vie, short));
}

/// A row has population zero exactly when none of its cells is alive.
proof fn lemma_row_population_zero(row: Seq<bool>)
    ensures
        row_population(row) == 0 <==> (forall|k: int| 0 <= k < row.len() ==> !row[k]),
    decreases row.len(),
{
    if row.len() > 0 {
        let front = row.drop_last();
        lemma_row_population_zero(front);
        if row_population(row) == 0 {
            assert forall|k: int| 0 <= k < row.len() implies !row[k] by {
                if k < row.len() - 1 {
                    assert(front[k] == row[k]);
                }
            }
        }
        if forall|k: int| 0 <= k < row.len() ==> !row[k] {
            assert forall|k: int| 0 <= k < front.len() implies !front[k] by {
                assert(front[k] == row[k]);
            }
            assert(!row.last());
        }
    }
}

/// A board has population zero exactly when it has no life.
pub proof fn lemma_population_zero_iff_lifeless(board: Board)
    ensures
        population(board) == 0 <==> !has_life(board),
    decreases board.len(),
{
    if board.len() == 0 {
        assert forall|i: int, j: int| !alive_at(board, i, j) by {}
    } else {
        let front = board.drop_last();
        let last = board.len() - 1;
        lemma_population_zero_iff_lifeless(front);
        lemma_row_population_zero(board.last());
        if has_life(board) {
            let (i, j) = choose|i: int, j: int| alive_at(board, i, j);
            if i < last {
                assert(front[i] == board[i]);
                assert(alive_at(front, i, j));
            }
        }
        if population(board) != 0 {
            if has_life(front) {
                let (i, j) = choose|i: int, j: int| alive_at(front, i, j);
                assert(front[i] == board[i]);
                assert(alive_at(board, i, j));
            } else {
                let k = choose|k: int| 0 <= k < board.last().len() && board.last()[k];
                assert(alive_at(board, last, k));
            }
        }
    }
}

/// A density is zero exactly when the cell gives no signal: it is empty, or
/// its inner automaton has no living cell.
pub proof fn lemma_density_zero_iff_lifeless(cell: Option<Board>)
    ensures
        weighted_population(cell) == 0 <==> !cell_lives(cell),
{
    if let Some(board) = cell {
        lemma_population_zero_iff_lifeless(board);
    }
}

} // verus!
