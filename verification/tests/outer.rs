use nested_life::density::{Density, DENSITY_WEIGHT};
use nested_life::random::{RandomSource, Replay};
use nested_life::simulation::{Cell, GameOfLifeInGameOfLife};

const HALF: u64 = 1 << 52;
const CERTAIN: u64 = 1 << 53;
const HIT: u64 = 0;
const MISS: u64 = u64::MAX;

/// The chance that stands for a probability: the number of steps of 2^-53
/// below it, so that a uniform fraction of 53 bits lies below the
/// probability exactly when it lies below the chance.
fn chance(probability: f64) -> u64 {
    let steps = 9007199254740992.0_f64;
    (probability * steps).ceil().clamp(0.0, steps) as u64
}

/// The draws that seed a world with full inner boards of `small` rows in
/// exactly the cells marked `true`.
fn script(rows: &[&[bool]], small: usize) -> Vec<u64> {
    let mut draws = Vec::new();
    for row in rows {
        assert_eq!(row.len(), rows.len());
        for occupied in row.iter() {
            if *occupied {
                draws.push(HIT);
                for _ in 0..small * small {
                    draws.push(HIT);
                }
            } else {
                draws.push(MISS);
            }
        }
    }
    draws
}

fn world(sim: &GameOfLifeInGameOfLife) -> Vec<Vec<Option<Vec<Vec<bool>>>>> {
    let big = sim.get_big_N();
    let small = sim.get_small_N();
    (0..big)
        .map(|i| {
            (0..big)
                .map(|j| match sim.cell(i, j) {
                    Cell::Empty => None,
                    Cell::Sim(life) => Some(
                        (0..small)
                            .map(|x| (0..small).map(|y| life.is_alive(x, y)).collect())
                            .collect(),
                    ),
                })
                .collect()
        })
        .collect()
}

fn occupied(sim: &GameOfLifeInGameOfLife) -> Vec<Vec<bool>> {
    world(sim).iter().map(|row| row.iter().map(|cell| cell.is_some()).collect()).collect()
}

fn as_float(density: &Density) -> f64 {
    density.numerator as f64 / density.denominator as f64
}

#[test]
fn chance_stands_for_a_probability() {
    assert_eq!(chance(0.0), 0);
    assert_eq!(chance(1.0), CERTAIN);
    assert_eq!(chance(0.5), HALF);
    assert_eq!(chance(-1.0), 0);
    assert_eq!(chance(2.0), CERTAIN);
    assert_eq!(chance(f64::NAN), 0);
    assert_eq!(chance(0.2), 1801439850948199);
}

#[test]
fn a_fresh_world_has_a_cell_for_every_place() {
    for big in 0..6usize {
        for small in 0..3usize {
            let sim = GameOfLifeInGameOfLife::new(big, small, chance(0.3));
            assert_eq!(sim.get_big_N(), big);
            assert_eq!(sim.get_small_N(), small);
            assert_eq!(sim.density_grid().len(), big * big);
            assert_eq!(world(&sim).len(), big);
            assert!(world(&sim).iter().all(|row| row.len() == big));
        }
    }
}

#[test]
fn the_occupied_share_nears_the_chance() {
    let sim = GameOfLifeInGameOfLife::new(100, 1, chance(0.3));
    let count = occupied(&sim).iter().flatten().filter(|cell| **cell).count();
    assert!(count > 2500 && count < 3500);
}

#[test]
fn step_keeps_the_size_of_the_world() {
    let mut sim = GameOfLifeInGameOfLife::new(6, 4, chance(0.4));
    for _ in 0..10 {
        sim.step();
        assert_eq!(sim.get_big_N(), 6);
        assert_eq!(sim.get_small_N(), 4);
        assert_eq!(sim.density_grid().len(), 36);
        assert_eq!(world(&sim).len(), 6);
    }
}

#[test]
fn the_same_draws_give_the_same_run() {
    let draws: Vec<u64> = (0..97u64).map(|k| k.wrapping_mul(0x9E37_79B9_7F4A_7C15)).collect();
    let mut one_rng = Replay::new(draws.clone());
    let mut other_rng = Replay::new(draws);
    let mut one = GameOfLifeInGameOfLife::new_with(5, 3, chance(0.45), &mut one_rng);
    let mut other = GameOfLifeInGameOfLife::new_with(5, 3, chance(0.45), &mut other_rng);
    assert_eq!(world(&one), world(&other));
    assert!(occupied(&one).iter().flatten().any(|cell| *cell));
    for _ in 0..8 {
        one.step_with(&mut one_rng);
        other.step_with(&mut other_rng);
        assert_eq!(world(&one), world(&other));
        assert_eq!(one.density_grid(), other.density_grid());
    }
    assert_eq!(one_rng.next_draw(), other_rng.next_draw());
}

#[test]
fn a_single_cell_has_no_neighbours_and_empties() {
    let mut sim = GameOfLifeInGameOfLife::new(1, 2, CERTAIN);
    assert_eq!(occupied(&sim), vec![vec![true]]);
    assert_eq!(
        world(&sim),
        vec![vec![Some(vec![vec![true, true], vec![true, true]])]]
    );
    sim.step();
    assert_eq!(occupied(&sim), vec![vec![false]]);
    sim.step();
    assert_eq!(occupied(&sim), vec![vec![false]]);
}

#[test]
fn an_empty_world_stays_empty() {
    let mut sim = GameOfLifeInGameOfLife::new(3, 1, chance(0.0));
    let empty = vec![vec![false; 3]; 3];
    assert_eq!(occupied(&sim), empty);
    for _ in 0..20 {
        sim.step();
        assert_eq!(occupied(&sim), empty);
        assert!(sim.density_grid().iter().all(|d| as_float(d) == 0.0));
    }
}

#[test]
fn seeding_a_world_takes_draws_cell_by_cell() {
    // cell (0, 0): hit, then an inner board of dead, alive, alive, dead;
    // cell (0, 1): miss; cell (1, 0): miss; cell (1, 1): hit, inner all dead.
    let draws = vec![HIT, MISS, HIT, HIT, MISS, MISS, MISS, HIT, MISS, MISS, MISS, MISS, 5];
    let mut rng = Replay::new(draws);
    let sim = GameOfLifeInGameOfLife::new_with(2, 2, HALF, &mut rng);
    assert_eq!(
        world(&sim),
        vec![
            vec![Some(vec![vec![false, true], vec![true, false]]), None],
            vec![None, Some(vec![vec![false, false], vec![false, false]])],
        ]
    );
    assert_eq!(rng.next_draw(), 5);
}

#[test]
fn a_block_of_blocks_is_a_still_life() {
    let rows: [&[bool]; 3] = [&[true, true, false], &[true, true, false], &[false, false, false]];
    let mut rng = Replay::new(script(&rows, 2));
    let mut sim = GameOfLifeInGameOfLife::new_with(3, 2, HALF, &mut rng);
    let start = world(&sim);
    let full = Some(vec![vec![true, true], vec![true, true]]);
    assert_eq!(start[0][0], full);
    assert_eq!(start[1][1], full);
    assert_eq!(start[0][2], None);
    let mut fresh = Replay::new(vec![HIT]);
    for _ in 0..10 {
        sim.step_with(&mut fresh);
        assert_eq!(world(&sim), start);
    }
    // no generation took a draw
    let mut untouched = Replay::new(vec![MISS, HIT]);
    sim.step_with(&mut untouched);
    assert_eq!(untouched.next_draw(), MISS);
}

#[test]
fn three_living_neighbours_bring_an_empty_cell_to_life() {
    let rows: [&[bool]; 3] = [&[true, true, false], &[true, false, false], &[false, false, false]];
    let mut rng = Replay::new(script(&rows, 2));
    let mut sim = GameOfLifeInGameOfLife::new_with(3, 2, HALF, &mut rng);
    // the fresh inner board takes the next four draws
    let mut births = Replay::new(vec![MISS, HIT, HIT, MISS, 11]);
    sim.step_with(&mut births);
    let full = Some(vec![vec![true, true], vec![true, true]]);
    assert_eq!(
        world(&sim),
        vec![
            vec![full.clone(), full.clone(), None],
            vec![full.clone(), Some(vec![vec![false, true], vec![true, false]]), None],
            vec![None, None, None],
        ]
    );
    assert_eq!(births.next_draw(), 11);
}

#[test]
fn a_cell_whose_automaton_dies_is_reborn_with_three_neighbours() {
    // Inner boards of one cell die in their first generation. Every occupied
    // cell then fails to carry on; the one with three living neighbours gets
    // a fresh automaton, the others empty.
    let rows: [&[bool]; 3] = [&[true, true, false], &[true, true, false], &[false, false, false]];
    let mut rng = Replay::new(script(&rows, 1));
    let mut sim = GameOfLifeInGameOfLife::new_with(3, 1, HALF, &mut rng);
    assert_eq!(
        occupied(&sim),
        vec![
            vec![true, true, false],
            vec![true, true, false],
            vec![false, false, false],
        ]
    );
    let mut births = Replay::new(vec![HIT, MISS, HIT, MISS, 3]);
    sim.step_with(&mut births);
    // all four had three living neighbours: each is reborn, in row-major order
    assert_eq!(
        world(&sim),
        vec![
            vec![Some(vec![vec![true]]), Some(vec![vec![false]]), None],
            vec![Some(vec![vec![true]]), Some(vec![vec![false]]), None],
            vec![None, None, None],
        ]
    );
    assert_eq!(births.next_draw(), 3);
}

#[test]
fn an_automaton_without_life_gives_no_signal() {
    // (0, 0) and (0, 1) hold life, (1, 0) holds a dead board: the empty cell
    // (1, 1) counts two living neighbours, not three, and stays empty.
    let draws = vec![HIT, HIT, HIT, HIT, HIT, HIT, HIT, HIT, HIT, HIT, HIT, MISS, MISS, MISS, MISS, MISS];
    let mut rng = Replay::new(draws);
    let mut sim = GameOfLifeInGameOfLife::new_with(2, 2, HALF, &mut rng);
    assert_eq!(occupied(&sim), vec![vec![true, true], vec![true, false]]);
    let mut births = Replay::new(vec![HIT]);
    sim.step_with(&mut births);
    assert_eq!(occupied(&sim), vec![vec![false, false], vec![false, false]]);
}

#[test]
fn an_automaton_advances_before_its_cell_is_judged() {
    // A blinker is carried on, turned, by two living neighbours.
    let draws = vec![
        HIT, MISS, HIT, MISS, MISS, HIT, MISS, MISS, HIT, MISS, // (0, 0): upright blinker
        HIT, HIT, HIT, HIT, HIT, HIT, HIT, HIT, HIT, HIT, // (0, 1): full board
        HIT, HIT, HIT, HIT, HIT, HIT, HIT, HIT, HIT, HIT, // (1, 0): full board
        MISS, // (1, 1): empty
    ];
    let mut rng = Replay::new(draws);
    let mut sim = GameOfLifeInGameOfLife::new_with(2, 3, HALF, &mut rng);
    let mut births = Replay::new(vec![MISS]);
    sim.step_with(&mut births);
    let found = world(&sim);
    assert_eq!(
        found[0][0],
        Some(vec![
            vec![false, false, false],
            vec![true, true, true],
            vec![false, false, false],
        ])
    );
    // the full boards have two living neighbours each and keep their corners
    let corners = Some(vec![
        vec![true, false, true],
        vec![false, false, false],
        vec![true, false, true],
    ]);
    assert_eq!(found[0][1], corners);
    assert_eq!(found[1][0], corners);
    // the empty cell had three living neighbours: its fresh board took nine misses
    assert_eq!(found[1][1], Some(vec![vec![false; 3]; 3]));
}

#[test]
fn density_weighs_the_living_cells() {
    let draws = vec![HIT, MISS, HIT, HIT, MISS, MISS, MISS, HIT, MISS, MISS, MISS, MISS];
    let mut rng = Replay::new(draws);
    let sim = GameOfLifeInGameOfLife::new_with(2, 2, HALF, &mut rng);
    let found = sim.density_grid();
    assert_eq!(DENSITY_WEIGHT, 5);
    assert_eq!(
        found,
        vec![
            Density { numerator: 10, denominator: 4 },
            Density { numerator: 0, denominator: 4 },
            Density { numerator: 0, denominator: 4 },
            Density { numerator: 0, denominator: 4 },
        ]
    );
    let floats: Vec<f64> = found.iter().map(as_float).collect();
    assert_eq!(floats, vec![2.5, 0.0, 0.0, 0.0]);
}

#[test]
fn density_is_not_clamped() {
    let sim = GameOfLifeInGameOfLife::new(2, 3, CERTAIN);
    let found = sim.density_grid();
    assert_eq!(found.len(), 4);
    for density in found.iter() {
        assert_eq!(*density, Density { numerator: 45, denominator: 9 });
        assert_eq!(as_float(density), 5.0);
        assert!(as_float(density) > 1.0);
    }
}

#[test]
fn density_runs_in_row_major_order() {
    let rows: [&[bool]; 3] = [&[false, true, false], &[false, false, false], &[true, false, false]];
    let mut rng = Replay::new(script(&rows, 1));
    let sim = GameOfLifeInGameOfLife::new_with(3, 1, HALF, &mut rng);
    let floats: Vec<f64> = sim.density_grid().iter().map(as_float).collect();
    assert_eq!(floats, vec![0.0, 5.0, 0.0, 0.0, 0.0, 0.0, 5.0, 0.0, 0.0]);
}

#[test]
fn boards_without_cells_have_density_zero() {
    let mut sim = GameOfLifeInGameOfLife::new(2, 0, CERTAIN);
    assert_eq!(occupied(&sim), vec![vec![true, true], vec![true, true]]);
    for density in sim.density_grid().iter() {
        assert_eq!(*density, Density { numerator: 0, denominator: 1 });
        assert_eq!(as_float(density), 0.0);
    }
    sim.step();
    assert_eq!(occupied(&sim), vec![vec![false, false], vec![false, false]]);
}

#[test]
fn a_world_without_cells_does_nothing() {
    let mut sim = GameOfLifeInGameOfLife::new(0, 3, CERTAIN);
    assert_eq!(sim.get_big_N(), 0);
    assert!(sim.density_grid().is_empty());
    sim.step();
    assert_eq!(sim.get_big_N(), 0);
    assert!(sim.density_grid().is_empty());
}

#[test]
fn fits_asks_for_both_levels() {
    assert!(GameOfLifeInGameOfLife::fits(40, 30));
    assert!(GameOfLifeInGameOfLife::fits(0, 0));
    assert!(!GameOfLifeInGameOfLife::fits(usize::MAX, 1));
    assert!(!GameOfLifeInGameOfLife::fits(1, usize::MAX));
}
