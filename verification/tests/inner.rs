use nested_life::jeu_de_la_vie::{draw_hits, GameOfLife};
use nested_life::random::Replay;

const HALF: u64 = 1 << 52;
const CERTAIN: u64 = 1 << 53;
const HIT: u64 = 0;
const MISS: u64 = u64::MAX;

/// Seeds a board of `rows.len()` rows with exactly the cells marked `true`.
fn board(rows: &[&[bool]]) -> GameOfLife {
    let mut script = Vec::new();
    for row in rows {
        assert_eq!(row.len(), rows.len());
        for alive in row.iter() {
            script.push(if *alive { HIT } else { MISS });
        }
    }
    let mut rng = Replay::new(script);
    GameOfLife::new_with(rows.len(), HALF, &mut rng)
}

fn cells(life: &GameOfLife) -> Vec<Vec<bool>> {
    let n = life.get_grid_size();
    (0..n).map(|i| (0..n).map(|j| life.is_alive(i, j)).collect()).collect()
}

#[test]
fn seeded_board_follows_its_script() {
    let mut rng = Replay::new(vec![HIT, MISS]);
    let life = GameOfLife::new_with(2, HALF, &mut rng);
    assert_eq!(life.get_grid_size(), 2);
    assert_eq!(cells(&life), vec![vec![true, false], vec![true, false]]);
    assert_eq!(life.alive_count(), 2);
}

#[test]
fn seeding_takes_draws_in_row_major_order() {
    let life = board(&[&[false, true, false], &[false, false, true], &[true, false, false]]);
    assert!(life.is_alive(0, 1));
    assert!(life.is_alive(1, 2));
    assert!(life.is_alive(2, 0));
    assert_eq!(life.alive_count(), 3);
}

#[test]
fn a_draw_hits_when_its_top_bits_lie_below_the_chance() {
    assert!(draw_hits(0, 1));
    assert!(draw_hits(2047, 1));
    assert!(!draw_hits(2048, 1));
    assert!(draw_hits(2048, 2));
    assert!(!draw_hits(0, 0));
    assert!(!draw_hits(MISS, HALF));
    assert!(draw_hits((HALF << 11) - 1, HALF));
    assert!(!draw_hits(HALF << 11, HALF));
    assert!(draw_hits(MISS, CERTAIN));
}

#[test]
fn chance_zero_seeds_nothing_and_certainty_seeds_everything() {
    let none = GameOfLife::new(4, 0);
    assert!(!none.has_alive());
    assert_eq!(none.alive_count(), 0);
    let all = GameOfLife::new(4, CERTAIN);
    assert!(all.has_alive());
    assert_eq!(all.alive_count(), 16);
}

#[test]
fn block_is_a_still_life() {
    let start = vec![
        vec![true, true, false],
        vec![true, true, false],
        vec![false, false, false],
    ];
    let mut life = board(&[&[true, true, false], &[true, true, false], &[false, false, false]]);
    assert_eq!(life.get_grid_size(), 3);
    assert!(life.has_alive());
    assert_eq!(cells(&life), start);
    for _ in 0..25 {
        life.step();
        assert!(life.has_alive());
        assert_eq!(cells(&life), start);
    }
}

#[test]
fn blinker_turns_and_turns_back() {
    let upright = vec![
        vec![false, true, false],
        vec![false, true, false],
        vec![false, true, false],
    ];
    let flat = vec![
        vec![false, false, false],
        vec![true, true, true],
        vec![false, false, false],
    ];
    let mut life = board(&[&[false, true, false], &[false, true, false], &[false, true, false]]);
    assert_eq!(cells(&life), upright);
    life.step();
    assert_eq!(cells(&life), flat);
    life.step();
    assert_eq!(cells(&life), upright);
}

#[test]
fn three_neighbours_bring_a_dead_cell_to_life() {
    let mut life = board(&[&[true, true, false], &[true, false, false], &[false, false, false]]);
    life.step();
    assert_eq!(
        cells(&life),
        vec![
            vec![true, true, false],
            vec![true, true, false],
            vec![false, false, false],
        ]
    );
}

#[test]
fn a_crowded_cell_dies() {
    let mut life = board(&[&[true, true, true], &[true, true, true], &[true, true, true]]);
    life.step();
    assert_eq!(
        cells(&life),
        vec![
            vec![true, false, true],
            vec![false, false, false],
            vec![true, false, true],
        ]
    );
}

#[test]
fn a_lone_cell_dies() {
    let mut life = board(&[&[true]]);
    assert!(life.has_alive());
    assert_eq!(life.neighbor_active_count(0, 0), 0);
    life.step();
    assert!(!life.has_alive());
    assert_eq!(life.alive_count(), 0);
}

#[test]
fn neighbours_stop_at_the_edges() {
    let life = board(&[&[true, true, true], &[true, true, true], &[true, true, true]]);
    assert_eq!(life.neighbor_active_count(0, 0), 3);
    assert_eq!(life.neighbor_active_count(0, 1), 5);
    assert_eq!(life.neighbor_active_count(0, 2), 3);
    assert_eq!(life.neighbor_active_count(1, 0), 5);
    assert_eq!(life.neighbor_active_count(1, 1), 8);
    assert_eq!(life.neighbor_active_count(2, 2), 3);
}

#[test]
fn neighbours_do_not_wrap_around() {
    let life = board(&[&[true, false, false], &[false, false, false], &[false, false, false]]);
    assert_eq!(life.neighbor_active_count(2, 2), 0);
    assert_eq!(life.neighbor_active_count(0, 2), 0);
    assert_eq!(life.neighbor_active_count(2, 0), 0);
    assert_eq!(life.neighbor_active_count(1, 1), 1);
    assert_eq!(life.neighbor_active_count(0, 0), 0);
}

#[test]
fn a_board_without_cells_never_has_life() {
    let mut life = GameOfLife::new(0, CERTAIN);
    assert_eq!(life.get_grid_size(), 0);
    assert!(!life.has_alive());
    life.step();
    assert!(!life.has_alive());
    assert_eq!(life.alive_count(), 0);
}

#[test]
fn step_keeps_the_size_of_the_board() {
    let mut life = GameOfLife::new(5, HALF);
    for _ in 0..10 {
        life.step();
        assert_eq!(life.get_grid_size(), 5);
    }
}

#[test]
fn fits_follows_the_number_of_cells() {
    assert!(GameOfLife::fits(0));
    assert!(GameOfLife::fits(1));
    assert!(GameOfLife::fits(30));
    assert!(!GameOfLife::fits(usize::MAX));
    let limit = isize::MAX as u128;
    let mut root = (isize::MAX as f64).sqrt() as u128;
    while root * root > limit {
        root -= 1;
    }
    while (root + 1) * (root + 1) <= limit {
        root += 1;
    }
    let root = root as usize;
    assert!(GameOfLife::fits(root));
    assert!(!GameOfLife::fits(root + 1));
}

#[test]
fn a_clone_is_a_board_of_its_own() {
    let mut life = board(&[&[false, true, false], &[false, true, false], &[false, true, false]]);
    let kept = life.clone();
    life.step();
    assert_eq!(kept.get_grid_size(), 3);
    assert_eq!(
        cells(&kept),
        vec![
            vec![false, true, false],
            vec![false, true, false],
            vec![false, true, false],
        ]
    );
    assert_ne!(cells(&life), cells(&kept));
}
