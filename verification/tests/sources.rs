use nested_life::random::{RandomSource, Replay, ThreadSource};

#[test]
fn replay_starts_over_when_its_script_ends() {
    let mut rng = Replay::new(vec![7, 8, 9]);
    let drawn: Vec<u64> = (0..7).map(|_| rng.next_draw()).collect();
    assert_eq!(drawn, vec![7, 8, 9, 7, 8, 9, 7]);
}

#[test]
fn replay_of_nothing_gives_zeros() {
    let mut rng = Replay::new(Vec::new());
    assert_eq!(rng.next_draw(), 0);
    assert_eq!(rng.next_draw(), 0);
}

#[test]
fn replay_of_one_draw_repeats_it() {
    let mut rng = Replay::new(vec![42]);
    assert_eq!(rng.next_draw(), 42);
    assert_eq!(rng.next_draw(), 42);
    assert_eq!(rng.next_draw(), 42);
}

#[test]
fn thread_source_hands_out_differing_draws() {
    let mut rng = ThreadSource::new();
    let drawn: Vec<u64> = (0..64).map(|_| rng.next_draw()).collect();
    assert!(drawn.iter().any(|d| *d != drawn[0]));
}
