use twentysixtyfour::algorithm::{max_free_space, random};
use twentysixtyfour::gameplay::{Board, GamePlayer, MoveDir};
use twentysixtyfour::simulate::{aggregate, bucket_of, run_batch, single, SingleRunResult, MAX_INVALID};

#[test]
fn always_invalid_strategy_stops_at_the_cap() {
    let mut player = GamePlayer::from_seed(8);
    // Up never moves the starting board's corner tile.
    let r = single(&mut player, &|_p: &mut GamePlayer, _b: &Board| MoveDir::Up);
    assert_eq!(r.moves, MAX_INVALID);
    assert_eq!(r.moves, 20);
    assert_eq!(r.score, 0);
    assert_eq!(r.largest, 2);
    let batch = run_batch(&mut player, &|_p: &mut GamePlayer, _b: &Board| MoveDir::Up, 5);
    assert_eq!(batch.runs, 5);
    assert_eq!(batch.max_score, 0);
    assert!(batch.score_cdf_below.iter().all(|c| *c == 0));
    assert_eq!(batch.largest_hist, vec![0, 5]);
}

#[test]
fn games_with_real_strategies_end() {
    let mut player = GamePlayer::from_seed(21);
    let r = single(&mut player, &random);
    assert!(r.moves >= 1);
    assert!(r.score >= 0);
    assert!(r.largest >= 2);
    let r = single(&mut player, &max_free_space);
    assert!(r.moves >= 1);
    assert!(r.largest >= 4);
}

#[test]
fn aggregate_exact_values() {
    let results = vec![
        SingleRunResult { moves: 3, score: 10, largest: 8 },
        SingleRunResult { moves: 9, score: 40, largest: 32 },
        SingleRunResult { moves: 1, score: 0, largest: 2 },
    ];
    let a = aggregate(&results);
    assert_eq!(a.runs, 3);
    assert_eq!(a.max_score, 40);
    assert_eq!(a.score_cdf_below.len(), 100);
    // Thresholds are 0.4, 0.8, ..., 40: score 10 falls below from the 26th on.
    assert_eq!(a.score_cdf_below[0], 1);
    assert_eq!(a.score_cdf_below[24], 1);
    assert_eq!(a.score_cdf_below[25], 2);
    assert_eq!(a.score_cdf_below[99], 2);
    assert_eq!(a.largest_hist, vec![0, 1, 0, 1, 0, 1]);
}

#[test]
fn aggregate_of_no_games() {
    let a = aggregate(&Vec::new());
    assert_eq!(a.runs, 0);
    assert_eq!(a.max_score, 0);
    assert!(a.score_cdf_below.iter().all(|c| *c == 0));
    assert!(a.largest_hist.is_empty());
    let mut player = GamePlayer::from_seed(1);
    let b = run_batch(&mut player, &random, 0);
    assert_eq!(b.runs, 0);
}

#[test]
fn tile_buckets_are_log2() {
    assert_eq!(bucket_of(0), 0);
    assert_eq!(bucket_of(1), 0);
    assert_eq!(bucket_of(2), 1);
    assert_eq!(bucket_of(4), 2);
    assert_eq!(bucket_of(1023), 9);
    assert_eq!(bucket_of(1024), 10);
}
