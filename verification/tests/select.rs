use geotag_query::select::{pick_strategy, select, select_bounded, select_full_sort, Strategy};
use geotag_query::structs::DataPair;
use geotag_query::{ENTRY_COUNT, STRATEGY_BORDER};

fn pair(id: u64, time: u64) -> DataPair {
    DataPair { id, time }
}

#[test]
fn empty_candidates_give_empty_result() {
    let pairs: Vec<DataPair> = Vec::new();
    assert_eq!(select(&pairs, 5, Strategy::FullSort), Vec::new());
    assert_eq!(select(&pairs, 5, Strategy::BoundedSelection), Vec::new());
}

#[test]
fn fewer_candidates_than_n_are_all_kept_sorted() {
    let pairs = vec![pair(7, 10), pair(8, 30), pair(9, 20)];
    let expected = vec![pair(8, 30), pair(9, 20), pair(7, 10)];
    assert_eq!(select(&pairs, 10, Strategy::FullSort), expected);
    assert_eq!(select(&pairs, 10, Strategy::BoundedSelection), expected);
}

#[test]
fn concrete_scenario_top_two() {
    // tag "cat": ids [1, 2, 3] with timestamps [100, 300, 200];
    // the top 2 must be [(2, 300), (3, 200)] under both strategies.
    let pairs = vec![pair(1, 100), pair(2, 300), pair(3, 200)];
    let expected = vec![pair(2, 300), pair(3, 200)];
    assert_eq!(select(&pairs, 2, Strategy::FullSort), expected);
    assert_eq!(select(&pairs, 2, Strategy::BoundedSelection), expected);
}

#[test]
fn zero_n_gives_empty_result() {
    let pairs = vec![pair(1, 100), pair(2, 300)];
    assert_eq!(select(&pairs, 0, Strategy::FullSort), Vec::new());
    assert_eq!(select(&pairs, 0, Strategy::BoundedSelection), Vec::new());
}

#[test]
fn equal_timestamps_break_ties_by_ascending_id() {
    let pairs = vec![pair(5, 100), pair(2, 100), pair(9, 100), pair(1, 50)];
    let expected = vec![pair(2, 100), pair(5, 100), pair(9, 100)];
    assert_eq!(select(&pairs, 3, Strategy::FullSort), expected);
    assert_eq!(select(&pairs, 3, Strategy::BoundedSelection), expected);
}

// A small deterministic generator, so the equivalence check sweeps
// many shapes without depending on a random source.
fn scrambled(count: u64, seed: u64) -> Vec<DataPair> {
    let mut state = seed;
    let mut pairs = Vec::new();
    for id in 0..count {
        state = state.wrapping_mul(6364136223846793005).wrapping_add(1442695040888963407);
        pairs.push(pair(id, state % 1000));
    }
    pairs
}

#[test]
fn strategies_agree_below_the_border() {
    let m = 200;
    assert!(m < STRATEGY_BORDER as u64);
    let pairs = scrambled(m, 42);
    for n in [0usize, 1, 7, 100, 200, 500] {
        assert_eq!(select_full_sort(&pairs, n), select_bounded(&pairs, n));
    }
}

#[test]
fn strategies_agree_above_the_border() {
    let m = STRATEGY_BORDER as u64 + 500;
    let pairs = scrambled(m, 7);
    let full = select_full_sort(&pairs, ENTRY_COUNT);
    let bounded = select_bounded(&pairs, ENTRY_COUNT);
    assert_eq!(full.len(), ENTRY_COUNT);
    assert_eq!(full, bounded);
}

#[test]
fn strategies_agree_with_many_equal_timestamps() {
    let mut pairs = Vec::new();
    for id in 0..300u64 {
        pairs.push(pair(id, id % 5));
    }
    for n in [3usize, 50, 299, 300] {
        assert_eq!(select_full_sort(&pairs, n), select_bounded(&pairs, n));
    }
}

#[test]
fn selection_is_sorted_descending_with_ascending_id_ties() {
    let pairs = scrambled(500, 99);
    let r = select(&pairs, 50, Strategy::BoundedSelection);
    assert_eq!(r.len(), 50);
    for w in r.windows(2) {
        assert!(
            w[0].time > w[1].time || (w[0].time == w[1].time && w[0].id < w[1].id),
            "delivery order violated: {:?} before {:?}",
            w[0],
            w[1]
        );
    }
}

#[test]
fn heuristic_picks_full_sort_only_below_border() {
    assert_eq!(pick_strategy(0, STRATEGY_BORDER), Strategy::FullSort);
    assert_eq!(pick_strategy(STRATEGY_BORDER - 1, STRATEGY_BORDER), Strategy::FullSort);
    assert_eq!(pick_strategy(STRATEGY_BORDER, STRATEGY_BORDER), Strategy::BoundedSelection);
    assert_eq!(pick_strategy(STRATEGY_BORDER + 1, STRATEGY_BORDER), Strategy::BoundedSelection);
}
