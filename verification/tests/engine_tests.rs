use placement_sim::driver::merge_trial_results;
use placement_sim::driver::run_simulations_multi;
use placement_sim::driver::trial_histograms;
use placement_sim::engine::decide_slot;
use placement_sim::engine::find_valid_gap;
use placement_sim::engine::generate_draws;
use placement_sim::engine::play_trial;
use placement_sim::engine::simulate_game_multi;
use placement_sim::engine::simulate_one;
use placement_sim::engine::EngineError;
use placement_sim::engine::Gap;
use placement_sim::strategies::CautiousOptimalStrategy;
use placement_sim::strategies::FirstAvailableStrategy;
use placement_sim::strategies::LastAvailableStrategy;
use placement_sim::strategies::LookupRecord;
use placement_sim::strategies::LookupTableStrategy;
use placement_sim::strategies::MiddleStrategy;
use placement_sim::strategies::OptimalWinStrategy;
use placement_sim::strategies::StrategyKind;
use placement_sim::NUM_SLOTS;

fn empty_board() -> Vec<Option<i32>> {
    vec![None; NUM_SLOTS]
}

#[test]
fn number_one_above_lower_bound_is_forced_to_the_first_slot() {
    // gap bounds (10, 13) over two empty slots: a draw of 11 is forced to the
    // first slot because it is exactly one above the lower bound
    let board = empty_board();
    let gap = Gap { lower: 10, upper: 13, first_index: 4, last_index: 5 };
    let slot = decide_slot(&MiddleStrategy, gap, 11, &board).unwrap();
    assert_eq!(slot, 4);
}

#[test]
fn number_one_below_upper_bound_is_forced_to_the_last_slot() {
    let board = empty_board();
    let gap = Gap { lower: 10, upper: 13, first_index: 4, last_index: 5 };
    let slot = decide_slot(&FirstAvailableStrategy, gap, 12, &board).unwrap();
    assert_eq!(slot, 5);
}

#[test]
fn one_slot_gap_is_forced() {
    let board = empty_board();
    let gap = Gap { lower: 100, upper: 200, first_index: 7, last_index: 7 };
    let slot = decide_slot(&LastAvailableStrategy, gap, 150, &board).unwrap();
    assert_eq!(slot, 7);
}

#[test]
fn two_slot_gap_goes_to_the_strictly_nearer_bound() {
    let board = empty_board();
    let gap = Gap { lower: 10, upper: 15, first_index: 4, last_index: 5 };
    // 12 is nearer the lower bound
    assert_eq!(decide_slot(&MiddleStrategy, gap, 12, &board).unwrap(), 4);
    // 13 is nearer the upper bound
    assert_eq!(decide_slot(&MiddleStrategy, gap, 13, &board).unwrap(), 5);
    // equidistant resolves to the last slot
    let gap = Gap { lower: 10, upper: 16, first_index: 4, last_index: 5 };
    assert_eq!(decide_slot(&MiddleStrategy, gap, 13, &board).unwrap(), 5);
}

#[test]
fn large_gaps_are_delegated_to_the_strategy() {
    let board = empty_board();
    let gap = Gap { lower: 0, upper: 100, first_index: 0, last_index: 4 };
    assert_eq!(decide_slot(&LastAvailableStrategy, gap, 50, &board).unwrap(), 4);
}

#[test]
fn ascending_draws_fill_the_board_for_every_strategy() {
    // each draw is exactly one above the previous occupied value, so every
    // placement is forced and every strategy wins
    let numbers: Vec<i32> = (0..NUM_SLOTS as i32).collect();
    let strategies = vec![
        ("FirstAvailable".to_string(), StrategyKind::FirstAvailable(FirstAvailableStrategy)),
        ("LastAvailable".to_string(), StrategyKind::LastAvailable(LastAvailableStrategy)),
        ("Middle".to_string(), StrategyKind::Middle(MiddleStrategy)),
        ("OptimalWin".to_string(), StrategyKind::OptimalWin(OptimalWinStrategy)),
        ("CautiousOptimal_90".to_string(), StrategyKind::CautiousOptimal(
            CautiousOptimalStrategy::new(90),
        )),
    ];
    let results = play_trial(&strategies, &numbers).unwrap();
    assert_eq!(results.len(), strategies.len());
    for (i, (name, result)) in results.iter().enumerate() {
        assert_eq!(name, &strategies[i].0);
        assert_eq!(result.placed_count, NUM_SLOTS);
    }
}

#[test]
fn a_blocked_draw_ends_the_trial() {
    // FirstAvailable puts 10 into slot 0; 5 then has no room before it
    let numbers: Vec<i32> = vec![10, 5, 4];
    let strategies = vec![
        ("FirstAvailable".to_string(), StrategyKind::FirstAvailable(FirstAvailableStrategy)),
    ];
    let results = play_trial(&strategies, &numbers).unwrap();
    assert_eq!(results[0].1.placed_count, 1);
}

#[test]
fn shared_draws_keep_strategies_comparable() {
    // LastAvailable puts 10 into slot 19 and keeps room below it
    let numbers: Vec<i32> = vec![10, 5, 4];
    let strategies = vec![
        ("FirstAvailable".to_string(), StrategyKind::FirstAvailable(FirstAvailableStrategy)),
        ("LastAvailable".to_string(), StrategyKind::LastAvailable(LastAvailableStrategy)),
    ];
    let results = play_trial(&strategies, &numbers).unwrap();
    assert_eq!(results[0].1.placed_count, 1);
    assert_eq!(results[1].1.placed_count, 3);
}

#[test]
fn simulate_one_places_every_sorted_draw() {
    let numbers: Vec<i32> = (100..100 + NUM_SLOTS as i32).collect();
    // FirstAvailable starts at slot 0 and every later draw is forced one
    // further right: a full board
    let result = simulate_one(&FirstAvailableStrategy, &numbers).unwrap();
    assert_eq!(result.placed_count, NUM_SLOTS);
    // OptimalWin opens proportionally at slot 2, the forced placements then
    // run off the right edge and the two slots below 100 stay unreachable
    let result = simulate_one(&OptimalWinStrategy, &numbers).unwrap();
    assert_eq!(result.placed_count, NUM_SLOTS - 2);
}

#[test]
fn an_incomplete_table_aborts_the_trial() {
    // the table knows nothing about the empty board's 20-slot gap
    let records = vec![LookupRecord {
        num_slots: 5,
        num_values: 10,
        placement_index: 2,
        upper_bound: 4,
    }];
    let strategies = vec![
        ("LookupTable".to_string(), StrategyKind::LookupTable(LookupTableStrategy::new(&records))),
    ];
    let numbers: Vec<i32> = vec![500];
    match play_trial(&strategies, &numbers) {
        Err(EngineError::MissingTableEntry { num_slots, num_values }) => {
            assert_eq!(num_slots, NUM_SLOTS);
            assert_eq!(num_values, 1000);
        },
        Ok(_) => panic!("a gap without a table entry must abort the trial"),
    }
}

#[test]
fn generated_draws_are_distinct_and_in_range() {
    for _ in 0..50 {
        let draws = generate_draws();
        assert_eq!(draws.len(), NUM_SLOTS);
        for (i, &d) in draws.iter().enumerate() {
            assert!((0..1000).contains(&d));
            for &e in &draws[i + 1..] {
                assert_ne!(d, e);
            }
        }
    }
}

#[test]
fn random_trials_stay_on_the_board() {
    let strategies = vec![
        ("OptimalWin".to_string(), StrategyKind::OptimalWin(OptimalWinStrategy)),
        ("Middle".to_string(), StrategyKind::Middle(MiddleStrategy)),
    ];
    for _ in 0..20 {
        let results = simulate_game_multi(&strategies).unwrap();
        assert_eq!(results.len(), 2);
        assert_eq!(results[0].0, "OptimalWin");
        assert_eq!(results[1].0, "Middle");
        for (_, r) in &results {
            assert!(r.placed_count <= NUM_SLOTS);
        }
    }
}

#[test]
fn a_trial_histogram_counts_exactly_one_trial() {
    let strategies = vec![
        ("OptimalWin".to_string(), StrategyKind::OptimalWin(OptimalWinStrategy)),
        ("First".to_string(), StrategyKind::FirstAvailable(FirstAvailableStrategy)),
    ];
    let hists = trial_histograms(&strategies).unwrap();
    assert_eq!(hists.len(), 2);
    for h in &hists {
        assert_eq!(h.len(), NUM_SLOTS + 1);
        assert_eq!(h.iter().sum::<usize>(), 1);
    }
}

#[test]
fn merging_adds_buckets_elementwise() {
    let mut a = vec![0usize; NUM_SLOTS + 1];
    let mut b = vec![0usize; NUM_SLOTS + 1];
    a[3] = 2;
    a[20] = 5;
    b[3] = 1;
    b[0] = 4;
    let merged = merge_trial_results(Ok(vec![a]), Ok(vec![b])).unwrap();
    assert_eq!(merged.len(), 1);
    assert_eq!(merged[0][3], 3);
    assert_eq!(merged[0][20], 5);
    assert_eq!(merged[0][0], 4);
    assert_eq!(merged[0].iter().sum::<usize>(), 12);
}

#[test]
fn merging_propagates_an_aborted_side() {
    let a = vec![vec![0usize; NUM_SLOTS + 1]];
    let err = EngineError::MissingTableEntry { num_slots: 3, num_values: 7 };
    assert_eq!(merge_trial_results(Err(err), Ok(a.clone())), Err(err));
    assert_eq!(merge_trial_results(Ok(a), Err(err)), Err(err));
}

#[test]
fn histogram_buckets_sum_to_the_trial_count() {
    let strategies = vec![
        ("OptimalWin".to_string(), StrategyKind::OptimalWin(OptimalWinStrategy)),
        ("Middle".to_string(), StrategyKind::Middle(MiddleStrategy)),
        ("CautiousOptimal_85".to_string(), StrategyKind::CautiousOptimal(
            CautiousOptimalStrategy::new(85),
        )),
    ];
    let num_simulations: usize = 50;
    let histograms = run_simulations_multi(&strategies, num_simulations).unwrap();
    assert_eq!(histograms.len(), 3);
    for (i, (name, hist)) in histograms.iter().enumerate() {
        assert_eq!(name, &strategies[i].0);
        assert_eq!(hist.len(), NUM_SLOTS + 1);
        assert_eq!(hist.iter().sum::<usize>(), num_simulations);
    }
}

#[test]
fn find_valid_gap_agrees_with_legal_positions() {
    // every slot of a returned gap accepts the number without breaking order;
    // outside the gap a placement would break it
    let mut board = empty_board();
    board[2] = Some(10);
    board[6] = Some(90);
    board[7] = Some(120);
    let gap = find_valid_gap(&board, 50).expect("room between 10 and 90");
    assert_eq!((gap.first_index, gap.last_index), (3, 5));
    assert_eq!((gap.lower, gap.upper), (10, 90));
    for i in gap.first_index..=gap.last_index {
        assert!(board[i].is_none());
    }
}

#[test]
fn placements_keep_the_board_sorted() {
    // after every legal placement the occupied values, read by index, stay
    // strictly increasing
    let mut board = empty_board();
    let numbers = [500, 14, 999, 268, 703, 42, 617];
    let mut placed = 0;
    for &n in &numbers {
        if let Some(gap) = find_valid_gap(&board, n) {
            let slot = decide_slot(&OptimalWinStrategy, gap, n, &board).unwrap();
            assert!(gap.first_index <= slot && slot <= gap.last_index);
            assert!(board[slot].is_none());
            board[slot] = Some(n);
            placed += 1;
            let occupied: Vec<i32> = board.iter().filter_map(|&v| v).collect();
            for w in occupied.windows(2) {
                assert!(w[0] < w[1]);
            }
        }
    }
    assert_eq!(placed, 7);
}

#[test]
fn merging_is_order_independent() {
    let mut a = vec![0usize; NUM_SLOTS + 1];
    let mut b = vec![0usize; NUM_SLOTS + 1];
    let mut c = vec![0usize; NUM_SLOTS + 1];
    a[1] = 3;
    b[1] = 4;
    b[20] = 2;
    c[0] = 7;
    let ab = merge_trial_results(Ok(vec![a.clone()]), Ok(vec![b.clone()])).unwrap();
    let ba = merge_trial_results(Ok(vec![b.clone()]), Ok(vec![a.clone()])).unwrap();
    assert_eq!(ab, ba);
    let ab_c = merge_trial_results(Ok(ab), Ok(vec![c.clone()])).unwrap();
    let bc = merge_trial_results(Ok(vec![b]), Ok(vec![c])).unwrap();
    let a_bc = merge_trial_results(Ok(vec![a]), Ok(bc)).unwrap();
    assert_eq!(ab_c, a_bc);
}
