use placement_sim::strategies::BinomialQuantizedStrategy;
use placement_sim::strategies::BinomialStrategy;
use placement_sim::strategies::CautiousOptimalStrategy;
use placement_sim::strategies::FirstAvailableStrategy;
use placement_sim::strategies::LastAvailableStrategy;
use placement_sim::strategies::LookupRecord;
use placement_sim::strategies::LookupTableStrategy;
use placement_sim::strategies::MiddleStrategy;
use placement_sim::strategies::OptimalWinStrategy;
use placement_sim::strategy::Strategy;
use placement_sim::LOWER_BOUND;
use placement_sim::NUM_SLOTS;
use placement_sim::UPPER_BOUND;

fn empty_board() -> Vec<Option<i32>> {
    vec![None; NUM_SLOTS]
}

#[test]
fn fixed_position_strategies() {
    let board = empty_board();
    assert_eq!(
        FirstAvailableStrategy.choose_slot(100, 200, 4, 9, 150, &board),
        4
    );
    assert_eq!(
        LastAvailableStrategy.choose_slot(100, 200, 4, 9, 150, &board),
        9
    );
    assert_eq!(MiddleStrategy.choose_slot(100, 200, 4, 9, 150, &board), 6);
    assert_eq!(MiddleStrategy.choose_slot(100, 200, 4, 10, 150, &board), 7);
}

#[test]
fn optimal_win_proportional_bucketing() {
    let board = empty_board();
    // empty 20-slot board with sentinel bounds: a draw of 500 lands in the
    // bucket floor(500 * 20 / 1000) = 10
    let slot = OptimalWinStrategy.choose_slot(
        LOWER_BOUND,
        UPPER_BOUND,
        0,
        NUM_SLOTS - 1,
        500,
        &board,
    );
    assert_eq!(slot, 10);
    // a draw near the top clamps to the last slot
    let slot = OptimalWinStrategy.choose_slot(
        LOWER_BOUND,
        UPPER_BOUND,
        0,
        NUM_SLOTS - 1,
        999,
        &board,
    );
    assert_eq!(slot, NUM_SLOTS - 1);
}

#[test]
fn cautious_optimal_interior_mapping() {
    let board = empty_board();
    // bounds (10, 20), 7 slots, epsilon 10%: the slot width is 10/7 and the
    // margin 1/7, so a draw of 12 (2 above the lower bound) is not forced
    // left; the interior proportional mapping puts it one past the first slot
    let s = CautiousOptimalStrategy::new(10);
    assert_eq!(s.choose_slot(10, 20, 0, 6, 12, &board), 1);
}

#[test]
fn cautious_optimal_margins_force_the_ends() {
    let board = empty_board();
    // with a 100% margin the whole first bucket is reserved: bounds (0, 100),
    // 5 slots, width 20, margin 20: a draw of 10 forces the first slot and a
    // draw of 90 forces the last
    let s = CautiousOptimalStrategy::new(100);
    assert_eq!(s.choose_slot(0, 100, 3, 7, 10, &board), 3);
    assert_eq!(s.choose_slot(0, 100, 3, 7, 90, &board), 7);
}

#[test]
fn binomial_maximum_likelihood_rank() {
    let board = empty_board();
    // empty board, draw 500: among the 19 future numbers the most likely
    // count below 500 is 10 (the mass C(19,k)·501^k·500^(19-k) peaks there)
    let slot = BinomialStrategy.choose_slot(
        LOWER_BOUND,
        UPPER_BOUND,
        0,
        NUM_SLOTS - 1,
        500,
        &board,
    );
    assert_eq!(slot, 10);
    // a draw close above the lower bound stays at the first slot
    let slot = BinomialStrategy.choose_slot(100, 200, 5, 9, 102, &board);
    assert_eq!(slot, 5);
}

#[test]
fn binomial_quantized_tie_takes_the_earlier_rank() {
    let board = empty_board();
    // bounds (10, 20), 5 slots, draw 12: one integer remains below, seven
    // above; the hypergeometric masses for ranks 0 and 1 are both 35, and the
    // earlier rank wins the tie
    let slot = BinomialQuantizedStrategy.choose_slot(10, 20, 0, 4, 12, &board);
    assert_eq!(slot, 0);
}

#[test]
fn binomial_quantized_with_too_few_values_takes_the_first_slot() {
    let board = empty_board();
    // bounds (10, 16): five admissible integers for a six-slot gap — every
    // placement is hopeless and the mass is zero everywhere
    let slot = BinomialQuantizedStrategy.choose_slot(10, 16, 0, 5, 12, &board);
    assert_eq!(slot, 0);
}

#[test]
fn lookup_table_selects_by_offset_threshold() {
    let board = empty_board();
    // one record for key (slots=5, values=10): threshold 4, placement 2. A
    // draw whose offset in the gap is 3 falls under the threshold and takes
    // placement 2 from the gap's first slot.
    let records = vec![LookupRecord {
        num_slots: 5,
        num_values: 10,
        placement_index: 2,
        upper_bound: 4,
    }];
    let s = LookupTableStrategy::new(&records);
    assert!(s.want_full_control());
    assert!(s.can_choose(10, 21, 0, 4, 14));
    // lower = 10, upper = 21: 10 admissible values; number 14 has offset 3
    assert_eq!(s.choose_slot(10, 21, 0, 4, 14, &board), 2);
}

#[test]
fn lookup_table_orders_records_by_threshold() {
    let board = empty_board();
    // records arrive out of order; they are consulted ascending by threshold
    let records = vec![
        LookupRecord { num_slots: 5, num_values: 10, placement_index: 1, upper_bound: 9 },
        LookupRecord { num_slots: 5, num_values: 10, placement_index: 3, upper_bound: 2 },
    ];
    let s = LookupTableStrategy::new(&records);
    // offset 1 is caught by the threshold-2 record
    assert_eq!(s.choose_slot(10, 21, 0, 4, 12, &board), 3);
    // offset 5 passes it and is caught by the threshold-9 record
    assert_eq!(s.choose_slot(10, 21, 0, 4, 16, &board), 1);
    // an offset above every threshold falls back to the last record
    let records = vec![LookupRecord {
        num_slots: 5,
        num_values: 10,
        placement_index: 4,
        upper_bound: 2,
    }];
    let s = LookupTableStrategy::new(&records);
    assert_eq!(s.choose_slot(10, 21, 0, 4, 18, &board), 4);
}

#[test]
fn lookup_table_misses_unknown_keys() {
    let records = vec![LookupRecord {
        num_slots: 5,
        num_values: 10,
        placement_index: 2,
        upper_bound: 4,
    }];
    let s = LookupTableStrategy::new(&records);
    // same slot count, different value count
    assert!(!s.can_choose(10, 20, 0, 4, 14));
    // different slot count
    assert!(!s.can_choose(10, 21, 0, 3, 14));
}

#[test]
fn only_the_lookup_strategy_wants_full_control() {
    assert!(!FirstAvailableStrategy.want_full_control());
    assert!(!LastAvailableStrategy.want_full_control());
    assert!(!MiddleStrategy.want_full_control());
    assert!(!OptimalWinStrategy.want_full_control());
    assert!(!CautiousOptimalStrategy::new(90).want_full_control());
    assert!(!BinomialStrategy.want_full_control());
    assert!(!BinomialQuantizedStrategy.want_full_control());
}
