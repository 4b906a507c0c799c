use placement_sim::engine::find_valid_gap;
use placement_sim::engine::Gap;
use placement_sim::LOWER_BOUND;
use placement_sim::NUM_SLOTS;
use placement_sim::UPPER_BOUND;

fn empty_board() -> Vec<Option<i32>> {
    vec![None; NUM_SLOTS]
}

#[test]
fn empty_board_yields_full_gap_with_sentinels() {
    let board = empty_board();
    let gap = find_valid_gap(&board, 500).expect("empty board always has a gap");
    assert_eq!(gap.lower, LOWER_BOUND);
    assert_eq!(gap.upper, UPPER_BOUND);
    assert_eq!(gap.first_index, 0);
    assert_eq!(gap.last_index, NUM_SLOTS - 1);
}

#[test]
fn gap_between_two_occupied_slots() {
    let mut board = empty_board();
    board[5] = Some(100);
    board[9] = Some(200);
    let gap = find_valid_gap(&board, 150).expect("room between 100 and 200");
    assert_eq!(gap.lower, 100);
    assert_eq!(gap.upper, 200);
    assert_eq!(gap.first_index, 6);
    assert_eq!(gap.last_index, 8);
}

#[test]
fn no_room_between_adjacent_occupied_slots() {
    let mut board = empty_board();
    board[5] = Some(100);
    board[6] = Some(200);
    assert!(find_valid_gap(&board, 150).is_none());
}

#[test]
fn no_room_before_first_slot() {
    let mut board = empty_board();
    board[0] = Some(100);
    assert!(find_valid_gap(&board, 50).is_none());
}

#[test]
fn no_room_after_last_slot() {
    let mut board = empty_board();
    board[NUM_SLOTS - 1] = Some(100);
    assert!(find_valid_gap(&board, 500).is_none());
}

#[test]
fn gap_before_first_occupied_value() {
    let mut board = empty_board();
    board[3] = Some(50);
    let gap = find_valid_gap(&board, 20).expect("room below 50");
    assert_eq!(gap.lower, LOWER_BOUND);
    assert_eq!(gap.upper, 50);
    assert_eq!(gap.first_index, 0);
    assert_eq!(gap.last_index, 2);
}

#[test]
fn gap_after_last_occupied_value() {
    let mut board = empty_board();
    board[3] = Some(50);
    let gap = find_valid_gap(&board, 700).expect("room above 50");
    assert_eq!(gap.lower, 50);
    assert_eq!(gap.upper, UPPER_BOUND);
    assert_eq!(gap.first_index, 4);
    assert_eq!(gap.last_index, NUM_SLOTS - 1);
}

#[test]
fn one_slot_gap_is_still_a_gap() {
    let mut board = empty_board();
    board[5] = Some(100);
    board[7] = Some(200);
    let gap = find_valid_gap(&board, 150).expect("one empty slot between");
    assert_eq!(
        gap,
        Gap { lower: 100, upper: 200, first_index: 6, last_index: 6 }
    );
}
