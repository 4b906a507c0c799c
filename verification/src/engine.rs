use vstd::prelude::*;

verus! {

use crate::NUM_SLOTS;
use crate::LOWER_BOUND;
use crate::UPPER_BOUND;
use crate::strategy::Strategy;
use rand::RngExt;
use vstd::pervasive::VecAdditionalExecFns;

/// A contiguous run of empty slots together with the open numeric interval a
/// number placed there must lie in: `lower < number < upper`, where `lower`
/// is `LOWER_BOUND` when the run has no occupied slot to its left and `upper`
/// is `UPPER_BOUND` when it has none to its right.
#[derive(Debug, Clone, Copy, PartialEq, Eq, Structural)]
pub struct Gap {
    pub lower: i32,
    pub upper: i32,
    pub first_index: usize,
    pub last_index: usize,
}

/// The outcome of one trial for one strategy: how many slots it filled before
/// losing or completing the board.
#[derive(Debug, Clone, Copy, PartialEq, Eq, Structural)]
pub struct GameResult {
    pub placed_count: usize,
}

/// A fatal defect surfaced by the engine: the run is aborted, never resumed.
#[derive(Debug, Clone, Copy, PartialEq, Eq, Structural)]
pub enum EngineError {
    /// A lookup-table strategy had no record for a gap geometry it was asked
    /// to decide: the table is incomplete for the game's parameter space.
    MissingTableEntry { num_slots: usize, num_values: usize },
}

/// The occupied slots of `b`, read in index order, hold strictly increasing
/// values.
pub open spec fn board_sorted(b: Seq<Option<i32>>) -> bool {
    forall|i: int, j: int|
        0 <= i < j < b.len() && b[i] is Some && b[j] is Some ==> b[i]->0 < b[j]->0
}

/// Every value placed on `b` lies in the drawable range.
pub open spec fn board_values_in_range(b: Seq<Option<i32>>) -> bool {
    forall|i: int| 0 <= i < b.len() && b[i] is Some ==> 0 <= b[i]->0 < UPPER_BOUND
}

/// The board invariant the engine maintains.
pub open spec fn board_wf(b: Seq<Option<i32>>) -> bool {
    &&& b.len() == NUM_SLOTS
    &&& board_sorted(b)
    &&& board_values_in_range(b)
}

/// `n` already sits on the board.
pub open spec fn board_contains(b: Seq<Option<i32>>, n: int) -> bool {
    exists|i: int| 0 <= i < b.len() && b[i] is Some && b[i]->0 == n
}

/// `number` may legally go into slot `i`: the slot is empty, every occupied
/// slot to its left holds a smaller value and every occupied slot to its
/// right holds a larger one.
pub open spec fn can_place_at(b: Seq<Option<i32>>, number: int, i: int) -> bool {
    &&& 0 <= i < b.len()
    &&& b[i] is None
    &&& forall|j: int| 0 <= j < i && b[j] is Some ==> b[j]->0 < number
    &&& forall|j: int| i < j < b.len() && b[j] is Some ==> b[j]->0 > number
}

/// Some slot of `b` can legally take `number`.
pub open spec fn has_gap(b: Seq<Option<i32>>, number: int) -> bool {
    exists|i: int| can_place_at(b, number, i)
}

/// The smallest index at or after `i` where `number` may go, or `b.len()`.
pub open spec fn first_placeable_from(b: Seq<Option<i32>>, number: int, i: int) -> int
    decreases b.len() - i,
{
    if i >= b.len() {
        b.len() as int
    } else if can_place_at(b, number, i) {
        i
    } else {
        first_placeable_from(b, number, i + 1)
    }
}

/// The largest index at or before `i` where `number` may go, or `-1`.
pub open spec fn last_placeable_from(b: Seq<Option<i32>>, number: int, i: int) -> int
    decreases i + 1,
{
    if i < 0 {
        -1
    } else if can_place_at(b, number, i) {
        i
    } else {
        last_placeable_from(b, number, i - 1)
    }
}

/// The gap `find_valid_gap` yields: the maximal run of legal slots for
/// `number`, bracketed by the neighbouring occupied values (or the
/// sentinels), or nothing when no slot can legally take `number`.
pub open spec fn spec_gap(b: Seq<Option<i32>>, number: int) -> Option<Gap> {
    if has_gap(b, number) {
        let f = first_placeable_from(b, number, 0);
        let l = last_placeable_from(b, number, b.len() - 1);
        Some(
            Gap {
                lower: if f == 0 { LOWER_BOUND } else { b[f - 1]->0 },
                upper: if l == b.len() - 1 { UPPER_BOUND } else { b[l + 1]->0 },
                first_index: f as usize,
                last_index: l as usize,
            },
        )
    } else {
        None
    }
}

proof fn lemma_first_placeable_pins(b: Seq<Option<i32>>, number: int, i: int, x: int)
    requires
        0 <= i <= x < b.len(),
        can_place_at(b, number, x),
        forall|j: int| i <= j < x ==> !can_place_at(b, number, j),
    ensures
        first_placeable_from(b, number, i) == x,
    decreases x - i,
{
    if i < x {
        lemma_first_placeable_pins(b, number, i + 1, x);
    }
}

proof fn lemma_last_placeable_pins(b: Seq<Option<i32>>, number: int, i: int, x: int)
    requires
        0 <= x <= i < b.len(),
        can_place_at(b, number, x),
        forall|j: int| x < j <= i ==> !can_place_at(b, number, j),
    ensures
        last_placeable_from(b, number, i) == x,
    decreases i - x,
{
    if x < i {
        lemma_last_placeable_pins(b, number, i - 1, x);
    }
}

proof fn lemma_first_placeable_props(b: Seq<Option<i32>>, number: int, i: int, w: int)
    requires
        0 <= i <= w < b.len(),
        can_place_at(b, number, w),
    ensures
        i <= first_placeable_from(b, number, i) <= w,
        can_place_at(b, number, first_placeable_from(b, number, i)),
        forall|j: int| i <= j < first_placeable_from(b, number, i) ==> !can_place_at(b, number, j),
    decreases w - i,
{
    if !can_place_at(b, number, i) {
        lemma_first_placeable_props(b, number, i + 1, w);
    }
}

proof fn lemma_last_placeable_props(b: Seq<Option<i32>>, number: int, i: int, w: int)
    requires
        0 <= w <= i < b.len(),
        can_place_at(b, number, w),
    ensures
        w <= last_placeable_from(b, number, i) <= i,
        can_place_at(b, number, last_placeable_from(b, number, i)),
        forall|j: int| last_placeable_from(b, number, i) < j <= i ==> !can_place_at(b, number, j),
    decreases i - w,
{
    if !can_place_at(b, number, i) {
        lemma_last_placeable_props(b, number, i - 1, w);
    }
}

/// No gap exists for `number` exactly when no slot can legally take it.
pub proof fn lemma_no_gap_iff_no_slot(b: Seq<Option<i32>>, number: int)
    ensures
        spec_gap(b, number) is None <==> (forall|i: int| !can_place_at(b, number, i)),
{
    if spec_gap(b, number) is None {
        assert(!has_gap(b, number));
    } else {
        assert(has_gap(b, number));
    }
}

/// A returned gap contains only slots that can legally take `number` — in
/// particular only empty slots — its bounds strictly bracket `number`, and
/// each bound is the neighbouring occupied value or the matching sentinel.
pub proof fn lemma_gap_brackets_number(b: Seq<Option<i32>>, number: int)
    requires
        board_values_in_range(b),
        0 <= number < UPPER_BOUND,
        1 <= b.len() <= usize::MAX,
        spec_gap(b, number) is Some,
    ensures
        ({
            let g = spec_gap(b, number)->0;
            &&& 0 <= g.first_index <= g.last_index < b.len()
            &&& forall|i: int| g.first_index <= i <= g.last_index ==> can_place_at(b, number, i)
            &&& forall|i: int| g.first_index <= i <= g.last_index ==> b[i] is None
            &&& LOWER_BOUND <= g.lower < number < g.upper <= UPPER_BOUND
            &&& g.first_index > 0 ==> b[g.first_index - 1] is Some
                && b[g.first_index - 1]->0 == g.lower
            &&& g.first_index == 0 ==> g.lower == LOWER_BOUND
            &&& g.last_index < b.len() - 1 ==> b[g.last_index + 1] is Some
                && b[g.last_index + 1]->0 == g.upper
            &&& g.last_index == b.len() - 1 ==> g.upper == UPPER_BOUND
        }),
{
    let g = spec_gap(b, number)->0;
    let f = first_placeable_from(b, number, 0);
    let l = last_placeable_from(b, number, b.len() - 1);
    assert(has_gap(b, number));
    let w = choose|i: int| can_place_at(b, number, i);
    assert(can_place_at(b, number, w));
    lemma_first_placeable_props(b, number, 0, w);
    lemma_last_placeable_props(b, number, b.len() - 1, w);
    assert(f <= l) by {
        if l < f {
            assert(!can_place_at(b, number, f));
        }
    }
    assert(g.first_index == f as usize && g.last_index == l as usize);

    // every slot of the run is empty
    assert forall|k: int| f <= k <= l implies b[k] is None by {
        if b[k] is Some {
            if b[k]->0 > number {
                // contradicts legality of `l`: an occupied slot to its left
                // must hold a smaller value
                assert(k < l);
                assert(!(b[k]->0 < number));
                assert(false);
            } else {
                // contradicts legality of `f`: an occupied slot to its right
                // must hold a larger value
                assert(k > f);
                assert(false);
            }
        }
    }

    // hence every slot of the run is itself a legal position
    assert forall|i: int| f <= i <= l implies can_place_at(b, number, i) by {
        assert forall|j: int| 0 <= j < i && b[j] is Some implies b[j]->0 < number by {
            assert(j < f);
        }
        assert forall|j: int| i < j < b.len() && b[j] is Some implies b[j]->0 > number by {
            assert(j > l);
        }
    }

    // the slot left of the run is occupied (else the run would start earlier)
    if f > 0 {
        if b[f - 1] is None {
            assert(can_place_at(b, number, f - 1)) by {
                assert forall|j: int| 0 <= j < f - 1 && b[j] is Some implies b[j]->0 < number by {
                    assert(can_place_at(b, number, f));
                }
                assert forall|j: int| f - 1 < j < b.len() && b[j] is Some implies b[j]->0 > number
                by {
                    assert(j > l);
                    assert(can_place_at(b, number, l));
                }
            }
            assert(false);
        }
        assert(b[f - 1]->0 < number) by {
            assert(can_place_at(b, number, f));
        }
    }
    if l < b.len() - 1 {
        if b[l + 1] is None {
            assert(can_place_at(b, number, l + 1)) by {
                assert forall|j: int| 0 <= j < l + 1 && b[j] is Some implies b[j]->0 < number by {
                    assert(j < f);
                    assert(can_place_at(b, number, f));
                }
                assert forall|j: int| l + 1 < j < b.len() && b[j] is Some implies b[j]->0 > number
                by {
                    assert(can_place_at(b, number, l));
                }
            }
            assert(false);
        }
        assert(b[l + 1]->0 > number) by {
            assert(can_place_at(b, number, l));
        }
    }
}

/// Placing `number` in a slot that can legally take it keeps the occupied
/// values strictly increasing: the board invariant survives every placement.
pub proof fn lemma_place_keeps_order(b: Seq<Option<i32>>, number: i32, i: int)
    requires
        board_sorted(b),
        can_place_at(b, number as int, i),
    ensures
        board_sorted(b.update(i, Some(number))),
{
    let b2 = b.update(i, Some(number));
    assert forall|p: int, q: int|
        0 <= p < q < b2.len() && b2[p] is Some && b2[q] is Some implies b2[p]->0 < b2[q]->0 by {
        if p != i && q != i {
            assert(b2[p] == b[p] && b2[q] == b[q]);
        }
    }
}

/// Finds the gap (if any) where `number` can be legally placed on the current
/// board: the maximal contiguous run of empty slots whose bracketing occupied
/// values (or the sentinels) enclose `number`.
pub fn find_valid_gap(board: &Vec<Option<i32>>, number: i32) -> (r: Option<Gap>)
    requires
        board_wf(board@),
        !board_contains(board@, number as int),
        0 <= number < UPPER_BOUND,
    ensures
        r == spec_gap(board@, number as int),
{
    let ghost bs = board@;
    let ghost num = number as int;
    let mut have_start = false;
    let mut have_end = false;
    let mut start: usize = 0;
    let mut end: usize = NUM_SLOTS;
    let mut i: usize = 0;
    while i < NUM_SLOTS && !have_end
        invariant
            board_wf(bs),
            !board_contains(bs, num),
            0 <= num < UPPER_BOUND,
            bs == board@,
            num == number as int,
            i <= NUM_SLOTS,
            have_start ==> start < i && bs[start as int] is Some && bs[start as int]->0 < num,
            have_end ==> i >= 1 && end == i - 1 && bs[end as int] is Some
                && bs[end as int]->0 > num,
            have_start && have_end ==> start < end,
            !have_end ==> forall|j: int| 0 <= j < i && bs[j] is Some ==> bs[j]->0 < num,
            have_end ==> forall|j: int| 0 <= j < end && bs[j] is Some ==> bs[j]->0 < num,
            have_start ==> forall|j: int|
                start < j < i && bs[j] is Some ==> have_end && j == end,
            !have_start ==> forall|j: int|
                0 <= j < i && bs[j] is Some ==> have_end && j == end,
        decreases NUM_SLOTS - i,
    {
        let slot = board[i];
        proof {
            assert(slot == bs[i as int]);
        }
        match slot {
            Some(v) => {
                proof {
                    assert(bs[i as int] is Some && bs[i as int]->0 == v);
                }
                if v < number {
                    start = i;
                    have_start = true;
                } else if v > number {
                    end = i;
                    have_end = true;
                } else {
                    proof {
                        // a drawn number is never already on the board
                        assert(0 <= (i as int) && (i as int) < bs.len() && bs[i as int] is Some
                            && bs[i as int]->0 == num);
                        assert(board_contains(bs, num));
                    }
                }
            },
            None => {},
        }
        i = i + 1;
    }

    if !have_start && !have_end {
        // the board is entirely empty
        proof {
            assert forall|j: int| 0 <= j < bs.len() implies bs[j] is None by {}
            assert(can_place_at(bs, num, 0));
            assert(can_place_at(bs, num, NUM_SLOTS - 1));
            lemma_first_placeable_pins(bs, num, 0, 0);
            lemma_last_placeable_pins(bs, num, bs.len() - 1, bs.len() - 1);
        }
        return Some(
            Gap { lower: LOWER_BOUND, upper: UPPER_BOUND, first_index: 0, last_index: NUM_SLOTS - 1 },
        );
    }

    if !have_start {
        // `number` lies below every value on the board
        if end == 0 {
            proof {
                assert forall|k: int| !can_place_at(bs, num, k) by {
                    if 0 <= k < bs.len() {
                        if k == 0 {
                            assert(bs[0] is Some);
                        } else {
                            assert(bs[0] is Some && !(bs[0]->0 < num));
                        }
                    }
                }
            }
            return None;
        }
        proof {
            assert forall|k: int| 0 <= k < end implies bs[k] is None by {}
            assert(can_place_at(bs, num, 0));
            assert(can_place_at(bs, num, end - 1));
            lemma_first_placeable_pins(bs, num, 0, 0);
            assert forall|j: int| end - 1 < j <= bs.len() - 1 implies !can_place_at(bs, num, j) by {
                if j == end as int {
                    assert(bs[j] is Some);
                } else {
                    assert(bs[end as int] is Some && !(bs[end as int]->0 < num));
                }
            }
            lemma_last_placeable_pins(bs, num, bs.len() - 1, end - 1);
        }
        let upper_val = board[end].unwrap();
        return Some(Gap { lower: LOWER_BOUND, upper: upper_val, first_index: 0, last_index: end - 1 });
    }

    if !have_end {
        // `number` lies above every value on the board
        if start == NUM_SLOTS - 1 {
            proof {
                assert forall|k: int| !can_place_at(bs, num, k) by {
                    if 0 <= k < bs.len() {
                        if k == start as int {
                            assert(bs[k] is Some);
                        } else {
                            assert(bs[start as int] is Some && !(bs[start as int]->0 > num));
                        }
                    }
                }
            }
            return None;
        }
        proof {
            assert forall|k: int| start < k < bs.len() implies bs[k] is None by {}
            assert(can_place_at(bs, num, start + 1));
            assert(can_place_at(bs, num, bs.len() - 1));
            assert forall|j: int| 0 <= j < start + 1 implies !can_place_at(bs, num, j) by {
                if j == start as int {
                    assert(bs[j] is Some);
                } else {
                    assert(bs[start as int] is Some && !(bs[start as int]->0 > num));
                }
            }
            lemma_first_placeable_pins(bs, num, 0, start + 1);
            lemma_last_placeable_pins(bs, num, bs.len() - 1, bs.len() - 1);
        }
        let lower_val = board[start].unwrap();
        return Some(
            Gap { lower: lower_val, upper: UPPER_BOUND, first_index: start + 1, last_index: NUM_SLOTS - 1 },
        );
    }

    // both a smaller and a larger occupied value exist
    if end - start <= 1 {
        // the bracketing occupied slots are adjacent: no room between them
        proof {
            assert forall|k: int| !can_place_at(bs, num, k) by {
                if 0 <= k < bs.len() {
                    if k <= start as int {
                        if k == start as int {
                            assert(bs[k] is Some);
                        } else {
                            assert(bs[start as int] is Some && !(bs[start as int]->0 > num));
                        }
                    } else {
                        if k == end as int {
                            assert(bs[k] is Some);
                        } else {
                            assert(bs[end as int] is Some && !(bs[end as int]->0 < num));
                        }
                    }
                }
            }
        }
        return None;
    }

    proof {
        assert forall|k: int| start < k < end implies bs[k] is None by {}
        assert(can_place_at(bs, num, start + 1));
        assert(can_place_at(bs, num, end - 1));
        assert forall|j: int| 0 <= j < start + 1 implies !can_place_at(bs, num, j) by {
            if j == start as int {
                assert(bs[j] is Some);
            } else {
                assert(bs[start as int] is Some && !(bs[start as int]->0 > num));
            }
        }
        lemma_first_placeable_pins(bs, num, 0, start + 1);
        assert forall|j: int| end - 1 < j <= bs.len() - 1 implies !can_place_at(bs, num, j) by {
            if j == end as int {
                assert(bs[j] is Some);
            } else {
                assert(bs[end as int] is Some && !(bs[end as int]->0 < num));
            }
        }
        lemma_last_placeable_pins(bs, num, bs.len() - 1, end - 1);
    }
    let lower_val = board[start].unwrap();
    let upper_val = board[end].unwrap();
    Some(Gap { lower: lower_val, upper: upper_val, first_index: start + 1, last_index: end - 1 })
}

/// A fresh board: every slot empty.
pub open spec fn empty_board() -> Seq<Option<i32>> {
    Seq::new(NUM_SLOTS as nat, |k: int| Option::<i32>::None)
}

/// A legal draw sequence: values in the drawable range, no repeats.
pub open spec fn draws_wf(nums: Seq<i32>) -> bool {
    &&& forall|k: int| 0 <= k < nums.len() ==> 0 <= #[trigger] nums[k] < UPPER_BOUND
    &&& forall|k1: int, k2: int| 0 <= k1 < k2 < nums.len() ==> nums[k1] != nums[k2]
}

/// Whether the engine consults the strategy for this gap, rather than one of
/// its forced fast-path rules.
pub open spec fn spec_needs_strategy<S: Strategy>(s: S, g: Gap, number: int) -> bool {
    ||| s.full_control()
    ||| (g.first_index != g.last_index && number != g.lower as int + 1 && number + 1 != g.upper
        as int && g.first_index + 1 != g.last_index)
}

/// The engine's per-draw decision. A full-control strategy sees every gap;
/// otherwise a one-slot gap, a number adjacent to a bound, or a two-slot gap
/// is resolved by the forced rules, and only the remaining gaps (at least
/// three slots, number well inside the bounds) reach the strategy.
pub open spec fn spec_decide<S: Strategy>(s: S, g: Gap, number: int) -> int {
    if s.full_control() {
        s.chosen(g.lower as int, g.upper as int, g.first_index as int, g.last_index as int, number)
    } else if g.first_index == g.last_index || number == g.lower as int + 1 {
        g.first_index as int
    } else if number + 1 == g.upper as int {
        g.last_index as int
    } else if g.first_index + 1 == g.last_index {
        if (number - g.lower as int) < (g.upper as int - number) {
            g.first_index as int
        } else {
            g.last_index as int
        }
    } else {
        s.chosen(g.lower as int, g.upper as int, g.first_index as int, g.last_index as int, number)
    }
}

/// One strategy's trial from draw `i` on: how many numbers it places before
/// losing or filling the board, or the fatal error when a gap reaches a
/// strategy that cannot decide it.
pub open spec fn spec_trial_from<S: Strategy>(
    s: S,
    nums: Seq<i32>,
    i: int,
    b: Seq<Option<i32>>,
    placed: int,
) -> Result<int, EngineError>
    decreases nums.len() - i,
{
    if i >= nums.len() {
        Ok(placed)
    } else {
        let n = nums[i] as int;
        match spec_gap(b, n) {
            Option::None => Ok(placed),
            Option::Some(g) => {
                if spec_needs_strategy(s, g, n) && !s.ready(
                    g.lower as int,
                    g.upper as int,
                    g.first_index as int,
                    g.last_index as int,
                    n,
                ) {
                    Err(
                        EngineError::MissingTableEntry {
                            num_slots: (g.last_index - g.first_index + 1) as usize,
                            num_values: (g.upper - g.lower - 1) as usize,
                        },
                    )
                } else {
                    let c = spec_decide(s, g, n);
                    let b2 = b.update(c, Some(nums[i]));
                    if placed + 1 == NUM_SLOTS {
                        Ok(placed + 1)
                    } else {
                        spec_trial_from(s, nums, i + 1, b2, placed + 1)
                    }
                }
            },
        }
    }
}

/// One strategy's whole trial over the given draws, from an empty board.
pub open spec fn spec_trial<S: Strategy>(s: S, nums: Seq<i32>) -> Result<int, EngineError> {
    spec_trial_from(s, nums, 0, empty_board(), 0)
}

/// `spec_trial`, folded into the engine's result type.
pub open spec fn spec_game_result<S: Strategy>(s: S, nums: Seq<i32>) -> Result<
    GameResult,
    EngineError,
> {
    match spec_trial(s, nums) {
        Ok(c) => Ok(GameResult { placed_count: c as usize }),
        Err(e) => Err(e),
    }
}

#[verifier::external_type_specification]
#[verifier::external_body]
pub struct ExThreadRng(rand::rngs::ThreadRng);

/// Relies on rand::rng(): a handle to the thread-local generator. (It panics
/// only if the operating system's randomness source fails at first seeding,
/// which no input can influence.)
#[verifier::external_body]
fn new_rng() -> rand::rngs::ThreadRng {
    rand::rng()
}

/// Relies on rand::RngExt::random_range over `0..n`: a uniformly drawn value
/// in that range. Nothing more is assumed of which value comes back.
#[verifier::external_body]
fn random_below(rng: &mut rand::rngs::ThreadRng, n: i32) -> (r: i32)
    requires
        n >= 1,
    ensures
        0 <= r < n,
{
    rng.random_range(0..n)
}

/// Draws `NUM_SLOTS` distinct numbers from the drawable range, uniformly and
/// in uniformly random order, by shuffling a prefix of the full range.
pub fn generate_draws() -> (r: Vec<i32>)
    ensures
        r@.len() == NUM_SLOTS,
        draws_wf(r@),
{
    let mut pool: Vec<i32> = Vec::new();
    let mut v: i32 = 0;
    while v < UPPER_BOUND
        invariant
            0 <= v <= UPPER_BOUND,
            pool@.len() == v,
            forall|k: int| 0 <= k < v ==> pool@[k] == k,
        decreases UPPER_BOUND - v,
    {
        pool.push(v);
        v = v + 1;
    }
    let mut rng = new_rng();
    let mut i: usize = 0;
    while i < NUM_SLOTS
        invariant
            pool@.len() == UPPER_BOUND,
            i <= NUM_SLOTS,
            forall|k: int| 0 <= k < pool@.len() ==> 0 <= #[trigger] pool@[k] < UPPER_BOUND,
            forall|k1: int, k2: int|
                0 <= k1 < k2 < pool@.len() ==> pool@[k1] != pool@[k2],
        decreases NUM_SLOTS - i,
    {
        let j = random_below(&mut rng, UPPER_BOUND - i as i32);
        let t: usize = i + (j as usize);
        let ghost before = pool@;
        let a = pool[i];
        let b = pool[t];
        pool.set(i, b);
        pool.set(t, a);
        proof {
            let after = pool@;
            assert forall|k1: int, k2: int|
                0 <= k1 < k2 < after.len() implies after[k1] != after[k2] by {
                assert(after[k1] == before[if k1 == i as int {
                    t as int
                } else if k1 == t as int {
                    i as int
                } else {
                    k1
                }]);
                assert(after[k2] == before[if k2 == i as int {
                    t as int
                } else if k2 == t as int {
                    i as int
                } else {
                    k2
                }]);
            }
        }
        i = i + 1;
    }
    pool.truncate(NUM_SLOTS);
    pool
}

/// The engine's per-draw decision for one gap: a one-slot gap, a number
/// exactly adjacent to a bound, and a two-slot gap are forced (the two-slot
/// gap goes to whichever side the number is strictly nearer, ties to the
/// last slot); every other gap — every gap, for a full-control strategy — is
/// the strategy's to decide, and one it cannot decide is the fatal error.
pub fn decide_slot<S: Strategy>(strategy: &S, g: Gap, number: i32, board: &Vec<Option<i32>>) -> (r:
    Result<usize, EngineError>)
    requires
        strategy.wf(),
        g.first_index <= g.last_index < NUM_SLOTS,
        LOWER_BOUND <= g.lower < number < g.upper <= UPPER_BOUND,
    ensures
        match r {
            Ok(c) => {
                &&& g.first_index <= c <= g.last_index
                &&& c as int == spec_decide(*strategy, g, number as int)
                &&& spec_needs_strategy(*strategy, g, number as int) ==> strategy.ready(
                    g.lower as int,
                    g.upper as int,
                    g.first_index as int,
                    g.last_index as int,
                    number as int,
                )
            },
            Err(e) => {
                &&& spec_needs_strategy(*strategy, g, number as int)
                &&& !strategy.ready(
                    g.lower as int,
                    g.upper as int,
                    g.first_index as int,
                    g.last_index as int,
                    number as int,
                )
                &&& e == (EngineError::MissingTableEntry {
                    num_slots: (g.last_index - g.first_index + 1) as usize,
                    num_values: (g.upper - g.lower - 1) as usize,
                })
            },
        },
{
    if strategy.want_full_control() {
        if !strategy.can_choose(g.lower, g.upper, g.first_index, g.last_index, number) {
            return Err(
                EngineError::MissingTableEntry {
                    num_slots: g.last_index - g.first_index + 1,
                    num_values: (g.upper - g.lower - 1) as usize,
                },
            );
        }
        Ok(strategy.choose_slot(g.lower, g.upper, g.first_index, g.last_index, number, board))
    } else if g.first_index == g.last_index || number == g.lower + 1 {
        Ok(g.first_index)
    } else if number + 1 == g.upper {
        Ok(g.last_index)
    } else if g.first_index + 1 == g.last_index {
        let dist_lower = number - g.lower;
        let dist_upper = g.upper - number;
        if dist_lower < dist_upper {
            Ok(g.first_index)
        } else {
            Ok(g.last_index)
        }
    } else {
        if !strategy.can_choose(g.lower, g.upper, g.first_index, g.last_index, number) {
            return Err(
                EngineError::MissingTableEntry {
                    num_slots: g.last_index - g.first_index + 1,
                    num_values: (g.upper - g.lower - 1) as usize,
                },
            );
        }
        Ok(strategy.choose_slot(g.lower, g.upper, g.first_index, g.last_index, number, board))
    }
}

/// Plays one strategy's trial over the given draws. Returns how many numbers
/// it placed (the board fills exactly when all draws are placed), or the
/// fatal error for a gap the strategy could not decide.
pub fn simulate_one<S: Strategy>(strategy: &S, numbers: &Vec<i32>) -> (r: Result<
    GameResult,
    EngineError,
>)
    requires
        strategy.wf(),
        draws_wf(numbers@),
    ensures
        r == spec_game_result(*strategy, numbers@),
{
    let ghost nums = numbers@;
    let mut board: Vec<Option<i32>> = Vec::new();
    let mut fill: usize = 0;
    while fill < NUM_SLOTS
        invariant
            board@.len() == fill,
            fill <= NUM_SLOTS,
            forall|k: int| 0 <= k < fill ==> board@[k] is None,
        decreases NUM_SLOTS - fill,
    {
        board.push(None);
        fill = fill + 1;
    }
    proof {
        assert(board@ =~= empty_board());
        assert forall|k: int| 0 <= k < nums.len() implies !board_contains(board@, nums[k] as int) by {}
    }
    let mut placed: usize = 0;
    let mut idx: usize = 0;
    while idx < numbers.len()
        invariant
            strategy.wf(),
            draws_wf(nums),
            nums == numbers@,
            idx <= nums.len(),
            board_wf(board@),
            placed < NUM_SLOTS,
            forall|k: int| idx <= k < nums.len() ==> !board_contains(board@, #[trigger] nums[k] as int),
            spec_trial_from(*strategy, nums, idx as int, board@, placed as int) == spec_trial(
                *strategy,
                nums,
            ),
        decreases nums.len() - idx,
    {
        let n = numbers[idx];
        let ghost num = n as int;
        let gap_opt = find_valid_gap(&board, n);
        match gap_opt {
            None => {
                return Ok(GameResult { placed_count: placed });
            },
            Some(g) => {
                proof {
                    lemma_gap_brackets_number(board@, num);
                }
                let c: usize = match decide_slot(strategy, g, n, &board) {
                    Ok(c) => c,
                    Err(e) => {
                        return Err(e);
                    },
                };
                proof {
                    assert(c as int == spec_decide(*strategy, g, num));
                    assert(can_place_at(board@, num, c as int));
                    lemma_place_keeps_order(board@, n, c as int);
                }
                let ghost bprev = board@;
                board.set(c, Some(n));
                placed = placed + 1;
                proof {
                    assert(board@ == bprev.update(c as int, Some(n)));
                    assert forall|k: int|
                        idx + 1 <= k < nums.len() implies !board_contains(
                        board@,
                        #[trigger] nums[k] as int,
                    ) by {
                        if board_contains(board@, nums[k] as int) {
                            let w = choose|w: int|
                                0 <= w < board@.len() && board@[w] is Some && board@[w]->0
                                    == nums[k];
                            if w == c as int {
                                assert(nums[k] == nums[idx as int]);
                            } else {
                                assert(board_contains(bprev, nums[k] as int));
                            }
                        }
                    }
                }
                if placed == NUM_SLOTS {
                    return Ok(GameResult { placed_count: placed });
                }
            },
        }
        idx = idx + 1;
    }
    Ok(GameResult { placed_count: placed })
}

/// A strategy that can decide every gap: the engine never aborts on it.
pub open spec fn always_ready<S: Strategy>(s: S) -> bool {
    forall|lo: int, up: int, f: int, l: int, n: int| #[trigger] s.ready(lo, up, f, l, n)
}

/// Plays one shared draw sequence through every strategy's own board: the
/// strategies face the same numbers, isolating placement skill from draw
/// luck. Each result is exactly the strategy's trial over those draws; the
/// first strategy to meet a gap it cannot decide aborts the whole trial.
pub fn play_trial(strategies: &Vec<(String, crate::strategies::StrategyKind)>, numbers: &Vec<i32>) -> (r: Result<
    Vec<(String, GameResult)>,
    EngineError,
>)
    requires
        forall|i: int| 0 <= i < strategies@.len() ==> (#[trigger] strategies@[i]).1.wf(),
        draws_wf(numbers@),
    ensures
        match r {
            Ok(v) => {
                &&& v@.len() == strategies@.len()
                &&& forall|i: int|
                    0 <= i < v@.len() ==> (#[trigger] v@[i]).0 == strategies@[i].0
                        && spec_game_result(strategies@[i].1, numbers@) == Ok::<
                        GameResult,
                        EngineError,
                    >(v@[i].1) && v@[i].1.placed_count <= NUM_SLOTS
            },
            Err(e) => exists|i: int|
                0 <= i < strategies@.len() && spec_game_result(
                    (#[trigger] strategies@[i]).1,
                    numbers@,
                ) == Err::<GameResult, EngineError>(e),
        },
        (forall|i: int| 0 <= i < strategies@.len() ==> always_ready((#[trigger] strategies@[i]).1))
            ==> r is Ok,
{
    let mut results: Vec<(String, GameResult)> = Vec::new();
    let mut i: usize = 0;
    while i < strategies.len()
        invariant
            forall|k: int| 0 <= k < strategies@.len() ==> (#[trigger] strategies@[k]).1.wf(),
            draws_wf(numbers@),
            i <= strategies@.len(),
            results@.len() == i,
            forall|j: int|
                0 <= j < i as int ==> (#[trigger] results@[j]).0 == strategies@[j].0
                    && spec_game_result(strategies@[j].1, numbers@) == Ok::<
                    GameResult,
                    EngineError,
                >(results@[j].1) && results@[j].1.placed_count <= NUM_SLOTS,
        decreases strategies@.len() - i,
    {
        let name = strategies[i].0.clone();
        match simulate_one(&strategies[i].1, numbers) {
            Ok(gr) => {
                proof {
                    lemma_spec_trial_bounds(strategies@[i as int].1, numbers@, 0, empty_board(), 0);
                }
                results.push((name, gr));
            },
            Err(e) => {
                proof {
                    if forall|k: int|
                        0 <= k < strategies@.len() ==> always_ready(
                            (#[trigger] strategies@[k]).1,
                        ) {
                        lemma_always_ready_no_error(
                            strategies@[i as int].1,
                            numbers@,
                            0,
                            empty_board(),
                            0,
                        );
                    }
                }
                return Err(e);
            },
        }
        i = i + 1;
    }
    Ok(results)
}

/// A trial's placed-count never exceeds the board.
proof fn lemma_spec_trial_bounds<S: Strategy>(
    s: S,
    nums: Seq<i32>,
    i: int,
    b: Seq<Option<i32>>,
    placed: int,
)
    requires
        0 <= placed < NUM_SLOTS,
    ensures
        spec_trial_from(s, nums, i, b, placed) is Ok ==> placed <= spec_trial_from(
            s,
            nums,
            i,
            b,
            placed,
        )->Ok_0 <= NUM_SLOTS,
    decreases nums.len() - i,
{
    if i < nums.len() {
        let n = nums[i] as int;
        match spec_gap(b, n) {
            Option::None => {},
            Option::Some(g) => {
                let c = spec_decide(s, g, n);
                let b2 = b.update(c, Some(nums[i]));
                if placed + 1 < NUM_SLOTS {
                    lemma_spec_trial_bounds(s, nums, i + 1, b2, placed + 1);
                }
            },
        }
    }
}

/// A strategy that is ready for every gap never produces the fatal error.
proof fn lemma_always_ready_no_error<S: Strategy>(
    s: S,
    nums: Seq<i32>,
    i: int,
    b: Seq<Option<i32>>,
    placed: int,
)
    requires
        always_ready(s),
    ensures
        spec_trial_from(s, nums, i, b, placed) is Ok,
    decreases nums.len() - i,
{
    if i < nums.len() {
        let n = nums[i] as int;
        match spec_gap(b, n) {
            Option::None => {},
            Option::Some(g) => {
                let c = spec_decide(s, g, n);
                let b2 = b.update(c, Some(nums[i]));
                if placed + 1 != NUM_SLOTS {
                    lemma_always_ready_no_error(s, nums, i + 1, b2, placed + 1);
                }
            },
        }
    }
}

/// Runs one trial on a fresh random draw sequence shared by all strategies.
/// Whatever the draws turn out to be, each result is exactly that strategy's
/// trial over them.
pub fn simulate_game_multi(strategies: &Vec<(String, crate::strategies::StrategyKind)>) -> (r: Result<
    Vec<(String, GameResult)>,
    EngineError,
>)
    requires
        forall|i: int| 0 <= i < strategies@.len() ==> (#[trigger] strategies@[i]).1.wf(),
    ensures
        match r {
            Ok(v) => {
                &&& v@.len() == strategies@.len()
                &&& forall|i: int| 0 <= i < v@.len() ==> (#[trigger] v@[i]).0 == strategies@[i].0
                    && v@[i].1.placed_count <= NUM_SLOTS
                &&& exists|nums: Seq<i32>|
                    #[trigger] draws_wf(nums) && nums.len() == NUM_SLOTS && forall|i: int|
                        0 <= i < v@.len() ==> spec_game_result(
                            (#[trigger] strategies@[i]).1,
                            nums,
                        ) == Ok::<GameResult, EngineError>(v@[i].1)
            },
            Err(e) => exists|nums: Seq<i32>|
                #[trigger] draws_wf(nums) && exists|i: int|
                    0 <= i < strategies@.len() && spec_game_result(
                        (#[trigger] strategies@[i]).1,
                        nums,
                    ) == Err::<GameResult, EngineError>(e),
        },
        (forall|i: int| 0 <= i < strategies@.len() ==> always_ready((#[trigger] strategies@[i]).1))
            ==> r is Ok,
{
    let numbers = generate_draws();
    let r = play_trial(strategies, &numbers);
    proof {
        assert(draws_wf(numbers@));
    }
    r
}

} // verus!
