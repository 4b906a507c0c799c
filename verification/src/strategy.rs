use vstd::prelude::*;

verus! {

use crate::NUM_SLOTS;
use crate::UPPER_BOUND;
use crate::LOWER_BOUND;

/// A placement policy: given a legal gap and the drawn number, pick one of the
/// gap's slots.
///
/// `lower` and `upper` are the gap's open numeric bounds (a number placed in
/// the gap satisfies `lower < number < upper`, where `lower` may be the
/// sentinel `LOWER_BOUND` and `upper` the sentinel `UPPER_BOUND`);
/// `first_slot` and `last_slot` are the inclusive index range of the gap's
/// empty slots.
///
/// The engine absorbs one- and two-slot gaps and exactly-adjacent numbers in
/// its forced fast path, so a strategy that does not demand full control is
/// only consulted on gaps of at least three slots with
/// `lower + 1 < number < upper - 1`.
pub trait Strategy: Sized {
    /// The strategy's configuration is well formed.
    spec fn wf(&self) -> bool;

    /// Whether the engine must hand every gap to this strategy, bypassing the
    /// forced fast-path rules.
    spec fn full_control(&self) -> bool;

    /// The gap inputs this strategy can decide. A policy backed by finite
    /// external data (a lookup table) cannot decide every gap; for all other
    /// policies this holds everywhere.
    spec fn ready(&self, lower: int, upper: int, first_slot: int, last_slot: int, number: int) -> bool;

    /// The slot this strategy picks, as a mathematical function of the gap
    /// and the drawn number.
    spec fn chosen(&self, lower: int, upper: int, first_slot: int, last_slot: int, number: int) -> int;

    fn want_full_control(&self) -> (b: bool)
        requires
            self.wf(),
        ensures
            b == self.full_control(),
    ;

    /// Whether `choose_slot` may be called on this gap; the engine treats a
    /// gap a strategy cannot decide as a fatal configuration error.
    fn can_choose(&self, lower: i32, upper: i32, first_slot: usize, last_slot: usize, number: i32) -> (b: bool)
        requires
            self.wf(),
            first_slot <= last_slot < NUM_SLOTS,
            LOWER_BOUND <= lower < number < upper <= UPPER_BOUND,
        ensures
            b == self.ready(lower as int, upper as int, first_slot as int, last_slot as int, number as int),
    ;

    fn choose_slot(
        &self,
        lower: i32,
        upper: i32,
        first_slot: usize,
        last_slot: usize,
        number: i32,
        current_board: &Vec<Option<i32>>,
    ) -> (slot: usize)
        requires
            self.wf(),
            first_slot <= last_slot < NUM_SLOTS,
            LOWER_BOUND <= lower < number < upper <= UPPER_BOUND,
            self.ready(lower as int, upper as int, first_slot as int, last_slot as int, number as int),
            !self.full_control() ==> first_slot + 2 <= last_slot && lower + 1 < number && number + 1 < upper,
        ensures
            first_slot <= slot <= last_slot,
            slot as int == self.chosen(
                lower as int,
                upper as int,
                first_slot as int,
                last_slot as int,
                number as int,
            ),
    ;
}

} // verus!
