//! Problem dimensions, shift codes, penalty weights and the shift classes.
//!
//! Shift codes: 0 is "unassigned", 1..=3 are morning shifts, 4..=5 are
//! afternoon shifts, 6 is a day off and 7 is a public holiday.
use vstd::prelude::*;

verus! {

/// Number of shift codes counted per day by `update_shift_sched` (codes 0..=6).
pub const SHIFT_NUM: usize = 7;

/// Number of staff members in a roster.
pub const STAFF_NUM: usize = 9;

/// Number of days in a planning week.
pub const DAY_NUM: usize = 7;

/// Code of the unassigned shift.
pub const UNASSIGNED: usize = 0;

/// Code of a day off.
pub const DAY_OFF: usize = 6;

/// Code of a public-holiday shift.
pub const PH_SHIFT: usize = 7;

/// Day type that marks a public holiday.
pub const PUBLIC_HOLIDAY_DAY: usize = 2;

/// Staff group that is off on public holidays.
pub const OFF_ON_PH_GROUP: usize = 2;

/// Weekly working time (hours) every staff member should reach.
pub const TARGET_WORKTIME: usize = 44;

/// Penalty for every run of three afternoon shifts in a row.
pub const ALPHA_PENALTY: usize = 10;

/// Penalty for every afternoon shift that follows a day off or a holiday.
pub const BETA_PENALTY: usize = 10;

/// The fitness weights are `W1 = W2 = W3 = W4 = 0.25`.  The library keeps the
/// fitness exactly, as an integer in units of `1 / FITNESS_SCALE`:
/// `fitness_val = fitness_scaled / FITNESS_SCALE`, with the weights
/// `Wn = Wn_SCALED / FITNESS_SCALE`.
pub const FITNESS_SCALE: u64 = 4;

/// Weight of the coverage penalty, in units of `1 / FITNESS_SCALE`.
pub const W1_SCALED: u64 = 1;

/// Weight of the worktime penalty, in units of `1 / FITNESS_SCALE`.
pub const W2_SCALED: u64 = 1;

/// Weight of the consecutive-afternoon penalty, in units of `1 / FITNESS_SCALE`.
pub const W3_SCALED: u64 = 1;

/// Weight of the afternoon-after-rest penalty, in units of `1 / FITNESS_SCALE`.
pub const W4_SCALED: u64 = 1;

/// Operator score for a candidate that becomes the new global best.
pub const GLOBAL_BEST: u64 = 15;

/// Operator score for a candidate that improves on the current solution.
pub const LOCAL_BEST: u64 = 10;

/// Operator score for a worse candidate that is still accepted.
pub const ACCEPTED: u64 = 5;

/// Number of iterations between two updates of the operator weights.
pub const UPDATE_FREQUENCY: usize = 5;

/// Number of iterations of one search.
pub const ITERATIONS: usize = 200;

/// Morning shifts: codes whose `i32` value is 1, 2 or 3.
pub open spec fn morning_shift(v: usize) -> bool {
    let c = v as i32;
    c == 1 || c == 2 || c == 3
}

/// Afternoon shifts: codes whose `i32` value is 4 or 5.
pub open spec fn afternoon_shift(v: usize) -> bool {
    let c = v as i32;
    c == 4 || c == 5
}

/// Rest shifts, the day off and the public holiday: codes whose `i32` value is 6 or 7.
pub open spec fn other_shift(v: usize) -> bool {
    let c = v as i32;
    c == 6 || c == 7
}

/// Working shifts: 1 to 5.
pub open spec fn working_shift(v: usize) -> bool {
    1 <= v <= 5
}

/// Whether `v` is a morning shift.
pub fn is_morning_shift(v: usize) -> (b: bool)
    ensures
        b == morning_shift(v),
{
    let c: i32 = v as i32;
    c == 1 || c == 2 || c == 3
}

/// Whether `v` is an afternoon shift.
pub fn is_afternoon_shift(v: usize) -> (b: bool)
    ensures
        b == afternoon_shift(v),
{
    let c: i32 = v as i32;
    c == 4 || c == 5
}

/// Whether `v` is a day off or a public holiday.
pub fn is_other_shift(v: usize) -> (b: bool)
    ensures
        b == other_shift(v),
{
    let c: i32 = v as i32;
    c == 6 || c == 7
}

} // verus!
