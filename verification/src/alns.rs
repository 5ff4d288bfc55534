//! The search: the initial roster, the shift counts, the application of a
//! destroy/repair pair, and the acceptance and scoring rules of an iteration.
#![allow(non_camel_case_types)]
use vstd::prelude::*;

use crate::operators::destroy_ops::{
    cleared_row, destroy_score, has_positive_score, is_worst_staff, random_destroy, scores_fit,
    worst_destroy, DestroyResult,
};
use crate::operators::repair_ops::{
    at_most_one_day_off, backward_days, forward_days, greedy_repair, lemma_repair_one_day_off, holiday_off, lemma_repair_steps,
    random_greedy_repair, repair_ready, repair_steps, reverse_greedy_repair,
};
use crate::random::{random_below, thread_rng};
use crate::structs::{
    cells_are_below, cells_below, days_are_ok, days_ok, evaluate, grid, schedule_is_shaped,
    schedule_shaped, shifts_are_ok, shifts_ok, solution_consistent, Day, Shift, Solution,
    SolutionModel, Staff,
};
use crate::utils::{
    working_shift, ACCEPTED, DAY_NUM, DAY_OFF, GLOBAL_BEST, LOCAL_BEST, OFF_ON_PH_GROUP,
    PH_SHIFT, PUBLIC_HOLIDAY_DAY, SHIFT_NUM, STAFF_NUM, UNASSIGNED,
};

verus! {

broadcast use vstd::seq_lib::group_to_multiset_ensures;

/// The destroy operators.
#[derive(Clone, Copy, PartialEq, Eq, Hash, Debug)]
pub enum DestroyOp {
    Random,
    Worst,
}

/// The repair operators.
#[derive(Clone, Copy, PartialEq, Eq, Hash, Debug)]
pub enum RepairOp {
    Greedy,
    Reverse_Greedy,
    Random_Greedy,
}

/// How a candidate compares with the search's solutions.
#[derive(Clone, Copy, PartialEq, Eq, Hash, Debug)]
pub enum Verdict {
    /// Strictly better than the best solution so far.
    NewGlobalBest,
    /// Not better than the best, but strictly better than the current solution.
    BetterThanCurrent,
    /// Not better than the current solution.
    NotBetter,
}

/// One number per operator.
#[derive(Clone, Copy, Debug)]
pub struct OperatorTally {
    pub destroy_random: u64,
    pub destroy_worst: u64,
    pub repair_greedy: u64,
    pub repair_reverse_greedy: u64,
    pub repair_random_greedy: u64,
}

/// The state of a search: the current and the best solution, and the score and
/// use count of each operator since the last weight update.
pub struct AlnsState {
    pub current: Solution,
    pub best: Solution,
    pub scores: OperatorTally,
    pub counts: OperatorTally,
}

// ---------------------------------------------------------------------------
// The initial roster

/// Whether row `row` of staff member `i` is a valid initial week: a holiday on
/// exactly the holiday days where the staff member is off on holidays, one day
/// off on another day, and a working shift on every remaining day.
pub open spec fn initial_row(row: Seq<usize>, i: int, staffs: Seq<Staff>, days: Seq<Day>) -> bool {
    &&& row.len() == DAY_NUM
    &&& exists|d: int|
        #![trigger row[d]]
        0 <= d < DAY_NUM && !holiday_off(i, staffs, days, d) && row[d] == DAY_OFF && forall|k: int|
            0 <= k < DAY_NUM && k != d ==> if holiday_off(i, staffs, days, k) {
                #[trigger] row[k] == PH_SHIFT
            } else {
                working_shift(row[k])
            }
}

/// Staff member `i` has a day in the week that is not a holiday off.
pub open spec fn has_free_day(i: int, staffs: Seq<Staff>, days: Seq<Day>) -> bool {
    exists|k: int| 0 <= k < DAY_NUM && !#[trigger] holiday_off(i, staffs, days, k)
}

/// Every staff member has a day that is not a holiday off.
pub open spec fn every_staff_has_free_day(staffs: Seq<Staff>, days: Seq<Day>) -> bool {
    forall|i: int| 0 <= i < STAFF_NUM ==> #[trigger] has_free_day(i, staffs, days)
}

/// Number of the first `n` days that are not a holiday off for staff member `i`.
pub open spec fn free_count(i: int, staffs: Seq<Staff>, days: Seq<Day>, n: int) -> int
    decreases n,
{
    if n <= 0 {
        0
    } else {
        free_count(i, staffs, days, n - 1) + if holiday_off(i, staffs, days, n - 1) {
            0int
        } else {
            1int
        }
    }
}

/// Number of days of the week that are not a holiday off for staff member `i`.
pub open spec fn free_day_count(i: int, staffs: Seq<Staff>, days: Seq<Day>) -> int {
    free_count(i, staffs, days, DAY_NUM as int)
}

/// The initial week of staff member `i` for the given draws: a holiday on each
/// holiday off, the day off on free day number `free_pick` (counting the free
/// days from 0 in day order), and working shift `shift_draws[k] + 1` on every
/// other day `k`.
pub open spec fn initial_row_of(
    i: int,
    staffs: Seq<Staff>,
    days: Seq<Day>,
    free_pick: int,
    shift_draws: Seq<usize>,
) -> Seq<usize> {
    Seq::new(
        DAY_NUM as nat,
        |k: int|
            if holiday_off(i, staffs, days, k) {
                PH_SHIFT
            } else if free_count(i, staffs, days, k) == free_pick {
                DAY_OFF
            } else {
                (shift_draws[k] + 1) as usize
            },
    )
}

/// Draws that `initial_row_of` accepts: a free day number in range, and one
/// working-shift draw below 5 per day.
pub open spec fn draws_ok(
    i: int,
    staffs: Seq<Staff>,
    days: Seq<Day>,
    free_pick: int,
    shift_draws: Seq<usize>,
) -> bool {
    &&& 0 <= free_pick < free_day_count(i, staffs, days)
    &&& shift_draws.len() == DAY_NUM
    &&& forall|k: int| 0 <= k < DAY_NUM ==> #[trigger] shift_draws[k] < 5
}

/// Whether `row` is the initial week of staff member `i` for some valid draws.
pub open spec fn drawn_row(row: Seq<usize>, i: int, staffs: Seq<Staff>, days: Seq<Day>) -> bool {
    exists|p: int, draws: Seq<usize>|
        #![trigger initial_row_of(i, staffs, days, p, draws)]
        draws_ok(i, staffs, days, p, draws) && row == initial_row_of(i, staffs, days, p, draws)
}

/// Free-day counts grow with the number of days counted, by one across each free day.
proof fn lemma_free_count_monotone(i: int, staffs: Seq<Staff>, days: Seq<Day>, a: int, b: int)
    requires
        0 <= a <= b,
    ensures
        0 <= free_count(i, staffs, days, a) <= free_count(i, staffs, days, b),
        a < b && !holiday_off(i, staffs, days, a) ==> free_count(i, staffs, days, a) + 1
            <= free_count(i, staffs, days, b),
    decreases b - a,
{
    if a < b {
        lemma_free_count_monotone(i, staffs, days, a, b - 1);
        if a < b - 1 {
            lemma_free_count_monotone(i, staffs, days, a + 1, b);
        }
    } else {
        lemma_free_count_nonneg(i, staffs, days, a);
    }
}

/// Free-day counts are not negative.
proof fn lemma_free_count_nonneg(i: int, staffs: Seq<Staff>, days: Seq<Day>, n: int)
    ensures
        free_count(i, staffs, days, n) >= 0,
    decreases n,
{
    if n > 0 {
        lemma_free_count_nonneg(i, staffs, days, n - 1);
    }
}

/// Free day number `p` lies among the first `n` days when `p < free_count(n)`.
proof fn lemma_nth_free_day(i: int, staffs: Seq<Staff>, days: Seq<Day>, p: int, n: int) -> (d: int)
    requires
        0 <= p < free_count(i, staffs, days, n),
    ensures
        0 <= d < n,
        !holiday_off(i, staffs, days, d),
        free_count(i, staffs, days, d) == p,
    decreases n,
{
    if p < free_count(i, staffs, days, n - 1) {
        lemma_nth_free_day(i, staffs, days, p, n - 1)
    } else {
        n - 1
    }
}

/// Valid draws give a valid initial week.
pub proof fn lemma_initial_row_of(
    i: int,
    staffs: Seq<Staff>,
    days: Seq<Day>,
    free_pick: int,
    shift_draws: Seq<usize>,
)
    requires
        draws_ok(i, staffs, days, free_pick, shift_draws),
    ensures
        initial_row(initial_row_of(i, staffs, days, free_pick, shift_draws), i, staffs, days),
{
    let row = initial_row_of(i, staffs, days, free_pick, shift_draws);
    let d = lemma_nth_free_day(i, staffs, days, free_pick, DAY_NUM as int);
    assert(row[d] == DAY_OFF);
    assert forall|k: int| 0 <= k < DAY_NUM && k != d implies if holiday_off(i, staffs, days, k) {
        #[trigger] row[k] == PH_SHIFT
    } else {
        working_shift(row[k])
    } by {
        if !holiday_off(i, staffs, days, k) {
            if k < d {
                lemma_free_count_monotone(i, staffs, days, k, d);
            } else {
                lemma_free_count_monotone(i, staffs, days, d, k);
            }
            assert(shift_draws[k] < 5);
        }
    }
}

/// Number of days of the week that are not a holiday off for staff member `i`.
fn count_free_days(i: usize, staffs: &Vec<Staff>, days: &Vec<Day>) -> (c: usize)
    requires
        i < staffs.len(),
        days.len() >= DAY_NUM,
    ensures
        c == free_day_count(i as int, staffs@, days@),
{
    let mut c: usize = 0;
    let mut k: usize = 0;
    while k < DAY_NUM
        invariant
            i < staffs.len(),
            days.len() >= DAY_NUM,
            k <= DAY_NUM,
            c == free_count(i as int, staffs@, days@, k as int),
            c <= k,
        decreases DAY_NUM - k,
    {
        if !(days[k].day_type == PUBLIC_HOLIDAY_DAY && staffs[i].group == OFF_ON_PH_GROUP) {
            c = c + 1;
        }
        k = k + 1;
    }
    c
}

/// The initial week of staff member `i` for the given draws: a holiday on each
/// holiday off, the day off on free day number `free_pick` in day order, and
/// working shift `shift_draws[k] + 1` on every other day `k`.
pub fn initial_row_from_draws(
    i: usize,
    staffs: &Vec<Staff>,
    days: &Vec<Day>,
    free_pick: usize,
    shift_draws: &Vec<usize>,
) -> (row: Vec<usize>)
    requires
        i < STAFF_NUM,
        staffs.len() >= STAFF_NUM,
        days.len() >= DAY_NUM,
        draws_ok(i as int, staffs@, days@, free_pick as int, shift_draws@),
    ensures
        row@ == initial_row_of(i as int, staffs@, days@, free_pick as int, shift_draws@),
        initial_row(row@, i as int, staffs@, days@),
{
    let ghost target = initial_row_of(i as int, staffs@, days@, free_pick as int, shift_draws@);
    let mut row: Vec<usize> = Vec::new();
    let mut free_seen: usize = 0;
    let mut k: usize = 0;
    while k < DAY_NUM
        invariant
            i < STAFF_NUM,
            staffs.len() >= STAFF_NUM,
            days.len() >= DAY_NUM,
            draws_ok(i as int, staffs@, days@, free_pick as int, shift_draws@),
            target == initial_row_of(i as int, staffs@, days@, free_pick as int, shift_draws@),
            k <= DAY_NUM,
            free_seen == free_count(i as int, staffs@, days@, k as int),
            free_seen <= k,
            row.len() == k,
            forall|j: int| 0 <= j < k ==> #[trigger] row@[j] == target[j],
        decreases DAY_NUM - k,
    {
        if days[k].day_type == PUBLIC_HOLIDAY_DAY && staffs[i].group == OFF_ON_PH_GROUP {
            row.push(PH_SHIFT);
        } else {
            if free_seen == free_pick {
                row.push(DAY_OFF);
            } else {
                assert(shift_draws@[k as int] < 5);
                // the working shifts are the codes 1 to 5: draw `d` gives code `d + 1`
                row.push(shift_draws[k] + 1);
            }
            free_seen = free_seen + 1;
        }
        k = k + 1;
    }
    assert(row@ =~= target);
    proof {
        lemma_initial_row_of(i as int, staffs@, days@, free_pick as int, shift_draws@);
    }
    row
}

/// The week of one staff member: holidays, one random day off on a free day,
/// random working shifts elsewhere.
fn initial_row_for(
    rng: &mut rand::rngs::ThreadRng,
    i: usize,
    staffs: &Vec<Staff>,
    days: &Vec<Day>,
) -> (row: Vec<usize>)
    requires
        i < STAFF_NUM,
        staffs.len() >= STAFF_NUM,
        days.len() >= DAY_NUM,
        has_free_day(i as int, staffs@, days@),
    ensures
        drawn_row(row@, i as int, staffs@, days@),
        initial_row(row@, i as int, staffs@, days@),
{
    let free_total: usize = count_free_days(i, staffs, days);
    proof {
        let w = choose|k: int| 0 <= k < DAY_NUM && !#[trigger] holiday_off(i as int, staffs@, days@, k);
        lemma_free_count_monotone(i as int, staffs@, days@, w, DAY_NUM as int);
    }
    let free_pick: usize = random_below(rng, free_total);
    let mut shift_draws: Vec<usize> = Vec::new();
    let mut k: usize = 0;
    while k < DAY_NUM
        invariant
            k <= DAY_NUM,
            shift_draws.len() == k,
            forall|j: int| 0 <= j < k ==> #[trigger] shift_draws@[j] < 5,
        decreases DAY_NUM - k,
    {
        let draw: usize = random_below(rng, 5);
        shift_draws.push(draw);
        k = k + 1;
    }
    let row = initial_row_from_draws(i, staffs, days, free_pick, &shift_draws);
    assert(draws_ok(i as int, staffs@, days@, free_pick as int, shift_draws@));
    row
}

/// A random initial roster: public holidays for the staff off on holidays,
/// one random day off per staff member, and random working shifts elsewhere.
pub fn generate_init_sched(staffs: &Vec<Staff>, days: &Vec<Day>) -> (sched: Vec<Vec<usize>>)
    requires
        staffs.len() >= STAFF_NUM,
        days.len() >= DAY_NUM,
        every_staff_has_free_day(staffs@, days@),
    ensures
        schedule_shaped(grid(&sched)),
        forall|i: int|
            0 <= i < STAFF_NUM ==> #[trigger] initial_row(grid(&sched)[i], i, staffs@, days@),
        forall|i: int|
            0 <= i < STAFF_NUM ==> #[trigger] drawn_row(grid(&sched)[i], i, staffs@, days@),
        search_roster_ok(grid(&sched), staffs@, days@),
{
    let mut rng = thread_rng();
    let mut staffs_schedule: Vec<Vec<usize>> = Vec::new();
    let mut i: usize = 0;
    while i < STAFF_NUM
        invariant
            staffs.len() >= STAFF_NUM,
            days.len() >= DAY_NUM,
            every_staff_has_free_day(staffs@, days@),
            i <= STAFF_NUM,
            staffs_schedule.len() == i,
            forall|j: int|
                0 <= j < i ==> #[trigger] initial_row(staffs_schedule@[j]@, j, staffs@, days@),
            forall|j: int|
                0 <= j < i ==> #[trigger] drawn_row(staffs_schedule@[j]@, j, staffs@, days@),
        decreases STAFF_NUM - i,
    {
        assert(has_free_day(i as int, staffs@, days@));
        let row: Vec<usize> = initial_row_for(&mut rng, i, staffs, days);
        staffs_schedule.push(row);
        i = i + 1;
    }
    assert forall|i: int| 0 <= i < STAFF_NUM implies #[trigger] grid(&staffs_schedule)[i].len()
        == DAY_NUM by {
        assert(initial_row(staffs_schedule@[i]@, i, staffs@, days@));
    }
    assert forall|i: int| 0 <= i < STAFF_NUM implies #[trigger] drawn_row(
        grid(&staffs_schedule)[i],
        i,
        staffs@,
        days@,
    ) by {
        assert(grid(&staffs_schedule)[i] == staffs_schedule@[i]@);
    }
    proof {
        lemma_initial_roster_ok(grid(&staffs_schedule), staffs@, days@);
    }
    staffs_schedule
}

// ---------------------------------------------------------------------------
// Shift counts

/// Number of the first `n` staff members on shift `j` on day `k`.
pub open spec fn shift_count(s: Seq<Seq<usize>>, j: int, k: int, n: int) -> int
    decreases n,
{
    if n <= 0 {
        0
    } else {
        shift_count(s, j, k, n - 1) + if s[n - 1][k] == j {
            1int
        } else {
            0int
        }
    }
}

/// Number of the first `n` staff members whose shift code on day `k` is below `codes`.
pub open spec fn below_count(s: Seq<Seq<usize>>, k: int, codes: int, n: int) -> int
    decreases n,
{
    if n <= 0 {
        0
    } else {
        below_count(s, k, codes, n - 1) + if s[n - 1][k] < codes {
            1int
        } else {
            0int
        }
    }
}

/// Sum over the shift codes below `codes` of the staff counts on day `k`.
pub open spec fn counts_sum(s: Seq<Seq<usize>>, k: int, codes: int, n: int) -> int
    decreases codes,
{
    if codes <= 0 {
        0
    } else {
        counts_sum(s, k, codes - 1, n) + shift_count(s, codes - 1, k, n)
    }
}

/// Adding one staff member adds one to the sum exactly when its code is counted.
proof fn lemma_counts_sum_step(s: Seq<Seq<usize>>, k: int, codes: int, n: int)
    requires
        n > 0,
    ensures
        counts_sum(s, k, codes, n) == counts_sum(s, k, codes, n - 1) + if s[n - 1][k] < codes {
            1int
        } else {
            0int
        },
    decreases codes,
{
    if codes > 0 {
        lemma_counts_sum_step(s, k, codes - 1, n);
    }
}

/// On each day, the staff counts of the codes below `codes` add up to the
/// number of staff members whose code is below `codes`, so to at most the staff.
pub proof fn lemma_shift_counts_total(s: Seq<Seq<usize>>, k: int, codes: int, n: int)
    requires
        n >= 0,
    ensures
        counts_sum(s, k, codes, n) == below_count(s, k, codes, n),
        below_count(s, k, codes, n) <= n,
    decreases n,
{
    if n > 0 {
        lemma_shift_counts_total(s, k, codes, n - 1);
        lemma_counts_sum_step(s, k, codes, n);
    } else {
        lemma_counts_sum_zero(s, k, codes);
    }
}

/// With no staff member, every count is zero.
proof fn lemma_counts_sum_zero(s: Seq<Seq<usize>>, k: int, codes: int)
    ensures
        counts_sum(s, k, codes, 0) == 0,
    decreases codes,
{
    if codes > 0 {
        lemma_counts_sum_zero(s, k, codes - 1);
    }
}

/// For each shift code below `SHIFT_NUM` and each day, how many staff members
/// work that shift that day.
pub fn update_shift_sched(staffs_schedule: &Vec<Vec<usize>>) -> (counts: Vec<Vec<usize>>)
    requires
        schedule_shaped(grid(staffs_schedule)),
    ensures
        counts.len() == SHIFT_NUM,
        forall|j: int| 0 <= j < SHIFT_NUM ==> #[trigger] counts@[j].len() == DAY_NUM,
        forall|j: int, k: int|
            0 <= j < SHIFT_NUM && 0 <= k < DAY_NUM ==> #[trigger] counts@[j]@[k] == shift_count(
                grid(staffs_schedule),
                j,
                k,
                STAFF_NUM as int,
            ),
{
    let ghost s = grid(staffs_schedule);
    let mut shifts_schedule: Vec<Vec<usize>> = Vec::new();
    let mut j: usize = 0;
    while j < SHIFT_NUM
        invariant
            schedule_shaped(s),
            s == grid(staffs_schedule),
            j <= SHIFT_NUM,
            shifts_schedule.len() == j,
            forall|jj: int| 0 <= jj < j ==> #[trigger] shifts_schedule@[jj].len() == DAY_NUM,
            forall|jj: int, k: int|
                0 <= jj < j && 0 <= k < DAY_NUM ==> #[trigger] shifts_schedule@[jj]@[k]
                    == shift_count(s, jj, k, STAFF_NUM as int),
        decreases SHIFT_NUM - j,
    {
        let mut row: Vec<usize> = Vec::new();
        let mut k: usize = 0;
        while k < DAY_NUM
            invariant
                schedule_shaped(s),
                s == grid(staffs_schedule),
                j < SHIFT_NUM,
                k <= DAY_NUM,
                row.len() == k,
                forall|kk: int|
                    0 <= kk < k ==> #[trigger] row@[kk] == shift_count(
                        s,
                        j as int,
                        kk,
                        STAFF_NUM as int,
                    ),
            decreases DAY_NUM - k,
        {
            let mut c: usize = 0;
            let mut i: usize = 0;
            while i < STAFF_NUM
                invariant
                    schedule_shaped(s),
                    s == grid(staffs_schedule),
                    k < DAY_NUM,
                    i <= STAFF_NUM,
                    c == shift_count(s, j as int, k as int, i as int),
                    c <= i,
                decreases STAFF_NUM - i,
            {
                assert(s[i as int] == staffs_schedule@[i as int]@);
                if staffs_schedule[i][k] == j {
                    c = c + 1;
                }
                i = i + 1;
            }
            row.push(c);
            k = k + 1;
        }
        shifts_schedule.push(row);
        j = j + 1;
    }
    shifts_schedule
}

// ---------------------------------------------------------------------------
// One destroy/repair move

/// `r` is a staff member that destroy operator `d` may remove from `sol`.
pub open spec fn destroyed_staff(sol: &Solution, d: DestroyOp, r: int) -> bool {
    match d {
        DestroyOp::Random => 0 <= r < STAFF_NUM,
        DestroyOp::Worst => is_worst_staff(sol, r),
    }
}

/// `order` is an order in which repair operator `rep` may visit the days.
pub open spec fn repair_order(rep: RepairOp, order: Seq<usize>) -> bool {
    match rep {
        RepairOp::Greedy => order == forward_days(),
        RepairOp::Reverse_Greedy => order == backward_days(),
        RepairOp::Random_Greedy => order.to_multiset() == forward_days().to_multiset(),
    }
}

/// What an operator pair needs: a roster ready for repair whichever staff
/// member is removed, and, for the worst-destroy operator, a staff member with a
/// positive score.
pub open spec fn move_ready(
    sol: &Solution,
    d: DestroyOp,
    staffs: Seq<Staff>,
    shifts: Seq<Shift>,
    days: Seq<Day>,
) -> bool {
    &&& repair_ready(grid(&sol.staffs_schedule), 0, staffs, shifts, days)
    &&& staffs.len() >= STAFF_NUM
    &&& (d == DestroyOp::Worst ==> scores_fit(sol) && has_positive_score(sol))
}

/// Result of removing staff member `r` and repairing the row in `order`.
pub open spec fn move_result(
    sol: &Solution,
    r: int,
    order: Seq<usize>,
    staffs: Seq<Staff>,
    shifts: Seq<Shift>,
    days: Seq<Day>,
) -> SolutionModel {
    evaluate(
        repair_steps(cleared_row(grid(&sol.staffs_schedule), r), r, order, staffs, shifts, days),
        shifts,
        days,
    )
}

/// A move changes the week of staff member `r` only, assigns a shift on each
/// of its days, gives a holiday exactly on the holidays where `r` is off on
/// holidays, and leaves `r` at most one day off.
pub open spec fn changes_one_week(
    before: Seq<Seq<usize>>,
    after: Seq<Seq<usize>>,
    r: int,
    staffs: Seq<Staff>,
    days: Seq<Day>,
) -> bool {
    &&& schedule_shaped(after)
    &&& forall|i: int| 0 <= i < STAFF_NUM && i != r ==> #[trigger] after[i] == before[i]
    &&& forall|k: int| 0 <= k < DAY_NUM ==> 1 <= #[trigger] after[r][k] <= PH_SHIFT
    &&& forall|k: int|
        0 <= k < DAY_NUM ==> (#[trigger] after[r][k] == PH_SHIFT <==> holiday_off(
            r,
            staffs,
            days,
            k,
        ))
    &&& at_most_one_day_off(after[r])
}

/// A day order that visits every day of the week.
proof fn lemma_order_covers_week(order: Seq<usize>)
    requires
        order.to_multiset() == forward_days().to_multiset(),
    ensures
        forall|t: int| 0 <= t < order.len() ==> #[trigger] order[t] < DAY_NUM,
        forall|k: int| 0 <= k < DAY_NUM ==> #[trigger] order.contains(k as usize),
{
    assert forall|t: int| 0 <= t < order.len() implies #[trigger] order[t] < DAY_NUM by {
        assert(order.contains(order[t]));
        vstd::seq_lib::to_multiset_contains(order, order[t]);
        vstd::seq_lib::to_multiset_contains(forward_days(), order[t]);
    }
    assert forall|k: int| 0 <= k < DAY_NUM implies #[trigger] order.contains(k as usize) by {
        assert(forward_days()[k] == k as usize);
        assert(forward_days().contains(k as usize));
        vstd::seq_lib::to_multiset_contains(order, k as usize);
        vstd::seq_lib::to_multiset_contains(forward_days(), k as usize);
    }
}

/// Every order a repair operator may use visits each day of the week.
proof fn lemma_repair_order_covers_week(rep: RepairOp, order: Seq<usize>)
    requires
        repair_order(rep, order),
    ensures
        forall|t: int| 0 <= t < order.len() ==> #[trigger] order[t] < DAY_NUM,
        forall|k: int| 0 <= k < DAY_NUM ==> #[trigger] order.contains(k as usize),
{
    match rep {
        RepairOp::Greedy => {
            assert forall|k: int| 0 <= k < DAY_NUM implies #[trigger] order.contains(
                k as usize,
            ) by {
                assert(order[k] == k as usize);
            }
        },
        RepairOp::Reverse_Greedy => {
            assert forall|k: int| 0 <= k < DAY_NUM implies #[trigger] order.contains(
                k as usize,
            ) by {
                assert(order[DAY_NUM - 1 - k] == k as usize);
            }
        },
        RepairOp::Random_Greedy => {
            lemma_order_covers_week(order);
        },
    }
}

/// A destroy/repair move changes one staff member's week only, fills every
/// day of it, keeps the holiday rule both ways and gives at most one day off:
/// the week of staff member `r`, after being cleared and repaired in any order
/// an operator may use.
pub proof fn lemma_move_changes_one_week(
    s: Seq<Seq<usize>>,
    r: int,
    rep: RepairOp,
    order: Seq<usize>,
    staffs: Seq<Staff>,
    shifts: Seq<Shift>,
    days: Seq<Day>,
)
    requires
        schedule_shaped(s),
        0 <= r < STAFF_NUM,
        repair_order(rep, order),
    ensures
        changes_one_week(
            s,
            repair_steps(cleared_row(s, r), r, order, staffs, shifts, days),
            r,
            staffs,
            days,
        ),
{
    lemma_repair_order_covers_week(rep, order);
    let c = cleared_row(s, r);
    assert(schedule_shaped(c));
    lemma_repair_steps(c, r, order, staffs, shifts, days);
    lemma_repair_one_day_off(c, r, order, staffs, shifts, days);
    let after = repair_steps(c, r, order, staffs, shifts, days);
    assert forall|i: int| 0 <= i < STAFF_NUM && i != r implies #[trigger] after[i] == s[i] by {
        assert(c[i] == s[i]);
    }
}

/// Applies destroy operator `destroy_op` and then repair operator `repair_op`
/// to `sol`.
pub fn apply_operators(
    sol: &Solution,
    destroy_op: DestroyOp,
    repair_op: RepairOp,
    staffs: &Vec<Staff>,
    shifts: &Vec<Shift>,
    days: &Vec<Day>,
) -> (candidate: Solution)
    requires
        move_ready(sol, destroy_op, staffs@, shifts@, days@),
    ensures
        exists|r: int, order: Seq<usize>|
            #![trigger move_result(sol, r, order, staffs@, shifts@, days@)]
            destroyed_staff(sol, destroy_op, r) && repair_order(repair_op, order) && candidate@
                == move_result(sol, r, order, staffs@, shifts@, days@) && changes_one_week(
                grid(&sol.staffs_schedule),
                candidate@.schedule,
                r,
                staffs@,
                days@,
            ),
        solution_consistent(candidate@, shifts@, days@),
{
    let destroy_res: DestroyResult = match destroy_op {
        DestroyOp::Random => random_destroy(sol),
        DestroyOp::Worst => worst_destroy(sol),
    };
    let r: usize = destroy_res.removed_staff;
    let ghost s = grid(&sol.staffs_schedule);
    let ghost p = grid(&destroy_res.partial_schedule);
    assert(destroyed_staff(sol, destroy_op, r as int));
    assert(repair_ready(p, r as int, staffs@, shifts@, days@)) by {
        assert(cells_below(p, shifts@.len() as int)) by {
            assert forall|i: int, k: int| 0 <= i < STAFF_NUM && 0 <= k < DAY_NUM implies #[trigger] p[i][k]
                < shifts@.len() by {
                if i != r {
                    assert(p[i] == s[i]);
                }
            }
        }
    }
    let candidate: Solution = match repair_op {
        RepairOp::Greedy => greedy_repair(
            &destroy_res.partial_schedule,
            r,
            staffs,
            shifts,
            days,
        ),
        RepairOp::Reverse_Greedy => reverse_greedy_repair(
            &destroy_res.partial_schedule,
            r,
            staffs,
            shifts,
            days,
        ),
        RepairOp::Random_Greedy => random_greedy_repair(
            &destroy_res.partial_schedule,
            r,
            staffs,
            shifts,
            days,
        ),
    };
    proof {
        let order: Seq<usize> = match repair_op {
            RepairOp::Greedy => forward_days(),
            RepairOp::Reverse_Greedy => backward_days(),
            RepairOp::Random_Greedy => choose|order: Seq<usize>|
                order.to_multiset() == forward_days().to_multiset() && candidate@ == evaluate(
                    #[trigger] repair_steps(p, r as int, order, staffs@, shifts@, days@),
                    shifts@,
                    days@,
                ),
        };
        assert(repair_order(repair_op, order));
        assert(candidate@ == move_result(sol, r as int, order, staffs@, shifts@, days@));
        lemma_move_changes_one_week(s, r as int, repair_op, order, staffs@, shifts@, days@);
    }
    candidate
}

/// What a search needs of its input: every staff member and day indexed, a
/// shift table that holds every shift code, sound durations and demands, and
/// a free day for every staff member.
pub open spec fn problem_ready(staffs: Seq<Staff>, shifts: Seq<Shift>, days: Seq<Day>) -> bool {
    &&& staffs.len() >= STAFF_NUM
    &&& shifts.len() > PH_SHIFT
    &&& shifts_ok(shifts)
    &&& days_ok(days)
    &&& every_staff_has_free_day(staffs, days)
}

/// Whether staff member `i` is off on day `k` because it is a public holiday.
fn is_holiday_off(i: usize, staffs: &Vec<Staff>, days: &Vec<Day>, k: usize) -> (b: bool)
    requires
        i < staffs.len(),
        k < days.len(),
    ensures
        b == holiday_off(i as int, staffs@, days@, k as int),
{
    days[k].day_type == PUBLIC_HOLIDAY_DAY && staffs[i].group == OFF_ON_PH_GROUP
}

/// Whether the input satisfies `problem_ready`.
pub fn problem_is_ready(staffs: &Vec<Staff>, shifts: &Vec<Shift>, days: &Vec<Day>) -> (b: bool)
    ensures
        b == problem_ready(staffs@, shifts@, days@),
{
    if staffs.len() < STAFF_NUM || shifts.len() <= PH_SHIFT || !shifts_are_ok(shifts)
        || !days_are_ok(days) {
        return false;
    }
    let mut i: usize = 0;
    while i < STAFF_NUM
        invariant
            staffs.len() >= STAFF_NUM,
            days.len() >= DAY_NUM,
            i <= STAFF_NUM,
            forall|ii: int| 0 <= ii < i ==> #[trigger] has_free_day(ii, staffs@, days@),
        decreases STAFF_NUM - i,
    {
        let mut found: bool = false;
        let mut k: usize = 0;
        while k < DAY_NUM
            invariant
                staffs.len() >= STAFF_NUM,
                days.len() >= DAY_NUM,
                i < STAFF_NUM,
                k <= DAY_NUM,
                found ==> has_free_day(i as int, staffs@, days@),
                !found ==> forall|kk: int|
                    0 <= kk < k ==> #[trigger] holiday_off(i as int, staffs@, days@, kk),
            decreases DAY_NUM - k,
        {
            if !is_holiday_off(i, staffs, days, k) {
                found = true;
            }
            k = k + 1;
        }
        if !found {
            assert(!has_free_day(i as int, staffs@, days@));
            assert(!every_staff_has_free_day(staffs@, days@));
            return false;
        }
        i = i + 1;
    }
    true
}

/// Whether `worst_destroy` can run on `sol`: the scores fit and one is positive.
pub fn worst_is_defined(sol: &Solution) -> (b: bool)
    ensures
        b == (scores_fit(sol) && has_positive_score(sol)),
{
    if sol.WorktimePenalty.len() < STAFF_NUM || sol.AfternoonPenalty.len() < STAFF_NUM {
        return false;
    }
    let mut positive: bool = false;
    let mut i: usize = 0;
    while i < STAFF_NUM
        invariant
            sol.WorktimePenalty@.len() >= STAFF_NUM,
            sol.AfternoonPenalty@.len() >= STAFF_NUM,
            i <= STAFF_NUM,
            forall|j: int| 0 <= j < i ==> #[trigger] destroy_score(sol, j) <= usize::MAX,
            positive <==> exists|j: int| 0 <= j < i && #[trigger] destroy_score(sol, j) > 0,
        decreases STAFF_NUM - i,
    {
        let w: u128 = sol.WorktimePenalty[i] as u128;
        let a: u128 = sol.AfternoonPenalty[i] as u128;
        assert(destroy_score(sol, i as int) == w + a + w);
        if w + a + w > usize::MAX as u128 {
            assert(!scores_fit(sol));
            return false;
        }
        if w + a + w > 0 {
            positive = true;
        }
        i = i + 1;
    }
    positive
}

/// Whether `apply_operators` can run: the exec check of `move_ready`.
pub fn move_is_ready(
    sol: &Solution,
    destroy_op: DestroyOp,
    staffs: &Vec<Staff>,
    shifts: &Vec<Shift>,
    days: &Vec<Day>,
) -> (b: bool)
    ensures
        b == move_ready(sol, destroy_op, staffs@, shifts@, days@),
{
    if !schedule_is_shaped(&sol.staffs_schedule) || !cells_are_below(
        &sol.staffs_schedule,
        shifts.len(),
    ) || staffs.len() < STAFF_NUM || shifts.len() <= PH_SHIFT || !shifts_are_ok(shifts)
        || !days_are_ok(days) {
        return false;
    }
    match destroy_op {
        DestroyOp::Random => true,
        DestroyOp::Worst => worst_is_defined(sol),
    }
}

// ---------------------------------------------------------------------------
// Acceptance and scoring

/// How a candidate of fitness `cand` compares with the current and the best fitness.
pub open spec fn verdict_of(cand: int, current: int, best: int) -> Verdict {
    if cand < best {
        Verdict::NewGlobalBest
    } else if cand < current {
        Verdict::BetterThanCurrent
    } else {
        Verdict::NotBetter
    }
}

/// The score an operator pair earns: 15 for a new global best, 10 for an
/// improvement on the current solution, 5 for a worse candidate that is
/// accepted, 0 for a rejected one.
pub open spec fn score_of(v: Verdict, accept_worse: bool) -> u64 {
    match v {
        Verdict::NewGlobalBest => GLOBAL_BEST,
        Verdict::BetterThanCurrent => LOCAL_BEST,
        Verdict::NotBetter => if accept_worse {
            ACCEPTED
        } else {
            0
        },
    }
}

/// Whether the candidate replaces the current solution.
pub open spec fn replaces_current(v: Verdict, accept_worse: bool) -> bool {
    v != Verdict::NotBetter || accept_worse
}

/// `t` with `amount` added to the entries of destroy operator `d` and repair operator `rep`.
pub open spec fn tally_add(t: OperatorTally, d: DestroyOp, rep: RepairOp, amount: int) -> OperatorTally {
    let t1 = match d {
        DestroyOp::Random => OperatorTally { destroy_random: (t.destroy_random + amount) as u64, ..t },
        DestroyOp::Worst => OperatorTally { destroy_worst: (t.destroy_worst + amount) as u64, ..t },
    };
    match rep {
        RepairOp::Greedy => OperatorTally {
            repair_greedy: (t1.repair_greedy + amount) as u64,
            ..t1
        },
        RepairOp::Reverse_Greedy => OperatorTally {
            repair_reverse_greedy: (t1.repair_reverse_greedy + amount) as u64,
            ..t1
        },
        RepairOp::Random_Greedy => OperatorTally {
            repair_random_greedy: (t1.repair_random_greedy + amount) as u64,
            ..t1
        },
    }
}

/// Every entry of `t` is at most `bound`.
pub open spec fn tally_below(t: OperatorTally, bound: int) -> bool {
    &&& t.destroy_random <= bound
    &&& t.destroy_worst <= bound
    &&& t.repair_greedy <= bound
    &&& t.repair_reverse_greedy <= bound
    &&& t.repair_random_greedy <= bound
}

/// Room left in the tallies for one more iteration.
pub open spec fn tallies_have_room(st: &AlnsState) -> bool {
    &&& tally_below(st.scores, u64::MAX - GLOBAL_BEST)
    &&& tally_below(st.counts, u64::MAX - 1)
}

/// The best solution is never worse than the current one.
pub open spec fn best_not_worse(st: &AlnsState) -> bool {
    st.best.fitness_scaled <= st.current.fitness_scaled
}

// ---------------------------------------------------------------------------
// What every step of a search keeps

/// A roster the search may hold: the right shape, no unassigned day, a
/// holiday exactly on each holiday off, and at most one day off per staff member.
pub open spec fn search_roster_ok(s: Seq<Seq<usize>>, staffs: Seq<Staff>, days: Seq<Day>) -> bool {
    &&& schedule_shaped(s)
    &&& forall|i: int, k: int|
        0 <= i < STAFF_NUM && 0 <= k < DAY_NUM ==> 1 <= #[trigger] s[i][k] <= PH_SHIFT
    &&& forall|i: int, k: int|
        0 <= i < STAFF_NUM && 0 <= k < DAY_NUM ==> (#[trigger] s[i][k] == PH_SHIFT
            <==> holiday_off(i, staffs, days, k))
    &&& forall|i: int| 0 <= i < STAFF_NUM ==> #[trigger] at_most_one_day_off(s[i])
}

/// The state of a search is sound: both solutions hold search rosters with
/// their own evaluation, and the best is not worse than the current one.
pub open spec fn search_ok(
    current: SolutionModel,
    best: SolutionModel,
    staffs: Seq<Staff>,
    shifts: Seq<Shift>,
    days: Seq<Day>,
) -> bool {
    &&& search_roster_ok(current.schedule, staffs, days)
    &&& search_roster_ok(best.schedule, staffs, days)
    &&& solution_consistent(current, shifts, days)
    &&& solution_consistent(best, shifts, days)
    &&& best.fitness_scaled <= current.fitness_scaled
}

/// The current and the best solution after committing `candidate`.
pub open spec fn committed(
    current: SolutionModel,
    best: SolutionModel,
    candidate: SolutionModel,
    accept_worse: bool,
) -> (SolutionModel, SolutionModel) {
    let v = verdict_of(candidate.fitness_scaled, current.fitness_scaled, best.fitness_scaled);
    (
        if replaces_current(v, accept_worse) {
            candidate
        } else {
            current
        },
        if v == Verdict::NewGlobalBest {
            candidate
        } else {
            best
        },
    )
}

/// An initial roster is a search roster.
pub proof fn lemma_initial_roster_ok(s: Seq<Seq<usize>>, staffs: Seq<Staff>, days: Seq<Day>)
    requires
        schedule_shaped(s),
        forall|i: int| 0 <= i < STAFF_NUM ==> #[trigger] initial_row(s[i], i, staffs, days),
    ensures
        search_roster_ok(s, staffs, days),
{
    assert forall|i: int| 0 <= i < STAFF_NUM implies {
        &&& forall|k: int| 0 <= k < DAY_NUM ==> 1 <= #[trigger] s[i][k] <= PH_SHIFT
        &&& forall|k: int|
            0 <= k < DAY_NUM ==> (#[trigger] s[i][k] == PH_SHIFT <==> holiday_off(
                i,
                staffs,
                days,
                k,
            ))
        &&& at_most_one_day_off(s[i])
    } by {
        assert(initial_row(s[i], i, staffs, days));
        let d = choose|d: int|
            #![trigger s[i][d]]
            0 <= d < DAY_NUM && !holiday_off(i, staffs, days, d) && s[i][d] == DAY_OFF
                && forall|k: int|
                0 <= k < DAY_NUM && k != d ==> if holiday_off(i, staffs, days, k) {
                    #[trigger] s[i][k] == PH_SHIFT
                } else {
                    working_shift(s[i][k])
                };
        assert forall|k: int| 0 <= k < DAY_NUM implies 1 <= #[trigger] s[i][k] <= PH_SHIFT && (
        s[i][k] == PH_SHIFT <==> holiday_off(i, staffs, days, k)) by {
            if k != d {
                assert(if holiday_off(i, staffs, days, k) {
                    s[i][k] == PH_SHIFT
                } else {
                    working_shift(s[i][k])
                });
            }
        }
        assert forall|a: int, b: int| 0 <= a < b < s[i].len() implies !(#[trigger] s[i][a]
            == DAY_OFF && #[trigger] s[i][b] == DAY_OFF) by {
            if a != d {
                assert(s[i][a] != DAY_OFF);
            } else {
                assert(s[i][b] != DAY_OFF);
            }
        }
    }
}

/// A search starts sound from a consistent initial solution on a search roster.
pub proof fn lemma_initial_search_ok(
    init: SolutionModel,
    staffs: Seq<Staff>,
    shifts: Seq<Shift>,
    days: Seq<Day>,
)
    requires
        search_roster_ok(init.schedule, staffs, days),
        solution_consistent(init, shifts, days),
    ensures
        search_ok(init, init, staffs, shifts, days),
{
}

/// A move changes one week of a search roster into a search roster.
pub proof fn lemma_move_keeps_roster_ok(
    before: Seq<Seq<usize>>,
    after: Seq<Seq<usize>>,
    r: int,
    staffs: Seq<Staff>,
    days: Seq<Day>,
)
    requires
        search_roster_ok(before, staffs, days),
        0 <= r < STAFF_NUM,
        changes_one_week(before, after, r, staffs, days),
    ensures
        search_roster_ok(after, staffs, days),
{
    assert forall|i: int, k: int| 0 <= i < STAFF_NUM && 0 <= k < DAY_NUM implies 1
        <= #[trigger] after[i][k] <= PH_SHIFT && (after[i][k] == PH_SHIFT <==> holiday_off(
        i,
        staffs,
        days,
        k,
    )) by {
        if i != r {
            assert(after[i] == before[i]);
        }
    }
    assert forall|i: int| 0 <= i < STAFF_NUM implies #[trigger] at_most_one_day_off(after[i]) by {
        if i != r {
            assert(after[i] == before[i]);
        }
    }
}

/// One iteration keeps a search sound: a move from the current roster that
/// changes one week, with the candidate's own evaluation, and its commit,
/// whether or not a worse candidate is accepted.
pub proof fn lemma_step_keeps_search_ok(
    current: SolutionModel,
    best: SolutionModel,
    candidate: SolutionModel,
    r: int,
    accept_worse: bool,
    staffs: Seq<Staff>,
    shifts: Seq<Shift>,
    days: Seq<Day>,
)
    requires
        search_ok(current, best, staffs, shifts, days),
        0 <= r < STAFF_NUM,
        changes_one_week(current.schedule, candidate.schedule, r, staffs, days),
        solution_consistent(candidate, shifts, days),
    ensures
        search_ok(
            committed(current, best, candidate, accept_worse).0,
            committed(current, best, candidate, accept_worse).1,
            staffs,
            shifts,
            days,
        ),
{
    lemma_move_keeps_roster_ok(current.schedule, candidate.schedule, r, staffs, days);
}

/// How a candidate is judged: strictly below the best is a new global best;
/// not below the best but strictly below the current solution is an
/// improvement on the current one; neither is not better.
pub proof fn lemma_verdict_cases(cand: int, current: int, best: int)
    ensures
        cand < best ==> verdict_of(cand, current, best) == Verdict::NewGlobalBest,
        best <= cand < current ==> verdict_of(cand, current, best) == Verdict::BetterThanCurrent,
        cand >= current && cand >= best ==> verdict_of(cand, current, best) == Verdict::NotBetter,
{
}

/// What committing a candidate does: one strictly below the current solution
/// always replaces it and earns at least 10 (`LOCAL_BEST`); one strictly below
/// the best also becomes the best and earns 15 (`GLOBAL_BEST`); one below
/// neither replaces the current solution exactly when worse candidates are
/// accepted, earning 5 (`ACCEPTED`), else nothing.
pub proof fn lemma_commit_outcomes(cand: int, current: int, best: int, accept_worse: bool)
    ensures
        cand < current ==> replaces_current(verdict_of(cand, current, best), accept_worse)
            && score_of(verdict_of(cand, current, best), accept_worse) >= 10,
        cand < best ==> verdict_of(cand, current, best) == Verdict::NewGlobalBest && score_of(
            verdict_of(cand, current, best),
            accept_worse,
        ) == 15,
        best <= cand < current ==> score_of(verdict_of(cand, current, best), accept_worse)
            == 10,
        cand >= current && cand >= best ==> verdict_of(cand, current, best) != Verdict::NewGlobalBest
            && replaces_current(verdict_of(cand, current, best), accept_worse) == accept_worse
            && score_of(verdict_of(cand, current, best), accept_worse) == if accept_worse {
            5u64
        } else {
            0
        },
{
}

impl OperatorTally {
    /// All entries zero.
    pub fn zero() -> (t: Self)
        ensures
            tally_below(t, 0),
    {
        OperatorTally {
            destroy_random: 0,
            destroy_worst: 0,
            repair_greedy: 0,
            repair_reverse_greedy: 0,
            repair_random_greedy: 0,
        }
    }

    /// Adds `amount` to the entries of `d` and `rep`.
    pub fn add(&mut self, d: DestroyOp, rep: RepairOp, amount: u64)
        requires
            tally_below(*old(self), u64::MAX - amount),
        ensures
            *final(self) == tally_add(*old(self), d, rep, amount as int),
    {
        match d {
            DestroyOp::Random => {
                self.destroy_random = self.destroy_random + amount;
            },
            DestroyOp::Worst => {
                self.destroy_worst = self.destroy_worst + amount;
            },
        }
        match rep {
            RepairOp::Greedy => {
                self.repair_greedy = self.repair_greedy + amount;
            },
            RepairOp::Reverse_Greedy => {
                self.repair_reverse_greedy = self.repair_reverse_greedy + amount;
            },
            RepairOp::Random_Greedy => {
                self.repair_random_greedy = self.repair_random_greedy + amount;
            },
        }
    }
}

impl AlnsState {
    /// A search that starts from `initial`: it is both the current and the best
    /// solution, and no operator has a score or a use yet.
    pub fn new(initial: Solution) -> (st: Self)
        ensures
            st.current@ == initial@,
            st.best@ == initial@,
            tally_below(st.scores, 0),
            tally_below(st.counts, 0),
            best_not_worse(&st),
    {
        let best: Solution = initial.copy();
        AlnsState {
            current: initial,
            best,
            scores: OperatorTally::zero(),
            counts: OperatorTally::zero(),
        }
    }

    /// How `candidate` compares with the current and the best solution.
    pub fn judge(&self, candidate: &Solution) -> (v: Verdict)
        ensures
            v == verdict_of(
                candidate.fitness_scaled as int,
                self.current.fitness_scaled as int,
                self.best.fitness_scaled as int,
            ),
            candidate.fitness_scaled < self.best.fitness_scaled ==> v == Verdict::NewGlobalBest,
            self.best.fitness_scaled <= candidate.fitness_scaled < self.current.fitness_scaled
                ==> v == Verdict::BetterThanCurrent,
            candidate.fitness_scaled >= self.current.fitness_scaled
                && candidate.fitness_scaled >= self.best.fitness_scaled ==> v
                == Verdict::NotBetter,
    {
        proof {
            lemma_verdict_cases(
                candidate.fitness_scaled as int,
                self.current.fitness_scaled as int,
                self.best.fitness_scaled as int,
            );
        }
        if candidate.fitness_scaled < self.best.fitness_scaled {
            Verdict::NewGlobalBest
        } else if candidate.fitness_scaled < self.current.fitness_scaled {
            Verdict::BetterThanCurrent
        } else {
            Verdict::NotBetter
        }
    }

    /// Ends an iteration: a new global best becomes both the best and the
    /// current solution; an improvement on the current solution becomes the
    /// current one; a worse candidate becomes the current one when
    /// `accept_worse` holds. The operator pair is credited with the score and
    /// one use; the score is returned.
    pub fn commit(
        &mut self,
        destroy_op: DestroyOp,
        repair_op: RepairOp,
        candidate: Solution,
        accept_worse: bool,
    ) -> (score: u64)
        requires
            tallies_have_room(old(self)),
        ensures
            candidate.fitness_scaled < old(self).current.fitness_scaled ==> final(self).current@
                == candidate@ && score >= LOCAL_BEST,
            candidate.fitness_scaled < old(self).best.fitness_scaled ==> final(self).best@
                == candidate@ && score == GLOBAL_BEST,
            old(self).best.fitness_scaled <= candidate.fitness_scaled
                < old(self).current.fitness_scaled ==> score == LOCAL_BEST,
            candidate.fitness_scaled >= old(self).current.fitness_scaled
                && candidate.fitness_scaled >= old(self).best.fitness_scaled ==> (score == if accept_worse {
                ACCEPTED
            } else {
                0
            }) && final(self).best@ == old(self).best@,
            ({
                let v = verdict_of(
                    candidate.fitness_scaled as int,
                    old(self).current.fitness_scaled as int,
                    old(self).best.fitness_scaled as int,
                );
                &&& score == score_of(v, accept_worse)
                &&& final(self).current@ == if replaces_current(v, accept_worse) {
                    candidate@
                } else {
                    old(self).current@
                }
                &&& final(self).best@ == if v == Verdict::NewGlobalBest {
                    candidate@
                } else {
                    old(self).best@
                }
                &&& final(self).scores == tally_add(
                    old(self).scores,
                    destroy_op,
                    repair_op,
                    score as int,
                )
                &&& final(self).counts == tally_add(old(self).counts, destroy_op, repair_op, 1)
            }),
            final(self).best.fitness_scaled == if candidate.fitness_scaled
                < old(self).best.fitness_scaled {
                candidate.fitness_scaled
            } else {
                old(self).best.fitness_scaled
            },
            best_not_worse(old(self)) ==> best_not_worse(final(self)),
            (final(self).current@, final(self).best@) == committed(
                old(self).current@,
                old(self).best@,
                candidate@,
                accept_worse,
            ),
    {
        proof {
            lemma_commit_outcomes(
                candidate.fitness_scaled as int,
                self.current.fitness_scaled as int,
                self.best.fitness_scaled as int,
                accept_worse,
            );
        }
        let v: Verdict = self.judge(&candidate);
        let score: u64 = match v {
            Verdict::NewGlobalBest => {
                self.best = candidate.copy();
                self.current = candidate;
                GLOBAL_BEST
            },
            Verdict::BetterThanCurrent => {
                self.current = candidate;
                LOCAL_BEST
            },
            Verdict::NotBetter => {
                if accept_worse {
                    self.current = candidate;
                    ACCEPTED
                } else {
                    0
                }
            },
        };
        self.scores.add(destroy_op, repair_op, score);
        self.counts.add(destroy_op, repair_op, 1);
        score
    }

    /// Whether the tallies have room for one more iteration.
    pub fn has_room(&self) -> (b: bool)
        ensures
            b == tallies_have_room(self),
    {
        let s = &self.scores;
        let c = &self.counts;
        let smax: u64 = u64::MAX - GLOBAL_BEST;
        let cmax: u64 = u64::MAX - 1;
        s.destroy_random <= smax && s.destroy_worst <= smax && s.repair_greedy <= smax
            && s.repair_reverse_greedy <= smax && s.repair_random_greedy <= smax
            && c.destroy_random <= cmax && c.destroy_worst <= cmax && c.repair_greedy <= cmax
            && c.repair_reverse_greedy <= cmax && c.repair_random_greedy <= cmax
    }

    /// Clears the scores and the use counts (after a weight update).
    pub fn reset_tallies(&mut self)
        ensures
            final(self).current@ == old(self).current@,
            final(self).best@ == old(self).best@,
            tally_below(final(self).scores, 0),
            tally_below(final(self).counts, 0),
            best_not_worse(old(self)) ==> best_not_worse(final(self)),
    {
        self.scores = OperatorTally::zero();
        self.counts = OperatorTally::zero();
    }
}

} // verus!
