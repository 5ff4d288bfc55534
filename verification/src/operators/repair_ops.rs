//! Repair operators: refill a removed staff member's week, day by day, with the
//! shift that the day's coverage shortage and the weekly worktime ask for.
use vstd::prelude::*;

use crate::random::{shuffle_in_place, thread_rng};
use crate::structs::{
    abs_diff, afternoon_count, cells_below, copy_schedule, day_cover_counts, days_ok, evaluate,
    grid, lemma_evaluation_fits, morning_count, schedule_shaped, shifts_ok, Day, Shift, Solution,
    Staff,
};
use crate::utils::{
    DAY_NUM, DAY_OFF, OFF_ON_PH_GROUP, PH_SHIFT, PUBLIC_HOLIDAY_DAY, STAFF_NUM, TARGET_WORKTIME,
};

verus! {

broadcast use vstd::seq_lib::group_to_multiset_ensures;

/// The morning shifts, in order.
pub open spec fn morning_list() -> Seq<usize> {
    seq![1usize, 2usize, 3usize]
}

/// The afternoon shifts, in order.
pub open spec fn afternoon_list() -> Seq<usize> {
    seq![4usize, 5usize]
}

/// All working shifts, in order.
pub open spec fn all_list() -> Seq<usize> {
    seq![1usize, 2usize, 3usize, 4usize, 5usize]
}

/// Hours of the first `n` entries of the shift table, leaving out entry `current_day`.
pub open spec fn other_days_worktime(shifts: Seq<Shift>, current_day: int, n: int) -> int
    decreases n,
{
    if n <= 0 {
        0
    } else {
        other_days_worktime(shifts, current_day, n - 1) + if n - 1 == current_day {
            0int
        } else {
            shifts[n - 1].shift_duration as int
        }
    }
}

/// Distance from the weekly target of the hours that candidate `l` is rated with:
/// entry `l` of the shift table plus the table entries of the other days.
pub open spec fn worktime_gap(shifts: Seq<Shift>, l: int, current_day: int) -> int {
    abs_diff(
        TARGET_WORKTIME as int,
        shifts[l].shift_duration + other_days_worktime(shifts, current_day, DAY_NUM as int),
    )
}

/// Index of the first smallest gap among the first `n` candidates.
pub open spec fn first_min_gap(shifts: Seq<Shift>, current_day: int, n: int) -> int
    decreases n,
{
    if n <= 1 {
        0
    } else {
        let m = first_min_gap(shifts, current_day, n - 1);
        if worktime_gap(shifts, n - 1, current_day) < worktime_gap(shifts, m, current_day) {
            n - 1
        } else {
            m
        }
    }
}

/// The candidate shift that `check_worktime` picks from `list`.
pub open spec fn worktime_target(list: Seq<usize>, shifts: Seq<Shift>, current_day: int) -> usize {
    list[first_min_gap(shifts, current_day, list.len() as int)]
}

/// Unmet demand: `max(0, demand - have)`.
pub open spec fn shortage(demand: usize, have: int) -> int {
    if demand - have > 0 {
        demand - have
    } else {
        0
    }
}

/// Whether `check_coverage` gives staff member `r` a day off on day `k`: no
/// shortage that day, and no day off yet in the staff member's row.
pub open spec fn assigns_day_off(s: Seq<Seq<usize>>, r: int, days: Seq<Day>, k: int) -> bool {
    &&& shortage(days[k].morning_cov, morning_count(s, k, STAFF_NUM as int)) == 0
    &&& shortage(days[k].afternoon_cov, afternoon_count(s, k, STAFF_NUM as int)) == 0
    &&& !s[r].contains(DAY_OFF)
}

/// The shift that `check_coverage` picks for staff member `r` on day `k`.
pub open spec fn coverage_target(
    s: Seq<Seq<usize>>,
    r: int,
    shifts: Seq<Shift>,
    days: Seq<Day>,
    k: int,
) -> usize {
    let ms = shortage(days[k].morning_cov, morning_count(s, k, STAFF_NUM as int));
    let as_ = shortage(days[k].afternoon_cov, afternoon_count(s, k, STAFF_NUM as int));
    if ms == 0 && as_ == 0 {
        if s[r].contains(DAY_OFF) {
            worktime_target(all_list(), shifts, k)
        } else {
            DAY_OFF
        }
    } else if ms > as_ {
        worktime_target(morning_list(), shifts, k)
    } else if as_ > ms {
        worktime_target(afternoon_list(), shifts, k)
    } else {
        worktime_target(all_list(), shifts, k)
    }
}

/// Whether staff member `r` is off on day `k` because it is a public holiday.
pub open spec fn holiday_off(r: int, staffs: Seq<Staff>, days: Seq<Day>, k: int) -> bool {
    days[k].day_type == PUBLIC_HOLIDAY_DAY && staffs[r].group == OFF_ON_PH_GROUP
}

/// The shift that repair writes for staff member `r` on day `k`.
pub open spec fn repair_cell(
    s: Seq<Seq<usize>>,
    r: int,
    staffs: Seq<Staff>,
    shifts: Seq<Shift>,
    days: Seq<Day>,
    k: int,
) -> usize {
    if holiday_off(r, staffs, days, k) {
        PH_SHIFT
    } else {
        coverage_target(s, r, shifts, days, k)
    }
}

/// Roster `s` after repairing the days of `order`, one after the other, for staff member `r`.
pub open spec fn repair_steps(
    s: Seq<Seq<usize>>,
    r: int,
    order: Seq<usize>,
    staffs: Seq<Staff>,
    shifts: Seq<Shift>,
    days: Seq<Day>,
) -> Seq<Seq<usize>>
    decreases order.len(),
{
    if order.len() == 0 {
        s
    } else {
        let k = order[0] as int;
        let s2 = s.update(r, s[r].update(k, repair_cell(s, r, staffs, shifts, days, k)));
        repair_steps(s2, r, order.drop_first(), staffs, shifts, days)
    }
}

/// The days of the week in order.
pub open spec fn forward_days() -> Seq<usize> {
    Seq::new(DAY_NUM as nat, |k: int| k as usize)
}

/// The days of the week from the last to the first.
pub open spec fn backward_days() -> Seq<usize> {
    Seq::new(DAY_NUM as nat, |t: int| (DAY_NUM - 1 - t) as usize)
}

/// Every entry of `order` is a day of the week.
pub open spec fn days_of_week(order: Seq<usize>) -> bool {
    forall|t: int| 0 <= t < order.len() ==> #[trigger] order[t] < DAY_NUM
}

/// What a repair needs: a well-shaped roster whose cells index the shift table,
/// a staff member in range, a shift table holding every code the repair may
/// write, and a week of days.
pub open spec fn repair_ready(
    partial: Seq<Seq<usize>>,
    r: int,
    staffs: Seq<Staff>,
    shifts: Seq<Shift>,
    days: Seq<Day>,
) -> bool {
    &&& schedule_shaped(partial)
    &&& cells_below(partial, shifts.len() as int)
    &&& 0 <= r < STAFF_NUM
    &&& r < staffs.len()
    &&& shifts.len() > PH_SHIFT
    &&& shifts_ok(shifts)
    &&& days_ok(days)
}

/// The first smallest gap is one of the candidates, no candidate has a smaller
/// gap, and every candidate before it has a larger one.
pub proof fn lemma_first_min_gap(shifts: Seq<Shift>, current_day: int, n: int)
    requires
        n >= 1,
    ensures
        0 <= first_min_gap(shifts, current_day, n) < n,
        forall|l: int|
            0 <= l < n ==> worktime_gap(shifts, first_min_gap(shifts, current_day, n), current_day)
                <= #[trigger] worktime_gap(shifts, l, current_day),
        forall|l: int|
            0 <= l < first_min_gap(shifts, current_day, n) ==> worktime_gap(
                shifts,
                first_min_gap(shifts, current_day, n),
                current_day,
            ) < #[trigger] worktime_gap(shifts, l, current_day),
    decreases n,
{
    if n > 1 {
        lemma_first_min_gap(shifts, current_day, n - 1);
    }
}

/// A coverage target is a working shift or the day off.
pub proof fn lemma_coverage_target_range(
    s: Seq<Seq<usize>>,
    r: int,
    shifts: Seq<Shift>,
    days: Seq<Day>,
    k: int,
)
    ensures
        1 <= coverage_target(s, r, shifts, days, k) <= DAY_OFF,
        coverage_target(s, r, shifts, days, k) == DAY_OFF ==> assigns_day_off(s, r, days, k),
{
    lemma_first_min_gap(shifts, k, 3);
    lemma_first_min_gap(shifts, k, 2);
    lemma_first_min_gap(shifts, k, 5);
}

/// Whether `row` holds a day off.
fn row_has_day_off(row: &Vec<usize>) -> (b: bool)
    ensures
        b == row@.contains(DAY_OFF),
{
    let mut i: usize = 0;
    while i < row.len()
        invariant
            i <= row.len(),
            forall|j: int| 0 <= j < i ==> #[trigger] row@[j] != DAY_OFF,
        decreases row.len() - i,
    {
        if row[i] == DAY_OFF {
            return true;
        }
        i = i + 1;
    }
    false
}

/// The hours `check_worktime` sums for each of the first `n` candidates fit a `usize`.
pub open spec fn worktime_sums_fit(shifts: Seq<Shift>, current_day: int, n: int) -> bool {
    forall|l: int|
        0 <= l < n ==> #[trigger] shifts[l].shift_duration + other_days_worktime(
            shifts,
            current_day,
            DAY_NUM as int,
        ) <= usize::MAX
}

/// The candidate list that `check_coverage` hands to `check_worktime` on day
/// `k`: the morning shifts when the morning is shorter, the afternoon shifts
/// when the afternoon is shorter, else all working shifts.
pub open spec fn coverage_candidates(s: Seq<Seq<usize>>, days: Seq<Day>, k: int) -> Seq<usize> {
    let ms = shortage(days[k].morning_cov, morning_count(s, k, STAFF_NUM as int));
    let as_ = shortage(days[k].afternoon_cov, afternoon_count(s, k, STAFF_NUM as int));
    if ms > as_ {
        morning_list()
    } else if as_ > ms {
        afternoon_list()
    } else {
        all_list()
    }
}

/// Partial sums of the other days' hours grow with the number of days.
proof fn lemma_other_days_prefix(shifts: Seq<Shift>, current_day: int, a: int, b: int)
    requires
        0 <= a <= b,
    ensures
        0 <= other_days_worktime(shifts, current_day, a) <= other_days_worktime(
            shifts,
            current_day,
            b,
        ),
    decreases b,
{
    if b > 0 {
        if a < b {
            lemma_other_days_prefix(shifts, current_day, a, b - 1);
        } else {
            lemma_other_days_prefix(shifts, current_day, b - 1, b - 1);
        }
    }
}

/// Seven times the other days' hours of the first `n` days stay within `n` times
/// the `i32` range when every entry of the table does.
proof fn lemma_other_days_bound(shifts: Seq<Shift>, current_day: int, n: int)
    requires
        shifts_ok(shifts),
        0 <= n <= shifts.len(),
    ensures
        DAY_NUM * other_days_worktime(shifts, current_day, n) <= n * i32::MAX,
    decreases n,
{
    if n > 0 {
        lemma_other_days_bound(shifts, current_day, n - 1);
        assert(DAY_NUM * shifts[n - 1].shift_duration <= i32::MAX);
    }
}

/// A table within `shifts_ok`, with an entry per day, keeps `check_worktime`'s
/// sums within a `usize` for candidates inside the table.
pub proof fn lemma_worktime_sums_fit(shifts: Seq<Shift>, current_day: int, n: int)
    requires
        shifts_ok(shifts),
        shifts.len() >= DAY_NUM,
        0 <= n <= shifts.len(),
    ensures
        worktime_sums_fit(shifts, current_day, n),
{
    lemma_other_days_bound(shifts, current_day, DAY_NUM as int);
    assert forall|l: int| 0 <= l < n implies #[trigger] shifts[l].shift_duration
        + other_days_worktime(shifts, current_day, DAY_NUM as int) <= usize::MAX by {
        assert(DAY_NUM * shifts[l].shift_duration <= i32::MAX);
    }
}

/// Picks from `shift_list` the shift whose rated weekly hours come closest to
/// `TARGET_WORKTIME`; the first such shift on ties. Candidate `l` is rated with
/// entry `l` of the shift table plus the table entries of the days other than
/// `current_day`.
pub fn check_worktime(shift_list: &Vec<usize>, shifts: &Vec<Shift>, current_day: usize) -> (r:
    usize)
    requires
        shift_list.len() > 0,
        shift_list.len() <= shifts.len(),
        shifts.len() >= DAY_NUM,
        worktime_sums_fit(shifts@, current_day as int, shift_list.len() as int),
    ensures
        r == worktime_target(shift_list@, shifts@, current_day as int),
{
    let mut best: usize = 0;
    let mut best_gap: usize = 0;
    let mut l: usize = 0;
    while l < shift_list.len()
        invariant
            0 < shift_list.len() <= shifts.len(),
            shifts.len() >= DAY_NUM,
            worktime_sums_fit(shifts@, current_day as int, shift_list.len() as int),
            l <= shift_list.len(),
            l > 0 ==> best == first_min_gap(shifts@, current_day as int, l as int),
            l > 0 ==> best_gap == worktime_gap(shifts@, best as int, current_day as int),
            l > 0 ==> best < l,
        decreases shift_list.len() - l,
    {
        assert(shifts@[l as int].shift_duration + other_days_worktime(
            shifts@,
            current_day as int,
            DAY_NUM as int,
        ) <= usize::MAX);
        let mut expected: usize = shifts[l].shift_duration;
        let mut k: usize = 0;
        while k < DAY_NUM
            invariant
                l < shift_list.len() <= shifts.len(),
                shifts.len() >= DAY_NUM,
                k <= DAY_NUM,
                expected == shifts@[l as int].shift_duration + other_days_worktime(
                    shifts@,
                    current_day as int,
                    k as int,
                ),
                shifts@[l as int].shift_duration + other_days_worktime(
                    shifts@,
                    current_day as int,
                    DAY_NUM as int,
                ) <= usize::MAX,
            decreases DAY_NUM - k,
        {
            proof {
                lemma_other_days_prefix(shifts@, current_day as int, k + 1, DAY_NUM as int);
            }
            if k != current_day {
                expected = expected + shifts[k].shift_duration;
            }
            k = k + 1;
        }
        let gap: usize = if expected >= TARGET_WORKTIME {
            expected - TARGET_WORKTIME
        } else {
            TARGET_WORKTIME - expected
        };
        if l == 0 || gap < best_gap {
            best = l;
            best_gap = gap;
        }
        l = l + 1;
    }
    shift_list[best]
}

/// The morning shifts as a vector.
fn morning_shift_list() -> (v: Vec<usize>)
    ensures
        v@ == morning_list(),
{
    let mut v: Vec<usize> = Vec::new();
    v.push(1);
    v.push(2);
    v.push(3);
    assert(v@ =~= morning_list());
    v
}

/// The afternoon shifts as a vector.
fn afternoon_shift_list() -> (v: Vec<usize>)
    ensures
        v@ == afternoon_list(),
{
    let mut v: Vec<usize> = Vec::new();
    v.push(4);
    v.push(5);
    assert(v@ =~= afternoon_list());
    v
}

/// All working shifts as a vector.
fn all_shift_list() -> (v: Vec<usize>)
    ensures
        v@ == all_list(),
{
    let mut v: Vec<usize> = Vec::new();
    v.push(1);
    v.push(2);
    v.push(3);
    v.push(4);
    v.push(5);
    assert(v@ =~= all_list());
    v
}

/// The shift for staff member `removed_staff` on `current_day`: with a coverage
/// shortage, the worktime-best shift of the short half of the day (morning,
/// afternoon, or any working shift when both are equally short); with no
/// shortage, a day off if the staff member has none yet, else the
/// worktime-best working shift.
pub fn check_coverage(
    partial: &Vec<Vec<usize>>,
    removed_staff: usize,
    shifts: &Vec<Shift>,
    days: &Vec<Day>,
    current_day: usize,
) -> (target: usize)
    requires
        schedule_shaped(grid(partial)),
        removed_staff < STAFF_NUM,
        current_day < DAY_NUM,
        !assigns_day_off(grid(partial), removed_staff as int, days@, current_day as int)
            ==> shifts.len() >= DAY_NUM && worktime_sums_fit(
            shifts@,
            current_day as int,
            coverage_candidates(grid(partial), days@, current_day as int).len() as int,
        ),
        current_day < days.len(),
        days@[current_day as int].morning_cov <= i32::MAX,
        days@[current_day as int].afternoon_cov <= i32::MAX,
    ensures
        target == coverage_target(
            grid(partial),
            removed_staff as int,
            shifts@,
            days@,
            current_day as int,
        ),
        1 <= target <= DAY_OFF,
{
    let ghost s = grid(partial);
    let (morning_cov, afternoon_cov) = day_cover_counts(partial, current_day);
    let morning_gap: i32 = days[current_day].morning_cov as i32 - morning_cov;
    let afternoon_gap: i32 = days[current_day].afternoon_cov as i32 - afternoon_cov;
    let morning_shortage: i32 = if morning_gap > 0 {
        morning_gap
    } else {
        0
    };
    let afternoon_shortage: i32 = if afternoon_gap > 0 {
        afternoon_gap
    } else {
        0
    };
    let shortage_status: bool = !(morning_shortage == 0 && afternoon_shortage == 0);
    let mut assign_dayoff: bool = false;
    let mut shortage_shift: Vec<usize> = Vec::new();
    if shortage_status {
        if morning_shortage > afternoon_shortage {
            shortage_shift = morning_shift_list();
        } else if afternoon_shortage > morning_shortage {
            shortage_shift = afternoon_shift_list();
        } else {
            shortage_shift = all_shift_list();
        }
    } else {
        assert(s[removed_staff as int] == partial@[removed_staff as int]@);
        if row_has_day_off(&partial[removed_staff]) {
            shortage_shift = all_shift_list();
        } else {
            assign_dayoff = true;
        }
    }
    proof {
        lemma_coverage_target_range(s, removed_staff as int, shifts@, days@, current_day as int);
    }
    if assign_dayoff {
        DAY_OFF
    } else {
        assert(shortage_shift@ == coverage_candidates(s, days@, current_day as int));
        check_worktime(&shortage_shift, shifts, current_day)
    }
}

/// Sets cell `(i, k)` of a roster.
fn set_cell(s: &mut Vec<Vec<usize>>, i: usize, k: usize, v: usize)
    requires
        i < old(s).len(),
        k < old(s)@[i as int].len(),
    ensures
        grid(final(s)) == grid(old(s)).update(i as int, grid(old(s))[i as int].update(k as int, v)),
{
    let mut row: Vec<usize> = s[i].clone();
    assert(row@ =~= s@[i as int]@);
    row.set(k, v);
    s.set(i, row);
    assert(grid(s) =~= grid(old(s)).update(i as int, grid(old(s))[i as int].update(k as int, v)));
}

/// The shift `check_coverage` picks for staff member `r` on day `k` depends
/// only on day `k`'s column of the roster and on whether row `r` already holds
/// a day off.
pub proof fn lemma_coverage_target_local(
    s1: Seq<Seq<usize>>,
    s2: Seq<Seq<usize>>,
    r: int,
    shifts: Seq<Shift>,
    days: Seq<Day>,
    k: int,
)
    requires
        forall|i: int| 0 <= i < STAFF_NUM ==> #[trigger] s1[i][k] == s2[i][k],
        s1[r].contains(DAY_OFF) == s2[r].contains(DAY_OFF),
    ensures
        coverage_target(s1, r, shifts, days, k) == coverage_target(s2, r, shifts, days, k),
{
    lemma_counts_same_column(s1, s2, k, STAFF_NUM as int);
}

/// Hours that candidate position `l` is rated with on day `current_day`:
/// entry `l` of the shift table plus the table entries of the other days of the week.
pub open spec fn rated_hours(shifts: Seq<Shift>, current_day: int, l: int) -> int {
    let d = |j: int|
        if j == current_day {
            0int
        } else {
            shifts[j].shift_duration as int
        };
    shifts[l].shift_duration + d(0) + d(1) + d(2) + d(3) + d(4) + d(5) + d(6)
}

/// Distance of `rated_hours` from the 44-hour target.
pub open spec fn rated_gap(shifts: Seq<Shift>, current_day: int, l: int) -> int {
    let h = rated_hours(shifts, current_day, l);
    if h >= 44 {
        h - 44
    } else {
        44 - h
    }
}

/// Position `l` has the smallest rated gap among the first `n` positions, and
/// is the first position with it.
pub open spec fn first_best_position(shifts: Seq<Shift>, current_day: int, n: int, l: int) -> bool {
    &&& 0 <= l < n
    &&& forall|j: int|
        0 <= j < n ==> rated_gap(shifts, current_day, l) <= #[trigger] rated_gap(
            shifts,
            current_day,
            j,
        )
    &&& forall|j: int|
        0 <= j < l ==> #[trigger] rated_gap(shifts, current_day, j) > rated_gap(
            shifts,
            current_day,
            l,
        )
}

/// `check_worktime` returns the candidate at the first position whose rated
/// hours come closest to 44.
pub proof fn lemma_worktime_target_first_best(list: Seq<usize>, shifts: Seq<Shift>, current_day: int)
    requires
        list.len() > 0,
    ensures
        exists|l: int|
            #[trigger] first_best_position(shifts, current_day, list.len() as int, l)
                && worktime_target(list, shifts, current_day) == list[l],
{
    reveal_with_fuel(other_days_worktime, 8);
    let n = list.len() as int;
    lemma_first_min_gap(shifts, current_day, n);
    let l = first_min_gap(shifts, current_day, n);
    assert forall|j: int| 0 <= j < n implies #[trigger] rated_gap(shifts, current_day, j)
        == worktime_gap(shifts, j, current_day) by {
    }
    assert(first_best_position(shifts, current_day, n, l));
}

/// The shift `check_coverage` picks: with the morning shorter, the first
/// worktime-best of the morning shifts 1 to 3; with the afternoon shorter, of
/// the afternoon shifts 4 and 5; with both equally short, of all working
/// shifts 1 to 5; with no shortage, the day off when the row has none yet,
/// else the first worktime-best of all working shifts.
pub proof fn lemma_coverage_choice(
    s: Seq<Seq<usize>>,
    r: int,
    shifts: Seq<Shift>,
    days: Seq<Day>,
    k: int,
)
    ensures
        ({
            let m = morning_count(s, k, STAFF_NUM as int);
            let a = afternoon_count(s, k, STAFF_NUM as int);
            let ms = if days[k].morning_cov > m {
                days[k].morning_cov - m
            } else {
                0
            };
            let as_ = if days[k].afternoon_cov > a {
                days[k].afternoon_cov - a
            } else {
                0
            };
            let c = coverage_target(s, r, shifts, days, k);
            &&& ms > as_ ==> exists|l: int|
                #[trigger] first_best_position(shifts, k, 3, l) && c == 1 + l
            &&& as_ > ms ==> exists|l: int|
                #[trigger] first_best_position(shifts, k, 2, l) && c == 4 + l
            &&& ms == as_ && ms > 0 ==> exists|l: int|
                #[trigger] first_best_position(shifts, k, 5, l) && c == 1 + l
            &&& ms == 0 && as_ == 0 ==> (c == DAY_OFF <==> !s[r].contains(DAY_OFF))
            &&& ms == 0 && as_ == 0 && s[r].contains(DAY_OFF) ==> exists|l: int|
                #[trigger] first_best_position(shifts, k, 5, l) && c == 1 + l
        }),
{
    lemma_worktime_target_first_best(morning_list(), shifts, k);
    lemma_worktime_target_first_best(afternoon_list(), shifts, k);
    lemma_worktime_target_first_best(all_list(), shifts, k);
    lemma_coverage_target_range(s, r, shifts, days, k);
    let lm = choose|l: int|
        #[trigger] first_best_position(shifts, k, 3, l) && worktime_target(morning_list(), shifts, k)
            == morning_list()[l];
    let la = choose|l: int|
        #[trigger] first_best_position(shifts, k, 2, l) && worktime_target(afternoon_list(), shifts, k)
            == afternoon_list()[l];
    let lw = choose|l: int|
        #[trigger] first_best_position(shifts, k, 5, l) && worktime_target(all_list(), shifts, k)
            == all_list()[l];
    assert(morning_list()[lm] == 1 + lm);
    assert(afternoon_list()[la] == 4 + la);
    assert(all_list()[lw] == 1 + lw);
}

/// Repair keeps the other rows and the shape, leaves the days outside `order`
/// as they were, writes a working shift, a day off or a holiday on the days of
/// `order`, and a holiday exactly on the holiday days of `order` where the staff
/// member is off on holidays.
pub proof fn lemma_repair_steps(
    s: Seq<Seq<usize>>,
    r: int,
    order: Seq<usize>,
    staffs: Seq<Staff>,
    shifts: Seq<Shift>,
    days: Seq<Day>,
)
    requires
        schedule_shaped(s),
        0 <= r < STAFF_NUM,
        days_of_week(order),
    ensures
        schedule_shaped(repair_steps(s, r, order, staffs, shifts, days)),
        forall|i: int|
            0 <= i < STAFF_NUM && i != r ==> #[trigger] repair_steps(
                s,
                r,
                order,
                staffs,
                shifts,
                days,
            )[i] == s[i],
        forall|k: int|
            0 <= k < DAY_NUM && !order.contains(k as usize) ==> #[trigger] repair_steps(
                s,
                r,
                order,
                staffs,
                shifts,
                days,
            )[r][k] == s[r][k],
        forall|k: int|
            0 <= k < DAY_NUM && order.contains(k as usize) ==> 1 <= #[trigger] repair_steps(
                s,
                r,
                order,
                staffs,
                shifts,
                days,
            )[r][k] <= PH_SHIFT,
        forall|k: int|
            0 <= k < DAY_NUM && order.contains(k as usize) ==> (#[trigger] repair_steps(
                s,
                r,
                order,
                staffs,
                shifts,
                days,
            )[r][k] == PH_SHIFT <==> holiday_off(r, staffs, days, k)),
    decreases order.len(),
{
    if order.len() > 0 {
        let k0 = order[0] as int;
        let s2 = s.update(r, s[r].update(k0, repair_cell(s, r, staffs, shifts, days, k0)));
        lemma_coverage_target_range(s, r, shifts, days, k0);
        let rest = order.drop_first();
        assert(days_of_week(rest)) by {
            assert forall|t: int| 0 <= t < rest.len() implies #[trigger] rest[t] < DAY_NUM by {
                assert(rest[t] == order[t + 1]);
            }
        }
        assert(schedule_shaped(s2));
        lemma_repair_steps(s2, r, rest, staffs, shifts, days);
        let res = repair_steps(s, r, order, staffs, shifts, days);
        assert(res == repair_steps(s2, r, rest, staffs, shifts, days));
        assert forall|k: int| 0 <= k < DAY_NUM && !order.contains(k as usize) implies #[trigger] res[r][k]
            == s[r][k] by {
            if rest.contains(k as usize) {
                let t = choose|t: int| 0 <= t < rest.len() && rest[t] == k as usize;
                assert(order[t + 1] == k as usize);
            }
            if k == k0 {
                assert(order[0] == k as usize);
            }
        }
        assert forall|k: int| 0 <= k < DAY_NUM && order.contains(k as usize) implies 1 <= #[trigger] res[r][k]
            <= PH_SHIFT by {
            if !rest.contains(k as usize) {
                let t = choose|t: int| 0 <= t < order.len() && order[t] == k as usize;
                if t > 0 {
                    assert(rest[t - 1] == k as usize);
                }
                assert(k == k0);
            }
        }
        assert forall|k: int| 0 <= k < DAY_NUM && order.contains(k as usize) implies (
        #[trigger] res[r][k] == PH_SHIFT <==> holiday_off(r, staffs, days, k)) by {
            if !rest.contains(k as usize) {
                let t = choose|t: int| 0 <= t < order.len() && order[t] == k as usize;
                if t > 0 {
                    assert(rest[t - 1] == k as usize);
                }
                assert(k == k0);
            }
        }
    }
}

/// A row holds at most one day off.
pub open spec fn at_most_one_day_off(row: Seq<usize>) -> bool {
    forall|a: int, b: int|
        0 <= a < b < row.len() ==> !(#[trigger] row[a] == DAY_OFF && #[trigger] row[b] == DAY_OFF)
}

/// Repair writes a day off only into a row that has none, so a row with at
/// most one day off keeps at most one, whatever the order of the days.
pub proof fn lemma_repair_one_day_off(
    s: Seq<Seq<usize>>,
    r: int,
    order: Seq<usize>,
    staffs: Seq<Staff>,
    shifts: Seq<Shift>,
    days: Seq<Day>,
)
    requires
        schedule_shaped(s),
        0 <= r < STAFF_NUM,
        days_of_week(order),
        at_most_one_day_off(s[r]),
    ensures
        at_most_one_day_off(repair_steps(s, r, order, staffs, shifts, days)[r]),
    decreases order.len(),
{
    if order.len() > 0 {
        let k0 = order[0] as int;
        let c = repair_cell(s, r, staffs, shifts, days, k0);
        let row2 = s[r].update(k0, c);
        let s2 = s.update(r, row2);
        lemma_coverage_target_range(s, r, shifts, days, k0);
        assert(at_most_one_day_off(row2)) by {
            assert forall|a: int, b: int| 0 <= a < b < row2.len() implies !(#[trigger] row2[a]
                == DAY_OFF && #[trigger] row2[b] == DAY_OFF) by {
                if c == DAY_OFF {
                    assert(!s[r].contains(DAY_OFF));
                    if a != k0 {
                        assert(row2[a] == s[r][a]);
                    } else {
                        assert(row2[b] == s[r][b]);
                    }
                } else {
                    if a != k0 && b != k0 {
                        assert(row2[a] == s[r][a] && row2[b] == s[r][b]);
                    }
                }
            }
        }
        let rest = order.drop_first();
        assert(days_of_week(rest)) by {
            assert forall|t: int| 0 <= t < rest.len() implies #[trigger] rest[t] < DAY_NUM by {
                assert(rest[t] == order[t + 1]);
            }
        }
        assert(s2[r] == row2);
        lemma_repair_one_day_off(s2, r, rest, staffs, shifts, days);
    }
}

/// Day `k` can take the day off of staff member `r`: it is not a holiday off,
/// and roster `s` has no coverage shortage that day.
pub open spec fn free_for_day_off(
    s: Seq<Seq<usize>>,
    r: int,
    staffs: Seq<Staff>,
    days: Seq<Day>,
    k: int,
) -> bool {
    &&& !holiday_off(r, staffs, days, k)
    &&& shortage(days[k].morning_cov, morning_count(s, k, STAFF_NUM as int)) == 0
    &&& shortage(days[k].afternoon_cov, afternoon_count(s, k, STAFF_NUM as int)) == 0
}

/// The shift that a visit to day `k` writes, given whether staff member `r`
/// already has a day off (`taken`): a holiday on a holiday off; on a free day
/// the day off, or the worktime-best working shift once the day off is taken;
/// else the shortage-driven choice of `check_coverage`.
pub open spec fn visit_cell(
    s: Seq<Seq<usize>>,
    r: int,
    staffs: Seq<Staff>,
    shifts: Seq<Shift>,
    days: Seq<Day>,
    k: int,
    taken: bool,
) -> usize {
    if holiday_off(r, staffs, days, k) {
        PH_SHIFT
    } else if free_for_day_off(s, r, staffs, days, k) {
        if taken {
            worktime_target(all_list(), shifts, k)
        } else {
            DAY_OFF
        }
    } else {
        coverage_target(s, r, shifts, days, k)
    }
}

/// Some day visited before position `t` of `order` is free for the day off.
pub open spec fn free_before(
    s: Seq<Seq<usize>>,
    r: int,
    staffs: Seq<Staff>,
    days: Seq<Day>,
    order: Seq<usize>,
    t: int,
) -> bool {
    exists|j: int| 0 <= j < t && #[trigger] free_for_day_off(s, r, staffs, days, order[j] as int)
}

/// Staff counts on a day depend only on that day's column.
proof fn lemma_counts_same_column(s: Seq<Seq<usize>>, s2: Seq<Seq<usize>>, k: int, n: int)
    requires
        forall|i: int| 0 <= i < n ==> #[trigger] s2[i][k] == s[i][k],
    ensures
        morning_count(s2, k, n) == morning_count(s, k, n),
        afternoon_count(s2, k, n) == afternoon_count(s, k, n),
    decreases n,
{
    if n > 0 {
        lemma_counts_same_column(s, s2, k, n - 1);
        assert(s2[n - 1][k] == s[n - 1][k]);
    }
}

/// Repairing a row in an order that visits each day at most once: each visited
/// day gets `visit_cell`, where the day off counts as taken once the row had one
/// at the start or an earlier visited day was free for it. So the order decides
/// only which free day gets the day off.
pub proof fn lemma_repair_visits(
    s: Seq<Seq<usize>>,
    r: int,
    order: Seq<usize>,
    staffs: Seq<Staff>,
    shifts: Seq<Shift>,
    days: Seq<Day>,
)
    requires
        schedule_shaped(s),
        0 <= r < STAFF_NUM,
        days_of_week(order),
        order.no_duplicates(),
        forall|t: int| 0 <= t < order.len() ==> s[r][#[trigger] order[t] as int] != DAY_OFF,
    ensures
        forall|t: int|
            0 <= t < order.len() ==> #[trigger] repair_steps(
                s,
                r,
                order,
                staffs,
                shifts,
                days,
            )[r][order[t] as int] == visit_cell(
                s,
                r,
                staffs,
                shifts,
                days,
                order[t] as int,
                s[r].contains(DAY_OFF) || free_before(s, r, staffs, days, order, t),
            ),
    decreases order.len(),
{
    if order.len() > 0 {
        let k0 = order[0] as int;
        let c0 = repair_cell(s, r, staffs, shifts, days, k0);
        let row2 = s[r].update(k0, c0);
        let s2 = s.update(r, row2);
        let rest = order.drop_first();
        let res = repair_steps(s, r, order, staffs, shifts, days);
        lemma_coverage_target_range(s, r, shifts, days, k0);
        lemma_first_min_gap(shifts, k0, 5);
        assert(days_of_week(rest)) by {
            assert forall|t: int| 0 <= t < rest.len() implies #[trigger] rest[t] < DAY_NUM by {
                assert(rest[t] == order[t + 1]);
            }
        }
        assert(rest.no_duplicates()) by {
            assert forall|a: int, b: int| 0 <= a < rest.len() && 0 <= b < rest.len() && a != b implies rest[a]
                != rest[b] by {
                assert(rest[a] == order[a + 1] && rest[b] == order[b + 1]);
            }
        }
        assert forall|t: int| 0 <= t < rest.len() implies s2[r][#[trigger] rest[t] as int]
            != DAY_OFF by {
            assert(rest[t] == order[t + 1]);
            assert(order[t + 1] != order[0]);
            assert(s[r][order[t + 1] as int] != DAY_OFF);
        }
        assert(schedule_shaped(s2));
        lemma_repair_visits(s2, r, rest, staffs, shifts, days);
        lemma_repair_steps(s2, r, rest, staffs, shifts, days);
        assert(res == repair_steps(s2, r, rest, staffs, shifts, days));
        // the first visit
        assert(c0 == visit_cell(s, r, staffs, shifts, days, k0, s[r].contains(DAY_OFF)));
        // whether the row holds a day off after the first visit
        assert(s2[r].contains(DAY_OFF) == (s[r].contains(DAY_OFF) || free_for_day_off(
            s,
            r,
            staffs,
            days,
            k0,
        ))) by {
            if s2[r].contains(DAY_OFF) {
                let j = choose|j: int| 0 <= j < s2[r].len() && s2[r][j] == DAY_OFF;
                if j != k0 {
                    assert(s[r][j] == DAY_OFF);
                }
            }
            if s[r].contains(DAY_OFF) {
                let j = choose|j: int| 0 <= j < s[r].len() && s[r][j] == DAY_OFF;
                assert(j != k0);
                assert(s2[r][j] == DAY_OFF);
            } else if free_for_day_off(s, r, staffs, days, k0) {
                assert(s2[r][k0] == DAY_OFF);
            }
        }
        // every later day sees the same column as before the first visit
        assert forall|k: int| 0 <= k < DAY_NUM && k != k0 implies {
            &&& #[trigger] free_for_day_off(s2, r, staffs, days, k) == free_for_day_off(
                s,
                r,
                staffs,
                days,
                k,
            )
            &&& forall|b: bool|
                #[trigger] visit_cell(s2, r, staffs, shifts, days, k, b) == visit_cell(
                    s,
                    r,
                    staffs,
                    shifts,
                    days,
                    k,
                    b,
                )
        } by {
            assert forall|i: int| 0 <= i < STAFF_NUM implies #[trigger] s2[i][k] == s[i][k] by {
                if i == r {
                    assert(row2[k] == s[r][k]);
                }
            }
            lemma_counts_same_column(s, s2, k, STAFF_NUM as int);
        }
        assert(!rest.contains(k0 as usize)) by {
            if rest.contains(k0 as usize) {
                let t = choose|t: int| 0 <= t < rest.len() && rest[t] == k0 as usize;
                assert(order[t + 1] == order[0]);
            }
        }
        assert forall|t: int| 0 <= t < order.len() implies #[trigger] res[r][order[t] as int]
            == visit_cell(
            s,
            r,
            staffs,
            shifts,
            days,
            order[t] as int,
            s[r].contains(DAY_OFF) || free_before(s, r, staffs, days, order, t),
        ) by {
            if t == 0 {
                assert(res[r][k0] == s2[r][k0]);
                assert(!free_before(s, r, staffs, days, order, 0));
            } else {
                let k = order[t] as int;
                assert(rest[t - 1] == order[t]);
                assert(k != k0);
                assert(res[r][rest[t - 1] as int] == visit_cell(
                    s2,
                    r,
                    staffs,
                    shifts,
                    days,
                    rest[t - 1] as int,
                    s2[r].contains(DAY_OFF) || free_before(s2, r, staffs, days, rest, t - 1),
                ));
                assert(free_before(s2, r, staffs, days, rest, t - 1) || free_for_day_off(
                    s,
                    r,
                    staffs,
                    days,
                    k0,
                ) <==> free_before(s, r, staffs, days, order, t)) by {
                    if free_before(s2, r, staffs, days, rest, t - 1) {
                        let j = choose|j: int|
                            0 <= j < t - 1 && #[trigger] free_for_day_off(
                                s2,
                                r,
                                staffs,
                                days,
                                rest[j] as int,
                            );
                        assert(rest[j] == order[j + 1]);
                        assert(order[j + 1] != order[0]);
                        assert(free_for_day_off(s, r, staffs, days, order[j + 1] as int));
                    }
                    if free_for_day_off(s, r, staffs, days, k0) {
                        assert(free_for_day_off(s, r, staffs, days, order[0] as int));
                    }
                    if free_before(s, r, staffs, days, order, t) {
                        let j = choose|j: int|
                            0 <= j < t && #[trigger] free_for_day_off(
                                s,
                                r,
                                staffs,
                                days,
                                order[j] as int,
                            );
                        if j > 0 {
                            assert(rest[j - 1] == order[j]);
                            assert(order[j] != order[0]);
                            assert(free_for_day_off(s2, r, staffs, days, rest[j - 1] as int));
                        }
                    }
                }
            }
        }
    }
}

/// Some day of the week is free for the day off of staff member `r`.
pub open spec fn some_day_free(s: Seq<Seq<usize>>, r: int, staffs: Seq<Staff>, days: Seq<Day>) -> bool {
    exists|k: int| 0 <= k < DAY_NUM && #[trigger] free_for_day_off(s, r, staffs, days, k)
}

/// A reordering of the week visits each day exactly once.
pub proof fn lemma_week_permutation(order: Seq<usize>)
    requires
        order.to_multiset() == forward_days().to_multiset(),
    ensures
        days_of_week(order),
        order.no_duplicates(),
        order.len() == DAY_NUM,
        forall|k: int| 0 <= k < DAY_NUM ==> #[trigger] order.contains(k as usize),
{
    let f = forward_days();
    assert(f.no_duplicates()) by {
        assert forall|a: int, b: int| 0 <= a < f.len() && 0 <= b < f.len() && a != b implies f[a]
            != f[b] by {
            assert(f[a] == a as usize && f[b] == b as usize);
        }
    }
    f.lemma_multiset_has_no_duplicates();
    order.lemma_multiset_has_no_duplicates_conv();
    vstd::seq_lib::to_multiset_len(order);
    vstd::seq_lib::to_multiset_len(f);
    assert forall|t: int| 0 <= t < order.len() implies #[trigger] order[t] < DAY_NUM by {
        assert(order.contains(order[t]));
        vstd::seq_lib::to_multiset_contains(order, order[t]);
        vstd::seq_lib::to_multiset_contains(f, order[t]);
    }
    assert forall|k: int| 0 <= k < DAY_NUM implies #[trigger] order.contains(k as usize) by {
        assert(f[k] == k as usize);
        assert(f.contains(k as usize));
        vstd::seq_lib::to_multiset_contains(order, k as usize);
        vstd::seq_lib::to_multiset_contains(f, k as usize);
    }
}

/// The first visited day that is free for the day off, at or before position `t`.
proof fn lemma_first_free(
    s: Seq<Seq<usize>>,
    r: int,
    staffs: Seq<Staff>,
    days: Seq<Day>,
    order: Seq<usize>,
    t: int,
) -> (u: int)
    requires
        0 <= t < order.len(),
        free_for_day_off(s, r, staffs, days, order[t] as int),
    ensures
        0 <= u <= t,
        free_for_day_off(s, r, staffs, days, order[u] as int),
        !free_before(s, r, staffs, days, order, u),
    decreases t,
{
    if free_before(s, r, staffs, days, order, t) {
        let j = choose|j: int|
            0 <= j < t && #[trigger] free_for_day_off(s, r, staffs, days, order[j] as int);
        lemma_first_free(s, r, staffs, days, order, j)
    } else {
        t
    }
}

/// A visit writes the day off only on a free day.
proof fn lemma_visit_day_off(
    s: Seq<Seq<usize>>,
    r: int,
    staffs: Seq<Staff>,
    shifts: Seq<Shift>,
    days: Seq<Day>,
    k: int,
    taken: bool,
)
    ensures
        visit_cell(s, r, staffs, shifts, days, k, taken) == DAY_OFF <==> free_for_day_off(
            s,
            r,
            staffs,
            days,
            k,
        ) && !taken,
{
    lemma_coverage_target_range(s, r, shifts, days, k);
    lemma_first_min_gap(shifts, k, 5);
}

/// Two repairs of a row without a day off, each visiting every day of the week
/// once in its own order, keep the other rows, agree on every day where neither
/// gives the day off, and give one exactly when some day is free for it.
pub proof fn lemma_repair_order_moves_only_day_off(
    s: Seq<Seq<usize>>,
    r: int,
    o1: Seq<usize>,
    o2: Seq<usize>,
    staffs: Seq<Staff>,
    shifts: Seq<Shift>,
    days: Seq<Day>,
)
    requires
        schedule_shaped(s),
        0 <= r < STAFF_NUM,
        !s[r].contains(DAY_OFF),
        o1.to_multiset() == forward_days().to_multiset(),
        o2.to_multiset() == forward_days().to_multiset(),
    ensures
        forall|i: int|
            0 <= i < STAFF_NUM && i != r ==> #[trigger] repair_steps(
                s,
                r,
                o1,
                staffs,
                shifts,
                days,
            )[i] == repair_steps(s, r, o2, staffs, shifts, days)[i],
        forall|k: int|
            0 <= k < DAY_NUM && repair_steps(s, r, o1, staffs, shifts, days)[r][k] != DAY_OFF
                && repair_steps(s, r, o2, staffs, shifts, days)[r][k] != DAY_OFF
                ==> #[trigger] repair_steps(s, r, o1, staffs, shifts, days)[r][k]
                == repair_steps(s, r, o2, staffs, shifts, days)[r][k],
        repair_steps(s, r, o1, staffs, shifts, days)[r].contains(DAY_OFF) <==> some_day_free(
            s,
            r,
            staffs,
            days,
        ),
        repair_steps(s, r, o2, staffs, shifts, days)[r].contains(DAY_OFF) <==> some_day_free(
            s,
            r,
            staffs,
            days,
        ),
{
    lemma_repair_day_off_iff_free(s, r, o1, staffs, shifts, days);
    lemma_repair_day_off_iff_free(s, r, o2, staffs, shifts, days);
    lemma_week_permutation(o1);
    lemma_week_permutation(o2);
    lemma_repair_steps(s, r, o1, staffs, shifts, days);
    lemma_repair_steps(s, r, o2, staffs, shifts, days);
    let r1 = repair_steps(s, r, o1, staffs, shifts, days);
    let r2 = repair_steps(s, r, o2, staffs, shifts, days);
    assert forall|k: int|
        0 <= k < DAY_NUM && r1[r][k] != DAY_OFF && r2[r][k] != DAY_OFF implies #[trigger] r1[r][k]
        == r2[r][k] by {
        assert(o1.contains(k as usize) && o2.contains(k as usize));
        let t1 = choose|t: int| 0 <= t < o1.len() && o1[t] == k as usize;
        let t2 = choose|t: int| 0 <= t < o2.len() && o2[t] == k as usize;
        assert(r1[r][o1[t1] as int] == r1[r][k]);
        assert(r2[r][o2[t2] as int] == r2[r][k]);
        let b1 = free_before(s, r, staffs, days, o1, t1);
        let b2 = free_before(s, r, staffs, days, o2, t2);
        lemma_visit_day_off(s, r, staffs, shifts, days, k, b1);
        lemma_visit_day_off(s, r, staffs, shifts, days, k, b2);
    }
}

/// A repair of a row without a day off, visiting every day of the week once,
/// gives each visited day `visit_cell`, and gives a day off exactly when some
/// day is free for it.
pub proof fn lemma_repair_day_off_iff_free(
    s: Seq<Seq<usize>>,
    r: int,
    order: Seq<usize>,
    staffs: Seq<Staff>,
    shifts: Seq<Shift>,
    days: Seq<Day>,
)
    requires
        schedule_shaped(s),
        0 <= r < STAFF_NUM,
        !s[r].contains(DAY_OFF),
        order.to_multiset() == forward_days().to_multiset(),
    ensures
        forall|k: int| 0 <= k < DAY_NUM ==> #[trigger] order.contains(k as usize),
        forall|t: int|
            0 <= t < order.len() ==> #[trigger] repair_steps(
                s,
                r,
                order,
                staffs,
                shifts,
                days,
            )[r][order[t] as int] == visit_cell(
                s,
                r,
                staffs,
                shifts,
                days,
                order[t] as int,
                free_before(s, r, staffs, days, order, t),
            ),
        repair_steps(s, r, order, staffs, shifts, days)[r].contains(DAY_OFF) <==> some_day_free(
            s,
            r,
            staffs,
            days,
        ),
{
    lemma_week_permutation(order);
    assert forall|t: int| 0 <= t < order.len() implies s[r][#[trigger] order[t] as int]
        != DAY_OFF by {
        if s[r][order[t] as int] == DAY_OFF {
            assert(s[r].contains(DAY_OFF));
        }
    }
    lemma_repair_visits(s, r, order, staffs, shifts, days);
    lemma_repair_steps(s, r, order, staffs, shifts, days);
    let res = repair_steps(s, r, order, staffs, shifts, days);
    if res[r].contains(DAY_OFF) {
        let k = choose|k: int| 0 <= k < res[r].len() && res[r][k] == DAY_OFF;
        assert(order.contains(k as usize));
        let t = choose|t: int| 0 <= t < order.len() && order[t] == k as usize;
        lemma_visit_day_off(
            s,
            r,
            staffs,
            shifts,
            days,
            k,
            free_before(s, r, staffs, days, order, t),
        );
        assert(res[r][order[t] as int] == DAY_OFF);
        assert(free_for_day_off(s, r, staffs, days, k));
    }
    if some_day_free(s, r, staffs, days) {
        let k = choose|k: int| 0 <= k < DAY_NUM && #[trigger] free_for_day_off(s, r, staffs, days, k);
        assert(order.contains(k as usize));
        let t = choose|t: int| 0 <= t < order.len() && order[t] == k as usize;
        assert(order[t] as int == k);
        let u = lemma_first_free(s, r, staffs, days, order, t);
        lemma_visit_day_off(s, r, staffs, shifts, days, order[u] as int, false);
        assert(res[r][order[u] as int] == DAY_OFF);
        assert(res[r].contains(DAY_OFF));
    }
}

/// Forward greedy repair of a row without a day off puts the day off on the
/// first free day, reverse greedy repair on the last; every other day gets the
/// same shift from both except the first and last free day.
pub proof fn lemma_greedy_day_off_positions(
    s: Seq<Seq<usize>>,
    r: int,
    staffs: Seq<Staff>,
    shifts: Seq<Shift>,
    days: Seq<Day>,
)
    requires
        schedule_shaped(s),
        0 <= r < STAFF_NUM,
        !s[r].contains(DAY_OFF),
    ensures
        forall|k: int|
            0 <= k < DAY_NUM ==> (#[trigger] repair_steps(
                s,
                r,
                forward_days(),
                staffs,
                shifts,
                days,
            )[r][k] == DAY_OFF <==> free_for_day_off(s, r, staffs, days, k) && forall|j: int|
                0 <= j < k ==> !#[trigger] free_for_day_off(s, r, staffs, days, j)),
        forall|k: int|
            0 <= k < DAY_NUM ==> (#[trigger] repair_steps(
                s,
                r,
                backward_days(),
                staffs,
                shifts,
                days,
            )[r][k] == DAY_OFF <==> free_for_day_off(s, r, staffs, days, k) && forall|j: int|
                k < j < DAY_NUM ==> !#[trigger] free_for_day_off(s, r, staffs, days, j)),
{
    let f = forward_days();
    let b = backward_days();
    assert(b.to_multiset() == f.to_multiset()) by {
        assert(b =~= f.reverse());
        f.lemma_reverse_to_multiset();
    }
    lemma_repair_day_off_iff_free(s, r, f, staffs, shifts, days);
    lemma_repair_day_off_iff_free(s, r, b, staffs, shifts, days);
    let rf = repair_steps(s, r, f, staffs, shifts, days);
    let rb = repair_steps(s, r, b, staffs, shifts, days);
    assert forall|k: int| 0 <= k < DAY_NUM implies (#[trigger] rf[r][k] == DAY_OFF
        <==> free_for_day_off(s, r, staffs, days, k) && forall|j: int|
        0 <= j < k ==> !#[trigger] free_for_day_off(s, r, staffs, days, j)) by {
        assert(f[k] == k as usize);
        assert(rf[r][f[k] as int] == rf[r][k]);
        lemma_visit_day_off(s, r, staffs, shifts, days, k, free_before(s, r, staffs, days, f, k));
        if free_before(s, r, staffs, days, f, k) {
            let j = choose|j: int| 0 <= j < k && #[trigger] free_for_day_off(s, r, staffs, days, f[j] as int);
            assert(f[j] == j as usize);
        }
        assert forall|j: int| 0 <= j < k && #[trigger] free_for_day_off(s, r, staffs, days, j)
            implies free_before(s, r, staffs, days, f, k) by {
            assert(f[j] == j as usize);
            assert(free_for_day_off(s, r, staffs, days, f[j] as int));
        }
    }
    assert forall|k: int| 0 <= k < DAY_NUM implies (#[trigger] rb[r][k] == DAY_OFF
        <==> free_for_day_off(s, r, staffs, days, k) && forall|j: int|
        k < j < DAY_NUM ==> !#[trigger] free_for_day_off(s, r, staffs, days, j)) by {
        let t = DAY_NUM - 1 - k;
        assert(b[t] == k as usize);
        assert(rb[r][b[t] as int] == rb[r][k]);
        lemma_visit_day_off(s, r, staffs, shifts, days, k, free_before(s, r, staffs, days, b, t));
        if free_before(s, r, staffs, days, b, t) {
            let j = choose|j: int| 0 <= j < t && #[trigger] free_for_day_off(s, r, staffs, days, b[j] as int);
            assert(b[j] == (DAY_NUM - 1 - j) as usize);
        }
        assert forall|j: int| k < j < DAY_NUM && #[trigger] free_for_day_off(s, r, staffs, days, j)
            implies free_before(s, r, staffs, days, b, t) by {
            let jj = DAY_NUM - 1 - j;
            assert(b[jj] == j as usize);
            assert(free_for_day_off(s, r, staffs, days, b[jj] as int));
        }
    }
}

/// Repairs the row of `removed_staff`, visiting the days in the given order:
/// each visited day gets a holiday where the staff member is off on public
/// holidays, else the shift `check_coverage` picks on the roster as repaired
/// so far. The repaired roster is then evaluated.
pub fn repair_in_order(
    partial: &Vec<Vec<usize>>,
    removed_staff: usize,
    order: &Vec<usize>,
    staffs: &Vec<Staff>,
    shifts: &Vec<Shift>,
    days: &Vec<Day>,
) -> (sol: Solution)
    requires
        repair_ready(grid(partial), removed_staff as int, staffs@, shifts@, days@),
        days_of_week(order@),
    ensures
        sol@ == evaluate(
            repair_steps(grid(partial), removed_staff as int, order@, staffs@, shifts@, days@),
            shifts@,
            days@,
        ),
{
    let ghost target = repair_steps(
        grid(partial),
        removed_staff as int,
        order@,
        staffs@,
        shifts@,
        days@,
    );
    let mut current_sol: Vec<Vec<usize>> = copy_schedule(partial);
    let mut t: usize = 0;
    assert(order@.skip(0) =~= order@);
    while t < order.len()
        invariant
            repair_ready(grid(&current_sol), removed_staff as int, staffs@, shifts@, days@),
            days_of_week(order@),
            t <= order.len(),
            repair_steps(
                grid(&current_sol),
                removed_staff as int,
                order@.skip(t as int),
                staffs@,
                shifts@,
                days@,
            ) == target,
        decreases order.len() - t,
    {
        let k: usize = order[t];
        let ghost cur = grid(&current_sol);
        let cell: usize = if days[k].day_type == PUBLIC_HOLIDAY_DAY && staffs[removed_staff].group
            == OFF_ON_PH_GROUP {
            PH_SHIFT
        } else {
            proof {
                lemma_worktime_sums_fit(shifts@, k as int, 5);
                assert(days@[k as int].morning_cov <= i32::MAX);
            }
            check_coverage(&current_sol, removed_staff, shifts, days, k)
        };
        assert(cell == repair_cell(cur, removed_staff as int, staffs@, shifts@, days@, k as int));
        assert(cur[removed_staff as int] == current_sol@[removed_staff as int]@);
        set_cell(&mut current_sol, removed_staff, k, cell);
        assert(order@.skip(t as int).drop_first() =~= order@.skip(t + 1));
        assert(order@.skip(t as int)[0] == k);
        t = t + 1;
    }
    assert(order@.skip(t as int) =~= Seq::<usize>::empty());
    proof {
        lemma_evaluation_fits(grid(&current_sol), shifts@, days@);
    }
    Solution::new(current_sol, shifts, days)
}

/// The days of the week in order, as a vector.
fn forward_day_list() -> (v: Vec<usize>)
    ensures
        v@ == forward_days(),
{
    let mut v: Vec<usize> = Vec::new();
    let mut k: usize = 0;
    while k < DAY_NUM
        invariant
            k <= DAY_NUM,
            v@ == Seq::new(k as nat, |j: int| j as usize),
        decreases DAY_NUM - k,
    {
        v.push(k);
        k = k + 1;
        assert(v@ =~= Seq::new(k as nat, |j: int| j as usize));
    }
    v
}

/// The days of the week from the last to the first, as a vector.
fn backward_day_list() -> (v: Vec<usize>)
    ensures
        v@ == backward_days(),
{
    let mut v: Vec<usize> = Vec::new();
    let mut t: usize = 0;
    while t < DAY_NUM
        invariant
            t <= DAY_NUM,
            v@ == Seq::new(t as nat, |j: int| (DAY_NUM - 1 - j) as usize),
        decreases DAY_NUM - t,
    {
        v.push(DAY_NUM - 1 - t);
        t = t + 1;
        assert(v@ =~= Seq::new(t as nat, |j: int| (DAY_NUM - 1 - j) as usize));
    }
    v
}

/// Repairs the removed staff member's row from the first day to the last.
pub fn greedy_repair(
    partial: &Vec<Vec<usize>>,
    removed_staff: usize,
    staffs: &Vec<Staff>,
    shifts: &Vec<Shift>,
    days: &Vec<Day>,
) -> (sol: Solution)
    requires
        repair_ready(grid(partial), removed_staff as int, staffs@, shifts@, days@),
    ensures
        sol@ == evaluate(
            repair_steps(grid(partial), removed_staff as int, forward_days(), staffs@, shifts@, days@),
            shifts@,
            days@,
        ),
{
    let order: Vec<usize> = forward_day_list();
    repair_in_order(partial, removed_staff, &order, staffs, shifts, days)
}

/// Repairs the removed staff member's row from the last day to the first.
pub fn reverse_greedy_repair(
    partial: &Vec<Vec<usize>>,
    removed_staff: usize,
    staffs: &Vec<Staff>,
    shifts: &Vec<Shift>,
    days: &Vec<Day>,
) -> (sol: Solution)
    requires
        repair_ready(grid(partial), removed_staff as int, staffs@, shifts@, days@),
    ensures
        sol@ == evaluate(
            repair_steps(grid(partial), removed_staff as int, backward_days(), staffs@, shifts@, days@),
            shifts@,
            days@,
        ),
{
    let order: Vec<usize> = backward_day_list();
    repair_in_order(partial, removed_staff, &order, staffs, shifts, days)
}

/// Repairs the removed staff member's row, visiting the days in a random order.
pub fn random_greedy_repair(
    partial: &Vec<Vec<usize>>,
    removed_staff: usize,
    staffs: &Vec<Staff>,
    shifts: &Vec<Shift>,
    days: &Vec<Day>,
) -> (sol: Solution)
    requires
        repair_ready(grid(partial), removed_staff as int, staffs@, shifts@, days@),
    ensures
        exists|order: Seq<usize>|
            #![trigger repair_steps(grid(partial), removed_staff as int, order, staffs@, shifts@, days@)]
            order.to_multiset() == forward_days().to_multiset() && sol@ == evaluate(
                repair_steps(grid(partial), removed_staff as int, order, staffs@, shifts@, days@),
                shifts@,
                days@,
            ),
{
    let mut shuffle_days: Vec<usize> = forward_day_list();
    let mut rng = thread_rng();
    shuffle_in_place(&mut rng, &mut shuffle_days);
    assert(days_of_week(shuffle_days@)) by {
        assert forall|t: int| 0 <= t < shuffle_days@.len() implies #[trigger] shuffle_days@[t]
            < DAY_NUM by {
            let d = shuffle_days@[t];
            assert(shuffle_days@.contains(d));
            vstd::seq_lib::to_multiset_contains(shuffle_days@, d);
            vstd::seq_lib::to_multiset_contains(forward_days(), d);
        }
    }
    let sol = repair_in_order(partial, removed_staff, &shuffle_days, staffs, shifts, days);
    sol
}

} // verus!
