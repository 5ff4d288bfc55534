//! Staff, days, shifts, and the evaluated roster (`Solution`) with its penalties.
#![allow(non_snake_case)]
use vstd::prelude::*;

pub use crate::alns::{DestroyOp, RepairOp};
use crate::utils::{
    afternoon_shift, is_afternoon_shift, is_morning_shift, is_other_shift, morning_shift,
    other_shift, ALPHA_PENALTY, BETA_PENALTY, DAY_NUM,
    STAFF_NUM, TARGET_WORKTIME, W1_SCALED, W2_SCALED, W3_SCALED, W4_SCALED,
};

verus! {

/// A staff member: `group == 2` means "off on public holidays".
#[derive(Debug)]
pub struct Staff {
    pub id: usize,
    pub agency: usize,
    pub group: usize,
}

/// A day of the planning week with its coverage demands.
/// `day_type == 2` marks a public holiday.
#[derive(Debug)]
pub struct Day {
    pub id: usize,
    pub day_type: usize,
    pub morning_cov: usize,
    pub afternoon_cov: usize,
}

/// A shift code with its type and its duration in hours.
#[derive(Debug)]
pub struct Shift {
    pub id: usize,
    pub shift_type: usize,
    pub shift_duration: usize,
}

/// A roster `staffs_schedule[staff][day]` (a shift code per cell) with its penalties.
/// The fitness is `fitness_scaled / FITNESS_SCALE` (see `utils`).
#[derive(Clone, Debug)]
pub struct Solution {
    pub staffs_schedule: Vec<Vec<usize>>,
    pub fitness_scaled: u64,
    pub CoveragePenalty: i32,
    pub WorktimePenalty: Vec<usize>,
    pub ConsecutivePenalty: Vec<usize>,
    pub AfternoonPenalty: Vec<usize>,
    pub CoverageList: Vec<usize>,
}

/// The mathematical content of a `Solution`.
pub struct SolutionModel {
    pub schedule: Seq<Seq<usize>>,
    pub fitness_scaled: int,
    pub coverage_penalty: int,
    pub worktime_penalty: Seq<usize>,
    pub consecutive_penalty: Seq<usize>,
    pub afternoon_penalty: Seq<usize>,
    pub coverage_list: Seq<usize>,
}

impl View for Solution {
    type V = SolutionModel;

    open spec fn view(&self) -> SolutionModel {
        SolutionModel {
            schedule: grid(&self.staffs_schedule),
            fitness_scaled: self.fitness_scaled as int,
            coverage_penalty: self.CoveragePenalty as int,
            worktime_penalty: self.WorktimePenalty@,
            consecutive_penalty: self.ConsecutivePenalty@,
            afternoon_penalty: self.AfternoonPenalty@,
            coverage_list: self.CoverageList@,
        }
    }
}

/// A roster as a sequence of rows.
pub open spec fn grid(v: &Vec<Vec<usize>>) -> Seq<Seq<usize>> {
    v@.map_values(|r: Vec<usize>| r@)
}

/// A roster has one row per staff member and one cell per day. Every roster of
/// the library has exactly this shape: the initial roster is built so, and
/// destroy and repair keep it.
pub open spec fn schedule_shaped(s: Seq<Seq<usize>>) -> bool {
    &&& s.len() == STAFF_NUM
    &&& forall|i: int| 0 <= i < STAFF_NUM ==> #[trigger] s[i].len() == DAY_NUM
}

/// Every cell of the roster is below `n` (so it indexes a table of `n` shifts).
pub open spec fn cells_below(s: Seq<Seq<usize>>, n: int) -> bool {
    forall|i: int, k: int| 0 <= i < STAFF_NUM && 0 <= k < DAY_NUM ==> #[trigger] s[i][k] < n
}

/// The shift table: any week of seven of its shifts has a total duration that
/// fits an `i32` (the weekly worktime of a roster is summed as an `i32`, and a
/// repaired week may hold any shift of the table).
pub open spec fn shifts_ok(shifts: Seq<Shift>) -> bool {
    forall|j: int|
        0 <= j < shifts.len() ==> DAY_NUM * #[trigger] shifts[j].shift_duration <= i32::MAX
}

/// Total demand of the first `n` days, mornings and afternoons.
pub open spec fn demand_total(days: Seq<Day>, n: int) -> int
    decreases n,
{
    if n <= 0 {
        0
    } else {
        demand_total(days, n - 1) + days[n - 1].morning_cov + days[n - 1].afternoon_cov
    }
}

/// The week: at least `DAY_NUM` days, each demand an `i32`, and demands small
/// enough that the coverage penalty of any roster fits an `i32` (each day's
/// penalty is at most its two demands plus twice the staff).
pub open spec fn days_ok(days: Seq<Day>) -> bool {
    &&& days.len() >= DAY_NUM
    &&& forall|k: int|
        0 <= k < DAY_NUM ==> #[trigger] days[k].morning_cov <= i32::MAX
            && days[k].afternoon_cov <= i32::MAX
    &&& demand_total(days, DAY_NUM as int) + 2 * STAFF_NUM * DAY_NUM <= i32::MAX
}

/// The coverage sums fit an `i32`: each demand, and the week's coverage penalty.
pub open spec fn coverage_fits(s: Seq<Seq<usize>>, days: Seq<Day>) -> bool {
    &&& days.len() >= DAY_NUM
    &&& forall|k: int|
        0 <= k < DAY_NUM ==> #[trigger] days[k].morning_cov <= i32::MAX
            && days[k].afternoon_cov <= i32::MAX
    &&& coverage_penalty(s, days, DAY_NUM as int) <= i32::MAX
}

/// The sums that `Solution::new` computes fit an `i32`: each demand, the
/// coverage penalty, and each staff member's weekly worktime.
pub open spec fn evaluation_fits(s: Seq<Seq<usize>>, shifts: Seq<Shift>, days: Seq<Day>) -> bool {
    &&& coverage_fits(s, days)
    &&& forall|i: int|
        0 <= i < STAFF_NUM ==> #[trigger] worktime(s[i], shifts, DAY_NUM as int) <= i32::MAX
}

/// `|a - b|`.
pub open spec fn abs_diff(a: int, b: int) -> int {
    if a >= b {
        a - b
    } else {
        b - a
    }
}

/// Number of the first `n` staff members on a morning shift on day `k`.
pub open spec fn morning_count(s: Seq<Seq<usize>>, k: int, n: int) -> int
    decreases n,
{
    if n <= 0 {
        0
    } else {
        morning_count(s, k, n - 1) + if morning_shift(s[n - 1][k]) {
            1int
        } else {
            0int
        }
    }
}

/// Number of the first `n` staff members on an afternoon shift on day `k`.
pub open spec fn afternoon_count(s: Seq<Seq<usize>>, k: int, n: int) -> int
    decreases n,
{
    if n <= 0 {
        0
    } else {
        afternoon_count(s, k, n - 1) + if afternoon_shift(s[n - 1][k]) {
            1int
        } else {
            0int
        }
    }
}

/// Coverage penalty of day `k`: how far the morning and the afternoon staffing
/// are from the day's demands.
pub open spec fn day_coverage_penalty(s: Seq<Seq<usize>>, day: Day, k: int) -> int {
    abs_diff(day.morning_cov as int, morning_count(s, k, STAFF_NUM as int)) + abs_diff(
        day.afternoon_cov as int,
        afternoon_count(s, k, STAFF_NUM as int),
    )
}

/// Sum of the coverage penalties of the first `n` days.
pub open spec fn coverage_penalty(s: Seq<Seq<usize>>, days: Seq<Day>, n: int) -> int
    decreases n,
{
    if n <= 0 {
        0
    } else {
        coverage_penalty(s, days, n - 1) + day_coverage_penalty(s, days[n - 1], n - 1)
    }
}

/// Hours worked in the first `n` days of a row.
pub open spec fn worktime(row: Seq<usize>, shifts: Seq<Shift>, n: int) -> int
    decreases n,
{
    if n <= 0 {
        0
    } else {
        worktime(row, shifts, n - 1) + shifts[row[n - 1] as int].shift_duration
    }
}

/// Worktime penalty of a row: distance of its weekly hours from the target.
pub open spec fn worktime_penalty(row: Seq<usize>, shifts: Seq<Shift>) -> int {
    abs_diff(TARGET_WORKTIME as int, worktime(row, shifts, DAY_NUM as int))
}

/// `ALPHA_PENALTY` for each `k < n` where days `k`, `k+1` and `k+2` are afternoon shifts.
pub open spec fn consecutive_penalty(row: Seq<usize>, n: int) -> int
    decreases n,
{
    if n <= 0 {
        0
    } else {
        consecutive_penalty(row, n - 1) + if afternoon_shift(row[n - 1]) && afternoon_shift(
            row[n],
        ) && afternoon_shift(row[n + 1]) {
            ALPHA_PENALTY as int
        } else {
            0int
        }
    }
}

/// `BETA_PENALTY` for each `1 <= k < n` where day `k` is an afternoon shift right
/// after a day off or a public holiday.
pub open spec fn afternoon_switch_penalty(row: Seq<usize>, n: int) -> int
    decreases n,
{
    if n <= 1 {
        0
    } else {
        afternoon_switch_penalty(row, n - 1) + if other_shift(row[n - 2]) && afternoon_shift(
            row[n - 1],
        ) {
            BETA_PENALTY as int
        } else {
            0int
        }
    }
}

/// Sum of a sequence.
pub open spec fn seq_sum(s: Seq<usize>) -> int
    decreases s.len(),
{
    if s.len() == 0 {
        0
    } else {
        seq_sum(s.drop_last()) + s.last()
    }
}

/// Per-staff worktime penalties.
pub open spec fn worktime_penalties(s: Seq<Seq<usize>>, shifts: Seq<Shift>) -> Seq<usize> {
    Seq::new(STAFF_NUM as nat, |i: int| worktime_penalty(s[i], shifts) as usize)
}

/// Per-staff consecutive-afternoon penalties.
pub open spec fn consecutive_penalties(s: Seq<Seq<usize>>) -> Seq<usize> {
    Seq::new(STAFF_NUM as nat, |i: int| consecutive_penalty(s[i], DAY_NUM - 2) as usize)
}

/// Per-staff afternoon-after-rest penalties.
pub open spec fn afternoon_penalties(s: Seq<Seq<usize>>) -> Seq<usize> {
    Seq::new(STAFF_NUM as nat, |i: int| afternoon_switch_penalty(s[i], DAY_NUM as int) as usize)
}

/// Per-day coverage penalties.
pub open spec fn coverage_list(s: Seq<Seq<usize>>, days: Seq<Day>) -> Seq<usize> {
    Seq::new(DAY_NUM as nat, |k: int| day_coverage_penalty(s, days[k], k) as usize)
}

/// The weighted fitness, in units of `1 / FITNESS_SCALE`.
pub open spec fn fitness_scaled(s: Seq<Seq<usize>>, shifts: Seq<Shift>, days: Seq<Day>) -> int {
    W1_SCALED * coverage_penalty(s, days, DAY_NUM as int) + W2_SCALED * seq_sum(
        worktime_penalties(s, shifts),
    ) + W3_SCALED * seq_sum(consecutive_penalties(s)) + W4_SCALED * seq_sum(
        afternoon_penalties(s),
    )
}

/// The evaluation of roster `s`.
pub open spec fn evaluate(s: Seq<Seq<usize>>, shifts: Seq<Shift>, days: Seq<Day>) -> SolutionModel {
    SolutionModel {
        schedule: s,
        fitness_scaled: fitness_scaled(s, shifts, days),
        coverage_penalty: coverage_penalty(s, days, DAY_NUM as int),
        worktime_penalty: worktime_penalties(s, shifts),
        consecutive_penalty: consecutive_penalties(s),
        afternoon_penalty: afternoon_penalties(s),
        coverage_list: coverage_list(s, days),
    }
}

/// Staff counts lie between zero and the number of staff members counted.
pub proof fn lemma_counts_bounded(s: Seq<Seq<usize>>, k: int, n: int)
    ensures
        n >= 0 ==> 0 <= morning_count(s, k, n) <= n,
        n >= 0 ==> 0 <= afternoon_count(s, k, n) <= n,
    decreases n,
{
    if n > 0 {
        lemma_counts_bounded(s, k, n - 1);
    }
}

/// Coverage penalties of prefixes of the week grow with the prefix, and each
/// day's penalty is at most the penalty of any prefix that holds the day.
pub proof fn lemma_coverage_prefix(s: Seq<Seq<usize>>, days: Seq<Day>, a: int, b: int)
    requires
        0 <= a <= b,
    ensures
        0 <= coverage_penalty(s, days, a) <= coverage_penalty(s, days, b),
        a < b ==> 0 <= day_coverage_penalty(s, days[a], a) <= coverage_penalty(s, days, b),
    decreases b,
{
    if b > 0 {
        if a < b {
            lemma_coverage_prefix(s, days, a, b - 1);
        } else {
            lemma_coverage_prefix(s, days, b - 1, b - 1);
        }
    }
}

/// Worktimes of prefixes of a row grow with the prefix, by at least each day's duration.
pub proof fn lemma_worktime_prefix(row: Seq<usize>, shifts: Seq<Shift>, a: int, b: int)
    requires
        0 <= a <= b,
    ensures
        0 <= worktime(row, shifts, a) <= worktime(row, shifts, b),
        a < b ==> worktime(row, shifts, a) + shifts[row[a] as int].shift_duration <= worktime(
            row,
            shifts,
            b,
        ),
    decreases b,
{
    if b > 0 {
        if a < b {
            lemma_worktime_prefix(row, shifts, a, b - 1);
        } else {
            lemma_worktime_prefix(row, shifts, b - 1, b - 1);
        }
    }
}

/// A shift table and a week within their bounds keep every sum that
/// `Solution::new` computes within an `i32`, whatever the roster.
pub proof fn lemma_evaluation_fits(s: Seq<Seq<usize>>, shifts: Seq<Shift>, days: Seq<Day>)
    requires
        schedule_shaped(s),
        cells_below(s, shifts.len() as int),
        shifts_ok(shifts),
        days_ok(days),
    ensures
        evaluation_fits(s, shifts, days),
{
    assert forall|i: int| 0 <= i < STAFF_NUM implies #[trigger] worktime(
        s[i],
        shifts,
        DAY_NUM as int,
    ) <= i32::MAX by {
        lemma_worktime_table_bound(s, i, shifts, DAY_NUM as int);
    }
    lemma_coverage_demand_bound(s, days, DAY_NUM as int);
}

/// Seven times the worktime of the first `n` days of row `i` is at most `n`
/// times the `i32` range.
proof fn lemma_worktime_table_bound(s: Seq<Seq<usize>>, i: int, shifts: Seq<Shift>, n: int)
    requires
        schedule_shaped(s),
        cells_below(s, shifts.len() as int),
        shifts_ok(shifts),
        0 <= i < STAFF_NUM,
        0 <= n <= DAY_NUM,
    ensures
        DAY_NUM * worktime(s[i], shifts, n) <= n * i32::MAX,
    decreases n,
{
    if n > 0 {
        lemma_worktime_table_bound(s, i, shifts, n - 1);
        assert(s[i][n - 1] < shifts.len());
        assert(DAY_NUM * shifts[s[i][n - 1] as int].shift_duration <= i32::MAX);
    }
}

/// The coverage penalty of the first `n` days is at most their demand plus
/// twice the staff per day.
proof fn lemma_coverage_demand_bound(s: Seq<Seq<usize>>, days: Seq<Day>, n: int)
    requires
        0 <= n <= DAY_NUM,
    ensures
        coverage_penalty(s, days, n) <= demand_total(days, n) + 2 * STAFF_NUM * n,
    decreases n,
{
    if n > 0 {
        lemma_coverage_demand_bound(s, days, n - 1);
        lemma_counts_bounded(s, n - 1, STAFF_NUM as int);
        let d = days[n - 1];
        assert(abs_diff(d.morning_cov as int, morning_count(s, n - 1, STAFF_NUM as int))
            <= d.morning_cov + STAFF_NUM);
        assert(abs_diff(d.afternoon_cov as int, afternoon_count(s, n - 1, STAFF_NUM as int))
            <= d.afternoon_cov + STAFF_NUM);
        assert(day_coverage_penalty(s, d, n - 1) <= d.morning_cov + d.afternoon_cov + 2
            * STAFF_NUM);
        assert(2 * STAFF_NUM * (n - 1) + 2 * STAFF_NUM == 2 * STAFF_NUM * n) by (nonlinear_arith);
    }
}

/// The total coverage penalty is the sum of the per-day coverage penalties.
pub proof fn lemma_coverage_list_sum(s: Seq<Seq<usize>>, days: Seq<Day>)
    requires
        coverage_penalty(s, days, DAY_NUM as int) <= usize::MAX,
    ensures
        seq_sum(coverage_list(s, days)) == coverage_penalty(s, days, DAY_NUM as int),
{
    let l = coverage_list(s, days);
    assert forall|n: int| 0 <= n <= DAY_NUM implies #[trigger] seq_sum(l.take(n))
        == coverage_penalty(s, days, n) by {
        lemma_coverage_prefix_sum(s, days, n);
    }
    assert(l.take(DAY_NUM as int) =~= l);
}

/// Prefix form of `lemma_coverage_list_sum`.
proof fn lemma_coverage_prefix_sum(s: Seq<Seq<usize>>, days: Seq<Day>, n: int)
    requires
        coverage_penalty(s, days, DAY_NUM as int) <= usize::MAX,
        0 <= n <= DAY_NUM,
    ensures
        seq_sum(coverage_list(s, days).take(n)) == coverage_penalty(s, days, n),
    decreases n,
{
    let l = coverage_list(s, days);
    if n > 0 {
        lemma_coverage_prefix_sum(s, days, n - 1);
        assert(l.take(n).drop_last() =~= l.take(n - 1));
        lemma_coverage_prefix(s, days, n - 1, DAY_NUM as int);
        assert(0 <= day_coverage_penalty(s, days[n - 1], n - 1) <= usize::MAX);
    } else {
        assert(l.take(0) =~= Seq::<usize>::empty());
    }
}

/// Whether the roster has one row per staff member and one cell per day.
pub fn schedule_is_shaped(s: &Vec<Vec<usize>>) -> (b: bool)
    ensures
        b == schedule_shaped(grid(s)),
{
    if s.len() != STAFF_NUM {
        return false;
    }
    let mut i: usize = 0;
    while i < STAFF_NUM
        invariant
            s.len() == STAFF_NUM,
            i <= STAFF_NUM,
            forall|j: int| 0 <= j < i ==> #[trigger] grid(s)[j].len() == DAY_NUM,
        decreases STAFF_NUM - i,
    {
        assert(grid(s)[i as int] == s@[i as int]@);
        if s[i].len() != DAY_NUM {
            return false;
        }
        i = i + 1;
    }
    true
}

/// Whether every cell of a well-shaped roster is below `n`.
pub fn cells_are_below(s: &Vec<Vec<usize>>, n: usize) -> (b: bool)
    requires
        schedule_shaped(grid(s)),
    ensures
        b == cells_below(grid(s), n as int),
{
    let mut i: usize = 0;
    while i < STAFF_NUM
        invariant
            schedule_shaped(grid(s)),
            i <= STAFF_NUM,
            forall|ii: int, k: int|
                0 <= ii < i && 0 <= k < DAY_NUM ==> #[trigger] grid(s)[ii][k] < n,
        decreases STAFF_NUM - i,
    {
        assert(grid(s)[i as int] == s@[i as int]@);
        let mut k: usize = 0;
        while k < DAY_NUM
            invariant
                schedule_shaped(grid(s)),
                i < STAFF_NUM,
                k <= DAY_NUM,
                forall|ii: int, kk: int|
                    0 <= ii < i && 0 <= kk < DAY_NUM ==> #[trigger] grid(s)[ii][kk] < n,
                forall|kk: int| 0 <= kk < k ==> #[trigger] grid(s)[i as int][kk] < n,
            decreases DAY_NUM - k,
        {
            assert(grid(s)[i as int] == s@[i as int]@);
            if s[i][k] >= n {
                return false;
            }
            k = k + 1;
        }
        i = i + 1;
    }
    true
}

/// Whether the shift table satisfies `shifts_ok`.
pub fn shifts_are_ok(shifts: &Vec<Shift>) -> (b: bool)
    ensures
        b == shifts_ok(shifts@),
{
    let mut j: usize = 0;
    while j < shifts.len()
        invariant
            j <= shifts.len(),
            forall|jj: int|
                0 <= jj < j ==> DAY_NUM * #[trigger] shifts@[jj].shift_duration <= i32::MAX,
        decreases shifts.len() - j,
    {
        if shifts[j].shift_duration as u128 * 7 > 0x7fff_ffff {
            return false;
        }
        j = j + 1;
    }
    true
}

/// Whether the week satisfies `days_ok`.
pub fn days_are_ok(days: &Vec<Day>) -> (b: bool)
    ensures
        b == days_ok(days@),
{
    if days.len() < DAY_NUM {
        return false;
    }
    let mut total: u128 = 0;
    let mut k: usize = 0;
    while k < DAY_NUM
        invariant
            days.len() >= DAY_NUM,
            k <= DAY_NUM,
            forall|kk: int|
                0 <= kk < k ==> #[trigger] days@[kk].morning_cov <= i32::MAX
                    && days@[kk].afternoon_cov <= i32::MAX,
            total == demand_total(days@, k as int),
            total <= k * 0xffff_ffff,
        decreases DAY_NUM - k,
    {
        if days[k].morning_cov > 0x7fff_ffff || days[k].afternoon_cov > 0x7fff_ffff {
            return false;
        }
        total = total + days[k].morning_cov as u128 + days[k].afternoon_cov as u128;
        k = k + 1;
    }
    total + 2 * 9 * 7 <= 0x7fff_ffff
}

/// The consecutive-afternoon penalty of a staff member is 10 (`ALPHA_PENALTY`) for
/// each of the five windows of three days (starting on days 0 to 4) that are
/// all afternoon shifts (codes 4 and 5).
pub proof fn lemma_consecutive_penalty_counts_windows(
    s: Seq<Seq<usize>>,
    shifts: Seq<Shift>,
    days: Seq<Day>,
    i: int,
)
    requires
        0 <= i < STAFF_NUM,
    ensures
        ({
            let row = s[i];
            let aft = |v: usize| v as i32 == 4 || v as i32 == 5;
            let run = |k: int|
                if aft(row[k]) && aft(row[k + 1]) && aft(row[k + 2]) {
                    1int
                } else {
                    0int
                };
            evaluate(s, shifts, days).consecutive_penalty[i] == 10 * (run(0) + run(1)
                + run(2) + run(3) + run(4))
        }),
{
    reveal_with_fuel(consecutive_penalty, 6);
}

/// The afternoon-after-rest penalty of a staff member is 10 (`BETA_PENALTY`) for
/// each day 1 to 6, the last day included, that is an afternoon shift (codes 4
/// and 5) right after a day off or a holiday (codes 6 and 7).
pub proof fn lemma_afternoon_penalty_counts_days(
    s: Seq<Seq<usize>>,
    shifts: Seq<Shift>,
    days: Seq<Day>,
    i: int,
)
    requires
        0 <= i < STAFF_NUM,
    ensures
        ({
            let row = s[i];
            let aft = |v: usize| v as i32 == 4 || v as i32 == 5;
            let rest = |v: usize| v as i32 == 6 || v as i32 == 7;
            let turn = |k: int|
                if rest(row[k - 1]) && aft(row[k]) {
                    1int
                } else {
                    0int
                };
            evaluate(s, shifts, days).afternoon_penalty[i] == 10 * (turn(1) + turn(2)
                + turn(3) + turn(4) + turn(5) + turn(6))
        }),
{
    reveal_with_fuel(afternoon_switch_penalty, 7);
}

/// The worktime penalty of a staff member is the distance between
/// `TARGET_WORKTIME` and the total duration of the staff member's seven shifts.
pub proof fn lemma_worktime_penalty_sums_week(
    s: Seq<Seq<usize>>,
    shifts: Seq<Shift>,
    days: Seq<Day>,
    i: int,
)
    requires
        0 <= i < STAFF_NUM,
        worktime(s[i], shifts, DAY_NUM as int) <= i32::MAX,
    ensures
        ({
            let row = s[i];
            let d = |k: int| shifts[row[k] as int].shift_duration as int;
            let hours = d(0) + d(1) + d(2) + d(3) + d(4) + d(5) + d(6);
            evaluate(s, shifts, days).worktime_penalty[i] == if hours >= 44 {
                hours - 44
            } else {
                44 - hours
            }
        }),
{
    reveal_with_fuel(worktime, 8);
}

/// The coverage penalty of day `k` is the distance between the morning demand
/// and the number of staff on a morning shift (codes 1 to 3) plus the distance
/// between the afternoon demand and the number on an afternoon shift (codes 4
/// and 5), counted over all nine staff members.
pub proof fn lemma_coverage_list_counts_staff(
    s: Seq<Seq<usize>>,
    shifts: Seq<Shift>,
    days: Seq<Day>,
    k: int,
)
    requires
        0 <= k < DAY_NUM,
        days_ok(days),
    ensures
        ({
            let mor = |i: int|
                if s[i][k] as i32 == 1 || s[i][k] as i32 == 2 || s[i][k] as i32 == 3 {
                    1int
                } else {
                    0int
                };
            let aft = |i: int|
                if s[i][k] as i32 == 4 || s[i][k] as i32 == 5 {
                    1int
                } else {
                    0int
                };
            let m = mor(0) + mor(1) + mor(2) + mor(3) + mor(4) + mor(5) + mor(6) + mor(7) + mor(8);
            let a = aft(0) + aft(1) + aft(2) + aft(3) + aft(4) + aft(5) + aft(6) + aft(7) + aft(8);
            let dm = days[k].morning_cov - m;
            let da = days[k].afternoon_cov - a;
            evaluate(s, shifts, days).coverage_list[k] == (if dm >= 0 {
                dm
            } else {
                -dm
            }) + (if da >= 0 {
                da
            } else {
                -da
            })
        }),
{
    let mor = |i: int|
        if s[i][k] as i32 == 1 || s[i][k] as i32 == 2 || s[i][k] as i32 == 3 {
            1int
        } else {
            0int
        };
    let aft = |i: int|
        if s[i][k] as i32 == 4 || s[i][k] as i32 == 5 {
            1int
        } else {
            0int
        };
    assert(morning_count(s, k, 0) == 0);
    assert(morning_count(s, k, 1) == mor(0));
    assert(morning_count(s, k, 2) == mor(0) + mor(1));
    assert(morning_count(s, k, 3) == mor(0) + mor(1) + mor(2));
    assert(morning_count(s, k, 4) == mor(0) + mor(1) + mor(2) + mor(3));
    assert(morning_count(s, k, 5) == mor(0) + mor(1) + mor(2) + mor(3) + mor(4));
    assert(morning_count(s, k, 6) == mor(0) + mor(1) + mor(2) + mor(3) + mor(4) + mor(5));
    assert(morning_count(s, k, 7) == mor(0) + mor(1) + mor(2) + mor(3) + mor(4) + mor(5) + mor(
        6,
    ));
    assert(morning_count(s, k, 8) == mor(0) + mor(1) + mor(2) + mor(3) + mor(4) + mor(5) + mor(6)
        + mor(7));
    assert(morning_count(s, k, 9) == mor(0) + mor(1) + mor(2) + mor(3) + mor(4) + mor(5) + mor(6)
        + mor(7) + mor(8));
    assert(afternoon_count(s, k, 0) == 0);
    assert(afternoon_count(s, k, 1) == aft(0));
    assert(afternoon_count(s, k, 2) == aft(0) + aft(1));
    assert(afternoon_count(s, k, 3) == aft(0) + aft(1) + aft(2));
    assert(afternoon_count(s, k, 4) == aft(0) + aft(1) + aft(2) + aft(3));
    assert(afternoon_count(s, k, 5) == aft(0) + aft(1) + aft(2) + aft(3) + aft(4));
    assert(afternoon_count(s, k, 6) == aft(0) + aft(1) + aft(2) + aft(3) + aft(4) + aft(5));
    assert(afternoon_count(s, k, 7) == aft(0) + aft(1) + aft(2) + aft(3) + aft(4) + aft(5) + aft(
        6,
    ));
    assert(afternoon_count(s, k, 8) == aft(0) + aft(1) + aft(2) + aft(3) + aft(4) + aft(5) + aft(6)
        + aft(7));
    assert(afternoon_count(s, k, 9) == aft(0) + aft(1) + aft(2) + aft(3) + aft(4) + aft(5) + aft(6)
        + aft(7) + aft(8));
    assert(days[k].morning_cov <= i32::MAX);
    lemma_counts_bounded(s, k, STAFF_NUM as int);
}

/// The sum of a sequence of nine numbers, written out.
pub proof fn lemma_seq_sum_nine(x: Seq<usize>)
    requires
        x.len() == STAFF_NUM,
    ensures
        seq_sum(x) == x[0] + x[1] + x[2] + x[3] + x[4] + x[5] + x[6] + x[7] + x[8],
{
    assert(x.take(0) =~= Seq::<usize>::empty());
    assert(seq_sum(x.take(0)) == 0);
    assert(x.take(1).drop_last() =~= x.take(0));
    assert(seq_sum(x.take(1)) == x[0]);
    assert(x.take(2).drop_last() =~= x.take(1));
    assert(seq_sum(x.take(2)) == x[0] + x[1]);
    assert(x.take(3).drop_last() =~= x.take(2));
    assert(seq_sum(x.take(3)) == x[0] + x[1] + x[2]);
    assert(x.take(4).drop_last() =~= x.take(3));
    assert(seq_sum(x.take(4)) == x[0] + x[1] + x[2] + x[3]);
    assert(x.take(5).drop_last() =~= x.take(4));
    assert(seq_sum(x.take(5)) == x[0] + x[1] + x[2] + x[3] + x[4]);
    assert(x.take(6).drop_last() =~= x.take(5));
    assert(seq_sum(x.take(6)) == x[0] + x[1] + x[2] + x[3] + x[4] + x[5]);
    assert(x.take(7).drop_last() =~= x.take(6));
    assert(seq_sum(x.take(7)) == x[0] + x[1] + x[2] + x[3] + x[4] + x[5] + x[6]);
    assert(x.take(8).drop_last() =~= x.take(7));
    assert(seq_sum(x.take(8)) == x[0] + x[1] + x[2] + x[3] + x[4] + x[5] + x[6] + x[7]);
    assert(x.take(9).drop_last() =~= x.take(8));
    assert(x.take(9) =~= x);
}

/// The fitness, in quarters (each weight is 0.25), is the week's coverage
/// penalty plus every staff member's worktime, consecutive-afternoon and
/// afternoon-after-rest penalties, each counted once.
pub proof fn lemma_fitness_sums_penalties(s: Seq<Seq<usize>>, shifts: Seq<Shift>, days: Seq<Day>)
    ensures
        ({
            let e = evaluate(s, shifts, days);
            let w = e.worktime_penalty;
            let c = e.consecutive_penalty;
            let a = e.afternoon_penalty;
            e.fitness_scaled == e.coverage_penalty + (w[0] + w[1] + w[2] + w[3] + w[4] + w[5]
                + w[6] + w[7] + w[8]) + (c[0] + c[1] + c[2] + c[3] + c[4] + c[5] + c[6] + c[7]
                + c[8]) + (a[0] + a[1] + a[2] + a[3] + a[4] + a[5] + a[6] + a[7] + a[8])
        }),
{
    let e = evaluate(s, shifts, days);
    lemma_seq_sum_nine(e.worktime_penalty);
    lemma_seq_sum_nine(e.consecutive_penalty);
    lemma_seq_sum_nine(e.afternoon_penalty);
}

/// A solution's penalties and fitness are those of its own roster.
pub open spec fn solution_consistent(m: SolutionModel, shifts: Seq<Shift>, days: Seq<Day>) -> bool {
    m == evaluate(m.schedule, shifts, days)
}

/// Sums up to `n` elements bounded by `b` stay below `n * b`.
proof fn lemma_seq_sum_bound(s: Seq<usize>, b: int)
    requires
        forall|i: int| 0 <= i < s.len() ==> #[trigger] s[i] <= b,
    ensures
        0 <= seq_sum(s) <= s.len() * b,
    decreases s.len(),
{
    if s.len() > 0 {
        assert forall|i: int| 0 <= i < s.drop_last().len() implies #[trigger] s.drop_last()[i]
            <= b by {
            assert(s.drop_last()[i] == s[i]);
        }
        lemma_seq_sum_bound(s.drop_last(), b);
        assert((s.len() - 1) * b + b == s.len() * b) by (nonlinear_arith);
    }
}

/// Sum of `v` as a `u64`, given a bound `b` on every element.
fn sum_u64(v: &Vec<usize>, Ghost(b): Ghost<int>) -> (r: u64)
    requires
        v.len() <= STAFF_NUM,
        0 <= b <= u32::MAX,
        forall|i: int| 0 <= i < v.len() ==> #[trigger] v@[i] <= b,
    ensures
        r == seq_sum(v@),
        r <= STAFF_NUM * b,
{
    let mut r: u64 = 0;
    let mut i: usize = 0;
    while i < v.len()
        invariant
            i <= v.len() <= STAFF_NUM,
            0 <= b <= u32::MAX,
            forall|j: int| 0 <= j < v.len() ==> #[trigger] v@[j] <= b,
            r == seq_sum(v@.subrange(0, i as int)),
            r <= i * b,
        decreases v.len() - i,
    {
        assert(v@.subrange(0, i + 1).drop_last() =~= v@.subrange(0, i as int));
        assert(r + v@[i as int] <= (i + 1) * b) by (nonlinear_arith)
            requires
                r <= i * b,
                v@[i as int] <= b,
        ;
        assert((i + 1) * b <= STAFF_NUM * u32::MAX) by (nonlinear_arith)
            requires
                i + 1 <= STAFF_NUM,
                0 <= b <= u32::MAX,
        ;
        r = r + v[i] as u64;
        i = i + 1;
    }
    assert(v@.subrange(0, v.len() as int) =~= v@);
    assert(i * b <= STAFF_NUM * b) by (nonlinear_arith)
        requires
            i <= STAFF_NUM,
            0 <= b,
    ;
    r
}

/// Number of morning and of afternoon shifts on day `k`.
pub(crate) fn day_cover_counts(s: &Vec<Vec<usize>>, k: usize) -> (r: (i32, i32))
    requires
        schedule_shaped(grid(s)),
        k < DAY_NUM,
    ensures
        r.0 == morning_count(grid(s), k as int, STAFF_NUM as int),
        r.1 == afternoon_count(grid(s), k as int, STAFF_NUM as int),
        0 <= r.0 <= STAFF_NUM,
        0 <= r.1 <= STAFF_NUM,
{
    let mut m: i32 = 0;
    let mut a: i32 = 0;
    let mut i: usize = 0;
    while i < STAFF_NUM
        invariant
            schedule_shaped(grid(s)),
            k < DAY_NUM,
            i <= STAFF_NUM,
            m == morning_count(grid(s), k as int, i as int),
            a == afternoon_count(grid(s), k as int, i as int),
            0 <= m <= i,
            0 <= a <= i,
        decreases STAFF_NUM - i,
    {
        assert(grid(s)[i as int] == s@[i as int]@);
        let v: usize = s[i][k];
        if is_morning_shift(v) {
            m = m + 1;
        } else if is_afternoon_shift(v) {
            a = a + 1;
        }
        i = i + 1;
    }
    (m, a)
}

/// `|d|` for a value whose negation does not overflow.
fn abs_i32(d: i32) -> (r: i32)
    requires
        d > i32::MIN,
    ensures
        r == abs_diff(d as int, 0),
{
    if d < 0 {
        -d
    } else {
        d
    }
}

/// A copy of a roster.
pub fn copy_schedule(s: &Vec<Vec<usize>>) -> (r: Vec<Vec<usize>>)
    ensures
        grid(&r) == grid(s),
{
    let mut r: Vec<Vec<usize>> = Vec::new();
    let mut i: usize = 0;
    while i < s.len()
        invariant
            i <= s.len(),
            r.len() == i,
            forall|j: int| 0 <= j < i ==> #[trigger] r@[j]@ == s@[j]@,
        decreases s.len() - i,
    {
        let row: Vec<usize> = copy_row(&s[i]);
        r.push(row);
        i = i + 1;
    }
    assert(grid(&r) =~= grid(s));
    r
}

/// A copy of a vector of numbers.
fn copy_row(v: &Vec<usize>) -> (r: Vec<usize>)
    ensures
        r@ == v@,
{
    let r: Vec<usize> = v.clone();
    assert(r@ =~= v@);
    r
}

impl Solution {
    /// A copy of the solution, equal to it in every field.
    pub fn copy(&self) -> (r: Self)
        ensures
            r@ == self@,
    {
        Solution {
            staffs_schedule: copy_schedule(&self.staffs_schedule),
            fitness_scaled: self.fitness_scaled,
            CoveragePenalty: self.CoveragePenalty,
            WorktimePenalty: copy_row(&self.WorktimePenalty),
            ConsecutivePenalty: copy_row(&self.ConsecutivePenalty),
            AfternoonPenalty: copy_row(&self.AfternoonPenalty),
            CoverageList: copy_row(&self.CoverageList),
        }
    }

    /// Evaluates a roster: computes every penalty and the weighted fitness.
    pub fn new(staffs_schedule: Vec<Vec<usize>>, shifts: &Vec<Shift>, days: &Vec<Day>) -> (sol:
        Self)
        requires
            schedule_shaped(grid(&staffs_schedule)),
            cells_below(grid(&staffs_schedule), shifts.len() as int),
            evaluation_fits(grid(&staffs_schedule), shifts@, days@),
        ensures
            sol@ == evaluate(grid(&staffs_schedule), shifts@, days@),
            sol.CoveragePenalty == seq_sum(sol.CoverageList@),
            solution_consistent(sol@, shifts@, days@),
    {
        let ghost s = grid(&staffs_schedule);
        let CoveragePenalty: i32 = Self::calculate_CoveragePenalty(&staffs_schedule, days);
        let CoverageList: Vec<usize> = Self::check_CoveragePenalty(&staffs_schedule, days);

        let WorktimePenalty: Vec<usize> = Self::calculate_WorktimePenalty(
            &staffs_schedule,
            shifts,
        );
        let global_worktime: u64 = sum_u64(&WorktimePenalty, Ghost(0x7fff_ffff));

        let ConsecutivePenalty: Vec<usize> = Self::calculate_ConsecutivePenalty(&staffs_schedule);
        let global_consecutive: u64 = sum_u64(&ConsecutivePenalty, Ghost(50));

        let AfternoonPenalty: Vec<usize> = Self::calculate_AfternoonPenalty(&staffs_schedule);
        let global_afternoon: u64 = sum_u64(&AfternoonPenalty, Ghost(60));

        let fitness_scaled: u64 = W1_SCALED * (CoveragePenalty as u64) + W2_SCALED
            * global_worktime + W3_SCALED * global_consecutive + W4_SCALED * global_afternoon;

        let sol = Solution {
            staffs_schedule,
            fitness_scaled,
            CoveragePenalty,
            WorktimePenalty,
            ConsecutivePenalty,
            AfternoonPenalty,
            CoverageList,
        };
        assert(sol@.schedule == s);
        assert(sol@ == evaluate(s, shifts@, days@));
        proof {
            lemma_coverage_list_sum(s, days@);
        }
        sol
    }

    /// Per-staff distance of the weekly hours from `TARGET_WORKTIME`.
    fn calculate_WorktimePenalty(staffs_schedule: &Vec<Vec<usize>>, shifts: &Vec<Shift>) -> (r:
        Vec<usize>)
        requires
            schedule_shaped(grid(staffs_schedule)),
            cells_below(grid(staffs_schedule), shifts.len() as int),
            forall|i: int|
                0 <= i < STAFF_NUM ==> #[trigger] worktime(
                    grid(staffs_schedule)[i],
                    shifts@,
                    DAY_NUM as int,
                ) <= i32::MAX,
        ensures
            r@ == worktime_penalties(grid(staffs_schedule), shifts@),
            forall|i: int| 0 <= i < r.len() ==> #[trigger] r@[i] <= 0x7fff_ffff,
    {
        let ghost s = grid(staffs_schedule);
        let mut WorktimePenalty: Vec<usize> = Vec::new();
        let mut i: usize = 0;
        while i < STAFF_NUM
            invariant
                schedule_shaped(s),
                s == grid(staffs_schedule),
                cells_below(s, shifts.len() as int),
                forall|ii: int|
                    0 <= ii < STAFF_NUM ==> #[trigger] worktime(s[ii], shifts@, DAY_NUM as int)
                        <= i32::MAX,
                i <= STAFF_NUM,
                WorktimePenalty.len() == i,
                forall|j: int|
                    0 <= j < i ==> #[trigger] WorktimePenalty@[j] == worktime_penalty(
                        s[j],
                        shifts@,
                    ),
                forall|j: int| 0 <= j < i ==> #[trigger] WorktimePenalty@[j] <= 0x7fff_ffff,
            decreases STAFF_NUM - i,
        {
            let ghost row = s[i as int];
            assert(row == staffs_schedule@[i as int]@);
            let mut actual: i32 = 0;
            let mut k: usize = 0;
            while k < DAY_NUM
                invariant
                    schedule_shaped(s),
                    s == grid(staffs_schedule),
                    cells_below(s, shifts.len() as int),
                    i < STAFF_NUM,
                    row == s[i as int],
                    worktime(row, shifts@, DAY_NUM as int) <= i32::MAX,
                    k <= DAY_NUM,
                    actual == worktime(row, shifts@, k as int),
                    0 <= actual,
                decreases DAY_NUM - k,
            {
                let shift_idx: usize = staffs_schedule[i][k];
                assert(shift_idx == row[k as int]);
                assert(shift_idx < shifts.len());
                proof {
                    lemma_worktime_prefix(row, shifts@, k as int, DAY_NUM as int);
                }
                actual = actual + shifts[shift_idx].shift_duration as i32;
                k = k + 1;
            }
            assert(actual <= i32::MAX);
            let p: i32 = abs_i32(44 - actual);
            WorktimePenalty.push(p as usize);
            i = i + 1;
        }
        assert(WorktimePenalty@ =~= worktime_penalties(s, shifts@));
        WorktimePenalty
    }

    /// Total coverage penalty of the week.
    fn calculate_CoveragePenalty(staffs_schedule: &Vec<Vec<usize>>, days: &Vec<Day>) -> (r: i32)
        requires
            schedule_shaped(grid(staffs_schedule)),
            coverage_fits(grid(staffs_schedule), days@),
        ensures
            r == coverage_penalty(grid(staffs_schedule), days@, DAY_NUM as int),
            r >= 0,
    {
        let ghost s = grid(staffs_schedule);
        let mut CoveragePenalty: i32 = 0;
        let mut k: usize = 0;
        while k < DAY_NUM
            invariant
                schedule_shaped(s),
                s == grid(staffs_schedule),
                days@.len() >= DAY_NUM,
                forall|kk: int|
                    0 <= kk < DAY_NUM ==> #[trigger] days@[kk].morning_cov <= i32::MAX
                        && days@[kk].afternoon_cov <= i32::MAX,
                coverage_penalty(s, days@, DAY_NUM as int) <= i32::MAX,
                k <= DAY_NUM,
                CoveragePenalty == coverage_penalty(s, days@, k as int),
                0 <= CoveragePenalty,
            decreases DAY_NUM - k,
        {
            let (m, a) = day_cover_counts(staffs_schedule, k);
            assert(days@[k as int].morning_cov <= i32::MAX);
            let mp: i32 = abs_i32((days[k].morning_cov as i32) - m);
            let ap: i32 = abs_i32((days[k].afternoon_cov as i32) - a);
            assert(mp + ap == day_coverage_penalty(s, days@[k as int], k as int));
            proof {
                lemma_coverage_prefix(s, days@, k + 1, DAY_NUM as int);
            }
            CoveragePenalty = CoveragePenalty + (mp + ap);
            k = k + 1;
        }
        CoveragePenalty
    }

    /// Coverage penalty of each day.
    fn check_CoveragePenalty(staffs_schedule: &Vec<Vec<usize>>, days: &Vec<Day>) -> (r: Vec<
        usize,
    >)
        requires
            schedule_shaped(grid(staffs_schedule)),
            coverage_fits(grid(staffs_schedule), days@),
        ensures
            r@ == coverage_list(grid(staffs_schedule), days@),
    {
        let ghost s = grid(staffs_schedule);
        let mut CoverageList: Vec<usize> = Vec::new();
        let mut k: usize = 0;
        while k < DAY_NUM
            invariant
                schedule_shaped(s),
                s == grid(staffs_schedule),
                days@.len() >= DAY_NUM,
                forall|kk: int|
                    0 <= kk < DAY_NUM ==> #[trigger] days@[kk].morning_cov <= i32::MAX
                        && days@[kk].afternoon_cov <= i32::MAX,
                coverage_penalty(s, days@, DAY_NUM as int) <= i32::MAX,
                k <= DAY_NUM,
                CoverageList.len() == k,
                forall|j: int|
                    0 <= j < k ==> #[trigger] CoverageList@[j] == day_coverage_penalty(
                        s,
                        days@[j],
                        j,
                    ),
            decreases DAY_NUM - k,
        {
            let (m, a) = day_cover_counts(staffs_schedule, k);
            assert(days@[k as int].morning_cov <= i32::MAX);
            let mp: i32 = abs_i32((days[k].morning_cov as i32) - m);
            let ap: i32 = abs_i32((days[k].afternoon_cov as i32) - a);
            proof {
                lemma_coverage_prefix(s, days@, k as int, DAY_NUM as int);
            }
            let penalty: i32 = mp + ap;
            CoverageList.push(penalty as usize);
            k = k + 1;
        }
        assert(CoverageList@ =~= coverage_list(s, days@));
        CoverageList
    }

    /// Per-staff penalty for runs of three afternoon shifts.
    fn calculate_ConsecutivePenalty(staffs_schedule: &Vec<Vec<usize>>) -> (r: Vec<usize>)
        requires
            schedule_shaped(grid(staffs_schedule)),
        ensures
            r@ == consecutive_penalties(grid(staffs_schedule)),
            forall|i: int| 0 <= i < r.len() ==> #[trigger] r@[i] <= 50,
    {
        let ghost s = grid(staffs_schedule);
        let mut ConsecutivePenalty: Vec<usize> = Vec::new();
        let mut i: usize = 0;
        while i < STAFF_NUM
            invariant
                schedule_shaped(s),
                s == grid(staffs_schedule),
                i <= STAFF_NUM,
                ConsecutivePenalty.len() == i,
                forall|j: int|
                    0 <= j < i ==> #[trigger] ConsecutivePenalty@[j] == consecutive_penalty(
                        s[j],
                        DAY_NUM - 2,
                    ),
                forall|j: int| 0 <= j < i ==> #[trigger] ConsecutivePenalty@[j] <= 50,
            decreases STAFF_NUM - i,
        {
            let ghost row = s[i as int];
            assert(row == staffs_schedule@[i as int]@);
            let mut p: usize = 0;
            let mut k: usize = 0;
            while k < DAY_NUM - 2
                invariant
                    schedule_shaped(s),
                    s == grid(staffs_schedule),
                    i < STAFF_NUM,
                    row == s[i as int],
                    row == staffs_schedule@[i as int]@,
                    row.len() == DAY_NUM,
                    k <= DAY_NUM - 2,
                    p == consecutive_penalty(row, k as int),
                    p <= 10 * k,
                decreases DAY_NUM - 2 - k,
            {
                if is_afternoon_shift(staffs_schedule[i][k]) && is_afternoon_shift(
                    staffs_schedule[i][k + 1],
                ) && is_afternoon_shift(staffs_schedule[i][k + 2]) {
                    p = p + ALPHA_PENALTY;
                }
                k = k + 1;
            }
            ConsecutivePenalty.push(p);
            i = i + 1;
        }
        assert(ConsecutivePenalty@ =~= consecutive_penalties(s));
        ConsecutivePenalty
    }

    /// Per-staff penalty for afternoon shifts right after a rest day.
    fn calculate_AfternoonPenalty(staffs_schedule: &Vec<Vec<usize>>) -> (r: Vec<usize>)
        requires
            schedule_shaped(grid(staffs_schedule)),
        ensures
            r@ == afternoon_penalties(grid(staffs_schedule)),
            forall|i: int| 0 <= i < r.len() ==> #[trigger] r@[i] <= 60,
    {
        let ghost s = grid(staffs_schedule);
        let mut AfternoonPenalty: Vec<usize> = Vec::new();
        let mut i: usize = 0;
        while i < STAFF_NUM
            invariant
                schedule_shaped(s),
                s == grid(staffs_schedule),
                i <= STAFF_NUM,
                AfternoonPenalty.len() == i,
                forall|j: int|
                    0 <= j < i ==> #[trigger] AfternoonPenalty@[j] == afternoon_switch_penalty(
                        s[j],
                        DAY_NUM as int,
                    ),
                forall|j: int| 0 <= j < i ==> #[trigger] AfternoonPenalty@[j] <= 60,
            decreases STAFF_NUM - i,
        {
            let ghost row = s[i as int];
            assert(row == staffs_schedule@[i as int]@);
            let mut p: usize = 0;
            let mut k: usize = 1;
            while k < DAY_NUM
                invariant
                    schedule_shaped(s),
                    s == grid(staffs_schedule),
                    i < STAFF_NUM,
                    row == s[i as int],
                    row == staffs_schedule@[i as int]@,
                    row.len() == DAY_NUM,
                    1 <= k <= DAY_NUM,
                    p == afternoon_switch_penalty(row, k as int),
                    p <= 10 * (k - 1),
                decreases DAY_NUM - k,
            {
                if is_other_shift(staffs_schedule[i][k - 1]) && is_afternoon_shift(
                    staffs_schedule[i][k],
                ) {
                    p = p + BETA_PENALTY;
                }
                k = k + 1;
            }
            AfternoonPenalty.push(p);
            i = i + 1;
        }
        assert(AfternoonPenalty@ =~= afternoon_penalties(s));
        AfternoonPenalty
    }
}

} // verus!
