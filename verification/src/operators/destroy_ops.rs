//! Destroy operators: remove one staff member's week from a roster.
use vstd::prelude::*;

use crate::random::{random_below, thread_rng};
use crate::structs::{copy_schedule, grid, schedule_shaped, Solution};
use crate::utils::{DAY_NUM, STAFF_NUM, UNASSIGNED};

verus! {

/// A roster with one staff member's row cleared, and that staff member.
#[derive(Clone, Hash, PartialEq, Eq, Debug)]
pub struct DestroyResult {
    pub partial_schedule: Vec<Vec<usize>>,
    pub removed_staff: usize,
}

/// Roster `s` with every day of row `r` set to the unassigned shift.
pub open spec fn cleared_row(s: Seq<Seq<usize>>, r: int) -> Seq<Seq<usize>> {
    s.update(r, Seq::new(DAY_NUM as nat, |k: int| UNASSIGNED))
}

/// Clearing row `r` gives every one of its seven days the unassigned code 0
/// and leaves every other row as it was.
pub proof fn lemma_cleared_row(s: Seq<Seq<usize>>, r: int)
    requires
        schedule_shaped(s),
        0 <= r < STAFF_NUM,
    ensures
        cleared_row(s, r).len() == STAFF_NUM,
        cleared_row(s, r)[r].len() == DAY_NUM,
        forall|k: int| 0 <= k < DAY_NUM ==> #[trigger] cleared_row(s, r)[r][k] == 0,
        forall|i: int| 0 <= i < STAFF_NUM && i != r ==> #[trigger] cleared_row(s, r)[i] == s[i],
{
}

/// Score by which `worst_destroy` ranks staff member `i` (the worktime
/// penalty counts twice, the afternoon penalty once).
pub open spec fn destroy_score(sol: &Solution, i: int) -> int {
    sol.WorktimePenalty@[i] + sol.AfternoonPenalty@[i] + sol.WorktimePenalty@[i]
}

/// The penalty vectors cover every staff member and the scores fit a `usize`.
pub open spec fn scores_fit(sol: &Solution) -> bool {
    &&& sol.WorktimePenalty@.len() >= STAFF_NUM
    &&& sol.AfternoonPenalty@.len() >= STAFF_NUM
    &&& forall|i: int| 0 <= i < STAFF_NUM ==> #[trigger] destroy_score(sol, i) <= usize::MAX
}

/// Some staff member has a positive score.
pub open spec fn has_positive_score(sol: &Solution) -> bool {
    exists|i: int| 0 <= i < STAFF_NUM && #[trigger] destroy_score(sol, i) > 0
}

/// `r` is the first staff member with the highest score, and that score is positive.
pub open spec fn is_worst_staff(sol: &Solution, r: int) -> bool {
    &&& 0 <= r < STAFF_NUM
    &&& destroy_score(sol, r) > 0
    &&& forall|j: int| 0 <= j < STAFF_NUM ==> #[trigger] destroy_score(sol, j) <= destroy_score(sol, r)
    &&& forall|j: int| 0 <= j < r ==> #[trigger] destroy_score(sol, j) < destroy_score(sol, r)
}

/// Clears the row of staff member `removed_staff`: every day becomes unassigned.
pub fn destroy_staff(sol: &Solution, removed_staff: usize) -> (res: DestroyResult)
    requires
        schedule_shaped(grid(&sol.staffs_schedule)),
        removed_staff < STAFF_NUM,
    ensures
        res.removed_staff == removed_staff,
        grid(&res.partial_schedule) == cleared_row(
            grid(&sol.staffs_schedule),
            removed_staff as int,
        ),
{
    let mut partial_schedule: Vec<Vec<usize>> = copy_schedule(&sol.staffs_schedule);
    let ghost s = grid(&sol.staffs_schedule);
    let mut row: Vec<usize> = Vec::new();
    let mut k: usize = 0;
    while k < DAY_NUM
        invariant
            k <= DAY_NUM,
            row.len() == k,
            forall|j: int| 0 <= j < k ==> #[trigger] row@[j] == UNASSIGNED,
        decreases DAY_NUM - k,
    {
        row.push(UNASSIGNED);
        k = k + 1;
    }
    assert(row@ =~= Seq::new(DAY_NUM as nat, |k: int| UNASSIGNED));
    partial_schedule.set(removed_staff, row);
    assert(grid(&partial_schedule) =~= cleared_row(s, removed_staff as int));
    DestroyResult { partial_schedule, removed_staff }
}

/// Clears the row of a staff member drawn at random.
pub fn random_destroy(sol: &Solution) -> (res: DestroyResult)
    requires
        schedule_shaped(grid(&sol.staffs_schedule)),
    ensures
        res.removed_staff < STAFF_NUM,
        grid(&res.partial_schedule) == cleared_row(
            grid(&sol.staffs_schedule),
            res.removed_staff as int,
        ),
{
    let mut rng = thread_rng();
    let removed_staff: usize = random_below(&mut rng, STAFF_NUM);
    destroy_staff(sol, removed_staff)
}

/// Clears the row of the first staff member with the highest score
/// (twice the worktime penalty plus the afternoon penalty).
pub fn worst_destroy(sol: &Solution) -> (res: DestroyResult)
    requires
        schedule_shaped(grid(&sol.staffs_schedule)),
        scores_fit(sol),
        has_positive_score(sol),
    ensures
        is_worst_staff(sol, res.removed_staff as int),
        ({
            let w = sol.WorktimePenalty@;
            let a = sol.AfternoonPenalty@;
            let r = res.removed_staff as int;
            &&& r < STAFF_NUM
            &&& 2 * w[r] + a[r] > 0
            &&& forall|j: int| 0 <= j < STAFF_NUM ==> 2 * w[j] + a[j] <= 2 * w[r] + a[r]
            &&& forall|j: int| 0 <= j < r ==> 2 * w[j] + a[j] < 2 * w[r] + a[r]
        }),
        grid(&res.partial_schedule) == cleared_row(
            grid(&sol.staffs_schedule),
            res.removed_staff as int,
        ),
{
    let mut worst_penalty: usize = 0;
    let mut removed_staff: Option<usize> = None;
    let mut i: usize = 0;
    while i < STAFF_NUM
        invariant
            scores_fit(sol),
            i <= STAFF_NUM,
            removed_staff is None ==> worst_penalty == 0,
            forall|j: int| 0 <= j < i ==> #[trigger] destroy_score(sol, j) <= worst_penalty,
            removed_staff matches Some(r) ==> {
                &&& r < i
                &&& destroy_score(sol, r as int) == worst_penalty
                &&& worst_penalty > 0
                &&& forall|j: int| 0 <= j < r ==> #[trigger] destroy_score(sol, j) < worst_penalty
            },
        decreases STAFF_NUM - i,
    {
        assert(destroy_score(sol, i as int) <= usize::MAX);
        let staff_penalty: usize = sol.WorktimePenalty[i] + sol.AfternoonPenalty[i]
            + sol.WorktimePenalty[i];
        if staff_penalty > worst_penalty {
            worst_penalty = staff_penalty;
            removed_staff = Some(i);
        }
        i = i + 1;
    }
    let staff: usize = match removed_staff {
        Some(r) => r,
        None => {
            proof {
                let w = choose|w: int| 0 <= w < STAFF_NUM && #[trigger] destroy_score(sol, w) > 0;
                assert(destroy_score(sol, w) <= 0);
            }
            0
        },
    };
    proof {
        lemma_worst_staff_maximises_score(sol, staff as int);
    }
    destroy_staff(sol, staff)
}

/// The staff member `worst_destroy` removes has the highest value of twice its
/// worktime penalty plus its afternoon penalty, that value is positive, and
/// every staff member before it has a strictly lower value.
pub proof fn lemma_worst_staff_maximises_score(sol: &Solution, r: int)
    requires
        is_worst_staff(sol, r),
    ensures
        ({
            let w = sol.WorktimePenalty@;
            let a = sol.AfternoonPenalty@;
            &&& 0 <= r < STAFF_NUM
            &&& 2 * w[r] + a[r] > 0
            &&& forall|j: int| 0 <= j < STAFF_NUM ==> 2 * w[j] + a[j] <= 2 * w[r] + a[r]
            &&& forall|j: int| 0 <= j < r ==> 2 * w[j] + a[j] < 2 * w[r] + a[r]
        }),
{
    let w = sol.WorktimePenalty@;
    let a = sol.AfternoonPenalty@;
    assert forall|j: int| 0 <= j < STAFF_NUM implies 2 * w[j] + a[j] <= 2 * w[r] + a[r] by {
        assert(destroy_score(sol, j) <= destroy_score(sol, r));
    }
    assert forall|j: int| 0 <= j < r implies 2 * w[j] + a[j] < 2 * w[r] + a[r] by {
        assert(destroy_score(sol, j) < destroy_score(sol, r));
    }
}

} // verus!
