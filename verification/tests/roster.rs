use alns::alns::{
    apply_operators, generate_init_sched, initial_row_from_draws, move_is_ready, problem_is_ready, update_shift_sched,
    worst_is_defined, AlnsState, DestroyOp, OperatorTally, RepairOp, Verdict,
};
use alns::operators::destroy_ops::{destroy_staff, random_destroy, worst_destroy};
use alns::operators::repair_ops::{
    check_coverage, check_worktime, greedy_repair, random_greedy_repair, repair_in_order,
    reverse_greedy_repair,
};
use alns::structs::{
    cells_are_below, days_are_ok, schedule_is_shaped, shifts_are_ok, Day, Shift, Solution, Staff,
};
use alns::utils::{DAY_OFF, FITNESS_SCALE, PH_SHIFT};

fn shifts() -> Vec<Shift> {
    let info: Vec<[usize; 3]> = vec![
        [0, 2, 0],
        [1, 0, 8],
        [2, 0, 7],
        [3, 0, 4],
        [4, 1, 8],
        [5, 1, 7],
        [6, 2, 0],
        [7, 2, 8],
    ];
    info.iter()
        .map(|r| Shift { id: r[0], shift_type: r[1], shift_duration: r[2] })
        .collect()
}

fn days() -> Vec<Day> {
    let info: Vec<[usize; 4]> = vec![
        [0, 0, 4, 3],
        [1, 0, 4, 3],
        [2, 2, 3, 3],
        [3, 2, 3, 3],
        [4, 0, 4, 3],
        [5, 1, 3, 3],
        [6, 1, 3, 3],
    ];
    info.iter()
        .map(|r| Day { id: r[0], day_type: r[1], morning_cov: r[2], afternoon_cov: r[3] })
        .collect()
}

fn staffs() -> Vec<Staff> {
    let info: Vec<[usize; 3]> = vec![
        [0, 0, 1],
        [1, 0, 2],
        [2, 0, 2],
        [3, 0, 2],
        [4, 2, 0],
        [5, 2, 1],
        [6, 1, 0],
        [7, 1, 0],
        [8, 1, 2],
    ];
    info.iter().map(|r| Staff { id: r[0], agency: r[1], group: r[2] }).collect()
}

fn roster() -> Vec<Vec<usize>> {
    vec![
        vec![1, 2, 3, 4, 5, 6, 1],
        vec![1, 4, 7, 7, 6, 2, 3],
        vec![4, 4, 7, 7, 4, 6, 1],
        vec![6, 5, 7, 7, 5, 5, 5],
        vec![2, 3, 1, 6, 4, 5, 2],
        vec![3, 1, 2, 4, 6, 4, 1],
        vec![5, 6, 3, 2, 1, 1, 4],
        vec![1, 1, 4, 6, 2, 3, 5],
        vec![6, 2, 7, 7, 1, 4, 4],
    ]
}

fn roster_without(r: usize) -> Vec<Vec<usize>> {
    let mut p = roster();
    p[r] = vec![0; 7];
    p
}

#[test]
fn solution_new_computes_every_penalty() {
    let sol = Solution::new(roster(), &shifts(), &days());
    assert_eq!(sol.CoveragePenalty, 15);
    assert_eq!(sol.CoverageList, vec![2, 1, 3, 3, 2, 1, 3]);
    assert_eq!(sol.WorktimePenalty, vec![2, 1, 4, 0, 3, 1, 2, 2, 3]);
    assert_eq!(sol.ConsecutivePenalty, vec![0, 0, 0, 10, 0, 0, 0, 0, 0]);
    assert_eq!(sol.AfternoonPenalty, vec![0, 0, 10, 20, 10, 10, 0, 0, 0]);
    assert_eq!(sol.fitness_scaled, 93);
    assert_eq!(sol.fitness_scaled as f64 / FITNESS_SCALE as f64, 23.25);
    assert_eq!(sol.staffs_schedule, roster());
}

#[test]
fn coverage_penalty_is_sum_of_coverage_list() {
    let sol = Solution::new(roster(), &shifts(), &days());
    let total: usize = sol.CoverageList.iter().sum();
    assert_eq!(total as i32, sol.CoveragePenalty);
}

#[test]
fn solution_of_empty_roster() {
    let sol = Solution::new(vec![vec![0; 7]; 9], &shifts(), &days());
    // every staff member is 44 hours short; every demand is unmet
    assert_eq!(sol.WorktimePenalty, vec![44; 9]);
    assert_eq!(sol.CoverageList, vec![7, 7, 6, 6, 7, 6, 6]);
    assert_eq!(sol.CoveragePenalty, 45);
    assert_eq!(sol.fitness_scaled, 45 + 9 * 44);
}

#[test]
fn copy_keeps_every_field() {
    let sol = Solution::new(roster(), &shifts(), &days());
    let c = sol.copy();
    assert_eq!(c.staffs_schedule, sol.staffs_schedule);
    assert_eq!(c.fitness_scaled, sol.fitness_scaled);
    assert_eq!(c.WorktimePenalty, sol.WorktimePenalty);
    assert_eq!(c.CoverageList, sol.CoverageList);
}

#[test]
fn check_worktime_picks_closest_to_target() {
    let sh = shifts();
    assert_eq!(check_worktime(&vec![1, 2, 3], &sh, 0), 2);
    assert_eq!(check_worktime(&vec![4, 5], &sh, 0), 5);
    assert_eq!(check_worktime(&vec![1, 2, 3, 4, 5], &sh, 1), 2);
    assert_eq!(check_worktime(&vec![4, 5], &sh, 3), 5);
}

#[test]
fn check_worktime_first_on_ties() {
    // durations of entries 0 and 1 tie; the first candidate wins
    let sh: Vec<Shift> = (0..7)
        .map(|i| Shift { id: i, shift_type: 0, shift_duration: if i < 2 { 5 } else { 3 } })
        .collect();
    assert_eq!(check_worktime(&vec![9, 8, 7], &sh, 0), 9);
}

#[test]
fn check_coverage_follows_shortage() {
    let p = roster_without(3);
    let sh = shifts();
    let d = days();
    let got: Vec<usize> = (0..7).map(|k| check_coverage(&p, 3, &sh, &d, k)).collect();
    assert_eq!(got, vec![5, 5, 5, 2, 2, DAY_OFF, DAY_OFF]);
}

#[test]
fn check_coverage_working_shift_when_day_off_taken() {
    let mut p = roster_without(3);
    p[3][5] = DAY_OFF;
    assert_eq!(check_coverage(&p, 3, &shifts(), &days(), 5), 2);
}

#[test]
fn greedy_repair_fills_forward() {
    let sol = greedy_repair(&roster_without(3), 3, &staffs(), &shifts(), &days());
    assert_eq!(sol.staffs_schedule[3], vec![5, 5, 7, 7, 2, 6, 2]);
    for i in 0..9 {
        if i != 3 {
            assert_eq!(sol.staffs_schedule[i], roster()[i]);
        }
    }
    assert_eq!(sol.fitness_scaled, 59);
}

#[test]
fn reverse_greedy_repair_fills_backward() {
    let sol = reverse_greedy_repair(&roster_without(3), 3, &staffs(), &shifts(), &days());
    assert_eq!(sol.staffs_schedule[3], vec![5, 5, 7, 7, 2, 2, 6]);
    assert_eq!(sol.fitness_scaled, 59);
}

#[test]
fn repair_in_order_matches_greedy() {
    let order: Vec<usize> = (0..7).collect();
    let a = repair_in_order(&roster_without(4), 4, &order, &staffs(), &shifts(), &days());
    let b = greedy_repair(&roster_without(4), 4, &staffs(), &shifts(), &days());
    assert_eq!(a.staffs_schedule, b.staffs_schedule);
    assert_eq!(a.staffs_schedule[4], vec![5, 6, 5, 2, 2, 2, 2]);
    assert_eq!(a.fitness_scaled, 84);
}

#[test]
fn random_greedy_repair_keeps_other_rows_and_holidays() {
    for _ in 0..20 {
        let sol = random_greedy_repair(&roster_without(3), 3, &staffs(), &shifts(), &days());
        for i in 0..9 {
            if i != 3 {
                assert_eq!(sol.staffs_schedule[i], roster()[i]);
            }
        }
        assert_eq!(sol.staffs_schedule[3][2], PH_SHIFT);
        assert_eq!(sol.staffs_schedule[3][3], PH_SHIFT);
        assert!(sol.staffs_schedule[3].iter().all(|&v| (1..=7).contains(&v)));
        assert_eq!(sol.fitness_scaled, 59);
        let again = Solution::new(sol.staffs_schedule.clone(), &shifts(), &days());
        assert_eq!(again.fitness_scaled, sol.fitness_scaled);
    }
}

#[test]
fn destroy_staff_clears_one_row() {
    let sol = Solution::new(roster(), &shifts(), &days());
    let res = destroy_staff(&sol, 5);
    assert_eq!(res.removed_staff, 5);
    assert_eq!(res.partial_schedule, roster_without(5));
}

#[test]
fn random_destroy_clears_a_row_in_range() {
    let sol = Solution::new(roster(), &shifts(), &days());
    for _ in 0..30 {
        let res = random_destroy(&sol);
        assert!(res.removed_staff < 9);
        assert_eq!(res.partial_schedule, roster_without(res.removed_staff));
    }
}

#[test]
fn worst_destroy_removes_highest_score() {
    let sol = Solution::new(roster(), &shifts(), &days());
    assert!(worst_is_defined(&sol));
    let res = worst_destroy(&sol);
    // scores 2*worktime + afternoon: [4, 2, 18, 20, 16, 12, 4, 4, 6]
    assert_eq!(res.removed_staff, 3);
    assert_eq!(res.partial_schedule, roster_without(3));
}

#[test]
fn worst_destroy_first_on_ties() {
    let mut sol = Solution::new(roster(), &shifts(), &days());
    sol.WorktimePenalty = vec![0, 3, 0, 0, 3, 0, 0, 0, 0];
    sol.AfternoonPenalty = vec![0; 9];
    assert_eq!(worst_destroy(&sol).removed_staff, 1);
}

#[test]
fn worst_is_undefined_without_penalties() {
    let mut sol = Solution::new(roster(), &shifts(), &days());
    sol.WorktimePenalty = vec![0; 9];
    sol.AfternoonPenalty = vec![0; 9];
    assert!(!worst_is_defined(&sol));
    assert!(!move_is_ready(&sol, DestroyOp::Worst, &staffs(), &shifts(), &days()));
    assert!(move_is_ready(&sol, DestroyOp::Random, &staffs(), &shifts(), &days()));
}

#[test]
fn initial_schedule_respects_holidays_and_days_off() {
    let st = staffs();
    let d = days();
    for _ in 0..20 {
        let s = generate_init_sched(&st, &d);
        assert_eq!(s.len(), 9);
        for i in 0..9 {
            assert_eq!(s[i].len(), 7);
            let mut offs = 0;
            for k in 0..7 {
                let holiday = d[k].day_type == 2 && st[i].group == 2;
                if holiday {
                    assert_eq!(s[i][k], PH_SHIFT);
                } else if s[i][k] == DAY_OFF {
                    offs += 1;
                } else {
                    assert!((1..=5).contains(&s[i][k]));
                }
            }
            assert_eq!(offs, 1);
        }
    }
}

#[test]
fn shift_counts_per_day() {
    let counts = update_shift_sched(&roster());
    assert_eq!(
        counts,
        vec![
            vec![0, 0, 0, 0, 0, 0, 0],
            vec![3, 2, 1, 0, 2, 1, 3],
            vec![1, 2, 1, 1, 1, 1, 1],
            vec![1, 1, 2, 0, 0, 1, 1],
            vec![1, 2, 1, 2, 2, 2, 2],
            vec![1, 1, 0, 0, 2, 2, 2],
            vec![2, 1, 0, 2, 2, 2, 0],
        ]
    );
}

#[test]
fn validators_accept_sound_input() {
    assert!(problem_is_ready(&staffs(), &shifts(), &days()));
    assert!(schedule_is_shaped(&roster()));
    assert!(cells_are_below(&roster(), 8));
    assert!(!cells_are_below(&roster(), 7));
    assert!(shifts_are_ok(&shifts()));
    assert!(days_are_ok(&days()));
}

#[test]
fn validators_reject_unsound_input() {
    let mut r = roster();
    r[2].pop();
    assert!(!schedule_is_shaped(&r));
    let mut short_week = days();
    short_week.pop();
    assert!(!days_are_ok(&short_week));
    let mut sh = shifts();
    sh[1].shift_duration = usize::MAX;
    assert!(!shifts_are_ok(&sh));
    // a staff member off on holidays, in a week of holidays only
    let all_holidays: Vec<Day> = (0..7)
        .map(|k| Day { id: k, day_type: 2, morning_cov: 1, afternoon_cov: 1 })
        .collect();
    assert!(!problem_is_ready(&staffs(), &shifts(), &all_holidays));
    let mut short_table = shifts();
    short_table.pop();
    assert!(!problem_is_ready(&staffs(), &short_table, &days()));
}

#[test]
fn apply_worst_then_greedy() {
    let sol = Solution::new(roster(), &shifts(), &days());
    let cand = apply_operators(&sol, DestroyOp::Worst, RepairOp::Greedy, &staffs(), &shifts(), &days());
    assert_eq!(cand.staffs_schedule[3], vec![5, 5, 7, 7, 2, 6, 2]);
    assert_eq!(cand.fitness_scaled, 59);
}

#[test]
fn apply_random_ops_change_one_week() {
    let sol = Solution::new(roster(), &shifts(), &days());
    for rep in [RepairOp::Greedy, RepairOp::Reverse_Greedy, RepairOp::Random_Greedy] {
        for _ in 0..10 {
            let cand = apply_operators(&sol, DestroyOp::Random, rep, &staffs(), &shifts(), &days());
            let changed: Vec<usize> =
                (0..9).filter(|&i| cand.staffs_schedule[i] != roster()[i]).collect();
            assert!(changed.len() <= 1);
            for i in 0..9 {
                assert!(cand.staffs_schedule[i].iter().all(|&v| (1..=7).contains(&v)));
            }
        }
    }
}

fn with_fitness(f: u64) -> Solution {
    let mut s = Solution::new(roster(), &shifts(), &days());
    s.fitness_scaled = f;
    s
}

#[test]
fn commit_new_global_best() {
    let mut st = AlnsState::new(with_fitness(100));
    let cand = with_fitness(80);
    assert_eq!(st.judge(&cand), Verdict::NewGlobalBest);
    let score = st.commit(DestroyOp::Worst, RepairOp::Greedy, cand, false);
    assert_eq!(score, 15);
    assert_eq!(st.best.fitness_scaled, 80);
    assert_eq!(st.current.fitness_scaled, 80);
    assert_eq!(st.scores.destroy_worst, 15);
    assert_eq!(st.scores.repair_greedy, 15);
    assert_eq!(st.scores.destroy_random, 0);
    assert_eq!(st.counts.destroy_worst, 1);
    assert_eq!(st.counts.repair_greedy, 1);
}

#[test]
fn commit_better_than_current() {
    let mut st = AlnsState::new(with_fitness(100));
    st.commit(DestroyOp::Random, RepairOp::Greedy, with_fitness(120), true);
    assert_eq!(st.current.fitness_scaled, 120);
    let cand = with_fitness(110);
    assert_eq!(st.judge(&cand), Verdict::BetterThanCurrent);
    let score = st.commit(DestroyOp::Random, RepairOp::Reverse_Greedy, cand, false);
    assert_eq!(score, 10);
    assert_eq!(st.current.fitness_scaled, 110);
    assert_eq!(st.best.fitness_scaled, 100);
    assert_eq!(st.scores.destroy_random, 15);
    assert_eq!(st.counts.destroy_random, 2);
    assert_eq!(st.scores.repair_reverse_greedy, 10);
}

#[test]
fn commit_worse_accepted_or_rejected() {
    let mut st = AlnsState::new(with_fitness(100));
    let score = st.commit(DestroyOp::Random, RepairOp::Random_Greedy, with_fitness(100), false);
    assert_eq!(score, 0);
    assert_eq!(st.current.fitness_scaled, 100);
    assert_eq!(st.counts.repair_random_greedy, 1);
    assert_eq!(st.scores.repair_random_greedy, 0);
    let score = st.commit(DestroyOp::Random, RepairOp::Random_Greedy, with_fitness(130), true);
    assert_eq!(score, 5);
    assert_eq!(st.current.fitness_scaled, 130);
    assert_eq!(st.best.fitness_scaled, 100);
    assert!(st.best.fitness_scaled <= st.current.fitness_scaled);
}

#[test]
fn best_is_running_minimum() {
    let mut st = AlnsState::new(with_fitness(90));
    let mut min = 90;
    for (f, acc) in [(95, true), (70, false), (85, true), (60, false), (75, true)] {
        st.commit(DestroyOp::Random, RepairOp::Greedy, with_fitness(f), acc);
        if f < min {
            min = f;
        }
        assert_eq!(st.best.fitness_scaled, min);
        assert!(st.best.fitness_scaled <= st.current.fitness_scaled);
    }
}

#[test]
fn tallies_reset_and_room() {
    let mut st = AlnsState::new(with_fitness(50));
    st.commit(DestroyOp::Worst, RepairOp::Greedy, with_fitness(40), false);
    assert!(st.has_room());
    st.reset_tallies();
    assert_eq!(st.scores.destroy_worst, 0);
    assert_eq!(st.counts.repair_greedy, 0);
    assert_eq!(st.best.fitness_scaled, 40);
    st.scores.destroy_random = u64::MAX;
    assert!(!st.has_room());
}

#[test]
fn tally_add_credits_both_operators() {
    let mut t = OperatorTally::zero();
    t.add(DestroyOp::Random, RepairOp::Reverse_Greedy, 7);
    t.add(DestroyOp::Worst, RepairOp::Reverse_Greedy, 3);
    assert_eq!(t.destroy_random, 7);
    assert_eq!(t.destroy_worst, 3);
    assert_eq!(t.repair_reverse_greedy, 10);
    assert_eq!(t.repair_greedy, 0);
    assert_eq!(t.repair_random_greedy, 0);
}

#[test]
fn shift_counts_add_up_to_staff_below_holiday_code() {
    let r = roster();
    let counts = update_shift_sched(&r);
    for k in 0..7 {
        let total: usize = (0..7).map(|j| counts[j][k]).sum();
        let below: usize = (0..9).filter(|&i| r[i][k] < 7).count();
        assert_eq!(total, below);
        assert!(total <= 9);
    }
}

#[test]
fn initial_row_follows_the_draws() {
    // staff 1 is off on holidays (days 2 and 3); its free days are 0, 1, 4, 5, 6
    let row = initial_row_from_draws(1, &staffs(), &days(), 2, &vec![0, 1, 2, 3, 4, 0, 1]);
    assert_eq!(row, vec![1, 2, PH_SHIFT, PH_SHIFT, DAY_OFF, 1, 2]);
    // staff 0 has no holiday off: free day 0 is day 0
    let row = initial_row_from_draws(0, &staffs(), &days(), 0, &vec![4, 1, 2, 3, 4, 0, 1]);
    assert_eq!(row, vec![DAY_OFF, 2, 3, 4, 5, 1, 2]);
    let row = initial_row_from_draws(0, &staffs(), &days(), 6, &vec![0; 7]);
    assert_eq!(row, vec![1, 1, 1, 1, 1, 1, DAY_OFF]);
}

#[test]
fn repair_order_moves_only_the_day_off() {
    let g = greedy_repair(&roster_without(3), 3, &staffs(), &shifts(), &days());
    let v = reverse_greedy_repair(&roster_without(3), 3, &staffs(), &shifts(), &days());
    // free days for staff 3 are 5 and 6: forward puts the day off on 5, backward on 6
    assert_eq!(g.staffs_schedule[3][5], DAY_OFF);
    assert_eq!(v.staffs_schedule[3][6], DAY_OFF);
    for _ in 0..20 {
        let r = random_greedy_repair(&roster_without(3), 3, &staffs(), &shifts(), &days());
        let offs = r.staffs_schedule[3].iter().filter(|&&x| x == DAY_OFF).count();
        assert_eq!(offs, 1);
        for k in 0..7 {
            let a = r.staffs_schedule[3][k];
            let b = g.staffs_schedule[3][k];
            if a != DAY_OFF && b != DAY_OFF {
                assert_eq!(a, b);
            }
        }
    }
}

#[test]
fn move_gives_holidays_exactly_and_one_day_off() {
    let sol = Solution::new(roster(), &shifts(), &days());
    let st = staffs();
    let d = days();
    for _ in 0..20 {
        let cand = apply_operators(&sol, DestroyOp::Random, RepairOp::Random_Greedy, &st, &shifts(), &d);
        for i in 0..9 {
            if cand.staffs_schedule[i] != roster()[i] {
                let offs = cand.staffs_schedule[i].iter().filter(|&&x| x == DAY_OFF).count();
                assert!(offs <= 1);
                for k in 0..7 {
                    let holiday = d[k].day_type == 2 && st[i].group == 2;
                    assert_eq!(cand.staffs_schedule[i][k] == PH_SHIFT, holiday);
                }
            }
        }
    }
}

#[test]
fn check_coverage_reads_only_its_day() {
    let p1 = roster_without(3);
    let mut p2 = roster_without(3);
    // change other days of other staff, keep day 4 and staff 3's lack of a day off
    p2[0][0] = 4;
    p2[1][6] = 1;
    p2[5][2] = 5;
    for k in [3, 4] {
        assert_eq!(
            check_coverage(&p1, 3, &shifts(), &days(), k),
            check_coverage(&p2, 3, &shifts(), &days(), k)
        );
    }
}

#[test]
fn search_steps_keep_rosters_sound() {
    let st = staffs();
    let sh = shifts();
    let d = days();
    let init = generate_init_sched(&st, &d);
    let mut state = AlnsState::new(Solution::new(init, &sh, &d));
    let ops = [
        (DestroyOp::Random, RepairOp::Greedy),
        (DestroyOp::Random, RepairOp::Reverse_Greedy),
        (DestroyOp::Random, RepairOp::Random_Greedy),
    ];
    for step in 0..30 {
        let (dop, rop) = ops[step % 3];
        assert!(move_is_ready(&state.current, dop, &st, &sh, &d));
        let cand = apply_operators(&state.current, dop, rop, &st, &sh, &d);
        state.commit(dop, rop, cand, step % 2 == 0);
        for sol in [&state.current, &state.best] {
            let again = Solution::new(sol.staffs_schedule.clone(), &sh, &d);
            assert_eq!(again.fitness_scaled, sol.fitness_scaled);
            assert_eq!(again.WorktimePenalty, sol.WorktimePenalty);
            for i in 0..9 {
                let row = &sol.staffs_schedule[i];
                assert!(row.iter().filter(|&&x| x == DAY_OFF).count() <= 1);
                for k in 0..7 {
                    assert!((1..=7).contains(&row[k]));
                    let holiday = d[k].day_type == 2 && st[i].group == 2;
                    assert_eq!(row[k] == PH_SHIFT, holiday);
                }
            }
        }
        assert!(state.best.fitness_scaled <= state.current.fitness_scaled);
        state.reset_tallies();
    }
}
