# alns

Weekly staff rostering by adaptive large neighbourhood search, verified with Verus.

A roster gives each of the 9 staff members a shift code for each of the 7 days
(0 unassigned, 1-3 morning, 4-5 afternoon, 6 day off, 7 public holiday). Its
fitness is a weighted sum of four penalties: coverage shortfall or excess per
day, distance from 44 weekly hours per staff member, runs of three afternoon
shifts, and afternoon shifts right after a rest day.

Layout:

- `src/utils.rs` - dimensions, shift codes, weights, shift classes.
- `src/structs.rs` - staff, days, shifts, `Solution` and its penalties
  (`Solution::new` is proved to compute `evaluate`).
- `src/operators/destroy_ops.rs` - random and worst destroy.
- `src/operators/repair_ops.rs` - coverage/worktime shift choice and the
  greedy, reverse greedy and random greedy repairs.
- `src/alns.rs` - initial roster, shift counts, one destroy/repair move, and
  the search state with its acceptance and scoring rules.
- `src/random.rs` - the calls into `rand`.
- `app/main.rs` - Excel input/output, the floating-point operator weights and
  simulated-annealing acceptance, and the search loop.
