# Seat Planner

A planner for seating wedding guests at round tables. Guests are linked in pairs by
constraints of four kinds (Must, Should, Could, Wont) and the solver seats them:
Must groups together at one table (or an error when that cannot be done), Wont pairs
at different tables, everybody else at the table holding most of their Must and
Should partners, next to them where it can, and then on the free seats.

The library is written in Verus and proved against its contracts:

- `src/guest.rs`: the guest list (numbers handed out once, trimmed unique names,
  case-insensitive search).
- `src/constraint.rs`: the constraints and the per-guest link lists kept in step with
  them, the Must groups, and the laws of reading back what was written.
- `src/table.rs`: tables, seats, neighbours around a round table, the arrangement.
- `src/solver.rs`: the seating model as spec functions and the solver proved to compute
  it, with the errors and the guarantees of a seating.
- `src/ui.rs`: the decisions of the screen (when to solve, what to show and offer).
- `src/text.rs`: text helpers over `str`.
- `src/seq_lemmas.rs`: small facts about sequences that the proofs share.

`app/` is the egui front end (native and web) around the library; `tests/` runs the
library on concrete plans.
