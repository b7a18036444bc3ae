# ric3

The verified core of rIC3, a hardware model checker built around IC3/PDR:
the literals and cubes it reasons with, the clause arena, watch lists and
unit propagation of its SAT solver, the decision queues, the
simplification and compaction of the clause database, proof obligations,
the frames of lemmas, the transition model, and the schedules of its
bounded engines (BMC, k-induction, interpolation).

Every function under `src/` carries a `requires`/`ensures` contract proved
by Verus. The laws that relate several functions (orders being strict and
total, a lemma added to a frame being found there again, negation commuting
with the next-state map, ...) are public proof functions beside the code
they speak of.

Layout:

- `src/` — the library, one module per concern (`lit`, `cube`, `cdb`,
  `watch`, `solver`, `solver_clauses`, `simplify`, `subsume`, `learnt`, `ic3_step`, `gc`,
  `vsids`, `heap`,
  `domain`, `frame`, `proofoblig`, `model`, ...).
- `tests/` — tests of the library on concrete values.
- `app/` — the command-line front end: argument parsing, file checks, and
  the floating-point activity bookkeeping that stays outside the proofs.

Randomness comes from the `rand` crate through small trusted wrappers
in `src/random.rs`.
