# tournaments

The rules of a debating-tournament manager, written in Verus and proved
against their contracts: side names, rounds and their status, ballots and the
checks that compare them, the aggregation of a panel's ballots into results,
the ballot form, team standings, the public standings table and metrics,
random and power-paired draws, availability of teams and judges, and the
draw editor's moves.

- `src/` is the verified library. Each module states its rules as spec
  functions over `Seq`, `Set` and plain values, and each executable function
  proves its `ensures` against them. Public proof functions state the laws
  that span several functions (for example, that swapping two teams twice
  restores a draw, that tied teams get equal points, or that stored metrics
  read back unchanged).
  Calls into outside crates (`ammonia`, `chrono`, `rand`, `uuid`) stand behind
  small wrappers whose contracts say what those crates document.
- `app/` holds what stays outside the proofs: the ballot form with decimal
  scores as the web form sends it, team metrics as the database stores them,
  the orchestration of a draw around its storage, and the power-paired
  draw's optimisation and room allocation, which run in floating point
  through `good_lp`.
- `tests/` runs the library on concrete cases.

Speaker scores and decimal metric values are held in hundredths of a point.
