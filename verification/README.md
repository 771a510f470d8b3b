# grading

A grading desk: questions with full scores and weights, a roster of
students, the scores entered for each student and question, and grade bands
by final percentage.

- `src/` is the library, verified with Verus: the data model (`models`),
  score entry and the score matrix (`grading`), grade bands and the
  histogram (`rating`), stable ordering (`sorting`), the roster and the
  student search (`students`), panel navigation (`panels`), row checks for
  the database (`db`), CSV import (`csv_import`), JSON error messages
  (`json_error`), the steps of loading a saved session (`session`) and
  exact text helpers (`text`).
- `app/` is the Dioxus desktop application around it: windows, file
  dialogs, the SQLite store, JSON (de)serialisation and the floating-point
  arithmetic of final percentages.
- `tests/` exercises the library on concrete values.

Weights are `f32` in the saved files; the library carries them as their
bit patterns (`f32::to_bits`), so they pass through it unchanged.
