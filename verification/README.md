# reasonmetrics

Quality signals for LLM reasoning traces (`<think>…</think>`), as a verified
library plus a command-line front end.

- `src/` — the library, verified with Verus: thinking extraction, span
  annotations (restarts, self-verification, repeated sentences), the exact
  counts and integer scores behind each scoring dimension, and the pure parts
  of the benchmark (bundled task sets and their digest, completion splitting,
  the judge rubric, result validation, leaderboard deduplication and grouping, regrouping of
  parallel model calls per task).
- `app/` — the `reasonmetrics` command line: JSONL/Parquet I/O, the HTML
  report, floating-point weighting of the dimensions, the HTTP model backend
  and the leaderboard renderers, all calling into the library.
- `tests/` — tests of the library's public API.
