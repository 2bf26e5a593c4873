# span_graph

Call graphs of spans and events, for a `tracing` layer that prints them.

- `src/` is the library: which spans are open (`state`, `layer`), what a finished graph
  holds (`node`, `events`, `metadata`), which rows are displayed (`rows`, `render`), and
  the text of a row and of the whole tree (`label`, `tree`, `text`). What follows from
  the contracts for the library as a whole stands in `accumulate_laws`, `rows_laws`,
  `label_laws`, `state_laws`, `history_laws`, `success_laws` and `events`.
- `app/` is the `tracing-subscriber` layer around it: locks, the clock, the environment,
  percentages and printing.
- `tests/` runs the library on concrete graphs.

Durations are nanoseconds; threads and spans go by number. How a duration compares with
the time of the whole graph is asked of a function, because percentages are floating
point.
