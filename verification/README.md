# argtuner

A black-box hyperparameter tuner for command-line programs, with its logic
verified by Verus.

A project directory holds `argtuner.toml`: a command template with
`{placeholder}`s, a search space, a sampler (particle swarm or random) and a
scheduler (a fixed number of trials, or successive halving). Each trial
renders the template, runs the command, reads the `::ARGTUNER::` JSON
messages it prints, and records the result in `trials.sqlite`, mirrored to
`trials.csv`.

## Layout

- `src/` — the verified library:
  - `text`, `fields`, `json`: strings, sorted field maps, JSON values;
  - `command`: templates (rendering, quoting, conditional flags), the
    output protocol, payloads and what a finished command means;
  - `trial`: rendering a trial, merging recorded fields, table rows and
    headers;
  - `scheduler`: the fixed and successive-halving schedulers and the budget
    plan;
  - `tuner`, `sampler`, `space`: the bookkeeping of a scheduled run, the pool
    of unused discrete configurations, integer/choice/boolean parameters;
  - `project`, `validate`, `inspect`, `display`, `discover`, `checkpoint`:
    configuration sections, checks, summaries, labels, project search and
    the stop flag.
- `app/` — the command line: configuration files, SQLite and CSV, running
  commands, float parameters and scores, the particle-swarm optimiser.
- `tests/` — tests of the library.
