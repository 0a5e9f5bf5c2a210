# got

How much of a codebase survives over time: line counts of a git history,
grouped by the year each line was added (cohort), extension, author,
top-level directory and e-mail domain, and the survival of each commit's
lines, with line, stack and survival plots of the results.

- `src/` is the library, verified with Verus: path classification and
  filtering, commit sampling, fast-diff planning, per-file line counts and
  their accumulation into curves and survival histories, merging of several
  repositories, curve files and their alignment and trimming, survival
  deltas and the reading of survival files, the calendar-event manifest
  (from its bytes), and the layout of event annotations
  (markers, key, wrapping, dashes, hover targets).
- `app/` is the command line (`analyze`, `line-plot`, `stack-plot`,
  `survival-plot`): repository access with git2, parallel blame with rayon,
  progress bars, JSON and YAML files, and drawing with plotters.
- `tests/` exercises the library on concrete values.
