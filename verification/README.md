# zkbench

Profiles proof generation for Noir circuits: for one circuit it measures
witness generation (`nargo execute`) and proof generation (`bb prove`),
wall-clock time and peak memory, repeated and reduced to medians, and
records the circuit size that `bb gates` reports.

- `src/` is the verified library (Verus): parsing of GNU time's `%e %M`
  stats, medians, the run as a state machine (compile, circuit size, then
  strictly alternating witness/prove rounds, then the report), reading the
  `bb gates` JSON, reading tool versions, and the heaviness classification
  used by the report.
- `app/` is the command-line program around it: processes, spinners,
  tables, colours and the result JSON file.
- `tests/` exercises the library.
