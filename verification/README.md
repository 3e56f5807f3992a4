# rtrtr

The data handling of an RPKI data proxy, verified with Verus: sets of
payload items (route origins, router keys, ASPA units) and the differences
between them, the JSON format they are written in, local exceptions, the
bookkeeping of RTR and HTTP targets, and the metrics of all of these.

- `src/` is the library. Every function in it carries a contract that
  Verus proves. Calls into the `rpki`, `chrono` and `rand` crates go
  through a few trusted wrappers whose contracts say what is assumed of
  them.
- `tests/` runs the library on concrete values.
- `app/` is a small command line program around the library: it reads data
  sets in the JSON format, merges them, applies local exceptions and writes
  the result or the metrics of the run, or serves the result over HTTP.
