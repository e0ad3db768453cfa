# ava

Pieces of the agent-versus-agent tournament runner, proved with Verus.

- `src/monitor.rs`: the monitor of an agent's output. It counts the bytes,
  follows the lines of the event stream for one repeated over and over, and
  watches that stream for the marker a harness prints once it answers with
  another model. Its contracts speak of a mathematical state, and the laws
  beside it show that how the output is cut into chunks makes no difference
  to the byte count and the fallback, that a fallback is sticky, and that ten
  repeats of one long line mark a loop, in one read or spread over many.
- `src/registry.rs`: which harness prints which fallback marker.
- `src/process.rs`: what is made of an external program's output: the text
  it printed, trimmed, and the lines of its standard error to log.
- `src/chart.rs`: the text of the charts: escaping, the pieces a tick label
  breaks into, colours, hover rules and the ticks of the integer axes.
- `src/report.rs`: the text of the report: its file name, tabs, column
  headers, token labels, base64 and data addresses, and the document that
  carries its assets inside it.
- `src/text.rs`: strings built character by character, decimal numbers, and
  search and replace with the semantics of `str::replace`.
- `app/`: what cannot be verified: running programs, sharing the monitor
  between threads behind a mutex, and the floating-point geometry of charts.
- `tests/`: tests of the library on concrete values.

Not here: the report's tallies, ratios and charts, which compute over
floating point, and the pages that serve it and the time axis of its charts,
which read the tournament store and format with the view and usage helpers
of the runner that this crate does not hold. The integer parts they rest on
(`tokens_until`, `leveled`, `seconds_ticks`, `counted_ticks`) are verified
here and wait for those callers.
