# samply_hotspots

Hot-function summaries of Firefox Profiler JSON profiles written by
`samply record --save-only`, with symbolication by `atos`.

- `src/` is the library, verified with Verus: the profile model
  (`profile`), stack walking and counting (`parse`), count tables and
  ranking (`counts`), which images are the target binary (`paths`),
  symbol clean-up (`symbol`), symbolication plans and `atos` input/output
  (`resolve`), report rows and line-level breakdowns (`report`), option
  checks (`args`), integer parsing and formatting (`number`), character
  helpers (`text`) and properties relating them (`laws`).
- `app/` is the command-line program: option parsing, reading the JSON
  file, canonicalising paths, running `atos`, and printing (percentages and
  CPU seconds are computed there, in floating point).
- `tests/` exercises the library.
