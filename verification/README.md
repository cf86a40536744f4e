# tracer, verified core

`tracer` wraps `curl` and prints a readable trace of an HTTP request: the
request, curl's transfer metadata, and the (pretty-printed, optionally
coloured) response body.

The library under `src/` holds the logic, verified with Verus:

- `args` — the command line (`parse_args`), with its exact accept/refuse rules;
- `curl` — the arguments curl runs with, and splitting curl's output into the
  body and the `-w` metadata;
- `json` — the JSON pretty-printer, the body formatter and the token colourer;
- `color` — when colour is on and which escape code each kind of text gets;
- `report` — shell quoting, the curl preview and the layout of the report;
- `text` — character helpers (Unicode whitespace, trimming, comparisons).

`app/main.rs` is the program around it: it reads the command line and the
environment, runs curl, formats the total time (a floating-point value) and
prints the report.
