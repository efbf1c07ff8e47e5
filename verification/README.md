# soroban_cost

Per-function cost reports for Soroban contracts, checked with Verus.

A contract's tests wrap calls in the harness's `record`, which prints one
line per call: the marker `##SOROBAN_COST_JSON##` and a JSON object with the
label, CPU instructions and memory bytes.  The CLI runs `cargo test`, picks
those lines out of the output, and reports each function's share of the
mainnet resource limits, worst first, as colored terminal tables and as a
self-contained HTML page.

Layout:

- `src/` — the verified library: limits (`limits`), the shares a report
  shows and the severity bands (`usage`), the stable worst-first ranking
  (`ranking`), the terminal report (`report`, `paint`), label
  disambiguation (`labels`), the HTML reports and escaping (`html`), the
  output line protocol (`protocol`) and the harness's record line
  (`harness`).
- `app/` — the command-line program and the harness's `record` function:
  argument parsing, running `cargo test`, JSON parsing with serde, the
  floating-point shares of each record (percentages, bands and ranking
  keys), measuring with `soroban-sdk`, printing and writing files.
- `tests/` — tests of the library, several against float formatting and
  owo-colors output.
