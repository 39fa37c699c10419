# usbtop_ng

The logic of a USB traffic monitor, verified with Verus: what is on the buses,
what each device moved in a window, where a link is slower than the device on
it could go, and what goes into a report, a captured fixture or a support
bundle.

- `src/` is the library. It reads nothing and writes nothing: device trees come
  in as `sysfs::Node` values, time and outcomes as arguments, and what is to be
  written goes out as values and steps. Each public function states what it
  returns or changes; the `law_…` functions state what holds across calls.
- `tests/` runs the library on concrete values.
- `app/` is ordinary Rust around the library: files, processes, the terminal,
  the clock, and the JSON and TOML documents.

Rates are kept as bytes and nanoseconds, capacities as hundredths of a bit per
second; what is printed of them is the exact quotient, rounded half to even.

What the library takes on trust from `std` and `serde_json` stands beside the
wrapper that makes the call: `text.rs`, `json.rs`, `filter/mod.rs`,
`diag/redact.rs` and `fixture_corpus.rs`.
