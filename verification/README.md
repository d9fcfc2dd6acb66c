# fabric_te

A flow-level, deterministic simulator of a rail-optimized GPU cluster fabric
(GPUs on rails, leaves, spines), written in Verus.

## Layout

- `src/` — the library, verified by Verus: the topology generator and its laws,
  collective timing, the future-event list, residual bandwidth, route
  candidates, max-min water-fill, first-fit admission, epoch preparation and
  commit after failures, the event kernel and the run report (with its HTML
  page).
- `app/` — the command-line program: argument handling, reading topology and
  mix files, writing `report.json`, `report.html` and the Parquet traces.
- `tests/` — tests against the library.

## What is trusted

Every function in `src/` is verified except two trusted items in
`src/fingerprint.rs`, which call SHA-256 from the `sha2` crate: the contract
says the digest is 32 bytes and a function of the input bytes alone. Nothing
in `app/` is verified.

## Dependencies

`sha2` computes fingerprints; `serde`, `serde_json` and `toml` read and write
files; `clap` parses arguments; `arrow` and `parquet` write the traces.
`chrono` is not called directly: it is pinned because `arrow` 51 does not
build against later `chrono` releases.
