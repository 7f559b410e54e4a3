# simblock

A discrete-event simulator of block propagation in blockchain peer-to-peer networks
(SimBlock-style), written in Verus.

## Layout

- `src/` — the verified library.
  - `simulation/` — the simulation state (`Simulation`), the event queue, the gossip and
    mining handlers, node initialisation, propagation tracking, chain queries, the data behind
    the output files, and `progress.rs`, which states what every transition keeps (clock and
    layer counter never go back, blocks are only appended, links are fixed, no tip loses work,
    the event log grows in time order), and `sending.rs`, which states that the block sends of
    a node are serialized (one payload in flight exactly while the node is sending).
  - `routing/` — random outbound links and neighbor lists.
  - `consensus/`, `difficulty.rs` — proof-of-work validation over arbitrary-size work amounts.
  - `config.rs`, `file_config.rs`, `network.rs`, `output.rs`, `block.rs`, `event.rs`.
- `app/` — the command-line program: settings file, the floating-point draws (latency, mining
  delay, mining power, failure sizes, regional shares and rates), the run loop that answers the
  library's draw requests, and the file writers.
- `tests/` — tests of the library.

Every random draw that involves floating point is made by the caller: each simulation step
returns the draws it needs as `SampleRequest`s, in order, and the caller hands each result back
through the matching `resolve_*` method (or `on_compact_decoded`).

## Output files

`output.json` (event trace), `static.json` (regions), `graph/<h>.txt` (directed links),
`blockList.txt` (node 1's chain and all orphans, by time then id) and `propagation.csv`
(`block_id,height,node_id,delay_ms`), written under the output directory given on the command
line (default `output/run-<YYYYMMDD_HHMMSS>/`). `--config <file.toml>` selects a network preset
(`bitcoin2019`, `bitcoin2015`, `litecoin`, `dogecoin`) and overrides simulation fields.
