# henosis

The decision logic of the Henosis graph orchestrator, verified with Verus:
plans and the effects they dispatch to controllers, the checks on what an
evaluation returns, the controllers' per-resource decisions (Cloudflare,
Supabase, Kubernetes manifests), the journal's replay and append
resolution, the Git intent poll, and the deterministic simulation kit
(clock, seeded streams, wait graphs, traces).

- `src/` is the library. Every function in it carries a contract that Verus
  proves; calls into BLAKE3, SHA-256, hex and ChaCha go through small trusted
  wrappers in `digest.rs`, `fmt.rs` and `rng.rs` whose contracts say what
  those crates document.
- `app/` holds the I/O around it: running `git`, reading artifacts,
  database sessions, the controller lane loop, graph application and the
  intent poll loop, each handing plain values to the library.
- `tests/` runs the library on concrete cases.
