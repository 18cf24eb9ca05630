# topo

The Topo Rust runtime's library core, written in Verus. The logic in
`src/` is verified against its contracts; what it takes from outside
(the `toml` parser, `String::push`, the I/O error type) stands behind a
few trusted declarations whose contracts Verus believes without proof,
and the runtime entry points that do nothing without the native runtimes
(`observe`, `parallel`, `adaptive`) state little or nothing.

- `config_model` — the layered product configuration: the b/a/c layers
  and their precedence, provenance, the `Topo.toml` boundary guard, the
  stdlib value-type contract, tags, read tiers, the write gate, the
  unified browse and the pure-internal (`d`) catalogue.
- `config` — decoding a TOML document (parsed by the `toml` crate) into
  the flat dotted-key map, and `ProductConfig` over the model.
- `toml_emit` — the deterministic TOML writer.
- `schema`, `graph`, `app` — handler types, the logic graph, its
  order-insensitive semantic key, registration and flows, snapshots.
- `readback`, `check` — reading the toolchain's AST dump back into a
  graph, and the check's project text and verdict.
- `laws` — properties spanning several operations.
- `strmap`, `text` — ordered string-keyed collections and text helpers.
- `adaptive`, `jit`, `observe`, `parallel`, `pipeline` — the runtime
  entry points as they behave without the native runtimes.

`app/` holds what touches files, processes, the environment or raw
pointers.
