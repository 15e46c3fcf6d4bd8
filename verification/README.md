# ingot

Data-model side of an embedded key-value store generator: a TOML model of
namespaces, classes and typed keys is loaded, prepared and summarised into
the manifest (`schema/dm_full.yaml`) that downstream tools read.

`src/` is the verified library:

- `strings` — code-point order on strings (a strict total order), space
  replacement, upper-casing.
- `strmap` — a string-keyed map kept in key order, as `BTreeMap<String, _>`.
- `key` — the 32-bit key identifier and the proof that it decodes back.
- `model` — the model types.
- `prepare` — key positions, per-variant overrides, merging several model
  files, per-type counts.
- `manifest` — the manifest: define names, encoded ids, inlined enum values,
  defaults, namespaces in name order.
- `files` — which model files a run reads (`.toml` entries, in name order).
- `run` — option checks, template-directory search, model preparation and
  backend choice.
- `rust_kvp` — key constants and persistent names for the Rust backend.

`app/` is the command line: argument parsing, file and directory reading,
TOML and YAML (de)serialisation, logging.
