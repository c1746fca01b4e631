# gb10x

Exact per-layer-embedding (PLE) storage and host planning for the NVIDIA GB10, written as a
Verus library with a thin command-line program around it.

- `src/` is the verified library. Every function there carries a `requires`/`ensures`
  contract that Verus proves; the `law_*` proof functions state properties that relate
  several functions (what a reader finds in a sidecar the writer prepared, what a token
  window restores on abort, which caches a host probe lists, ...).
  - `ple_hash`: the exact n-gram row hash and its speculative token window.
  - `layout`, `format`, `disk`, `writer`, `reader`, `sidecar_roundtrip`: hot-overlay
    sidecar planning, on-disk encoding, image preparation, checks and lookups.
  - `safetensors`, `qwen38_manifest`, `hash_buffers`, `raw_source`, `json`, `digest`: the
    pinned checkpoint's index, headers, tensor payloads and source digests.
  - `platform`, `linux_probe`, `validate`, `cache_fabric`, `ple_hydra`: host facts, GB10
    validation, CPU hot-cache ownership and tier simulation.
  - `device`, `cuda_abi`, `toolchain`, `probe`: CUDA device records and toolkit checks.
  - `telemetry`: the rules an evidence record must meet.
- `app/` holds what is not verified: argument parsing, JSON rendering, the classification of
  floating-point measurements, and the I/O loops that feed verified steps — opening each
  manifest-referenced shard and mapping it, walking the sysfs cache directories, reading the
  files and byte ranges that the verified hash-buffer read plan names, each header and
  payload going straight to the verified tally that checks and counts it, and publishing a
  prepared sidecar with a create-only link.
  Each decision in those loops (which bytes to read, what they must hold, what is reported)
  is a function of `src/`.
- `tests/` exercises the library on concrete values.
