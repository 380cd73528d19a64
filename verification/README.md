# elide_core

The verified core of a log-structured block volume: which content each logical
block reads, which segments are live, how segments are repacked and bloated
extents rewritten, when a promote, a flush or a plan may proceed, and the signed
texts that carry a volume's lineage.

* `src/` is the library. Each function states in its contract what it returns or
  changes, and Verus proves it. Functions named `law_..` state what holds of
  several functions together.
  * Blocks: `lbamap`, `map_layers`, `rebuild`, `journal`, `order`
  * Content: `ids`, `chunk_tree`, `extent_index`, `segment`, `hash_set`,
    `source_cache`, `persistent`
  * Deltas: `delta_codec`, `delta_compute`, `delta_passes`
  * Compaction: `liveness`, `segment_classify`, `repack`, `plan_coverage`, `gc_apply`,
    `reclaim`
  * Serving: `actor`, `lock_stats`, `lock_history`, `switches`, `config`, `ext4_scan`
  * Signed texts: `keys`, `signing`, `possession`, `snapshots`, `text`,
    `ulid_text`
* `app/` is the ordinary Rust around it: files, threads, channels, locks, signals
  and the stored configuration.
* `tests/` runs the library with the crates it calls.

What is trusted and not proved are the small functions marked `external_body`
that call blake3, zstd, ed25519-dalek, ulid, imbl, lru and the standard library.
Each says above it what its contract claims of the call.
