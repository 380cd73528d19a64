//! Core of a log-structured block volume: the logical block map, the layered
//! read view, segment liveness, repack and reclaim planning, the promote and
//! garbage-collection state machine, signed provenance text, and the codecs
//! around them.

pub mod actor;
pub mod chunk_tree;
pub mod config;
pub mod delta_codec;
pub mod delta_compute;
pub mod delta_passes;
pub mod ext4_scan;
pub mod extent_index;
pub mod gc_apply;
pub mod hash_set;
pub mod ids;
pub mod journal;
pub mod keys;
pub mod lbamap;
pub mod liveness;
pub mod lock_history;
pub mod lock_stats;
pub mod map_layers;
pub mod order;
pub mod persistent;
pub mod plan_coverage;
pub mod possession;
pub mod rebuild;
pub mod reclaim;
pub mod repack;
pub mod segment;
pub mod segment_classify;
pub mod signing;
pub mod snapshots;
pub mod source_cache;
pub mod switches;
pub mod text;
pub mod ulid_text;
