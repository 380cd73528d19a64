[package]
name = "elide_core"
version = "0.1.0"
edition = "2021"
publish = false

[dependencies]
arc-swap = "1"
blake3 = "1.8"
crossbeam-channel = "0.5"
ed25519-dalek = { version = "2", features = ["rand_core"] }
ext4-view = "*"
imbl = "*"
libc = "0.2"
log = "0.4"
lru = "*"
nix = { version = "*", features = ["signal", "process"] }
parking_lot = "0.12"
rand_core = { version = "0.6", features = ["getrandom"] }
serde = { version = "1", features = ["derive"] }
toml = "*"
ulid = "1"
zstd = "0.13"

[dev-dependencies]
lz4_flex = "*"
