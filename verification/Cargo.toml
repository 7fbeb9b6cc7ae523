[package]
name = "galaxdb_storage"
version = "0.1.0"
edition = "2021"
publish = false

[dependencies]
crossbeam-skiplist = "0.1"
libc = "0.2"
prometheus = { version = "0.13", default-features = false }
tokio = { version = "1", features = ["rt", "sync", "time", "macros"] }
tracing = "0.1"
xxhash-rust = { version = "0.8", features = ["xxh3"] }
zstd = "0.13"
