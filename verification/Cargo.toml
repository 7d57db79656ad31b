[package]
name = "vectordb"
version = "0.1.0"
edition = "2021"
publish = false

[dependencies]
ahash = "0.8"
bincode = "1"
dashmap = "5"
lz4 = "1"
lz4_flex = "0.11"
memmap2 = "0.9"
parking_lot = "0.12"
rand = "0.8"
rayon = "1"
serde = { version = "1", features = ["derive"] }
serde_json = "1"
smallvec = "1"
