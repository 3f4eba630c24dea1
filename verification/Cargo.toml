[package]
name = "blob_store"
version = "0.1.0"
edition = "2021"
publish = false

[dependencies]
lru = "=0.18.5"
csv = "=1.4.0"
rand = "=0.10.3"
dashmap = "=6.2.1"
parking_lot = "=0.12.5"
bincode = "=1.3.3"
rusqlite = { version = "=0.40.2", features = ["bundled", "blob"] }
