[package]
name = "udb-lab"
version = "0.1.0"
edition = "2021"
publish = false

[dependencies]
rand = { version = "0.8", features = ["small_rng"] }
serde = { version = "1", features = ["derive"] }
serde_json = "1"
rusqlite = { version = "*", features = ["bundled"] }
redb = "4.1"
lmdb-rkv = "0.14"
rocksdb = { version = "*", default-features = false }
postgres = "0.19"
libloading = "0.8"
