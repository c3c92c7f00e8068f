[package]
name = "backingstore"
version = "0.1.0"
edition = "2021"
publish = false

[dependencies]
blake2 = "*"
hex = "*"
bincode = "1"
serde = { version = "1", features = ["derive"] }
rusqlite = { version = "*", features = ["bundled"] }
