[package]
name = "dedupe_core"
version = "0.1.0"
edition = "2021"
publish = false

[dependencies]
blake3 = "*"
jwalk = "*"
rayon = "*"
rusqlite = { version = "*", features = ["bundled"] }
serde = { version = "*", features = ["derive"] }
serde_json = "*"
trash = "*"
