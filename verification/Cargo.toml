[package]
name = "routing_core"
version = "0.1.0"
edition = "2021"
publish = false

[dependencies]
im = "*"
chrono = "*"
serde = { version = "*", features = ["derive"] }
serde_json = "*"
rusqlite = { version = "*", features = ["bundled"] }
anyhow = "*"
arc-swap = "*"
parking_lot = "*"
rayon = "*"
tracing = "*"
rand = "*"
