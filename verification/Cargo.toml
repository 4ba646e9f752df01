[package]
name = "rbc"
version = "0.1.0"
edition = "2021"
publish = false

[dependencies]
fen = "*"
rand = "0.7"
serde = { version = "1", features = ["derive"] }
serde_json = "1"
minreq = { version = "2", features = ["https"] }
log = "0.4"
chrono = "0.4"
rusqlite = "*"
zstd = "*"
