[package]
name = "andpull"
version = "0.2.0"
edition = "2021"
publish = false

[dependencies]
chrono = "0.4"
glob = "0.3"
xxhash-rust = { version = "0.8", features = ["xxh3"] }
serde = { version = "1", features = ["derive"] }
serde_json = "1"
thiserror = "2"
anyhow = "1"
fs2 = "0.4"
ratatui = "0.29"
crossterm = "0.28"

[dev-dependencies]
tempfile = "3"
