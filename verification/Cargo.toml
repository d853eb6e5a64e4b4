[package]
name = "smolgpt"
version = "0.1.0"
edition = "2021"
publish = false

[dependencies]
candle-core = "0.9.1"
candle-nn = "0.9.1"
clap = { version = "4", features = ["derive"] }
rand = "0.9"
rusqlite = { version = "0.37", features = ["bundled"] }
serde = { version = "1", features = ["derive"] }
serde_json = "1"
thiserror = "2"
toml = "0.9"
