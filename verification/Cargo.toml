[package]
name = "kvs"
version = "0.1.0"
edition = "2021"
publish = false

[dependencies]
sled = "0.34"
clap = { version = "4", features = ["derive"] }
slog = "2"
sloggers = "2"

[dev-dependencies]
serde_json = "1"
tempfile = "3"
