[package]
name = "fabric_te"
version = "0.1.0"
edition = "2021"
publish = false

[dependencies]
sha2 = "=0.10.9"
serde = { version = "=1.0.229", features = ["derive"] }
serde_json = "=1.0.154"
toml = "=0.8.23"
clap = { version = "=4.6.7", features = ["derive"] }
arrow = { version = "=51.0.0", default-features = false }
parquet = { version = "=51.0.0", default-features = false, features = ["arrow"] }
chrono = { version = "=0.4.38", default-features = false }
