[package]
name = "modbridge"
version = "0.1.0"
edition = "2021"
publish = false

[dependencies]
rand = { version = "0.8", features = ["small_rng"] }
chrono = "0.4"
colored = "2"
csv = "1"
serde = { version = "1", features = ["derive"] }
serde_json = "1"
toml = "0.8"
clap = { version = "4", features = ["derive"] }
tokio = { version = "1", features = ["full"] }
tokio-modbus = { version = "0.14", default-features = false, features = ["tcp"] }
axum = "0.7"
