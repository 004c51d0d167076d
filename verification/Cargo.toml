[package]
name = "comfysort_engine"
version = "0.3.0"
edition = "2021"
publish = false

[dependencies]
anyhow = "1"
chrono = "0.4"
serde = { version = "1", features = ["derive"] }
serde_json = "1"
toml = "0.8"
fs2 = "0.4"
libc = "0.2"

[dev-dependencies]
tempfile = "3"
