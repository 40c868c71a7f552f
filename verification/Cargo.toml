[package]
name = "hl"
version = "0.1.0"
edition = "2021"
publish = false

[dependencies]
serde_json = { version = "=1.0.151", features = ["raw_value"] }
indexmap = { version = "*", features = ["serde"] }
chrono = "=0.4.45"
sha2 = "=0.11.0"
hex = "=0.4.3"
snap = "=1.1.2"
flate2 = "=1.1.10"
