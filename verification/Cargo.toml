[package]
name = "asap_sketchlib"
version = "0.1.0"
edition = "2021"
publish = false

[dependencies]
rmp-serde = "1"
serde = { version = "1", features = ["derive"] }
serde_bytes = "0.11"
twox-hash = "2"
