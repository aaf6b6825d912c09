[package]
name = "soundbox"
version = "0.1.0"
edition = "2021"
publish = false

[dependencies]
anyhow = "1"
blake3 = "1"
flate2 = "1"
nucleo-matcher = "0.3"
serde = { version = "1", features = ["derive"] }
serde_json = "1"
rusqlite = { version = "*", features = ["bundled"] }
symphonia = { version = "0.5", features = ["all"] }
cpal = "*"
rustfft = "6"
ebur128 = "*"
walkdir = "2"
rayon = "1"
dirs = "*"
