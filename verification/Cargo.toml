[package]
name = "stz"
version = "0.1.0"
edition = "2021"
publish = false

[dependencies]
chrono = "0.4"
regex = "1"
drain-rs = "*"
zstd = "0.13"
serde = { version = "1", features = ["derive"] }
serde_json = "1"
crossbeam-channel = "0.5"
indicatif = "0.17"
walkdir = "2"
lazy_static = "1"
