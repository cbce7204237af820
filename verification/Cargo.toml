[package]
name = "loomovie"
version = "0.1.0"
edition = "2021"
publish = false

[dependencies]
crc32fast = "1"
sha2 = "0.10"
flate2 = "1"
serde = { version = "1", features = ["derive"] }
serde_json = "1"
prost = "0.13"
clap = { version = "4", features = ["derive"] }
tracing = "0.1"
tracing-subscriber = { version = "0.3", features = ["env-filter"] }
bytes = "1"
