[package]
name = "loglog"
version = "0.1.0"
edition = "2021"
publish = false

[dependencies]
ahash = "0.8"
aho-corasick = "1"
regex = "1"
parking_lot = "0.12"
serde = { version = "1", features = ["derive"] }
serde_json = "1"
serde_yaml = "0.9"
clap = { version = "4", features = ["derive"] }
env_logger = "0.11"
log = "0.4"
anyhow = "1"
flate2 = "1"
tar = "0.4"
zip = { version = "2", default-features = false, features = ["deflate"] }
