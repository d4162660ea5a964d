[package]
name = "hwinfo_log_core"
version = "0.1.0"
edition = "2021"
publish = false

[dependencies]
csv = "1"
regex = "1"
serde = { version = "1", features = ["derive"] }
serde_json = "1"
toml = "0.8"
encoding_rs = "0.8"
encoding_rs_io = "0.1"
