[package]
name = "crimeline"
version = "0.1.0"
edition = "2021"
publish = false

[dependencies]
arrow = "*"
parquet = { version = "*", features = ["arrow", "zstd"] }
bytes = "*"
tempfile = "*"
humansize = "*"
parking_lot = "*"
