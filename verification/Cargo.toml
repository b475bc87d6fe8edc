[package]
name = "kvs"
version = "0.1.0"
edition = "2021"
publish = false

[dependencies]
sled = "0.34"
crossbeam-queue = "*"
clap = "2"
slog = "2"
slog-term = "2"
slog-async = "2"

[dev-dependencies]
bincode = "1"
tempfile = "3"
