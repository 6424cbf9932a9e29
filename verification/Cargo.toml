[package]
name = "kvs"
version = "0.1.0"
edition = "2021"
publish = false

[dependencies]
chrono = "0.4"
clap = { version = "4", features = ["cargo"] }
crossbeam = "0.8"
crossbeam-skiplist = "0.1"
num_cpus = "1"
rayon = "1"
serde = { version = "1", features = ["derive"] }
serde_json = "1"
sled = "0.34"
slog = "2"
slog-async = "2"
slog-term = "2"
