[package]
name = "toktoktok"
version = "1.0.0"
edition = "2021"
publish = false

[dependencies]
ahash = "=0.8.12"
base64 = "=0.22.1"
clap = { version = "=4.6.7", features = ["derive"] }
crossbeam = "=0.8.5"
indicatif = "=0.17.11"
num_cpus = "=1.17.0"
parquet = { version = "=60.1.0", default-features = false, features = ["snap", "flate2", "flate2-rust_backend", "lz4", "zstd", "brotli"] }
rand = "=0.8.8"
rand_xoshiro = "=0.6.0"
rayon = "=1.12.0"
regex = "=1.13.1"
serde = { version = "=1.0.229", features = ["derive"] }
serde_yaml = "=0.9.34"
walkdir = "=2.5.0"
