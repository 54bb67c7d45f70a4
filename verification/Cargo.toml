[package]
name = "parallel_builder"
version = "0.1.0"
edition = "2021"
publish = false

[dependencies]
ahash = "0.8"
alloy-primitives = { version = "*", default-features = false, features = ["std"] }
clap = { version = "4", features = ["derive", "env"] }
csv = "1"
dashmap = "6"
eyre = "0.6"
itertools = "0.14"
num_cpus = "1"
parking_lot = "0.12"
rand = { version = "0.8", features = ["small_rng"] }
rayon = "1"
revm = { version = "*", default-features = false, features = ["std"] }
serde = { version = "1", features = ["derive"] }
time = { version = "0.3", features = ["formatting", "parsing", "macros"] }
tokio-util = "0.7"
tracing = "0.1"
uuid = { version = "1", features = ["serde"] }
zip = { version = "2", default-features = false, features = ["deflate"] }
