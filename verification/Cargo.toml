[package]
name = "spring_layout"
version = "0.1.0"
edition = "2021"
publish = false

[dependencies]
clap = { version = "3", features = ["derive"] }
crossbeam = "0.8"
csv = "1"
lazy_static = "1"
nohash-hasher = "0.2"
rand = { version = "0.8", features = ["small_rng"] }
serde = { version = "1", features = ["derive"] }
