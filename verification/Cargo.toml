[package]
name = "boardgames"
version = "0.1.0"
edition = "2021"
publish = false

[dependencies]
rand = "0.9.5"
rand_distr = "0.5"
ctrlc = "3"
crossbeam-channel = "0.5"
nohash-hasher = "0.2"
serde = { version = "1", features = ["derive"] }
serde_json = "1"
ahash = "0.8"
rkyv = "0.8"
rkyv_util = "=0.1.0-alpha.2"
