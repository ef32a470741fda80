[package]
name = "kvs"
version = "0.1.0"
edition = "2021"
publish = false

[dependencies]
serde_json = { version = "1", features = ["raw_value"] }
crossbeam-channel = "0.5"
log = "0.4"
num_cpus = "1"
rayon = "1"
sled = "0.34"
structopt = "0.3"
