[package]
name = "rskv"
version = "0.1.0"
edition = "2021"
publish = false

[dependencies]
rayon = "*"
sled = "*"
clap = { version = "*", features = ["derive"] }
log = "*"
env_logger = "*"
num_cpus = "*"

[dev-dependencies]
crossbeam-utils = "*"
