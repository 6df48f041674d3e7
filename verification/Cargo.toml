[package]
name = "swarm_core"
version = "0.1.0"
edition = "2021"
publish = false

[dependencies]
sha1 = "0.10"
tokio = { version = "1", features = ["full"] }
rand = "0.8"
num_cpus = "1"
async-channel = "*"
