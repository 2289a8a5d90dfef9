[package]
name = "rai_consensus"
version = "0.1.0"
edition = "2021"
publish = false

[dependencies]
anyhow = "1"
blake2 = "0.10"
tracing = "0.1"
