[package]
name = "dotgraph"
version = "0.1.0"
edition = "2021"
publish = false

[dependencies]
petgraph = "0.4"
log = "0.4"
env_logger = "0.11"
