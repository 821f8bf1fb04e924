[package]
name = "tsp_rust"
version = "0.1.0"
edition = "2021"
publish = false

[dependencies]
memchr = "2"
memmap2 = "0.9"
thiserror = "2"
log = "0.4"
env_logger = "0.11"
