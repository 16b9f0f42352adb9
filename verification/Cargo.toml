[package]
name = "fountainhead"
version = "0.1.0"
edition = "2021"
publish = false

[dependencies]
anyhow = "*"
bitcoin-consensus-encoding = "*"
bitcoinkernel = "*"
clap = { version = "*", features = ["derive"] }
env_logger = "*"
log = "*"
rand = "*"
rusty-leveldb = "*"
serde = { version = "*", features = ["derive"] }
tempfile = "*"
yaml_serde = "*"
