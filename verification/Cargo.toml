[package]
name = "mpatch"
version = "0.1.0"
edition = "2021"
publish = false

[dependencies]
similar = "2"
log = "0.4"
env_logger = "0.11"
clap = { version = "4", features = ["derive"] }
colored = "2"
anyhow = "1"
thiserror = "1"
